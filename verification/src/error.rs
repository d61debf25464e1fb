//! The crate's error type.

use vstd::prelude::*;

verus! {

/// An error reported by this crate.
#[derive(Clone, Copy, Debug, PartialEq, Eq, Structural)]
pub enum Error {
    /// A query string was malformed.
    QueryString,
    /// A percent-escape was truncated or held a non-hexadecimal digit.
    PercentEncoding,
}

} // verus!
