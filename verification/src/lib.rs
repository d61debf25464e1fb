//! A tiny byte-oriented codec library.
//!
//! Two independent components:
//! - [`PercentCoded`]: percent-encoding and -decoding of arbitrary byte
//!   sequences, escaping everything but the unreserved characters.
//! - [`QueryString`]: a permissive decoder and canonical encoder for the
//!   `key=value&key=value` grammar over raw (non-percent-decoded) bytes.

pub mod error;
pub mod percentcoding;
pub mod querystring;

pub use crate::error::Error;
pub use crate::percentcoding::PercentCoded;
pub use crate::querystring::QueryString;
