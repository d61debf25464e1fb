//! Percent-encoding and -decoding of raw byte sequences.

use vstd::prelude::*;

use crate::error::Error;

verus! {

/// True for the bytes that percent-encoding leaves untouched: the ASCII
/// letters, the ASCII digits, and `-`, `.`, `_`, `~`.
pub open spec fn is_unreserved(b: u8) -> bool {
    ||| 0x41 <= b <= 0x5A  // 'A'..='Z'
    ||| 0x61 <= b <= 0x7A  // 'a'..='z'
    ||| 0x30 <= b <= 0x39  // '0'..='9'
    ||| b == 0x2D  // '-'
    ||| b == 0x2E  // '.'
    ||| b == 0x5F  // '_'
    ||| b == 0x7E  // '~'
}

/// The value of an ASCII hexadecimal digit (case-insensitive), or `None` for
/// any other byte.
pub open spec fn hex_val(b: u8) -> Option<u8> {
    if 0x30 <= b <= 0x39 {  // '0'..='9'
        Some((b - 0x30) as u8)
    } else if 0x61 <= b <= 0x66 {  // 'a'..='f'
        Some((b - 0x61 + 10) as u8)
    } else if 0x41 <= b <= 0x46 {  // 'A'..='F'
        Some((b - 0x41 + 10) as u8)
    } else {
        None
    }
}

/// The uppercase ASCII hexadecimal digit for a nibble value below 16.
pub open spec fn hex_digit(n: u8) -> u8 {
    if n < 10 {
        (n + 0x30) as u8  // '0'..='9'
    } else {
        (n + 0x37) as u8  // 'A'..='F'
    }
}

/// The percent-encoding of a single byte: the byte itself if unreserved,
/// otherwise `%` followed by its two uppercase hexadecimal digits.
pub open spec fn encoded_byte(b: u8) -> Seq<u8> {
    if is_unreserved(b) {
        seq![b]
    } else {
        seq![0x25u8, hex_digit(b / 16), hex_digit((b % 16) as u8)]
    }
}

/// The percent-encoding of a byte sequence: each byte's encoding, in order.
pub open spec fn encoding_of(s: Seq<u8>) -> Seq<u8>
    decreases s.len(),
{
    if s.len() == 0 {
        Seq::empty()
    } else {
        encoded_byte(s[0]) + encoding_of(s.skip(1))
    }
}

/// The percent-decoding of a byte sequence, or `None` if a `%` escape is
/// truncated or holds a non-hexadecimal digit. Bytes other than `%` are
/// copied verbatim, whether unreserved or not.
pub open spec fn decode_spec(s: Seq<u8>) -> Option<Seq<u8>>
    decreases s.len(),
{
    if s.len() == 0 {
        Some(Seq::empty())
    } else if s[0] == 0x25 {
        if s.len() < 3 {
            None
        } else if hex_val(s[1]) is Some && hex_val(s[2]) is Some {
            match decode_spec(s.skip(3)) {
                Some(rest) => Some(
                    seq![(hex_val(s[1]).unwrap() * 16 + hex_val(s[2]).unwrap()) as u8] + rest,
                ),
                None => None,
            }
        } else {
            None
        }
    } else {
        match decode_spec(s.skip(1)) {
            Some(rest) => Some(seq![s[0]] + rest),
            None => None,
        }
    }
}

/// Some percent-coded data, stored in its decoded (raw) form.
#[derive(Debug)]
pub struct PercentCoded {
    /// The decoded data.
    data: Vec<u8>,
}

impl View for PercentCoded {
    type V = Seq<u8>;

    closed spec fn view(&self) -> Seq<u8> {
        self.data@
    }
}

impl PercentCoded {
    /// Wraps raw (already decoded) bytes verbatim.
    pub fn new(data: Vec<u8>) -> (r: Self)
        ensures
            r@ == data@,
    {
        Self { data }
    }

    /// A read-only view of the wrapped raw bytes.
    pub fn as_bytes(&self) -> (r: &[u8])
        ensures
            r@ == self@,
    {
        self.data.as_slice()
    }

    /// Percent-decodes some data. Fails exactly when a `%` has fewer than two
    /// bytes after it, or when either of those bytes is not a hexadecimal
    /// digit.
    pub fn decode(source: &[u8]) -> (r: Result<Self, Error>)
        ensures
            match r {
                Ok(pc) => decode_spec(source@) == Some(pc@),
                Err(e) => decode_spec(source@) is None && e == Error::PercentEncoding,
            },
    {
        let len = source.len();
        let mut decoded: Vec<u8> = Vec::new();
        let mut i: usize = 0;
        proof {
            assert(source@.skip(0) =~= source@);
            if decode_spec(source@) is Some {
                assert(Seq::<u8>::empty() + decode_spec(source@).unwrap() =~= decode_spec(
                    source@,
                ).unwrap());
            }
        }
        while i < len
            invariant
                i <= len,
                len == source@.len(),
                match decode_spec(source@.skip(i as int)) {
                    Some(rest) => decode_spec(source@) == Some(decoded@ + rest),
                    None => decode_spec(source@) is None,
                },
            decreases len - i,
        {
            let byte = source[i];
            if byte == 0x25 {
                // A truncated escape: fewer than two bytes follow the '%'.
                if len - i < 3 {
                    return Err(Error::PercentEncoding);
                }
                let high = source[i + 1];
                let low = source[i + 2];
                match Self::decode_byte(high, low) {
                    Ok(v) => {
                        let ghost old_decoded = decoded@;
                        decoded.push(v);
                        proof {
                            assert(source@.skip(i as int).skip(3) =~= source@.skip(i + 3));
                            let rest3 = decode_spec(source@.skip(i + 3));
                            if rest3 is Some {
                                assert(decoded@ + rest3.unwrap() =~= old_decoded + (seq![v]
                                    + rest3.unwrap()));
                            }
                        }
                        i = i + 3;
                    },
                    Err(e) => {
                        return Err(e);
                    },
                }
            } else {
                let ghost old_decoded = decoded@;
                decoded.push(byte);
                proof {
                    assert(source@.skip(i as int).skip(1) =~= source@.skip(i + 1));
                    let rest1 = decode_spec(source@.skip(i + 1));
                    if rest1 is Some {
                        assert(decoded@ + rest1.unwrap() =~= old_decoded + (seq![byte]
                            + rest1.unwrap()));
                    }
                }
                i = i + 1;
            }
        }
        proof {
            assert(source@.skip(len as int) =~= Seq::<u8>::empty());
            assert(decoded@ + Seq::<u8>::empty() =~= decoded@);
        }
        Ok(Self { data: decoded })
    }

    /// Decodes an ASCII hexadecimal digit into its value.
    fn decode_nibble(nibble: u8) -> (r: Result<u8, Error>)
        ensures
            match r {
                Ok(v) => hex_val(nibble) == Some(v),
                Err(e) => hex_val(nibble) is None && e == Error::PercentEncoding,
            },
    {
        if 0x30 <= nibble && nibble <= 0x39 {
            Ok(nibble - 0x30)
        } else if 0x61 <= nibble && nibble <= 0x66 {
            Ok(nibble - 0x61 + 10)
        } else if 0x41 <= nibble && nibble <= 0x46 {
            Ok(nibble - 0x41 + 10)
        } else {
            Err(Error::PercentEncoding)
        }
    }

    /// Decodes the two hexadecimal digits of a `%` escape into one byte.
    fn decode_byte(high: u8, low: u8) -> (r: Result<u8, Error>)
        ensures
            match r {
                Ok(v) => hex_val(high) is Some && hex_val(low) is Some && v == hex_val(
                    high,
                ).unwrap() * 16 + hex_val(low).unwrap(),
                Err(e) => (hex_val(high) is None || hex_val(low) is None) && e
                    == Error::PercentEncoding,
            },
    {
        let h = Self::decode_nibble(high)?;
        let l = Self::decode_nibble(low)?;
        Ok(h * 16 + l)
    }

    /// Percent-encodes the wrapped data: unreserved bytes are copied
    /// verbatim, every other byte becomes `%` and two uppercase hexadecimal
    /// digits. Always succeeds.
    pub fn encode(&self) -> (r: Vec<u8>)
        ensures
            r@ == encoding_of(self@),
    {
        let len = self.data.len();
        let mut encoded: Vec<u8> = Vec::new();
        let mut i: usize = 0;
        proof {
            assert(self.data@.take(0) =~= Seq::<u8>::empty());
        }
        while i < len
            invariant
                i <= len,
                len == self.data@.len(),
                encoded@ == encoding_of(self.data@.take(i as int)),
            decreases len - i,
        {
            let byte = self.data[i];
            let ghost old_encoded = encoded@;
            if Self::unreserved(byte) {
                encoded.push(byte);
                proof {
                    assert(encoded@ =~= old_encoded + encoded_byte(self.data@[i as int]));
                }
            } else {
                let (high, low) = Self::encode_byte(byte);
                encoded.push(0x25);
                encoded.push(high);
                encoded.push(low);
                proof {
                    assert(encoded@ =~= old_encoded + encoded_byte(self.data@[i as int]));
                }
            }
            proof {
                lemma_encoding_of_snoc(self.data@.take(i as int), self.data@[i as int]);
                assert(self.data@.take(i as int).push(self.data@[i as int]) =~= self.data@.take(
                    i + 1,
                ));
            }
            i = i + 1;
        }
        proof {
            assert(self.data@.take(len as int) =~= self.data@);
        }
        encoded
    }

    /// True exactly for the unreserved bytes, which encoding never escapes.
    fn unreserved(byte: u8) -> (r: bool)
        ensures
            r == is_unreserved(byte),
    {
        (0x41 <= byte && byte <= 0x5A) || (0x61 <= byte && byte <= 0x7A) || (0x30 <= byte && byte
            <= 0x39) || byte == 0x2D || byte == 0x2E || byte == 0x5F || byte == 0x7E
    }

    /// Encodes a nibble value into an uppercase hexadecimal digit.
    fn encode_nibble(nibble: u8) -> (r: u8)
        requires
            nibble < 16,
        ensures
            r == hex_digit(nibble),
    {
        if nibble < 10 {
            nibble + 0x30
        } else {
            nibble + 0x37
        }
    }

    /// Encodes a byte into its two uppercase hexadecimal digits.
    fn encode_byte(byte: u8) -> (r: (u8, u8))
        ensures
            r.0 == hex_digit(byte / 16),
            r.1 == hex_digit((byte % 16) as u8),
    {
        let high = byte >> 4;
        let low = byte & 0xF;
        proof {
            assert(byte >> 4 == byte / 16 && (byte & 0xF) == byte % 16 && byte / 16 < 16)
                by (bit_vector);
        }
        (Self::encode_nibble(high), Self::encode_nibble(low))
    }
}

impl Default for PercentCoded {
    /// An empty percent coder.
    fn default() -> (r: Self)
        ensures
            r@ == Seq::<u8>::empty(),
    {
        Self { data: Vec::new() }
    }
}

/// Canonical round trip: decoding the percent-encoding of any byte sequence
/// succeeds and restores exactly that sequence.
pub proof fn lemma_percent_round_trip(b: Seq<u8>)
    ensures
        decode_spec(encoding_of(b)) == Some(b),
    decreases b.len(),
{
    if b.len() == 0 {
        assert(Seq::<u8>::empty() =~= b);
    } else {
        let x = b[0];
        lemma_percent_round_trip(b.skip(1));
        let e = encoding_of(b);
        assert(e == encoded_byte(x) + encoding_of(b.skip(1)));
        assert(seq![x] + b.skip(1) =~= b);
        if is_unreserved(x) {
            assert(e[0] == x);
            assert(e.skip(1) =~= encoding_of(b.skip(1)));
        } else {
            let h = x / 16;
            let l = (x % 16) as u8;
            assert(h < 16 && l < 16 && h * 16 + l == x) by (bit_vector)
                requires
                    h == x / 16 && l == (x % 16) as u8,
            ;
            assert(e[0] == 0x25 && e[1] == hex_digit(h) && e[2] == hex_digit(l));
            assert(hex_val(hex_digit(h)) == Some(h));
            assert(hex_val(hex_digit(l)) == Some(l));
            assert(e.skip(3) =~= encoding_of(b.skip(1)));
        }
    }
}

/// Encoding a sequence extended by one byte appends that byte's encoding.
proof fn lemma_encoding_of_snoc(s: Seq<u8>, x: u8)
    ensures
        encoding_of(s.push(x)) == encoding_of(s) + encoded_byte(x),
    decreases s.len(),
{
    if s.len() == 0 {
        assert(s.push(x).skip(1) =~= Seq::<u8>::empty());
        assert(s.push(x)[0] == x);
        assert(encoding_of(s.push(x)) == encoded_byte(x) + encoding_of(Seq::<u8>::empty()));
        assert(encoded_byte(x) + Seq::<u8>::empty() =~= encoded_byte(x));
        assert(Seq::<u8>::empty() + encoded_byte(x) =~= encoded_byte(x));
    } else {
        assert(s.push(x).skip(1) =~= s.skip(1).push(x));
        lemma_encoding_of_snoc(s.skip(1), x);
        assert(encoded_byte(s[0]) + (encoding_of(s.skip(1)) + encoded_byte(x)) =~= (encoded_byte(
            s[0],
        ) + encoding_of(s.skip(1))) + encoded_byte(x));
    }
}

} // verus!
