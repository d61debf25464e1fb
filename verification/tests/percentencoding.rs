use querystring_tiny::{Error, PercentCoded};

/// Decodes `raw` and checks the raw bytes, then re-encodes the expected raw
/// bytes and checks they give back `raw`.
fn check_round_trip(raw: &[u8], expected: &[u8]) {
    let decoded = PercentCoded::decode(raw).expect("Failed to percent-decode bytes");
    assert_eq!(decoded.as_bytes(), expected, "Invalid percent-encoded bytes");

    let encoded = PercentCoded::new(expected.to_vec()).encode();
    assert_eq!(&encoded[..], raw, "Invalid percent-decoded bytes");
}

#[test]
fn percentencoding_test() {
    check_round_trip(
        b"%2FVolumes%2FData%2F%F0%9F%8D%86%0A",
        b"/Volumes/Data/\xF0\x9F\x8D\x86\x0A",
    );
}

#[test]
fn decode_truncated_escape_fails() {
    assert_eq!(PercentCoded::decode(b"%2").unwrap_err(), Error::PercentEncoding);
    assert_eq!(PercentCoded::decode(b"abc%").unwrap_err(), Error::PercentEncoding);
}

#[test]
fn decode_invalid_hex_fails() {
    assert_eq!(PercentCoded::decode(b"%G0").unwrap_err(), Error::PercentEncoding);
    assert_eq!(PercentCoded::decode(b"%0z").unwrap_err(), Error::PercentEncoding);
}

#[test]
fn unreserved_passthrough() {
    let raw = b"abcXYZ019-._~";
    let encoded = PercentCoded::new(raw.to_vec()).encode();
    assert_eq!(&encoded[..], &raw[..]);
}

#[test]
fn encode_escapes_with_uppercase_hex() {
    let encoded = PercentCoded::new(b"a b\x00\xFF/".to_vec()).encode();
    assert_eq!(&encoded[..], b"a%20b%00%FF%2F".as_slice());
}

#[test]
fn decode_accepts_lowercase_hex() {
    let decoded = PercentCoded::decode(b"%2f%4a").expect("valid escapes");
    assert_eq!(decoded.as_bytes(), b"/J");
}

#[test]
fn decode_is_permissive_on_raw_bytes() {
    // Non-'%' bytes outside the unreserved set decode verbatim.
    let decoded = PercentCoded::decode(b"a b/\xFF").expect("no escape present");
    assert_eq!(decoded.as_bytes(), b"a b/\xFF");
}

#[test]
fn round_trip_every_byte_value() {
    let mut all: Vec<u8> = Vec::new();
    for b in 0..=255u8 {
        all.push(b);
    }
    let encoded = PercentCoded::new(all.clone()).encode();
    let decoded = PercentCoded::decode(&encoded).expect("canonical encoding decodes");
    assert_eq!(decoded.as_bytes(), &all[..]);
}

#[test]
fn new_wraps_verbatim() {
    let coded = PercentCoded::new(b"%2F".to_vec());
    assert_eq!(coded.as_bytes(), b"%2F");
}
