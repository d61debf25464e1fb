use querystring_tiny::QueryString;

/// Decodes `raw`, checks the mapping against `expected`, then re-encodes and
/// re-decodes and checks the mapping is unchanged.
fn check(raw: &[u8], expected: &[(&[u8], &[u8])]) {
    let query = QueryString::decode(raw);
    assert_eq!(query.len(), expected.len(), "Invalid decoded query string");
    for (key, value) in expected {
        assert_eq!(query.get(key), Some(*value), "Invalid decoded query string");
    }

    // Perform a re-encode+decode cycle to test encoding
    let reencoded = query.encode();
    let query2 = QueryString::decode(&reencoded);
    assert_eq!(query2.len(), query.len(), "Invalid query string (re-encoded)");
    for i in 0..query.len() {
        assert_eq!(query2.key_at(i), query.key_at(i), "Invalid query string (re-encoded)");
        assert_eq!(query2.value_at(i), query.value_at(i), "Invalid query string (re-encoded)");
    }
}

#[test]
fn querystring_test() {
    check(
        b"code=M696be062-f150-bb19-9944-0c3a0ca60b48&state=99f4bd624dbe53d0ae330eabda904ac4",
        &[
            (b"code", b"M696be062-f150-bb19-9944-0c3a0ca60b48"),
            (b"state", b"99f4bd624dbe53d0ae330eabda904ac4"),
        ],
    );
    check(
        b"q=tree+-swing&l=commderiv&d=taken-20000101-20051231&ct=0&lol&mt=all&adv=1&&",
        &[
            (b"q", b"tree+-swing"),
            (b"l", b"commderiv"),
            (b"d", b"taken-20000101-20051231"),
            (b"ct", b"0"),
            (b"mt", b"all"),
            (b"adv", b"1"),
            (b"lol", b""),
        ],
    );
    check(b"", &[]);
}

#[test]
fn decode_basic() {
    let query = QueryString::decode(b"code=ABC&state=XYZ");
    assert_eq!(query.len(), 2);
    assert_eq!(query.get(b"code"), Some(b"ABC".as_slice()));
    assert_eq!(query.get(b"state"), Some(b"XYZ".as_slice()));
}

#[test]
fn decode_permissive() {
    let query = QueryString::decode(b"q=tree+-swing&l=commderiv&ct=0&lol&mt=all&adv=1&&");
    assert_eq!(query.len(), 6);
    assert_eq!(query.get(b"q"), Some(b"tree+-swing".as_slice()));
    assert_eq!(query.get(b"l"), Some(b"commderiv".as_slice()));
    assert_eq!(query.get(b"ct"), Some(b"0".as_slice()));
    assert_eq!(query.get(b"lol"), Some(b"".as_slice()));
    assert_eq!(query.get(b"mt"), Some(b"all".as_slice()));
    assert_eq!(query.get(b"adv"), Some(b"1".as_slice()));
}

#[test]
fn decode_empty_input() {
    let query = QueryString::decode(b"");
    assert_eq!(query.len(), 0);
    assert_eq!(query.get(b"anything"), None);
}

#[test]
fn decode_last_write_wins() {
    let query = QueryString::decode(b"key=a&key=b");
    assert_eq!(query.len(), 1);
    assert_eq!(query.get(b"key"), Some(b"b".as_slice()));
}

#[test]
fn decode_drops_empty_keys() {
    let query = QueryString::decode(b"=value0&key1=value1&");
    assert_eq!(query.len(), 1);
    assert_eq!(query.get(b"key1"), Some(b"value1".as_slice()));
    assert_eq!(query.get(b""), None);
}

#[test]
fn decode_value_keeps_later_equals_signs() {
    let query = QueryString::decode(b"k=v1=v2");
    assert_eq!(query.get(b"k"), Some(b"v1=v2".as_slice()));
}

#[test]
fn encode_sorts_keys_lexicographically() {
    let mut query = QueryString::new();
    query.set(b"zz".to_vec(), b"1".to_vec());
    query.set(b"a".to_vec(), b"2".to_vec());
    query.set(b"ab".to_vec(), b"3".to_vec());
    assert_eq!(&query.encode()[..], b"a=2&ab=3&zz=1".as_slice());
}

#[test]
fn encode_empty_value_as_bare_key() {
    let mut query = QueryString::new();
    query.set(b"key0".to_vec(), Vec::new());
    query.set(b"key1".to_vec(), b"v".to_vec());
    assert_eq!(&query.encode()[..], b"key0&key1=v".as_slice());
}

#[test]
fn encode_empty_store() {
    assert_eq!(QueryString::new().encode(), Vec::<u8>::new());
}

#[test]
fn set_overwrites_and_get_finds() {
    let mut query = QueryString::new();
    query.set(b"name".to_vec(), b"old".to_vec());
    query.set(b"name".to_vec(), b"new".to_vec());
    assert_eq!(query.len(), 1);
    assert_eq!(query.get(b"name"), Some(b"new".as_slice()));
    assert_eq!(query.get(b"other"), None);
}

#[test]
fn set_ignores_empty_key() {
    let mut query = QueryString::new();
    query.set(Vec::new(), b"value".to_vec());
    assert_eq!(query.len(), 0);
    assert_eq!(query.get(b""), None);
}

#[test]
fn from_pairs_last_write_wins() {
    let query = QueryString::from_pairs(vec![
        (b"a".to_vec(), b"1".to_vec()),
        (b"b".to_vec(), b"2".to_vec()),
        (b"a".to_vec(), b"3".to_vec()),
        (Vec::new(), b"dropped".to_vec()),
    ]);
    assert_eq!(query.len(), 2);
    assert_eq!(query.get(b"a"), Some(b"3".as_slice()));
    assert_eq!(query.get(b"b"), Some(b"2".as_slice()));
}

#[test]
fn encode_decode_stability() {
    let raw = b"q=tree+-swing&l=commderiv&ct=0&lol&mt=all&adv=1&&";
    let query = QueryString::decode(raw);
    let query2 = QueryString::decode(&query.encode());
    assert_eq!(query2.len(), query.len());
    for i in 0..query.len() {
        assert_eq!(query2.key_at(i), query.key_at(i));
        assert_eq!(query2.value_at(i), query.value_at(i));
    }
}
