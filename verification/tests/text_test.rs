use rustygene::text::decode_utf8_or_latin1;

#[test]
fn utf8_bytes_decode_as_utf8() {
    assert_eq!(decode_utf8_or_latin1(b"caf\xc3\xa9"), "café");
    assert_eq!(decode_utf8_or_latin1(b""), "");
}

#[test]
fn invalid_utf8_falls_back_to_latin1() {
    assert_eq!(decode_utf8_or_latin1(b"caf\xe9"), "café");
    assert_eq!(decode_utf8_or_latin1(b"\xff\x41"), "ÿA");
}
