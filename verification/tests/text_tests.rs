use syslab::text::{chars_of, decimal_string, i8_array_to_string, string_from_chars, u8_array_to_string};

#[test]
fn u8_array_to_string_decodes_utf8() {
    assert_eq!(u8_array_to_string(b"hello"), "hello");
    assert_eq!(u8_array_to_string("zażółć".as_bytes()), "zażółć");
}

#[test]
fn u8_array_to_string_replaces_invalid_bytes() {
    assert_eq!(u8_array_to_string(&[b'a', 0xff, b'b']), "a\u{FFFD}b");
}

#[test]
fn i8_array_to_string_keeps_nul_padding() {
    let arr: [i8; 5] = [104, 105, 0, 0, 0];
    assert_eq!(i8_array_to_string(&arr), "hi\0\0\0");
    assert_eq!(i8_array_to_string(&[]), "");
}

#[test]
fn decimal_string_writes_numbers() {
    assert_eq!(decimal_string(0), "0");
    assert_eq!(decimal_string(7), "7");
    assert_eq!(decimal_string(1000), "1000");
    assert_eq!(decimal_string(u32::MAX), "4294967295");
}

#[test]
fn chars_round_trip() {
    let cs = chars_of("ab€");
    assert_eq!(cs, vec!['a', 'b', '€']);
    assert_eq!(string_from_chars(&cs), "ab€");
}
