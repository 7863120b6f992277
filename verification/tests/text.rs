use tyozo::text::{chars_of, decimal_string, decode, same_bytes, same_text, string_of};

#[test]
fn decimal_string_writes_a_count_in_decimal() {
    assert_eq!(decimal_string(0), "0");
    assert_eq!(decimal_string(7), "7");
    assert_eq!(decimal_string(10), "10");
    assert_eq!(decimal_string(2024), "2024");
    assert_eq!(decimal_string(1_000_000), "1000000");
    assert_eq!(decimal_string(usize::MAX), usize::MAX.to_string());
}

#[test]
fn decode_reads_utf8_and_refuses_what_is_none() {
    assert_eq!(decode(b"value".to_vec()), Some(String::from("value")));
    assert_eq!(
        decode(vec![0x63, 0x61, 0x66, 0xc3, 0xa9]),
        Some(String::from("caf\u{e9}"))
    );
    assert_eq!(decode(Vec::new()), Some(String::new()));
    assert_eq!(decode(vec![0xff]), None);
    assert_eq!(decode(vec![0xc3]), None);
    assert_eq!(decode(vec![0xed, 0xa0, 0x80]), None);
}

#[test]
fn chars_of_and_string_of_are_by_character() {
    let chars = chars_of("a\u{e9}\u{4e16}b");
    assert_eq!(chars, vec!['a', '\u{e9}', '\u{4e16}', 'b']);
    assert_eq!(string_of(&chars, 1, 3), "\u{e9}\u{4e16}");
    assert_eq!(string_of(&chars, 2, 2), "");
    assert_eq!(string_of(&chars, 0, 4), "a\u{e9}\u{4e16}b");
}

#[test]
fn same_text_compares_the_characters() {
    assert!(same_text("set", "set"));
    assert!(same_text("", ""));
    assert!(!same_text("set", "get"));
    assert!(!same_text("set", "setnx"));
    assert!(!same_text("setnx", "set"));
}

#[test]
fn same_bytes_compares_byte_by_byte() {
    assert!(same_bytes(&[], &[]));
    assert!(same_bytes(&[1, 2, 3], &[1, 2, 3]));
    assert!(!same_bytes(&[1, 2, 3], &[1, 2, 4]));
    assert!(!same_bytes(&[1, 2], &[1, 2, 3]));
}
