//! SWAR lane tests.

use jsonfix::swar::{broadcast, has_non_ascii, hasbyte, hasless, haszero, load_word};

#[test]
fn detects_each_byte_value() {
    let word = load_word(b"a\"b\\c\x01de", 0); // 8 bytes
    assert!(hasbyte(word, broadcast(b'"')));
    assert!(hasbyte(word, broadcast(b'\\')));
    assert!(!hasbyte(word, broadcast(b'x')));
}

#[test]
fn detects_controls_and_non_ascii() {
    let word = load_word(b"abcdefg\x01", 0);
    assert!(hasless(word, broadcast(0x20)));
    let word = load_word("日本語です!".as_bytes(), 0);
    assert!(has_non_ascii(word));
    let word = load_word(b"abcdefgh", 0);
    assert!(!hasless(word, broadcast(0x20)));
    assert!(!has_non_ascii(word));
    assert!(!hasbyte(word, broadcast(b'"')));
}

#[test]
fn space_is_not_a_control() {
    let word = load_word(b"abc defg", 0);
    assert!(!hasless(word, broadcast(0x20)));
}

#[test]
fn lanes_load_in_order_and_zero_lanes_are_found() {
    let word = load_word(b"\x01\x02\x03\x04\x05\x06\x07\x08", 0);
    assert_eq!(word, 0x0807_0605_0403_0201);
    assert_eq!(broadcast(0xAB), 0xABAB_ABAB_ABAB_ABAB);
    assert!(!haszero(word));
    assert!(haszero(load_word(b"abc\0defg", 0)));
    assert!(hasbyte(load_word(b"xyzxyzx\x80", 0), broadcast(0x80)));
}
