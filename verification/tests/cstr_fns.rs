use ssd1306_bitbang::cstr::{str_copy, str_equals, str_len};

#[test]
fn str_len_counts_up_to_the_first_zero_byte() {
    assert_eq!(str_len(b""), 0);
    assert_eq!(str_len(b"\0"), 0);
    assert_eq!(str_len(b"abc"), 3);
    assert_eq!(str_len(b"abc\0"), 3);
    assert_eq!(str_len(b"ab\0cd\0"), 2);
    assert_eq!(str_len(b"\0abc"), 0);
    assert_eq!(str_len(&[0xFF; 40]), 40);
}

#[test]
fn str_copy_copies_the_text_and_ends_it() {
    let mut dest = [0xEEu8; 8];
    str_copy(&mut dest, b"abc", 8);
    assert_eq!(&dest, b"abc\0\xEE\xEE\xEE\xEE");

    let mut dest = [0xEEu8; 8];
    str_copy(&mut dest, b"ab\0cd", 8);
    assert_eq!(&dest, b"ab\0\xEE\xEE\xEE\xEE\xEE");

    let mut dest = [0xEEu8; 8];
    str_copy(&mut dest, b"", 8);
    assert_eq!(&dest, b"\0\xEE\xEE\xEE\xEE\xEE\xEE\xEE");
}

#[test]
fn str_copy_cuts_a_text_that_is_too_long() {
    let mut dest = [0xEEu8; 8];
    str_copy(&mut dest, b"abcdefghijkl", 8);
    assert_eq!(&dest, b"abcdefg\0");

    let mut dest = [0xEEu8; 8];
    str_copy(&mut dest, b"abcdefghijkl", 4);
    assert_eq!(&dest, b"abc\0\xEE\xEE\xEE\xEE");

    let mut dest = [0xEEu8; 8];
    str_copy(&mut dest, b"abcdefghijkl", 1);
    assert_eq!(&dest, b"\0\xEE\xEE\xEE\xEE\xEE\xEE\xEE");

    let mut dest = [0xEEu8; 22];
    str_copy(&mut dest, b"  clear - Clear screen", 22);
    assert_eq!(&dest, b"  clear - Clear scree\0");
}

#[test]
fn str_copy_takes_a_limit_beyond_the_destination_for_a_short_text() {
    let mut dest = [0xEEu8; 4];
    str_copy(&mut dest, b"abc", 100);
    assert_eq!(&dest, b"abc\0");
}

#[test]
fn str_equals_compares_the_texts() {
    assert!(str_equals(b"help", b"help\0"));
    assert!(str_equals(b"help\0junk", b"help\0"));
    assert!(str_equals(b"", b"\0"));
    assert!(str_equals(b"", b""));
    assert!(!str_equals(b"help", b"hel"));
    assert!(!str_equals(b"help", b"helq"));
    assert!(!str_equals(b"help", b"HELP"));
    assert!(!str_equals(b"helpx", b"help\0"));
    assert!(!str_equals(b"\0help", b"help"));
}
