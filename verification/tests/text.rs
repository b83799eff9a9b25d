use desilence::text::{chars_of, find, is_whitespace, word_from};
use desilence::digits::is_ascii_digit;
use desilence::timestamp::parse_micros;

#[test]
fn characters_come_in_order() {
    assert_eq!(chars_of("a\u{e9}\u{1F3B5}z"), vec!['a', '\u{e9}', '\u{1F3B5}', 'z']);
    assert_eq!(chars_of(""), Vec::<char>::new());
}

#[test]
fn white_space_is_what_unicode_says_it_is() {
    for c in ['\0', '\u{8}', '\u{e}', '!', 'a', '0', '\u{84}', '\u{86}', '\u{200b}', '\u{1fff}', '\u{feff}', '\u{3001}'] {
        assert!(!is_whitespace(c), "{c:?}");
    }
    let mut count = 0;
    for code in 0..=0x10ffff_u32 {
        if let Some(c) = char::from_u32(code) {
            assert_eq!(is_whitespace(c), c.is_whitespace(), "{code:x}");
            if is_whitespace(c) {
                count += 1;
            }
        }
    }
    assert_eq!(count, 25);
}

#[test]
fn digits_are_the_ten_ascii_digits() {
    for code in 0..=0x10ffff_u32 {
        if let Some(c) = char::from_u32(code) {
            assert_eq!(is_ascii_digit(c), c.is_ascii_digit(), "{code:x}");
        }
    }
}

#[test]
fn the_first_occurrence_is_found() {
    let hay = chars_of("abcabcabd");
    assert_eq!(find(&hay, &chars_of("abc")), Some(0));
    assert_eq!(find(&hay, &chars_of("bca")), Some(1));
    assert_eq!(find(&hay, &chars_of("abd")), Some(6));
    assert_eq!(find(&hay, &chars_of("abe")), None);
    assert_eq!(find(&hay, &chars_of("abcabcabda")), None);
    assert_eq!(find(&hay, &chars_of("")), Some(0));
    assert_eq!(find(&chars_of(""), &chars_of("")), Some(0));
    assert_eq!(find(&chars_of(""), &chars_of("a")), None);
    assert_eq!(find(&hay, &hay), Some(0));
}

#[test]
fn the_first_word_is_cut_at_white_space() {
    let line = chars_of("  one\ttwo \u{a0} three");
    assert_eq!(word_from(&line, 0), (2, 5));
    assert_eq!(word_from(&line, 3), (3, 5));
    assert_eq!(word_from(&line, 5), (6, 9));
    assert_eq!(word_from(&line, 9), (12, 17));
    assert_eq!(word_from(&line, 17), (17, 17));
    let blank = chars_of(" \t ");
    assert_eq!(word_from(&blank, 0), (3, 3));
}

#[test]
fn characters_parse_as_the_text_does() {
    assert_eq!(parse_micros(&chars_of("2.500000")), Some(2_500_000));
    assert_eq!(parse_micros(&chars_of("2.5x")), None);
    assert_eq!(parse_micros(&[]), None);
}
