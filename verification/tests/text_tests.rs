use scotland_yard::text::{
    blank_between, chars_of, find_stop, is_space_char, next_line, next_word, parse_unsigned,
    same_chars, three_fields, three_words, trim_bounds, Stop,
};

#[test]
fn chars_of_keeps_every_character() {
    assert_eq!(chars_of("a\u{e9}\u{3000}z"), vec!['a', '\u{e9}', '\u{3000}', 'z']);
    assert_eq!(chars_of(""), Vec::<char>::new());
}

#[test]
fn whitespace_is_unicode_white_space() {
    for c in ['\t', '\n', '\u{b}', '\u{c}', '\r', ' ', '\u{85}', '\u{a0}', '\u{2000}', '\u{3000}'] {
        assert!(is_space_char(c), "{:?}", c);
        assert_eq!(is_space_char(c), c.is_whitespace());
    }
    for c in ['a', '0', '\u{200b}', '\u{feff}'] {
        assert!(!is_space_char(c), "{:?}", c);
        assert_eq!(is_space_char(c), c.is_whitespace());
    }
}

#[test]
fn lines_end_at_newlines_with_an_optional_carriage_return() {
    let cs = chars_of("ab\r\ncd\n\ne\r");
    assert_eq!(next_line(&cs, 0), (2, 4));
    assert_eq!(next_line(&cs, 4), (6, 7));
    assert_eq!(next_line(&cs, 7), (7, 8));
    assert_eq!(next_line(&cs, 8), (10, 10));
}

#[test]
fn scans_stop_where_asked() {
    let cs = chars_of("  ab c");
    assert_eq!(find_stop(&cs, 0, 6, Stop::NonSpace), 2);
    assert_eq!(find_stop(&cs, 2, 6, Stop::Space), 4);
    assert_eq!(find_stop(&cs, 0, 6, Stop::At('c')), 5);
    assert_eq!(find_stop(&cs, 0, 6, Stop::At('x')), 6);
}

#[test]
fn fields_and_words() {
    let cs = chars_of("12 7 bus x");
    assert_eq!(three_fields(&cs, 0, cs.len()), Some((2, 4, 8)));
    assert_eq!(three_fields(&cs, 0, 4), None);
    let ws = chars_of(" \t12  7\u{a0}bus");
    assert_eq!(three_words(&ws, 0, ws.len()), Some(((2, 4), (6, 7), (8, 11))));
    assert_eq!(next_word(&ws, 7, 8), None);
    assert_eq!(trim_bounds(&chars_of("  x y \t"), 0, 7), (2, 5));
    assert_eq!(trim_bounds(&chars_of("   "), 0, 3), (3, 3));
    assert!(blank_between(&chars_of(" \t\r"), 0, 3));
    assert!(!blank_between(&chars_of(" .\r"), 0, 3));
}

#[test]
fn unsigned_numbers_read_like_str_parse() {
    let cs = chars_of("+007|18446744073709551616|+|1_0");
    assert_eq!(parse_unsigned(&cs, 0, 4), Some(7));
    assert_eq!(parse_unsigned(&cs, 5, 25), Some(u64::MAX as u128 + 1));
    assert_eq!(parse_unsigned(&cs, 26, 27), None);
    assert_eq!(parse_unsigned(&cs, 28, 31), None);
    assert_eq!(parse_unsigned(&cs, 0, 0), None);
    assert!(same_chars(&cs, 1, 4, &['0', '0', '7']));
    assert!(!same_chars(&cs, 1, 4, &['0', '0']));
}
