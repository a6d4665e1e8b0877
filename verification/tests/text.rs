use csv_table::codec::parse;
use csv_table::text::char_is_whitespace;

#[test]
fn white_space_is_what_the_standard_library_calls_so() {
    for code in 0..=0x10FFFFu32 {
        if let Some(c) = char::from_u32(code) {
            assert_eq!(char_is_whitespace(c), c.is_whitespace(), "code point {:#x}", code);
        }
    }
}

#[test]
fn white_space_examples() {
    assert!(char_is_whitespace(' '));
    assert!(char_is_whitespace('\t'));
    assert!(char_is_whitespace('\n'));
    assert!(char_is_whitespace('\r'));
    assert!(char_is_whitespace('\u{a0}'));
    assert!(!char_is_whitespace('a'));
    assert!(!char_is_whitespace(','));
    assert!(!char_is_whitespace('\u{200b}'));
}

#[test]
fn fields_are_built_character_by_character() {
    let table = parse("abc,de\nf");
    assert_eq!(table.rows()[0][0], "abc");
    assert_eq!(table.rows()[0][1], "de");
    assert_eq!(table.rows()[1][0], "f");
    assert_eq!(table.rows()[0][0].len(), 3);
}
