use script_parser::alias::AliasTable;
use script_parser::number::parse_number;
use script_parser::text::{
    find, find_word, run_end, run_start, split_lines, split_on, split_words, strip, to_chars,
    to_text, trimmed, Class,
};
use script_parser::NumError;

fn chars(s: &str) -> Vec<char> {
    s.chars().collect()
}

fn strings(parts: Vec<&[char]>) -> Vec<String> {
    parts.into_iter().map(|p| p.iter().collect()).collect()
}

#[test]
fn chars_and_text_round_trip() {
    assert_eq!(to_chars("héllo ✓"), chars("héllo ✓"));
    assert_eq!(to_text(&chars("héllo ✓")), "héllo ✓");
    assert_eq!(to_text(&to_chars("")), "");
}

#[test]
fn lines_end_at_line_feeds() {
    let text = chars("foo\nbar\n\r\nbaz\r");
    assert_eq!(strings(split_lines(&text)), vec!["foo", "bar", "", "baz\r"]);
    let text = chars("one\r\ntwo\n");
    assert_eq!(strings(split_lines(&text)), vec!["one", "two"]);
    let text = chars("\n\n");
    assert_eq!(strings(split_lines(&text)), vec!["", ""]);
    let text = chars("a\r\r\nb");
    assert_eq!(strings(split_lines(&text)), vec!["a\r", "b"]);
    assert_eq!(split_lines(&[]).len(), 0);
}

#[test]
fn trimming_removes_unicode_white_space() {
    assert_eq!(to_text(trimmed(&chars(" \t\u{a0}\u{3000}a b\u{2003}\r\n"))), "a b");
    assert_eq!(to_text(trimmed(&chars("  \u{85} "))), "");
    assert_eq!(to_text(trimmed(&chars("\u{200b}x\u{200b}"))), "\u{200b}x\u{200b}");
}

#[test]
fn words_are_runs_without_white_space() {
    let text = chars("  one\ttwo \u{a0} three\u{b}four ");
    assert_eq!(strings(split_words(&text, &Class::Space)), vec!["one", "two", "three", "four"]);
    assert_eq!(
        strings(split_words(&text, &Class::AsciiSpace)),
        vec!["one", "two", "\u{a0}", "three\u{b}four"]
    );
    assert_eq!(split_words(&chars(" \t "), &Class::Space).len(), 0);
}

#[test]
fn pieces_are_one_more_than_separators() {
    assert_eq!(strings(split_on(&chars("a,b,,c,"), ',')), vec!["a", "b", "", "c", ""]);
    assert_eq!(strings(split_on(&chars(""), ',')), vec![""]);
    assert_eq!(strings(split_on(&chars("abc"), ',')), vec!["abc"]);
}

#[test]
fn first_word_bounds() {
    assert_eq!(find_word(&chars("  msgbox A, B")), (2, 8));
    assert_eq!(find_word(&chars("end")), (0, 3));
    assert_eq!(find_word(&chars("   ")), (3, 3));
}

#[test]
fn scans_stop_at_the_first_mismatch() {
    let text = chars("aab  c");
    assert_eq!(run_end(&text, 0, &Class::Only('a'), true), 2);
    assert_eq!(run_end(&text, 0, &Class::Space, false), 3);
    assert_eq!(run_end(&text, 3, &Class::Space, true), 5);
    assert_eq!(run_end(&text, 6, &Class::Space, true), 6);
    assert_eq!(run_start(&text, 5, &Class::Space, true), 3);
    assert_eq!(run_start(&text, 6, &Class::Only('c'), false), 6);
    assert_eq!(run_end(&chars("12ax"), 0, &Class::Digit(16), true), 3);
    assert_eq!(run_end(&chars("12ax"), 0, &Class::Digit(10), true), 2);
}

#[test]
fn finding_and_stripping_patterns() {
    assert!(find(&chars("Hello\\p"), &chars("\\p")));
    assert!(!find(&chars("Hello\\"), &chars("\\p")));
    assert!(find(&chars("abc"), &chars("")));
    assert_eq!(to_text(&strip(&chars("a$b$$c"), &chars("$"))), "abc");
    assert_eq!(to_text(&strip(&chars("aaa"), &chars("aa"))), "a");
    assert_eq!(to_text(&strip(&chars("\\\\pp"), &chars("\\p"))), "\\p");
    assert_eq!(to_text(&strip(&chars("abc"), &chars(""))), "abc");
}

#[test]
fn numbers_in_a_radix() {
    assert_eq!(parse_number(&chars("10"), 16, u32::MAX), Ok(16));
    assert_eq!(parse_number(&chars("+ff"), 16, u32::MAX), Ok(255));
    assert_eq!(parse_number(&chars("0000000000000000001"), 16, u32::MAX), Ok(1));
    assert_eq!(parse_number(&chars("FFFFFFFF"), 16, u32::MAX), Ok(u32::MAX));
    assert_eq!(parse_number(&chars("255"), 10, 255), Ok(255));
    assert_eq!(parse_number(&chars("z"), 36, 255), Ok(35));
    assert_eq!(parse_number(&chars(""), 10, 255), Err(NumError::Empty));
    assert_eq!(parse_number(&chars("+"), 10, 255), Err(NumError::InvalidDigit));
    assert_eq!(parse_number(&chars("-"), 10, 255), Err(NumError::InvalidDigit));
    assert_eq!(parse_number(&chars("-1"), 10, 255), Err(NumError::InvalidDigit));
    assert_eq!(parse_number(&chars("1_0"), 10, 255), Err(NumError::InvalidDigit));
    assert_eq!(parse_number(&chars(" 1"), 10, 255), Err(NumError::InvalidDigit));
    assert_eq!(parse_number(&chars("256"), 10, 255), Err(NumError::PosOverflow));
    assert_eq!(parse_number(&chars("100000000"), 16, u32::MAX), Err(NumError::PosOverflow));
    assert_eq!(parse_number(&chars("25x"), 10, 255), Err(NumError::InvalidDigit));
    assert_eq!(parse_number(&chars("2560x"), 10, 255), Err(NumError::PosOverflow));
    assert_eq!(parse_number(&chars("25x6000"), 10, 255), Err(NumError::InvalidDigit));
}

#[test]
fn alias_table_resolves_known_names_only() {
    let mut table = AliasTable::new();
    assert_eq!(table.resolve(&chars("FOO")), "FOO");
    table.set("FOO".to_string(), "1".to_string());
    table.set("BAR".to_string(), "FOO".to_string());
    assert_eq!(table.resolve(&chars("FOO")), "1");
    assert_eq!(table.resolve(&chars("BAR")), "FOO");
    assert_eq!(table.resolve(&chars("foo")), "foo");
    table.set("FOO".to_string(), "2".to_string());
    assert_eq!(table.resolve(&chars("FOO")), "2");
}
