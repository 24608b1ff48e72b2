use symbol_index::text::{
    byte_length, contains, find_first, from_chars, ident_char, matches_at, scan_identifier,
    slice_chars, starts_with, str_eq, to_chars, trim,
};

fn chars(text: &str) -> Vec<char> {
    text.chars().collect()
}

#[test]
fn to_chars_keeps_every_character() {
    assert_eq!(to_chars("aé数"), vec!['a', 'é', '数']);
    assert_eq!(to_chars(""), Vec::<char>::new());
}

#[test]
fn from_chars_builds_the_string() {
    assert_eq!(from_chars(&chars("struct Größe")), "struct Größe");
    assert_eq!(from_chars(&Vec::new()), "");
}

#[test]
fn str_eq_compares_characters() {
    assert!(str_eq("abc", "abc"));
    assert!(str_eq("", ""));
    assert!(!str_eq("abc", "abd"));
    assert!(!str_eq("abc", "ab"));
    assert!(!str_eq("é", "e"));
}

#[test]
fn byte_length_counts_bytes() {
    assert_eq!(byte_length("abc"), 3);
    assert_eq!(byte_length("é"), 2);
    assert_eq!(byte_length("数"), 3);
    assert_eq!(byte_length(""), 0);
}

#[test]
fn find_first_gives_the_leftmost_position() {
    assert_eq!(find_first(&chars("abcbc"), &chars("bc")), Some(1));
    assert_eq!(find_first(&chars("abcbc"), &chars("abcbc")), Some(0));
    assert_eq!(find_first(&chars("abcbc"), &chars("cb")), Some(2));
    assert_eq!(find_first(&chars("abcbc"), &chars("x")), None);
    assert_eq!(find_first(&chars("ab"), &chars("abc")), None);
    assert_eq!(find_first(&chars("ab"), &chars("")), Some(0));
    assert_eq!(find_first(&chars(""), &chars("")), Some(0));
    assert_eq!(find_first(&chars("aab"), &chars("ab")), Some(1));
}

#[test]
fn contains_and_starts_with() {
    assert!(contains(&chars("pub fn x"), &chars("fn ")));
    assert!(!contains(&chars("pub fnx"), &chars("fn ")));
    assert!(starts_with(&chars("pub fn x"), &chars("pub ")));
    assert!(!starts_with(&chars(" pub fn x"), &chars("pub ")));
    assert!(starts_with(&chars("x"), &chars("")));
    assert!(!starts_with(&chars("pu"), &chars("pub ")));
}

#[test]
fn matches_at_checks_one_position() {
    assert!(matches_at(&chars("abcabc"), &chars("abc"), 3));
    assert!(!matches_at(&chars("abcabc"), &chars("abc"), 4));
    assert!(!matches_at(&chars("abcabc"), &chars("abc"), 7));
    assert!(matches_at(&chars("abc"), &chars(""), 3));
    assert!(!matches_at(&chars("abc"), &chars(""), 4));
}

#[test]
fn trim_removes_whitespace_at_both_ends() {
    assert_eq!(trim(&chars("  a b \t\r\n")), chars("a b"));
    assert_eq!(trim(&chars("a")), chars("a"));
    assert_eq!(trim(&chars(" \t ")), chars(""));
    assert_eq!(trim(&chars("")), chars(""));
    assert_eq!(trim(&chars("\u{a0}x\u{2003}")), chars("x"));
}

#[test]
fn identifier_characters() {
    for c in ['a', 'Z', '0', '9', '_', '-', 'é', '数', '٣'] {
        assert!(ident_char(c), "{c}");
    }
    for c in [' ', ':', '(', '{', '<', '.', '!', ';', '\t'] {
        assert!(!ident_char(c), "{c}");
    }
}

#[test]
fn scan_identifier_stops_at_the_first_other_character() {
    assert_eq!(scan_identifier(&chars("foo_bar(x)"), 0), 7);
    assert_eq!(scan_identifier(&chars("foo_bar(x)"), 4), 7);
    assert_eq!(scan_identifier(&chars("foo_bar(x)"), 7), 7);
    assert_eq!(scan_identifier(&chars("foo"), 0), 3);
    assert_eq!(scan_identifier(&chars("foo"), 3), 3);
}

#[test]
fn slice_chars_copies_a_range() {
    assert_eq!(slice_chars(&chars("hello"), 1, 3), chars("el"));
    assert_eq!(slice_chars(&chars("hello"), 2, 2), chars(""));
    assert_eq!(slice_chars(&chars("hello"), 0, 5), chars("hello"));
}
