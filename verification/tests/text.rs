use notes::text::{
    class_has, copy_range, from_chars, is_whitespace, join_range, scan, split_lines, split_tokens,
    to_chars, trimmed, CharClass,
};

fn chars(s: &str) -> Vec<char> {
    s.chars().collect()
}

fn strings(v: &[Vec<char>]) -> Vec<String> {
    v.iter().map(|l| l.iter().collect::<String>()).collect()
}

const SAMPLES: [&str; 24] = [
    "",
    "a",
    "\n",
    "\r",
    "\r\n",
    "a\n",
    "a\nb",
    "a\r\nb",
    "a\r\r\nb",
    "a\n\nb",
    "a\n\r",
    "a\r",
    "\n\n",
    "  a  b  ",
    "\ta\u{a0}b\u{3000}",
    "#x 2024\nline\n",
    "one two\tthree\nfour",
    " \n \n",
    "\u{85}next\u{2028}line",
    "é\nü\r\n漢字",
    "a\n\r\nb\r",
    "x\u{1680}y",
    "\\#a\n  #b\n",
    "trailing space \n",
];

#[test]
fn to_chars_and_back() {
    for s in SAMPLES {
        assert_eq!(to_chars(s), chars(s));
        assert_eq!(from_chars(&chars(s)), s);
    }
}

#[test]
fn whitespace_is_the_unicode_property() {
    let mut c: u32 = 0;
    while c <= 0x10FFFF {
        if let Some(ch) = char::from_u32(c) {
            assert_eq!(is_whitespace(ch), ch.is_whitespace(), "U+{:04X}", c);
        }
        c += 1;
    }
}

#[test]
fn classes_of_characters() {
    assert!(class_has(CharClass::Space, ' '));
    assert!(!class_has(CharClass::Space, 'x'));
    assert!(class_has(CharClass::Word, 'x'));
    assert!(!class_has(CharClass::Word, '\t'));
    assert!(class_has(CharClass::Until('/'), '-'));
    assert!(!class_has(CharClass::Until('/'), '/'));
}

#[test]
fn scan_stops_at_the_first_character_outside_the_class() {
    let v = chars("  ab cd");
    assert_eq!(scan(&v, 0, CharClass::Space), 2);
    assert_eq!(scan(&v, 2, CharClass::Word), 4);
    assert_eq!(scan(&v, 2, CharClass::Space), 2);
    assert_eq!(scan(&v, 5, CharClass::Word), 7);
    assert_eq!(scan(&v, 7, CharClass::Word), 7);
    assert_eq!(scan(&v, 0, CharClass::Until('c')), 5);
    assert_eq!(scan(&v, 0, CharClass::Until('z')), 7);
}

#[test]
fn copy_range_copies_the_range() {
    let v = chars("hello");
    assert_eq!(copy_range(&v, 1, 4), chars("ell"));
    assert_eq!(copy_range(&v, 2, 2), chars(""));
    assert_eq!(copy_range(&v, 0, 5), v);
}

#[test]
fn trimmed_agrees_with_str_trim() {
    for s in SAMPLES {
        assert_eq!(trimmed(&chars(s)), chars(s.trim()), "{:?}", s);
    }
    assert_eq!(trimmed(&chars("  a b  ")), chars("a b"));
    assert_eq!(trimmed(&chars(" \t\n")), chars(""));
}

#[test]
fn split_lines_agrees_with_str_lines() {
    for s in SAMPLES {
        let expected: Vec<String> = s.lines().map(|l| l.to_string()).collect();
        assert_eq!(strings(&split_lines(&chars(s))), expected, "{:?}", s);
    }
}

#[test]
fn split_lines_edge_cases() {
    assert_eq!(strings(&split_lines(&chars(""))), Vec::<String>::new());
    assert_eq!(strings(&split_lines(&chars("\n"))), vec![""]);
    assert_eq!(strings(&split_lines(&chars("a\r\nb\n"))), vec!["a", "b"]);
    assert_eq!(strings(&split_lines(&chars("a\r"))), vec!["a\r"]);
    assert_eq!(strings(&split_lines(&chars("a\n\nb"))), vec!["a", "", "b"]);
}

#[test]
fn split_tokens_agrees_with_split_whitespace() {
    for s in SAMPLES {
        let expected: Vec<String> = s.split_whitespace().map(|l| l.to_string()).collect();
        assert_eq!(strings(&split_tokens(&chars(s))), expected, "{:?}", s);
    }
    assert_eq!(strings(&split_tokens(&chars("  #id   a  b "))), vec!["#id", "a", "b"]);
}

#[test]
fn join_range_puts_the_separator_between_parts() {
    let parts = vec![chars("a"), chars(""), chars("bc"), chars("d")];
    assert_eq!(join_range(&parts, 0, 4, '\n'), chars("a\n\nbc\nd"));
    assert_eq!(join_range(&parts, 1, 3, ' '), chars(" bc"));
    assert_eq!(join_range(&parts, 2, 3, ' '), chars("bc"));
    assert_eq!(join_range(&parts, 2, 2, ' '), chars(""));
}
