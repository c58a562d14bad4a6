use echanger::fields::{extract, scan, split, trim, whitespace, word, Span};

#[test]
fn whitespace_is_what_std_says() {
    for code in 0..=0x10ffffu32 {
        if let Some(c) = char::from_u32(code) {
            assert_eq!(whitespace(c), c.is_whitespace(), "U+{:04X}", code);
        }
    }
}

#[test]
fn split_gives_the_fields_in_order() {
    assert_eq!(split("a 9 e d"), vec!["a", "9", "e", "d"]);
    assert_eq!(split("  one\t\ttwo \n"), vec!["one", "two"]);
    assert_eq!(split("single"), vec!["single"]);
}

#[test]
fn split_of_nothing_is_empty() {
    assert!(split("").is_empty());
    assert!(split(" \t\r\n\u{a0}\u{2003}").is_empty());
}

#[test]
fn split_agrees_with_std() {
    let lines = [
        "000000037ff07bdd 00 KEY_VOLUMEUP devinput",
        " leading",
        "trailing ",
        "a\u{3000}b\u{85}c\u{1680}d",
        "x\u{200b}y z",
        "\u{2028}\u{2029}",
        "ünï cödé  ✓",
    ];
    for line in lines {
        let expected: Vec<&str> = line.split_whitespace().collect();
        assert_eq!(split(line), expected, "{:?}", line);
    }
}

#[test]
fn scan_counts_characters_not_bytes() {
    assert_eq!(
        scan("é  ab\u{a0}ç"),
        vec![
            Span { start: 0, end: 1 },
            Span { start: 3, end: 5 },
            Span { start: 6, end: 7 }
        ]
    );
    assert_eq!(extract("é  ab\u{a0}ç", &Span { start: 3, end: 5 }), "ab");
    assert_eq!(extract("é  ab\u{a0}ç", &Span { start: 6, end: 7 }), "ç");
    assert_eq!(extract("abc", &Span { start: 1, end: 1 }), "");
}

#[test]
fn word_has_no_whitespace_and_is_not_empty() {
    assert!(word("KEY_UP"));
    assert!(word("é"));
    assert!(!word(""));
    assert!(!word("KEY UP"));
    assert!(!word("KEY_UP\n"));
    assert!(!word("\tKEY_UP"));
}

#[test]
fn trim_finds_the_stretch_between_the_ends() {
    assert_eq!(trim("  ab c \n"), Some(Span { start: 2, end: 6 }));
    assert_eq!(trim("é"), Some(Span { start: 0, end: 1 }));
    assert_eq!(trim("\u{a0}é x"), Some(Span { start: 1, end: 4 }));
    assert_eq!(trim(""), None);
    assert_eq!(trim(" \t"), None);
}
