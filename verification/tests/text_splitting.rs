use html_query::text::{
    chars_of, contains_char, contains_sigil, contains_whitespace, is_ascii_whitespace,
    is_whitespace, split_at_char, split_words,
};

const SAMPLES: [&str; 14] = [
    "",
    "a",
    ",",
    ",,",
    "a,b",
    "a,,b",
    ",a,",
    "a.b.c",
    ".a",
    "a.",
    " a  b ",
    "\ta\nb\rc\u{c}d ",
    "é,ü.ß λ",
    "x\u{a0}y z\u{b}w",
];

#[test]
fn chars_are_those_of_the_string() {
    for sample in SAMPLES {
        assert_eq!(chars_of(sample), sample.chars().collect::<Vec<char>>());
    }
}

#[test]
fn split_gives_the_pieces_between_separators() {
    assert_eq!(split_at_char("a,b", ','), vec!["a", "b"]);
    assert_eq!(split_at_char("a,,b", ','), vec!["a", "", "b"]);
    assert_eq!(split_at_char(",a,", ','), vec!["", "a", ""]);
    assert_eq!(split_at_char("", ','), vec![""]);
    assert_eq!(split_at_char("abc", ','), vec!["abc"]);
    assert_eq!(split_at_char(".a.b", '.'), vec!["", "a", "b"]);
    assert_eq!(split_at_char("é.ü", '.'), vec!["é", "ü"]);
}

#[test]
fn split_agrees_with_the_standard_library() {
    for sample in SAMPLES {
        for sep in [',', '.', ' ', 'a', 'é'] {
            assert_eq!(split_at_char(sample, sep), sample.split(sep).collect::<Vec<&str>>());
        }
    }
}

#[test]
fn split_pieces_join_back() {
    for sample in SAMPLES {
        assert_eq!(split_at_char(sample, ',').join(","), sample);
        assert_eq!(split_at_char(sample, '.').join("."), sample);
    }
}

#[test]
fn words_are_the_runs_between_white_space() {
    assert_eq!(split_words("a b"), vec!["a", "b"]);
    assert_eq!(split_words("  a \t b\n"), vec!["a", "b"]);
    assert_eq!(split_words("abc"), vec!["abc"]);
    assert!(split_words("").is_empty());
    assert!(split_words(" \t\r\n\u{c}").is_empty());
    assert_eq!(split_words("x\u{a0}y z\u{b}w"), vec!["x\u{a0}y", "z\u{b}w"]);
}

#[test]
fn words_agree_with_the_standard_library() {
    for sample in SAMPLES {
        assert_eq!(split_words(sample), sample.split_ascii_whitespace().collect::<Vec<&str>>());
    }
}

#[test]
fn white_space_agrees_with_the_standard_library() {
    for code in 0..=0x10FFFFu32 {
        if let Some(c) = char::from_u32(code) {
            assert_eq!(is_whitespace(c), c.is_whitespace(), "U+{:04X}", code);
            assert_eq!(is_ascii_whitespace(c), c.is_ascii_whitespace(), "U+{:04X}", code);
        }
    }
}

#[test]
fn white_space_is_found_anywhere() {
    assert!(!contains_whitespace(&chars_of(""), 0));
    assert!(!contains_whitespace(&chars_of("abc"), 0));
    assert!(contains_whitespace(&chars_of(" abc"), 0));
    assert!(contains_whitespace(&chars_of("ab\u{3000}c"), 0));
    assert!(contains_whitespace(&chars_of("abc\n"), 0));
}

#[test]
fn scans_start_at_the_given_index() {
    let chars = chars_of(" a#b.");
    assert!(contains_whitespace(&chars, 0));
    assert!(!contains_whitespace(&chars, 1));
    assert!(contains_char(&chars, 0, '#'));
    assert!(contains_char(&chars, 2, '#'));
    assert!(!contains_char(&chars, 3, '#'));
    assert!(!contains_char(&chars, 0, 'x'));
    assert!(contains_sigil(&chars, 3));
    assert!(contains_sigil(&chars, 4));
    assert!(!contains_sigil(&chars, 5));
    assert!(!contains_sigil(&chars_of("ab"), 0));
    for c in ['*', '#', '.', ','] {
        assert!(contains_sigil(&vec!['a', c], 0));
    }
}

#[test]
fn scans_behind_the_end_find_nothing() {
    let chars = chars_of(" #");
    assert!(!contains_whitespace(&chars, 2));
    assert!(!contains_whitespace(&chars, 3));
    assert!(!contains_char(&chars, 7, '#'));
    assert!(!contains_sigil(&chars, usize::MAX));
}
