use papagan::tokenize::{ascii_normalize, is_ascii_word_byte, normalize, tokenize, tokenize_ascii};
use unicode_segmentation::UnicodeSegmentation;

fn tokenize_unicode_only(input: &str) -> Vec<String> {
    input
        .unicode_words()
        .filter(|w| w.chars().any(|c| c.is_alphabetic()))
        .map(normalize)
        .filter(|s| !s.is_empty())
        .collect()
}

#[test]
fn tokenize_splits_ascii_words() {
    assert_eq!(tokenize("The cat sat."), vec!["the", "cat", "sat"]);
}

#[test]
fn tokenize_preserves_turkish_dotted_i() {
    let dotted = normalize("İ");
    let plain = normalize("I");
    assert_ne!(dotted, plain);
    assert_eq!(plain, "i");
}

#[test]
fn tokenize_handles_mixed_script() {
    let out = tokenize("Hello привет");
    assert_eq!(out, vec!["hello", "привет"]);
}

#[test]
fn ascii_fast_path_matches_unicode_path() {
    let cases = [
        "hello world",
        "Don't stop believing",
        "it's a test",
        "foo-bar baz",
        "mixed 123abc test",
        "Hello, World!",
        "''empty quotes''",
        "trailing.",
        "UPPER case",
        "tab\there",
        "newline\nthere",
        "a,b,c",
        "What is your age?",
        "Are you authorized to work in Germany?",
    ];
    for c in cases {
        assert_eq!(
            tokenize(c),
            tokenize_unicode_only(c),
            "fast vs unicode diverged on: {c:?}"
        );
    }
}

#[test]
fn numeric_only_tokens_are_dropped() {
    assert_eq!(tokenize("802 2024 1920"), Vec::<String>::new());
    assert_eq!(tokenize("at 2pm in i18n"), vec!["at", "2pm", "in", "i18n"]);
}

#[test]
fn blank_input_has_no_tokens() {
    assert!(tokenize("").is_empty());
    assert!(tokenize("   ").is_empty());
    assert!(tokenize("...!?").is_empty());
}

#[test]
fn outer_apostrophes_are_stripped() {
    assert_eq!(tokenize("'quoted' don't ''x''"), vec!["quoted", "don't", "x"]);
    assert_eq!(tokenize("''' '"), Vec::<String>::new());
}

#[test]
fn ascii_normalize_cases() {
    assert_eq!(ascii_normalize(b"'ABc'"), Some("abc".to_string()));
    assert_eq!(ascii_normalize(b"''"), None);
    assert_eq!(ascii_normalize(b"1920"), None);
    assert_eq!(ascii_normalize(b"Don't"), Some("don't".to_string()));
}

#[test]
fn ascii_word_bytes() {
    assert!(is_ascii_word_byte(b'a'));
    assert!(is_ascii_word_byte(b'Z'));
    assert!(is_ascii_word_byte(b'7'));
    assert!(is_ascii_word_byte(b'\''));
    assert!(!is_ascii_word_byte(b'-'));
    assert!(!is_ascii_word_byte(b' '));
    assert!(!is_ascii_word_byte(0xc3));
}

#[test]
fn tokenize_ascii_skips_non_ascii_bytes() {
    assert_eq!(tokenize_ascii("über Straße"), vec!["ber", "stra", "e"]);
}

#[test]
fn unicode_path_normalizes_and_filters() {
    // NFKC folds the ligature, lowercase folds the capitals.
    assert_eq!(normalize("ﬁNE"), "fine");
    assert_eq!(tokenize("Straße 123 ÜBER"), vec!["straße", "über"]);
    assert_eq!(tokenize("Кот 42 спит"), vec!["кот", "спит"]);
}


#[test]
fn ascii_path_follows_uax29_word_rules() {
    assert_eq!(tokenize("e.g. foo_bar"), vec!["e.g", "foo_bar"]);
    assert_eq!(tokenize("x'''y a:b"), vec!["x", "y", "a:b"]);
    assert_eq!(tokenize("3.14 1,000 v1.2 __ _x"), vec!["v1.2", "_x"]);
    assert_eq!(tokenize("A.B.C. can't 1;2 a;b"), vec!["a.b.c", "can't", "a", "b"]);
    let cases = [
        "e.g. foo_bar",
        "x'''y",
        "a:b",
        "3.14 1,000 v1.2 __ _x",
        "A.B.C. can't 1;2 a;b",
        "http://example.com/a_b?c=d",
        "it's 29.3 'quoted' x.'y 1.a a.1",
        "crlf\r\nline _ ' : ; , .",
    ];
    for c in cases {
        assert_eq!(tokenize(c), tokenize_unicode_only(c), "fast vs unicode diverged on: {c:?}");
    }
}
