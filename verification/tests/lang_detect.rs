use papagan::lang_detect::tokenize;
use papagan::tokenize::normalize;

#[test]
fn splits_ascii_words() {
    assert_eq!(tokenize("The cat sat."), vec!["the", "cat", "sat"]);
}

#[test]
fn preserves_turkish_dotted_i() {
    let dotted = normalize("İ");
    let plain = normalize("I");
    assert_ne!(dotted, plain);
    assert_eq!(plain, "i");
}

#[test]
fn handles_mixed_script() {
    let out = tokenize("Hello привет");
    assert_eq!(out, vec!["hello", "привет"]);
}

#[test]
fn lang_detect_tokenizer_keeps_every_word() {
    // Unlike the fast path, words without letters stay.
    assert_eq!(tokenize("room 101"), vec!["room", "101"]);
    assert_eq!(tokenize("ﬁne DAY"), vec!["fine", "day"]);
}
