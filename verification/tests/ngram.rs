use papagan::ngram::extract_trigrams;

#[test]
fn extracts_boundary_padded_trigrams() {
    let tris = extract_trigrams("hi");
    let joined: Vec<&str> = tris.iter().map(String::as_str).collect();
    assert_eq!(joined, vec!["^^h", "^hi", "hi$", "i$$"]);
}

#[test]
fn single_char_word_yields_three_trigrams() {
    let tris = extract_trigrams("a");
    assert_eq!(tris.len(), 3);
    assert_eq!(tris[0], "^^a");
    assert_eq!(tris[1], "^a$");
    assert_eq!(tris[2], "a$$");
}

#[test]
fn empty_word_yields_one_boundary_trigram() {
    let tris = extract_trigrams("");
    assert_eq!(tris.len(), 2);
}

#[test]
fn trigrams_of_non_ascii_word() {
    let tris = extract_trigrams("äb");
    assert_eq!(tris, vec!["^^ä", "^äb", "äb$", "b$$"]);
    assert_eq!(extract_trigrams("морг").len(), 6);
}
