use papagan::dict::{contains_lang, filter_enabled, lookup, table_is_sorted};
use papagan::Lang;

fn table() -> Vec<(&'static str, Lang, u16)> {
    vec![
        ("and", Lang::En, 2),
        ("die", Lang::De, 0),
        ("die", Lang::En, 400),
        ("el", Lang::Es, 0),
        ("the", Lang::En, 0),
        ("über", Lang::De, 40),
    ]
}

#[test]
fn lookup_finds_all_languages_of_a_word() {
    let t = table();
    assert!(table_is_sorted(&t));
    let hits = lookup(&t, "die");
    assert_eq!(hits.as_slice(), &[(Lang::De, 0), (Lang::En, 400)]);
    assert_eq!(hits.len(), 2);
    assert_eq!(lookup(&t, "the").as_slice(), &[(Lang::En, 0)]);
    assert_eq!(lookup(&t, "über").as_slice(), &[(Lang::De, 40)]);
    assert_eq!(lookup(&t, "and").as_slice(), &[(Lang::En, 2)]);
}

#[test]
fn lookup_misses() {
    let t = table();
    assert!(lookup(&t, "cat").is_empty());
    assert!(lookup(&t, "").is_empty());
    assert!(lookup(&t, "zzz").is_empty());
    assert!(lookup(&t, "di").is_empty());
    assert!(lookup(&[], "the").is_empty());
}

#[test]
fn sortedness_is_checked_by_bytes() {
    assert!(table_is_sorted(&[]));
    assert!(!table_is_sorted(&[("the", Lang::En, 0), ("die", Lang::De, 0)]));
    // "z" (0x7a) sorts before "ü" (0xc3 0xbc) in byte order.
    assert!(table_is_sorted(&[("z", Lang::En, 0), ("ü", Lang::De, 0)]));
    assert!(!table_is_sorted(&[("ü", Lang::De, 0), ("z", Lang::En, 0)]));
}

#[test]
fn filter_keeps_enabled_languages_in_order() {
    let t = table();
    let hits = lookup(&t, "die");
    assert_eq!(filter_enabled(&hits, &[Lang::En]).as_slice(), &[(Lang::En, 400)]);
    assert_eq!(
        filter_enabled(&hits, &[Lang::En, Lang::De]).as_slice(),
        &[(Lang::De, 0), (Lang::En, 400)]
    );
    assert!(filter_enabled(&hits, &[Lang::Fr]).is_empty());
    assert!(contains_lang(&[Lang::Fr, Lang::Pl], Lang::Pl));
    assert!(!contains_lang(&[], Lang::Pl));
}
