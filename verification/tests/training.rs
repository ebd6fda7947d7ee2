use papagan::ranking::{top_trigrams, trigram_table};
use papagan::training::{training_weight, trigram_counts};

fn entries(list: &[(&str, u64)]) -> Vec<(String, u64)> {
    list.iter().map(|(w, f)| (w.to_string(), *f)).collect()
}

fn rows(list: &[(&str, u64)]) -> Vec<(String, u64)> {
    entries(list)
}

#[test]
fn training_weight_is_frequency_times_trigram_count() {
    // "ab" has 4 trigrams, "b" has 3, "äb" (two chars) has 4.
    assert_eq!(training_weight(&entries(&[("ab", 2), ("b", 3)])), Some(17));
    assert_eq!(training_weight(&entries(&[("äb", 5)])), Some(20));
    assert_eq!(training_weight(&entries(&[])), Some(0));
}

#[test]
fn training_weight_overflow_is_none() {
    assert_eq!(training_weight(&entries(&[("a", u64::MAX)])), None);
    assert_eq!(training_weight(&entries(&[("a", u64::MAX / 3), ("b", 1)])), None);
}

#[test]
fn trigram_counts_sum_frequencies() {
    let counts = trigram_counts(&entries(&[("ab", 2), ("b", 3)]));
    assert_eq!(
        counts,
        rows(&[("^^a", 2), ("^ab", 2), ("ab$", 2), ("b$$", 5), ("^^b", 3), ("^b$", 3)])
    );
}

#[test]
fn trigram_counts_repeated_trigram_within_one_word() {
    // "aaaa" pads to "^^aaaa$$", whose windows hold "aaa" twice.
    let counts = trigram_counts(&entries(&[("aaaa", 1)]));
    assert_eq!(counts, rows(&[("^^a", 1), ("^aa", 1), ("aaa", 2), ("aa$", 1), ("a$$", 1)]));
}

#[test]
fn trigram_counts_keep_zero_frequency_trigrams() {
    let counts = trigram_counts(&entries(&[("a", 0)]));
    assert_eq!(counts, rows(&[("^^a", 0), ("^a$", 0), ("a$$", 0)]));
    assert!(trigram_counts(&entries(&[])).is_empty());
}

#[test]
fn top_trigrams_keeps_highest_counts_in_byte_order() {
    let counts = rows(&[("^^a", 2), ("^ab", 2), ("ab$", 2), ("b$$", 5), ("^^b", 3), ("^b$", 3)]);
    assert_eq!(top_trigrams(&counts, 3), rows(&[("^^b", 3), ("^b$", 3), ("b$$", 5)]));
    assert_eq!(top_trigrams(&counts, 1), rows(&[("b$$", 5)]));
    assert!(top_trigrams(&counts, 0).is_empty());
}

#[test]
fn top_trigrams_with_large_k_sorts_everything() {
    let counts = rows(&[("zz$", 1), ("ä$$", 9), ("^^z", 4)]);
    assert_eq!(top_trigrams(&counts, 10), rows(&[("^^z", 4), ("zz$", 1), ("ä$$", 9)]));
}

#[test]
fn trigram_table_cuts_and_reports_vocabulary() {
    let (top, vocab) = trigram_table(&entries(&[("ab", 2), ("b", 3)]), 3);
    assert_eq!(vocab, 6);
    assert_eq!(top, rows(&[("^^b", 3), ("^b$", 3), ("b$$", 5)]));
}

#[test]
fn counted_weights_add_up_to_training_weight() {
    let list = entries(&[("katze", 7), ("die", 40), ("kat", 2), ("ä", 1)]);
    let total: u64 = trigram_counts(&list).iter().map(|(_, c)| *c).sum();
    assert_eq!(Some(total), training_weight(&list));
}
