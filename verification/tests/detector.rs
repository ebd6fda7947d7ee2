use papagan::detector::{
    whitespace_word_count, WordStage, DEFAULT_PARALLEL_THRESHOLD, DEFAULT_UNKNOWN_THRESHOLD_BITS,
};
use papagan::{Detector, Lang, MatchSource};

fn table() -> Vec<(&'static str, Lang, u16)> {
    vec![("der", Lang::De, 1), ("die", Lang::De, 0), ("die", Lang::En, 400), ("the", Lang::En, 0)]
}

#[test]
fn defaults() {
    let d = Detector::new();
    assert_eq!(d.enabled(), Lang::all_enabled().as_slice());
    assert_eq!(d.unknown_threshold_bits(), 0.20f32.to_bits());
    assert_eq!(DEFAULT_UNKNOWN_THRESHOLD_BITS, 0.20f32.to_bits());
    assert_eq!(d.parallel_threshold(), 32);
    assert_eq!(DEFAULT_PARALLEL_THRESHOLD, 32);
    let e = Detector::default();
    assert_eq!(e.enabled(), d.enabled());
}

#[test]
fn builder_sets_and_defaults() {
    let d = Detector::builder().only(vec![Lang::En, Lang::De]).build();
    assert_eq!(d.enabled(), &[Lang::En, Lang::De]);
    assert_eq!(d.unknown_threshold_bits(), 0.20f32.to_bits());
    assert_eq!(d.parallel_threshold(), 32);
    let d = Detector::builder()
        .unknown_threshold(0.25f32.to_bits())
        .parallel_threshold(128)
        .build();
    assert_eq!(d.enabled().len(), 10);
    assert_eq!(f32::from_bits(d.unknown_threshold_bits()), 0.25);
    assert_eq!(d.parallel_threshold(), 128);
}

#[test]
fn stage_prefers_dictionary_hits_in_enabled_languages() {
    let t = table();
    let d = Detector::new();
    match d.stage_word(&t, "die") {
        WordStage::Dict(h) => assert_eq!(h.as_slice(), &[(Lang::De, 0), (Lang::En, 400)]),
        _ => panic!("expected a dictionary hit"),
    }
    let en = Detector::builder().only(vec![Lang::En]).build();
    match en.stage_word(&t, "die") {
        WordStage::Dict(h) => assert_eq!(h.as_slice(), &[(Lang::En, 400)]),
        _ => panic!("expected a dictionary hit"),
    }
    // A word known only in a disabled language falls through to trigrams.
    let s = en.stage_word(&t, "der");
    assert!(matches!(s, WordStage::Ngram));
    assert_eq!(s.source(), MatchSource::Ngram);
    assert_eq!(d.stage_word(&t, "thermodynamics").source(), MatchSource::Ngram);
    assert_eq!(d.stage_word(&t, "the").source(), MatchSource::Dict);
}

#[test]
fn stage_without_languages_is_unknown() {
    let t = table();
    let none = Detector::builder().only(vec![]).build();
    let s = none.stage_word(&t, "die");
    assert!(matches!(s, WordStage::Unknown));
    assert_eq!(s.source(), MatchSource::Unknown);
}

#[test]
fn whitespace_words_are_counted() {
    assert_eq!(whitespace_word_count(""), 0);
    assert_eq!(whitespace_word_count("   "), 0);
    assert_eq!(whitespace_word_count("one"), 1);
    assert_eq!(whitespace_word_count("  one two\tthree\n"), 3);
    assert_eq!(whitespace_word_count("a\u{3000}b\u{a0}c"), 3);
}

#[test]
fn batch_routing_gates() {
    let d = Detector::new();
    let inputs: Vec<&str> = vec![
        "the quick brown fox jumps over the lazy dog",
        "how are you doing today my friend",
        "language detection is a fun problem to solve and discuss",
        "she sells sea shells by the sea shore early in the morning",
        "a stitch in time saves nine on a busy day",
        "the rain in spain falls mainly on the plain every year",
    ];
    let total: usize = inputs.iter().map(|s| s.split_whitespace().count()).sum();
    assert!(total >= 50);
    assert!(d.should_batch_parallel(&inputs));
    // Below the cardinality gate.
    assert!(!d.should_batch_parallel(&inputs[..1]));
    // Below the work gate.
    assert!(!d.should_batch_parallel(&["a", "b", "c", "the", "a", "b"]));
    assert!(!d.should_batch_parallel(&[]));
    // Opted out.
    let off = Detector::builder().parallel_threshold(usize::MAX).build();
    assert!(!off.should_batch_parallel(&inputs));
    // Exactly at the work gate: two inputs of 25 words.
    let w25 = vec!["w"; 25].join(" ");
    assert!(d.should_batch_parallel(&[w25.as_str(), w25.as_str()]));
    let w24 = vec!["w"; 24].join(" ");
    assert!(!d.should_batch_parallel(&[w25.as_str(), w24.as_str()]));
}
