use papagan::parallel::{map_words, par_map_batch, BATCH_MIN_APPROX_TOKENS, BATCH_MIN_CARDINALITY};

fn words(n: usize) -> Vec<String> {
    (0..n).map(|i| format!("w{i}")).collect()
}

#[test]
fn map_words_serial_and_parallel_agree() {
    let ws = words(200);
    let serial = map_words(ws.clone(), usize::MAX, |w| w.len());
    let parallel = map_words(ws.clone(), 1, |w| w.len());
    let expected: Vec<usize> = ws.iter().map(|w| w.len()).collect();
    assert_eq!(serial, expected);
    assert_eq!(parallel, expected);
    let upper = map_words(ws.clone(), 0, |w| w.to_uppercase());
    assert_eq!(upper[199], "W199");
}

#[test]
fn map_words_empty() {
    let out: Vec<usize> = map_words(Vec::new(), 0, |w: String| w.len());
    assert!(out.is_empty());
}

#[test]
fn par_map_batch_keeps_order() {
    let inputs = words(100);
    let out = par_map_batch(&inputs, |s: &String| s.clone() + "!");
    assert_eq!(out.len(), 100);
    for (i, o) in out.iter().enumerate() {
        assert_eq!(o, &format!("w{i}!"));
    }
}

#[test]
fn routing_constants() {
    assert_eq!(BATCH_MIN_CARDINALITY, 2);
    assert_eq!(BATCH_MIN_APPROX_TOKENS, 50);
}
