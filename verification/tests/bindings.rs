use papagan::bindings::{
    detector_from_options, parse_langs, supported_language_codes, NativeDetector, UnsupportedLang,
};
use papagan::Lang;

fn strings(v: &[&str]) -> Vec<String> {
    v.iter().map(|s| s.to_string()).collect()
}

#[test]
fn codes_of_supported_languages() {
    assert_eq!(
        supported_language_codes(),
        strings(&["de", "en", "tr", "ru", "fr", "es", "it", "nl", "pt", "pl"])
    );
}

#[test]
fn parse_langs_accepts_codes_in_order() {
    let langs = parse_langs(&strings(&["en", "tr", "?"])).ok().unwrap();
    assert_eq!(langs, vec![Lang::En, Lang::Tr, Lang::Unknown]);
    assert!(parse_langs(&[]).ok().unwrap().is_empty());
}

#[test]
fn parse_langs_reports_first_unsupported_code() {
    let err = parse_langs(&strings(&["en", "xx", "yy"])).err().unwrap();
    assert_eq!(err.code, "xx");
    assert_eq!(
        err.message(),
        "unsupported language `xx`. supported languages: de, en, tr, ru, fr, es, it, nl, pt, pl"
    );
    let e = UnsupportedLang { code: String::new() };
    assert!(e.message().starts_with("unsupported language ``."));
}

#[test]
fn options_build_detectors() {
    let d = detector_from_options(Some(strings(&["de"])), Some(0.5f32.to_bits()), Some(7))
        .ok()
        .unwrap();
    assert_eq!(d.enabled(), &[Lang::De]);
    assert_eq!(f32::from_bits(d.unknown_threshold_bits()), 0.5);
    assert_eq!(d.parallel_threshold(), 7);
    let d = detector_from_options(None, None, None).ok().unwrap();
    assert_eq!(d.enabled().len(), 10);
    assert_eq!(d.parallel_threshold(), 32);
    assert!(detector_from_options(Some(strings(&["klingon"])), None, None).is_err());
}

#[test]
fn native_detector_shares_its_detector_with_tasks() {
    let n = NativeDetector::new(Some(strings(&["en", "fr"])), None, Some(64)).ok().unwrap();
    assert_eq!(n.inner().enabled(), &[Lang::En, Lang::Fr]);
    assert_eq!(n.inner().parallel_threshold(), 64);
    let task = n.batch_task(strings(&["a", "b"]));
    let (d, inputs) = task.parts();
    assert_eq!(d.enabled(), &[Lang::En, Lang::Fr]);
    assert_eq!(inputs, strings(&["a", "b"]).as_slice());
    let task = n.detailed_batch_task(strings(&["c"]));
    let (d, inputs) = task.parts();
    assert_eq!(d.parallel_threshold(), 64);
    assert_eq!(inputs.len(), 1);
    let err = NativeDetector::new(Some(strings(&["en", "zz"])), None, None).err().unwrap();
    assert_eq!(err.code, "zz");
}
