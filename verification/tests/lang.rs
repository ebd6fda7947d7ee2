use papagan::score::MatchSource;
use papagan::{supported_languages, Lang};

#[test]
fn codes_round_trip() {
    for l in Lang::all_enabled() {
        assert_eq!(Lang::from_iso_639_1(l.iso_639_1()), Some(l));
    }
    assert_eq!(Lang::from_iso_639_1(Lang::Unknown.iso_639_1()), Some(Lang::Unknown));
}

#[test]
fn known_and_unknown_codes() {
    assert_eq!(Lang::from_iso_639_1("de"), Some(Lang::De));
    assert_eq!(Lang::from_iso_639_1("pl"), Some(Lang::Pl));
    assert_eq!(Lang::from_iso_639_1("?"), Some(Lang::Unknown));
    assert_eq!(Lang::from_iso_639_1("xx"), None);
    assert_eq!(Lang::from_iso_639_1("DE"), None);
    assert_eq!(Lang::from_iso_639_1(""), None);
    assert_eq!(Lang::Tr.iso_639_1(), "tr");
    assert_eq!(Lang::Unknown.iso_639_1(), "?");
}

#[test]
fn all_enabled_languages() {
    let all = Lang::all_enabled();
    assert_eq!(
        all,
        vec![
            Lang::De,
            Lang::En,
            Lang::Tr,
            Lang::Ru,
            Lang::Fr,
            Lang::Es,
            Lang::It,
            Lang::Nl,
            Lang::Pt,
            Lang::Pl
        ]
    );
    assert!(!all.contains(&Lang::Unknown));
    assert_eq!(supported_languages(), all);
}

#[test]
fn match_source_names() {
    assert_eq!(MatchSource::Dict.as_str(), "dict");
    assert_eq!(MatchSource::Ngram.as_str(), "ngram");
    assert_eq!(MatchSource::Unknown.as_str(), "unknown");
}
