use papagan::corpus::{
    append_fixture_lines, first_two_fields, flores_entry_path, flores_split_ok, frequency_line,
    group_paragraphs, iso2_to_flores, iso2_to_iso3, iso2_to_leipzig_corpus, json_array,
    json_escape, language_paragraphs, language_rng, lcg_next, leipzig_sentences,
    nonempty_trimmed_lines, parse_frequency_list, parse_u64, sample_paragraphs, shuffle_all,
    strip_dot_slash, tatoeba_sentence, words_file, Reservoir,
};

fn strings(v: &[&str]) -> Vec<String> {
    v.iter().map(|s| s.to_string()).collect()
}

fn chars(s: &str) -> Vec<char> {
    s.chars().collect()
}

fn sorted(mut v: Vec<String>) -> Vec<String> {
    v.sort();
    v
}

#[test]
fn language_code_tables() {
    assert_eq!(iso2_to_iso3("en"), Some("eng"));
    assert_eq!(iso2_to_iso3("pl"), Some("pol"));
    assert_eq!(iso2_to_iso3("xx"), None);
    assert_eq!(iso2_to_flores("ru"), Some("rus_Cyrl"));
    assert_eq!(iso2_to_flores("de"), Some("deu_Latn"));
    assert_eq!(iso2_to_flores("?"), None);
    assert_eq!(iso2_to_leipzig_corpus("en", "10K"), Some("eng_news_2024_10K".to_string()));
    assert_eq!(iso2_to_leipzig_corpus("tr", "1M"), Some("tur_news_2023_1M".to_string()));
    assert_eq!(iso2_to_leipzig_corpus("eng", "10K"), None);
}

#[test]
fn json_escape_cases() {
    assert_eq!(json_escape("plain"), "\"plain\"");
    assert_eq!(json_escape("a\"b\\c"), "\"a\\\"b\\\\c\"");
    assert_eq!(json_escape("x\ny\rz\tw"), "\"x\\ny\\rz\\tw\"");
    assert_eq!(json_escape("\u{1}\u{1f}"), "\"\\u0001\\u001f\"");
    assert_eq!(json_escape("ü€"), "\"ü€\"");
    assert_eq!(json_escape(""), "\"\"");
}

#[test]
fn lcg_steps() {
    let mut s: u64 = 0;
    assert_eq!(lcg_next(&mut s), 1442695040888963407);
    assert_eq!(s, 1442695040888963407);
    let mut t: u64 = 1;
    let expected = 6364136223846793005u64.wrapping_add(1442695040888963407);
    assert_eq!(lcg_next(&mut t), expected);
}

#[test]
fn tatoeba_lines() {
    assert_eq!(
        tatoeba_sentence("12\teng\t  The cat sat on the mat.  ", "eng", 5, 200),
        Some("The cat sat on the mat.".to_string())
    );
    assert_eq!(tatoeba_sentence("12\tdeu\tDie Katze.", "eng", 1, 200), None);
    assert_eq!(tatoeba_sentence("12\teng", "eng", 0, 200), None);
    assert_eq!(tatoeba_sentence("no tabs", "eng", 0, 200), None);
    assert_eq!(tatoeba_sentence("1\teng\tshort", "eng", 6, 200), None);
    assert_eq!(tatoeba_sentence("1\teng\ttoo long", "eng", 1, 5), None);
    assert_eq!(
        tatoeba_sentence("1\teng\ta\tb", "eng", 1, 10),
        Some("a\tb".to_string())
    );
}

#[test]
fn reservoir_keeps_first_items_then_samples() {
    let mut r = Reservoir::new(3, 42);
    for t in ["a", "b"] {
        r.offer(t.to_string());
    }
    assert_eq!(r.seen(), 2);
    let items = r.into_items();
    assert_eq!(items, strings(&["a", "b"]));

    let offered: Vec<String> = (0..50).map(|i| format!("s{i}")).collect();
    let mut r = Reservoir::new(5, 7);
    for t in &offered {
        r.offer(t.clone());
    }
    assert_eq!(r.seen(), 50);
    let items = r.into_items();
    assert_eq!(items.len(), 5);
    for it in &items {
        assert!(offered.contains(it));
    }
}

#[test]
fn leipzig_sentence_files() {
    let content = "1\tFirst sentence.\n2\t  \n3 no tab\n4\tSecond one.  \r\n5\tLast";
    assert_eq!(
        leipzig_sentences(content),
        strings(&["First sentence.", "Second one.", "Last"])
    );
    assert!(leipzig_sentences("").is_empty());
}

#[test]
fn paragraphs_group_full_chunks() {
    let s = strings(&["a.", "b.", "c.", "d.", "e."]);
    assert_eq!(group_paragraphs(&s, 2), strings(&["a. b.", "c. d."]));
    assert_eq!(group_paragraphs(&s, 5), strings(&["a. b. c. d. e."]));
    assert!(group_paragraphs(&s, 6).is_empty());
    assert_eq!(group_paragraphs(&s, 1), s);
}

#[test]
fn sampling_and_shuffling_permute() {
    let v: Vec<String> = (0..20).map(|i| format!("p{i}")).collect();
    let kept = sample_paragraphs(v.clone(), 100, 5);
    assert_eq!(kept, v);
    let few = sample_paragraphs(v.clone(), 4, 5);
    assert_eq!(few.len(), 4);
    for p in &few {
        assert!(v.contains(p));
    }
    let mut dedup = few.clone();
    dedup.sort();
    dedup.dedup();
    assert_eq!(dedup.len(), 4);
    let all = shuffle_all(v.clone(), 42);
    assert_eq!(sorted(all.clone()), sorted(v.clone()));
    assert_ne!(all, v);
    assert_eq!(shuffle_all(v.clone(), 42), all);
    assert!(shuffle_all(Vec::new(), 1).is_empty());
}

#[test]
fn language_seed() {
    let sum = (b'e' as u64) + (b'n' as u64);
    assert_eq!(language_rng(42, "en"), 43u64.wrapping_mul(sum + 1));
    assert_eq!(language_rng(u64::MAX, "en"), 0);
    let s = strings(&["a.", "b.", "c.", "d."]);
    let p = language_paragraphs(&s, 2, 1, 42, "en");
    assert_eq!(p.len(), 1);
    assert!(p[0] == "a. b." || p[0] == "c. d.");
}

#[test]
fn json_arrays() {
    assert_eq!(json_array(&[]), "[]\n");
    assert_eq!(
        json_array(&strings(&["a", "b\"c"])),
        "[\n  \"a\",\n  \"b\\\"c\"\n]\n"
    );
}

#[test]
fn flores_helpers() {
    assert!(flores_split_ok("dev"));
    assert!(flores_split_ok("devtest"));
    assert!(!flores_split_ok("test"));
    assert_eq!(
        flores_entry_path("devtest", "eng_Latn"),
        "flores200_dataset/devtest/eng_Latn.devtest"
    );
    assert_eq!(strip_dot_slash("./flores200_dataset/dev"), "flores200_dataset/dev");
    assert_eq!(strip_dot_slash("flores200_dataset"), "flores200_dataset");
    assert_eq!(
        nonempty_trimmed_lines("  one \n\n two\r\n   \n"),
        strings(&["one", "two"])
    );
}

#[test]
fn fixture_lines() {
    let mut content = String::from("# header\n");
    append_fixture_lines(&mut content, "de", &strings(&["Hallo\tWelt", "zwei\nZeilen"]));
    assert_eq!(content, "# header\nde\tHallo Welt\nde\tzwei Zeilen\n");
}

#[test]
fn decimal_parsing() {
    assert_eq!(parse_u64(&chars("0")), Some(0));
    assert_eq!(parse_u64(&chars("+17")), Some(17));
    assert_eq!(parse_u64(&chars("18446744073709551615")), Some(u64::MAX));
    assert_eq!(parse_u64(&chars("18446744073709551616")), None);
    assert_eq!(parse_u64(&chars("")), None);
    assert_eq!(parse_u64(&chars("+")), None);
    assert_eq!(parse_u64(&chars("-1")), None);
    assert_eq!(parse_u64(&chars("12a")), None);
    assert_eq!(parse_u64(&chars(" 1")), None);
}

#[test]
fn whitespace_fields() {
    assert_eq!(
        first_two_fields(&chars("  the   123 extra")),
        Some(("the".to_string(), "123".to_string()))
    );
    assert_eq!(first_two_fields(&chars("lonely")), None);
    assert_eq!(first_two_fields(&chars("")), None);
}

#[test]
fn frequency_lists() {
    assert_eq!(frequency_line(&chars("Der 120")), Some(("der".to_string(), 120)));
    assert_eq!(frequency_line(&chars("123 120")), None);
    assert_eq!(frequency_line(&chars("word x")), None);
    let body = "the 100\nThe 90\n2024 80\nand 70\nbad\nİyi 60\nof 50\n";
    let entries = parse_frequency_list(body, 3);
    assert_eq!(
        entries,
        vec![("the".to_string(), 100), ("and".to_string(), 70), ("i\u{307}yi".to_string(), 60)]
    );
    let all = parse_frequency_list(body, 100);
    assert_eq!(all.len(), 4);
    assert_eq!(words_file(&all, 2), "the\nand\n");
    assert_eq!(words_file(&all, 10), "the\nand\ni\u{307}yi\nof\n");
}

#[test]
fn fixture_headers_are_exact() {
    assert_eq!(
        papagan::corpus::tatoeba_fixture_header(42, 500, 20, 200),
        "# Accuracy-benchmark fixtures (large) \u{2014} from `cargo xtask fetch-eval`.\n\
         # Source: Tatoeba.org \u{2014} https://downloads.tatoeba.org/\n\
         # License: CC-BY 2.0 FR (https://creativecommons.org/licenses/by/2.0/fr/)\n\
         # Params: seed=42, samples=500, min_chars=20, max_chars=200\n\n"
    );
    assert!(papagan::corpus::tatoeba_fixture_header(0, 7, 10, u64::MAX as usize)
        .contains("seed=0, samples=7, min_chars=10, max_chars=18446744073709551615\n"));
    assert_eq!(
        papagan::corpus::flores_fixture_header("devtest"),
        "# Accuracy-benchmark fixture (FLORES-200) \u{2014} from `cargo xtask fetch-flores`.\n\
         # Source: FLORES-200 \u{2014} https://github.com/facebookresearch/flores\n\
         # License: CC-BY-SA 4.0 (https://creativecommons.org/licenses/by-sa/4.0/)\n\
         # Split: devtest\n\n"
    );
}

#[test]
fn json_escape_leaves_no_control_chars() {
    let out = json_escape("a\u{1}\"\\\n\u{1f}z");
    assert_eq!(out, "\"a\\u0001\\\"\\\\\\n\\u001fz\"");
    assert!(out.chars().all(|c| c as u32 >= 0x20));
}

#[test]
fn frequency_list_top_n_zero_keeps_nothing() {
    let body = "the 100\nand 70\n";
    assert!(parse_frequency_list(body, 0).is_empty());
    assert_eq!(parse_frequency_list(body, 1), vec![("the".to_string(), 100)]);
}

#[test]
fn paragraph_size_and_missing_languages() {
    assert_eq!(
        papagan::corpus::paragraph_size_error(0),
        Some("--paragraph-size must be >= 1".to_string())
    );
    assert_eq!(papagan::corpus::paragraph_size_error(5), None);
    let langs: Vec<String> = ["en", "de", "tr"].iter().map(|s| s.to_string()).collect();
    let found: Vec<String> = ["tr", "en"].iter().map(|s| s.to_string()).collect();
    assert_eq!(papagan::corpus::first_missing_language(&langs, &found), Some(1));
    assert_eq!(papagan::corpus::first_missing_language(&langs, &langs), None);
    assert_eq!(papagan::corpus::first_missing_language(&[], &found), None);
}
