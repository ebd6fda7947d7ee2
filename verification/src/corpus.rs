//! Pure logic of the offline data tooling: language-code tables, corpus
//! line parsing, deterministic sampling and shuffling, and the text formats
//! of the fixtures it writes.

use vstd::prelude::*;

use crate::text::{
    is_whitespace, spec_is_whitespace, skip_leading_ws,
    chars_of, find_char, join, lemma_next_index_of, lines, next_index_of, push_char, spec_join,
    spec_lines, spec_trim, str_eq, string_from_chars, trim_chars,
};

verus! {
/// ISO 639-3 code of each supported language.
pub open spec fn spec_iso3(iso2: Seq<char>) -> Option<Seq<char>> {
    if iso2 == seq!['e', 'n'] {
        Some(seq!['e', 'n', 'g'])
    } else if iso2 == seq!['d', 'e'] {
        Some(seq!['d', 'e', 'u'])
    } else if iso2 == seq!['t', 'r'] {
        Some(seq!['t', 'u', 'r'])
    } else if iso2 == seq!['r', 'u'] {
        Some(seq!['r', 'u', 's'])
    } else if iso2 == seq!['f', 'r'] {
        Some(seq!['f', 'r', 'a'])
    } else if iso2 == seq!['e', 's'] {
        Some(seq!['s', 'p', 'a'])
    } else if iso2 == seq!['i', 't'] {
        Some(seq!['i', 't', 'a'])
    } else if iso2 == seq!['n', 'l'] {
        Some(seq!['n', 'l', 'd'])
    } else if iso2 == seq!['p', 't'] {
        Some(seq!['p', 'o', 'r'])
    } else if iso2 == seq!['p', 'l'] {
        Some(seq!['p', 'o', 'l'])
    } else {
        None
    }
}

/// The ISO 639-3 code of a supported ISO 639-1 code (Tatoeba file names).
pub fn iso2_to_iso3(iso2: &str) -> (res: Option<&'static str>)
    ensures
        match res {
            Some(r) => spec_iso3(iso2@) == Some(r@),
            None => spec_iso3(iso2@) is None,
        },
{
    proof {
        reveal_strlit("en");
        assert("en"@ =~= seq!['e', 'n']);
        reveal_strlit("de");
        assert("de"@ =~= seq!['d', 'e']);
        reveal_strlit("tr");
        assert("tr"@ =~= seq!['t', 'r']);
        reveal_strlit("ru");
        assert("ru"@ =~= seq!['r', 'u']);
        reveal_strlit("fr");
        assert("fr"@ =~= seq!['f', 'r']);
        reveal_strlit("es");
        assert("es"@ =~= seq!['e', 's']);
        reveal_strlit("it");
        assert("it"@ =~= seq!['i', 't']);
        reveal_strlit("nl");
        assert("nl"@ =~= seq!['n', 'l']);
        reveal_strlit("pt");
        assert("pt"@ =~= seq!['p', 't']);
        reveal_strlit("pl");
        assert("pl"@ =~= seq!['p', 'l']);
    }
    if str_eq(iso2, "en") {
        proof {
            reveal_strlit("eng");
            assert("eng"@ =~= seq!['e', 'n', 'g']);
        }
        Some("eng")
    } else if str_eq(iso2, "de") {
        proof {
            reveal_strlit("deu");
            assert("deu"@ =~= seq!['d', 'e', 'u']);
        }
        Some("deu")
    } else if str_eq(iso2, "tr") {
        proof {
            reveal_strlit("tur");
            assert("tur"@ =~= seq!['t', 'u', 'r']);
        }
        Some("tur")
    } else if str_eq(iso2, "ru") {
        proof {
            reveal_strlit("rus");
            assert("rus"@ =~= seq!['r', 'u', 's']);
        }
        Some("rus")
    } else if str_eq(iso2, "fr") {
        proof {
            reveal_strlit("fra");
            assert("fra"@ =~= seq!['f', 'r', 'a']);
        }
        Some("fra")
    } else if str_eq(iso2, "es") {
        proof {
            reveal_strlit("spa");
            assert("spa"@ =~= seq!['s', 'p', 'a']);
        }
        Some("spa")
    } else if str_eq(iso2, "it") {
        proof {
            reveal_strlit("ita");
            assert("ita"@ =~= seq!['i', 't', 'a']);
        }
        Some("ita")
    } else if str_eq(iso2, "nl") {
        proof {
            reveal_strlit("nld");
            assert("nld"@ =~= seq!['n', 'l', 'd']);
        }
        Some("nld")
    } else if str_eq(iso2, "pt") {
        proof {
            reveal_strlit("por");
            assert("por"@ =~= seq!['p', 'o', 'r']);
        }
        Some("por")
    } else if str_eq(iso2, "pl") {
        proof {
            reveal_strlit("pol");
            assert("pol"@ =~= seq!['p', 'o', 'l']);
        }
        Some("pol")
    } else {
        None
    }
}

/// FLORES-200 code of each supported language.
pub open spec fn spec_flores_code(iso2: Seq<char>) -> Option<Seq<char>> {
    if iso2 == seq!['e', 'n'] {
        Some(seq!['e', 'n', 'g', '_', 'L', 'a', 't', 'n'])
    } else if iso2 == seq!['d', 'e'] {
        Some(seq!['d', 'e', 'u', '_', 'L', 'a', 't', 'n'])
    } else if iso2 == seq!['t', 'r'] {
        Some(seq!['t', 'u', 'r', '_', 'L', 'a', 't', 'n'])
    } else if iso2 == seq!['r', 'u'] {
        Some(seq!['r', 'u', 's', '_', 'C', 'y', 'r', 'l'])
    } else if iso2 == seq!['f', 'r'] {
        Some(seq!['f', 'r', 'a', '_', 'L', 'a', 't', 'n'])
    } else if iso2 == seq!['e', 's'] {
        Some(seq!['s', 'p', 'a', '_', 'L', 'a', 't', 'n'])
    } else if iso2 == seq!['i', 't'] {
        Some(seq!['i', 't', 'a', '_', 'L', 'a', 't', 'n'])
    } else if iso2 == seq!['n', 'l'] {
        Some(seq!['n', 'l', 'd', '_', 'L', 'a', 't', 'n'])
    } else if iso2 == seq!['p', 't'] {
        Some(seq!['p', 'o', 'r', '_', 'L', 'a', 't', 'n'])
    } else if iso2 == seq!['p', 'l'] {
        Some(seq!['p', 'o', 'l', '_', 'L', 'a', 't', 'n'])
    } else {
        None
    }
}

/// The FLORES-200 code (language and script) of a supported ISO 639-1 code.
pub fn iso2_to_flores(iso2: &str) -> (res: Option<&'static str>)
    ensures
        match res {
            Some(r) => spec_flores_code(iso2@) == Some(r@),
            None => spec_flores_code(iso2@) is None,
        },
{
    proof {
        reveal_strlit("en");
        assert("en"@ =~= seq!['e', 'n']);
        reveal_strlit("de");
        assert("de"@ =~= seq!['d', 'e']);
        reveal_strlit("tr");
        assert("tr"@ =~= seq!['t', 'r']);
        reveal_strlit("ru");
        assert("ru"@ =~= seq!['r', 'u']);
        reveal_strlit("fr");
        assert("fr"@ =~= seq!['f', 'r']);
        reveal_strlit("es");
        assert("es"@ =~= seq!['e', 's']);
        reveal_strlit("it");
        assert("it"@ =~= seq!['i', 't']);
        reveal_strlit("nl");
        assert("nl"@ =~= seq!['n', 'l']);
        reveal_strlit("pt");
        assert("pt"@ =~= seq!['p', 't']);
        reveal_strlit("pl");
        assert("pl"@ =~= seq!['p', 'l']);
    }
    if str_eq(iso2, "en") {
        proof {
            reveal_strlit("eng_Latn");
            assert("eng_Latn"@ =~= seq!['e', 'n', 'g', '_', 'L', 'a', 't', 'n']);
        }
        Some("eng_Latn")
    } else if str_eq(iso2, "de") {
        proof {
            reveal_strlit("deu_Latn");
            assert("deu_Latn"@ =~= seq!['d', 'e', 'u', '_', 'L', 'a', 't', 'n']);
        }
        Some("deu_Latn")
    } else if str_eq(iso2, "tr") {
        proof {
            reveal_strlit("tur_Latn");
            assert("tur_Latn"@ =~= seq!['t', 'u', 'r', '_', 'L', 'a', 't', 'n']);
        }
        Some("tur_Latn")
    } else if str_eq(iso2, "ru") {
        proof {
            reveal_strlit("rus_Cyrl");
            assert("rus_Cyrl"@ =~= seq!['r', 'u', 's', '_', 'C', 'y', 'r', 'l']);
        }
        Some("rus_Cyrl")
    } else if str_eq(iso2, "fr") {
        proof {
            reveal_strlit("fra_Latn");
            assert("fra_Latn"@ =~= seq!['f', 'r', 'a', '_', 'L', 'a', 't', 'n']);
        }
        Some("fra_Latn")
    } else if str_eq(iso2, "es") {
        proof {
            reveal_strlit("spa_Latn");
            assert("spa_Latn"@ =~= seq!['s', 'p', 'a', '_', 'L', 'a', 't', 'n']);
        }
        Some("spa_Latn")
    } else if str_eq(iso2, "it") {
        proof {
            reveal_strlit("ita_Latn");
            assert("ita_Latn"@ =~= seq!['i', 't', 'a', '_', 'L', 'a', 't', 'n']);
        }
        Some("ita_Latn")
    } else if str_eq(iso2, "nl") {
        proof {
            reveal_strlit("nld_Latn");
            assert("nld_Latn"@ =~= seq!['n', 'l', 'd', '_', 'L', 'a', 't', 'n']);
        }
        Some("nld_Latn")
    } else if str_eq(iso2, "pt") {
        proof {
            reveal_strlit("por_Latn");
            assert("por_Latn"@ =~= seq!['p', 'o', 'r', '_', 'L', 'a', 't', 'n']);
        }
        Some("por_Latn")
    } else if str_eq(iso2, "pl") {
        proof {
            reveal_strlit("pol_Latn");
            assert("pol_Latn"@ =~= seq!['p', 'o', 'l', '_', 'L', 'a', 't', 'n']);
        }
        Some("pol_Latn")
    } else {
        None
    }
}

/// ISO 639-3 code and news-corpus year of each supported language in the Leipzig collection.
pub open spec fn spec_leipzig_parts(iso2: Seq<char>) -> Option<(Seq<char>, Seq<char>)> {
    if iso2 == seq!['e', 'n'] {
        Some((seq!['e', 'n', 'g'], seq!['2', '0', '2', '4']))
    } else if iso2 == seq!['d', 'e'] {
        Some((seq!['d', 'e', 'u'], seq!['2', '0', '2', '4']))
    } else if iso2 == seq!['t', 'r'] {
        Some((seq!['t', 'u', 'r'], seq!['2', '0', '2', '3']))
    } else if iso2 == seq!['r', 'u'] {
        Some((seq!['r', 'u', 's'], seq!['2', '0', '2', '3']))
    } else if iso2 == seq!['f', 'r'] {
        Some((seq!['f', 'r', 'a'], seq!['2', '0', '2', '3']))
    } else if iso2 == seq!['e', 's'] {
        Some((seq!['s', 'p', 'a'], seq!['2', '0', '2', '3']))
    } else if iso2 == seq!['i', 't'] {
        Some((seq!['i', 't', 'a'], seq!['2', '0', '2', '3']))
    } else if iso2 == seq!['n', 'l'] {
        Some((seq!['n', 'l', 'd'], seq!['2', '0', '2', '3']))
    } else if iso2 == seq!['p', 't'] {
        Some((seq!['p', 'o', 'r'], seq!['2', '0', '2', '3']))
    } else if iso2 == seq!['p', 'l'] {
        Some((seq!['p', 'o', 'l'], seq!['2', '0', '2', '3']))
    } else {
        None
    }
}

/// The Leipzig archive name `<iso3>_news_<year>_<size>`.
pub open spec fn spec_leipzig_corpus(iso2: Seq<char>, size: Seq<char>) -> Option<Seq<char>> {
    match spec_leipzig_parts(iso2) {
        Some((iso3, year)) => Some(iso3 + "_news_"@ + year + "_"@ + size),
        None => None,
    }
}

fn leipzig_parts(iso2: &str) -> (res: Option<(&'static str, &'static str)>)
    ensures
        match res {
            Some((a, b)) => spec_leipzig_parts(iso2@) == Some((a@, b@)),
            None => spec_leipzig_parts(iso2@) is None,
        },
{
    proof {
        reveal_strlit("en");
        assert("en"@ =~= seq!['e', 'n']);
        reveal_strlit("de");
        assert("de"@ =~= seq!['d', 'e']);
        reveal_strlit("tr");
        assert("tr"@ =~= seq!['t', 'r']);
        reveal_strlit("ru");
        assert("ru"@ =~= seq!['r', 'u']);
        reveal_strlit("fr");
        assert("fr"@ =~= seq!['f', 'r']);
        reveal_strlit("es");
        assert("es"@ =~= seq!['e', 's']);
        reveal_strlit("it");
        assert("it"@ =~= seq!['i', 't']);
        reveal_strlit("nl");
        assert("nl"@ =~= seq!['n', 'l']);
        reveal_strlit("pt");
        assert("pt"@ =~= seq!['p', 't']);
        reveal_strlit("pl");
        assert("pl"@ =~= seq!['p', 'l']);
    }
    if str_eq(iso2, "en") {
        proof {
            reveal_strlit("eng");
            assert("eng"@ =~= seq!['e', 'n', 'g']);
            reveal_strlit("2024");
            assert("2024"@ =~= seq!['2', '0', '2', '4']);
        }
        Some(("eng", "2024"))
    } else if str_eq(iso2, "de") {
        proof {
            reveal_strlit("deu");
            assert("deu"@ =~= seq!['d', 'e', 'u']);
            reveal_strlit("2024");
            assert("2024"@ =~= seq!['2', '0', '2', '4']);
        }
        Some(("deu", "2024"))
    } else if str_eq(iso2, "tr") {
        proof {
            reveal_strlit("tur");
            assert("tur"@ =~= seq!['t', 'u', 'r']);
            reveal_strlit("2023");
            assert("2023"@ =~= seq!['2', '0', '2', '3']);
        }
        Some(("tur", "2023"))
    } else if str_eq(iso2, "ru") {
        proof {
            reveal_strlit("rus");
            assert("rus"@ =~= seq!['r', 'u', 's']);
            reveal_strlit("2023");
            assert("2023"@ =~= seq!['2', '0', '2', '3']);
        }
        Some(("rus", "2023"))
    } else if str_eq(iso2, "fr") {
        proof {
            reveal_strlit("fra");
            assert("fra"@ =~= seq!['f', 'r', 'a']);
            reveal_strlit("2023");
            assert("2023"@ =~= seq!['2', '0', '2', '3']);
        }
        Some(("fra", "2023"))
    } else if str_eq(iso2, "es") {
        proof {
            reveal_strlit("spa");
            assert("spa"@ =~= seq!['s', 'p', 'a']);
            reveal_strlit("2023");
            assert("2023"@ =~= seq!['2', '0', '2', '3']);
        }
        Some(("spa", "2023"))
    } else if str_eq(iso2, "it") {
        proof {
            reveal_strlit("ita");
            assert("ita"@ =~= seq!['i', 't', 'a']);
            reveal_strlit("2023");
            assert("2023"@ =~= seq!['2', '0', '2', '3']);
        }
        Some(("ita", "2023"))
    } else if str_eq(iso2, "nl") {
        proof {
            reveal_strlit("nld");
            assert("nld"@ =~= seq!['n', 'l', 'd']);
            reveal_strlit("2023");
            assert("2023"@ =~= seq!['2', '0', '2', '3']);
        }
        Some(("nld", "2023"))
    } else if str_eq(iso2, "pt") {
        proof {
            reveal_strlit("por");
            assert("por"@ =~= seq!['p', 'o', 'r']);
            reveal_strlit("2023");
            assert("2023"@ =~= seq!['2', '0', '2', '3']);
        }
        Some(("por", "2023"))
    } else if str_eq(iso2, "pl") {
        proof {
            reveal_strlit("pol");
            assert("pol"@ =~= seq!['p', 'o', 'l']);
            reveal_strlit("2023");
            assert("2023"@ =~= seq!['2', '0', '2', '3']);
        }
        Some(("pol", "2023"))
    } else {
        None
    }
}

/// The Leipzig news-corpus archive of a supported language at a size
/// (`10K`, `30K`, ...): the year is the latest pack of that language.
pub fn iso2_to_leipzig_corpus(iso2: &str, size: &str) -> (res: Option<String>)
    ensures
        match res {
            Some(r) => spec_leipzig_corpus(iso2@, size@) == Some(r@),
            None => spec_leipzig_corpus(iso2@, size@) is None,
        },
{
    match leipzig_parts(iso2) {
        Some((iso3, year)) => {
            let mut s = String::from_str(iso3);
            s.append("_news_");
            s.append(year);
            s.append("_");
            s.append(size);
            Some(s)
        },
        None => None,
    }
}

/// The lowercase hexadecimal digit of `d` (`d < 16`).
pub open spec fn hex_digit(d: u32) -> char {
    if d < 10 {
        (0x30 + d) as char
    } else {
        (0x61 + d - 10) as char
    }
}

/// The JSON string-literal escape of one char.
pub open spec fn spec_escape_char(c: char) -> Seq<char> {
    if c == '"' {
        seq!['\\', '"']
    } else if c == '\\' {
        seq!['\\', '\\']
    } else if c == '\n' {
        seq!['\\', 'n']
    } else if c == '\r' {
        seq!['\\', 'r']
    } else if c == '\t' {
        seq!['\\', 't']
    } else if (c as u32) < 0x20 {
        seq!['\\', 'u', '0', '0', hex_digit((c as u32) / 16), hex_digit((c as u32) % 16)]
    } else {
        seq![c]
    }
}

/// The escapes of all chars of `s`, concatenated.
pub open spec fn spec_escape_all(s: Seq<char>) -> Seq<char>
    decreases s.len(),
{
    if s.len() == 0 {
        seq![]
    } else {
        spec_escape_all(s.drop_last()) + spec_escape_char(s.last())
    }
}

/// `s` as a quoted JSON string literal.
pub open spec fn spec_json_escape(s: Seq<char>) -> Seq<char> {
    seq!['"'] + spec_escape_all(s) + seq!['"']
}

/// The value of a hex digit char, in upper or lower case.
pub open spec fn hex_value(c: char) -> Option<int> {
    let v = c as u32;
    if 0x30 <= v <= 0x39 {
        Some(v - 0x30)
    } else if 0x61 <= v <= 0x66 {
        Some(v - 0x61 + 10)
    } else if 0x41 <= v <= 0x46 {
        Some(v - 0x41 + 10)
    } else {
        None
    }
}

/// The char a one-letter escape `\e` of a JSON string stands for.
pub open spec fn json_short_escape(e: char) -> Option<char> {
    if e == '"' {
        Some('"')
    } else if e == '\\' {
        Some('\\')
    } else if e == '/' {
        Some('/')
    } else if e == 'b' {
        Some('\x08')
    } else if e == 'f' {
        Some('\x0c')
    } else if e == 'n' {
        Some('\n')
    } else if e == 'r' {
        Some('\r')
    } else if e == 't' {
        Some('\t')
    } else {
        None
    }
}

/// The code unit named by the four hex digits `b[2..6]` of a `\u` escape.
pub open spec fn json_unit(b: Seq<char>) -> Option<int> {
    match (hex_value(b[2]), hex_value(b[3]), hex_value(b[4]), hex_value(b[5])) {
        (Some(w), Some(x), Some(y), Some(z)) => Some(((w * 16 + x) * 16 + y) * 16 + z),
        _ => None,
    }
}

/// The chars that the body of a JSON string literal stands for (RFC 8259,
/// section 7), or `None` where the body is not well formed: a bare `"` or
/// control char, a dangling or unknown escape. A `\u` escape of a surrogate
/// code unit, which only a surrogate pair makes a char of, is not read here.
pub open spec fn json_body_value(b: Seq<char>) -> Option<Seq<char>>
    decreases b.len(),
{
    if b.len() == 0 {
        Some(seq![])
    } else if b[0] == '\\' {
        if b.len() < 2 {
            None
        } else if let Some(c) = json_short_escape(b[1]) {
            match json_body_value(b.subrange(2, b.len() as int)) {
                Some(r) => Some(seq![c] + r),
                None => None,
            }
        } else if b[1] == 'u' && b.len() >= 6 {
            match json_unit(b) {
                Some(v) => if 0xD800 <= v <= 0xDFFF {
                    None
                } else {
                    match json_body_value(b.subrange(6, b.len() as int)) {
                        Some(r) => Some(seq![(v as u32) as char] + r),
                        None => None,
                    }
                },
                None => None,
            }
        } else {
            None
        }
    } else if b[0] == '"' || (b[0] as u32) < 0x20 {
        None
    } else {
        match json_body_value(b.drop_first()) {
            Some(r) => Some(seq![b[0]] + r),
            None => None,
        }
    }
}

/// The chars a JSON string literal stands for, or `None` where it is not one.
pub open spec fn json_string_value(lit: Seq<char>) -> Option<Seq<char>> {
    if lit.len() >= 2 && lit[0] == '"' && lit.last() == '"' {
        json_body_value(lit.subrange(1, lit.len() - 1))
    } else {
        None
    }
}

proof fn lemma_escape_all_front(s: Seq<char>)
    requires
        s.len() > 0,
    ensures
        spec_escape_all(s) == spec_escape_char(s[0]) + spec_escape_all(s.drop_first()),
    decreases s.len(),
{
    if s.len() == 1 {
        assert(s.drop_last() =~= Seq::<char>::empty());
        assert(s.drop_first() =~= Seq::<char>::empty());
        assert(spec_escape_all(s.drop_last()) =~= Seq::<char>::empty());
        assert(s.last() == s[0]);
        assert(spec_escape_all(s.drop_first()) =~= Seq::<char>::empty());
        assert(spec_escape_all(s) =~= spec_escape_char(s[0]) + Seq::<char>::empty());
    } else {
        lemma_escape_all_front(s.drop_last());
        assert(s.drop_last().drop_first() =~= s.drop_first().drop_last());
        assert(s.drop_first().last() == s.last());
        assert(spec_escape_all(s) =~= spec_escape_char(s[0]) + spec_escape_all(s.drop_first()));
    }
}

proof fn lemma_hex_digit_value(d: u32)
    requires
        d < 16,
    ensures
        hex_value(hex_digit(d)) == Some(d as int),
        hex_digit(d) as u32 >= 0x20,
{
    if d < 10 {
        assert(((0x30 + d) as char) as u32 == 0x30 + d);
    } else {
        assert(((0x61 + d - 10) as char) as u32 == 0x61 + d - 10);
    }
}

/// Reading the escape of `c` in front of `r` gives `c` in front of what `r` reads as.
proof fn lemma_escape_char_reads(c: char, r: Seq<char>)
    ensures
        json_body_value(spec_escape_char(c) + r) == match json_body_value(r) {
            Some(v) => Some(seq![c] + v),
            None => None,
        },
        forall|k: int| 0 <= k < spec_escape_char(c).len() ==> #[trigger] spec_escape_char(c)[k] as u32 >= 0x20,
{
    let e = spec_escape_char(c);
    let b = e + r;
    if e.len() == 2 {
        assert(b.subrange(2, b.len() as int) =~= r);
    } else if e.len() == 6 {
        let v = c as u32;
        lemma_hex_digit_value(v / 16);
        lemma_hex_digit_value(v % 16);
        assert(b.subrange(6, b.len() as int) =~= r);
        assert(json_unit(b) == Some(v as int));
        vstd::utf8::char_u32_cast(c, v);
    } else {
        assert(b.drop_first() =~= r);
    }
}

proof fn lemma_escape_all_reads(s: Seq<char>)
    ensures
        json_body_value(spec_escape_all(s)) == Some(s),
        forall|k: int| 0 <= k < spec_escape_all(s).len() ==> #[trigger] spec_escape_all(s)[k] as u32 >= 0x20,
    decreases s.len(),
{
    if s.len() == 0 {
        assert(spec_escape_all(s) =~= Seq::<char>::empty());
    } else {
        lemma_escape_all_front(s);
        lemma_escape_all_reads(s.drop_first());
        lemma_escape_char_reads(s[0], spec_escape_all(s.drop_first()));
        assert(seq![s[0]] + s.drop_first() =~= s);
        let e = spec_escape_char(s[0]);
        let rest = spec_escape_all(s.drop_first());
        assert forall|k: int| 0 <= k < spec_escape_all(s).len() implies #[trigger] spec_escape_all(
            s,
        )[k] as u32 >= 0x20 by {
            if k < e.len() {
                assert(spec_escape_all(s)[k] == e[k]);
            } else {
                assert(spec_escape_all(s)[k] == rest[k - e.len()]);
            }
        }
    }
}

/// A JSON parser reads the escaped literal back as exactly the text that was
/// escaped, and the literal holds no control char: every char is U+0020 or above.
pub proof fn lemma_json_escape_round_trip(s: Seq<char>)
    ensures
        json_string_value(spec_json_escape(s)) == Some(s),
        forall|k: int| 0 <= k < spec_json_escape(s).len() ==> #[trigger] spec_json_escape(s)[k] as u32 >= 0x20,
{
    let lit = spec_json_escape(s);
    let body = spec_escape_all(s);
    lemma_escape_all_reads(s);
    assert(lit.subrange(1, lit.len() - 1) =~= body);
    assert forall|k: int| 0 <= k < lit.len() implies #[trigger] lit[k] as u32 >= 0x20 by {
        if 0 < k < lit.len() - 1 {
            assert(lit[k] == body[k - 1]);
        }
    }
}

fn hex_char(d: u32) -> (res: char)
    requires
        d < 16,
    ensures
        res == hex_digit(d),
{
    if d < 10 {
        char_of_ascii((0x30 + d) as u8)
    } else {
        char_of_ascii((0x61 + d - 10) as u8)
    }
}

fn char_of_ascii(b: u8) -> (res: char)
    requires
        b < 0x80,
    ensures
        res == (b as u32) as char,
{
    b as char
}

/// Quotes `s` as a JSON string: `"` and `\` are backslash-escaped, newline,
/// carriage return and tab become `\n`, `\r`, `\t`, other control chars
/// become `\u00XX`, and everything else is kept.
pub fn json_escape(s: &str) -> (res: String)
    ensures
        res@ == spec_json_escape(s@),
{
    let cs = chars_of(s);
    let mut out = String::new();
    push_char(&mut out, '"');
    let mut i: usize = 0;
    while i < cs.len()
        invariant
            cs@ == s@,
            i <= cs.len(),
            out@ == seq!['"'] + spec_escape_all(cs@.subrange(0, i as int)),
        decreases cs.len() - i,
    {
        let c = cs[i];
        let ghost before = out@;
        if c == '"' {
            push_char(&mut out, '\\');
            push_char(&mut out, '"');
        } else if c == '\\' {
            push_char(&mut out, '\\');
            push_char(&mut out, '\\');
        } else if c == '\n' {
            push_char(&mut out, '\\');
            push_char(&mut out, 'n');
        } else if c == '\r' {
            push_char(&mut out, '\\');
            push_char(&mut out, 'r');
        } else if c == '\t' {
            push_char(&mut out, '\\');
            push_char(&mut out, 't');
        } else if (c as u32) < 0x20 {
            let v = c as u32;
            push_char(&mut out, '\\');
            push_char(&mut out, 'u');
            push_char(&mut out, '0');
            push_char(&mut out, '0');
            push_char(&mut out, hex_char(v / 16));
            push_char(&mut out, hex_char(v % 16));
        } else {
            push_char(&mut out, c);
        }
        assert(out@ =~= before + spec_escape_char(c));
        assert(cs@.subrange(0, i + 1).drop_last() =~= cs@.subrange(0, i as int));
        i += 1;
    }
    push_char(&mut out, '"');
    assert(cs@.subrange(0, cs.len() as int) =~= cs@);
    out
}

/// The multiplier of the sampling generator.
pub const LCG_MULTIPLIER: u64 = 6364136223846793005;

/// The increment of the sampling generator.
pub const LCG_INCREMENT: u64 = 1442695040888963407;

/// One step of the generator: `state * LCG_MULTIPLIER + LCG_INCREMENT` modulo 2^64.
pub open spec fn spec_lcg(state: u64) -> u64 {
    vstd::wrapping::u64_specs::wrapping_add(
        vstd::wrapping::u64_specs::wrapping_mul(state, LCG_MULTIPLIER),
        LCG_INCREMENT,
    )
}

/// Advances a linear congruential generator and returns its new state.
pub fn lcg_next(state: &mut u64) -> (res: u64)
    ensures
        *final(state) == spec_lcg(*old(state)),
        res == *final(state),
{
    *state = state.wrapping_mul(LCG_MULTIPLIER).wrapping_add(LCG_INCREMENT);
    *state
}

/// `v` with the elements at `i` and `j` exchanged.
pub open spec fn spec_swap<T>(v: Seq<T>, i: int, j: int) -> Seq<T> {
    v.update(i, v[j]).update(j, v[i])
}

/// Exchanges two elements of a vector.
///
/// Calls `slice::swap`, documented to swap the two elements (leaving them
/// unchanged when the indices are equal) and to panic when an index is out of
/// bounds, which `requires` rules out.
#[verifier::external_body]
pub(crate) fn swap_elems<T>(v: &mut Vec<T>, i: usize, j: usize)
    requires
        i < old(v)@.len(),
        j < old(v)@.len(),
    ensures
        final(v)@ == spec_swap(old(v)@, i as int, j as int),
{
    v.swap(i, j)
}

/// Steps `i`, `i + 1`, ..., `stop - 1` of a Fisher-Yates shuffle driven by the
/// generator from state `rng`: step `i` draws the next state `r` and swaps
/// position `i` with position `i + r % (len - i)`.
#[verifier::opaque]
pub open spec fn spec_shuffle_steps<T>(v: Seq<T>, i: int, stop: int, rng: u64) -> Seq<T>
    decreases stop - i,
{
    if i < 0 || i >= stop || i >= v.len() {
        v
    } else {
        let r = spec_lcg(rng);
        let j = i + (r % ((v.len() - i) as u64)) as int;
        spec_shuffle_steps(spec_swap(v, i, j), i + 1, stop, r)
    }
}

/// The generator state after steps `i`..`stop` of the shuffle.
pub open spec fn spec_shuffle_rng(len: int, i: int, stop: int, rng: u64) -> u64
    decreases stop - i,
{
    if i < 0 || i >= stop || i >= len {
        rng
    } else {
        spec_shuffle_rng(len, i + 1, stop, spec_lcg(rng))
    }
}

/// Runs the first `stop` steps of the Fisher-Yates shuffle in place.
fn shuffle_prefix<T>(v: &mut Vec<T>, stop: usize, rng: u64)
    ensures
        final(v)@ == spec_shuffle_steps(old(v)@, 0, stop as int, rng),
{
    let mut state = rng;
    let mut i: usize = 0;
    let ghost orig = v@;
    while i < stop && i < v.len()
        invariant
            v@.len() == orig.len(),
            spec_shuffle_steps(v@, i as int, stop as int, state) == spec_shuffle_steps(
                orig,
                0,
                stop as int,
                rng,
            ),
        decreases stop - i,
    {
        proof {
            reveal(spec_shuffle_steps);
        }
        let remaining = (v.len() - i) as u64;
        let r = lcg_next(&mut state);
        let j = i + (r % remaining) as usize;
        swap_elems(v, i, j);
        i += 1;
    }
    proof {
        reveal(spec_shuffle_steps);
    }
}

pub(crate) proof fn lemma_swap_multiset<T>(v: Seq<T>, i: int, j: int)
    requires
        0 <= i < v.len(),
        0 <= j < v.len(),
    ensures
        spec_swap(v, i, j).to_multiset() == v.to_multiset(),
        spec_swap(v, i, j).len() == v.len(),
{
    broadcast use vstd::seq_lib::group_to_multiset_ensures;
    broadcast use vstd::multiset::group_multiset_properties;

    let w = v.update(i, v[j]);
    vstd::seq_lib::to_multiset_update(v, i, v[j]);
    vstd::seq_lib::to_multiset_update(w, j, v[i]);
    if i == j {
        assert(spec_swap(v, i, j) =~= v);
    } else {
        assert(w[j] == v[j]);
        assert(spec_swap(v, i, j).to_multiset() =~= v.to_multiset());
    }
}

/// A shuffle only moves elements around: it keeps every element, as often as
/// it occurs, and the length.
pub proof fn lemma_shuffle_permutes<T>(v: Seq<T>, i: int, stop: int, rng: u64)
    requires
        v.len() <= u64::MAX,
    ensures
        spec_shuffle_steps(v, i, stop, rng).to_multiset() == v.to_multiset(),
        spec_shuffle_steps(v, i, stop, rng).len() == v.len(),
    decreases stop - i,
{
    reveal(spec_shuffle_steps);
    if !(i < 0 || i >= stop || i >= v.len()) {
        let r = spec_lcg(rng);
        let m = (v.len() - i) as u64;
        assert(m > 0);
        assert(r % m < m) by (nonlinear_arith)
            requires
                m > 0,
        ;
        let j = i + (r % m) as int;
        lemma_swap_multiset(v, i, j);
        lemma_shuffle_permutes(spec_swap(v, i, j), i + 1, stop, r);
    }
}

/// The sentence of one line `<id>\t<sentence>` of a Leipzig sentences file:
/// the text after the first tab, trimmed; none without a tab or when empty.
pub open spec fn spec_leipzig_sentence(line: Seq<char>) -> Option<Seq<char>> {
    let t = next_index_of(line, '\t', 0);
    if t >= line.len() {
        None
    } else {
        let s = spec_trim(line.subrange(t + 1, line.len() as int));
        if s.len() == 0 {
            None
        } else {
            Some(s)
        }
    }
}

/// The sentences of the given lines, in order.
pub open spec fn spec_leipzig_lines(lines: Seq<Seq<char>>) -> Seq<Seq<char>>
    decreases lines.len(),
{
    if lines.len() == 0 {
        seq![]
    } else {
        let prev = spec_leipzig_lines(lines.drop_last());
        match spec_leipzig_sentence(lines.last()) {
            Some(s) => prev.push(s),
            None => prev,
        }
    }
}

/// The sentences of a Leipzig sentences file.
pub open spec fn spec_leipzig_sentences(content: Seq<char>) -> Seq<Seq<char>> {
    spec_leipzig_lines(spec_lines(content))
}

fn leipzig_sentence(line: &[char]) -> (res: Option<String>)
    ensures
        match res {
            Some(s) => spec_leipzig_sentence(line@) == Some(s@),
            None => spec_leipzig_sentence(line@) is None,
        },
{
    proof {
        lemma_next_index_of(line@, '\t', 0);
    }
    match find_char(line, '\t', 0) {
        None => None,
        Some(t) => {
            let mut rest: Vec<char> = Vec::new();
            let mut k = t + 1;
            while k < line.len()
                invariant
                    t < line.len(),
                    t + 1 <= k <= line.len(),
                    rest@ == line@.subrange(t + 1, k as int),
                decreases line.len() - k,
            {
                rest.push(line[k]);
                assert(rest@ =~= line@.subrange(t + 1, k + 1));
                k += 1;
            }
            let trimmed = trim_chars(rest.as_slice());
            if trimmed.len() == 0 {
                None
            } else {
                Some(string_from_chars(trimmed.as_slice()))
            }
        },
    }
}

/// The sentences of a Leipzig `<id>\t<sentence>` file: for each line with a
/// tab, the trimmed text after it, when not empty.
pub fn leipzig_sentences(content: &str) -> (res: Vec<String>)
    ensures
        res.deep_view() == spec_leipzig_sentences(content@),
{
    let ls = lines(content);
    let ghost lv = ls.deep_view();
    let mut out: Vec<String> = Vec::new();
    let mut i: usize = 0;
    while i < ls.len()
        invariant
            lv == ls.deep_view(),
            lv == spec_lines(content@),
            i <= ls.len(),
            out.deep_view() == spec_leipzig_lines(lv.subrange(0, i as int)),
        decreases ls.len() - i,
    {
        assert(lv.subrange(0, i + 1).drop_last() =~= lv.subrange(0, i as int));
        assert(lv[i as int] =~= ls@[i as int]@);
        if let Some(s) = leipzig_sentence(ls[i].as_slice()) {
            let ghost before = out.deep_view();
            out.push(s);
            assert(out.deep_view() =~= before.push(s@));
        }
        i += 1;
    }
    assert(lv.subrange(0, ls.len() as int) =~= lv);
    out
}

/// The paragraphs made of `size` consecutive sentences each, joined with a
/// space; sentences left over at the end are dropped.
pub open spec fn spec_paragraphs(sentences: Seq<Seq<char>>, size: nat) -> Seq<Seq<char>> {
    Seq::new(
        sentences.len() / size,
        |k: int| spec_join(sentences.subrange(k * size, k * size + size), " "@),
    )
}

/// Groups consecutive sentences into paragraphs of exactly `size` sentences.
pub fn group_paragraphs(sentences: &[String], size: usize) -> (res: Vec<String>)
    requires
        size > 0,
    ensures
        res.deep_view() == spec_paragraphs(sentences.deep_view(), size as nat),
{
    let ghost ss = sentences.deep_view();
    let ghost n = ss.len() / (size as nat);
    let mut out: Vec<String> = Vec::new();
    let mut i: usize = 0;
    assert(out.len() * size == 0) by (nonlinear_arith)
        requires
            out.len() == 0,
    ;
    assert(out.len() <= n) by (nonlinear_arith)
        requires
            out.len() == 0,
            n == ss.len() / (size as nat),
            size > 0,
    ;
    while size <= sentences.len() - i
        invariant
            ss == sentences.deep_view(),
            size > 0,
            i <= sentences.len(),
            i == out.len() * size,
            out.len() <= n,
            n == ss.len() / (size as nat),
            out.deep_view() == spec_paragraphs(ss, size as nat).subrange(0, out.len() as int),
        decreases sentences.len() - i,
    {
        let ghost k = out.len() as int;
        proof {
            assert((k + 1) * size <= ss.len()) by (nonlinear_arith)
                requires
                    i == k * size,
                    size <= ss.len() - i,
            ;
            assert(k + 1 <= ss.len() / (size as nat)) by (nonlinear_arith)
                requires
                    (k + 1) * size <= ss.len(),
                    size > 0,
                    k >= 0,
            ;
        }
        let chunk = &sentences[i..i + size];
        assert(chunk.deep_view() =~= ss.subrange(k * size, k * size + size));
        let p = join(chunk, " ");
        proof {
            reveal_strlit(" ");
        }
        let ghost before = out.deep_view();
        out.push(p);
        assert(out.deep_view() =~= before.push(p@));
        assert(out.deep_view() =~= spec_paragraphs(ss, size as nat).subrange(0, k + 1));
        i = i + size;
        assert(i == (k + 1) * size) by (nonlinear_arith)
            requires
                i == k * size + size,
        ;
    }
    proof {
        let k = out.len() as int;
        assert(k == ss.len() / (size as nat)) by (nonlinear_arith)
            requires
                i == k * size,
                ss.len() - i < size,
                i <= ss.len(),
                size > 0,
        ;
    }
    assert(spec_paragraphs(ss, size as nat).subrange(0, out.len() as int) =~= spec_paragraphs(
        ss,
        size as nat,
    ));
    out
}

/// At most `samples` of `v`: when there are more, the first `samples` slots
/// after that many Fisher-Yates steps from generator state `rng`.
pub open spec fn spec_sample<T>(v: Seq<T>, samples: nat, rng: u64) -> Seq<T> {
    if v.len() > samples {
        spec_shuffle_steps(v, 0, samples as int, rng).take(samples as int)
    } else {
        v
    }
}

/// Picks `samples` of the paragraphs without bias toward the start of the
/// file (a partial Fisher-Yates shuffle); keeps all when there are no more.
pub fn sample_paragraphs(paragraphs: Vec<String>, samples: usize, rng: u64) -> (res: Vec<String>)
    ensures
        res@ == spec_sample(paragraphs@, samples as nat, rng),
{
    let mut v = paragraphs;
    let keep = if v.len() < samples {
        v.len()
    } else {
        samples
    };
    if v.len() > keep {
        proof {
            lemma_shuffle_permutes(paragraphs@, 0, keep as int, rng);
        }
        shuffle_prefix(&mut v, keep, rng);
        v.truncate(keep);
        assert(v@ =~= spec_sample(paragraphs@, samples as nat, rng));
    }
    v
}

/// A sample has `min(len, samples)` elements, each taken from the input as
/// often as it occurs there at most.
pub proof fn lemma_sample_sub_multiset<T>(v: Seq<T>, samples: nat, rng: u64)
    requires
        v.len() <= u64::MAX,
    ensures
        spec_sample(v, samples, rng).len() == if v.len() < samples {
            v.len()
        } else {
            samples
        },
        spec_sample(v, samples, rng).to_multiset().subset_of(v.to_multiset()),
{
    broadcast use vstd::seq_lib::group_to_multiset_ensures;
    broadcast use vstd::multiset::group_multiset_properties;

    if v.len() > samples {
        let w = spec_shuffle_steps(v, 0, samples as int, rng);
        lemma_shuffle_permutes(v, 0, samples as int, rng);
        lemma_take_sub_multiset(w, samples as int);
    }
}

proof fn lemma_take_sub_multiset<T>(w: Seq<T>, k: int)
    requires
        0 <= k <= w.len(),
    ensures
        w.take(k).to_multiset().subset_of(w.to_multiset()),
    decreases w.len() - k,
{
    broadcast use vstd::seq_lib::group_to_multiset_ensures;
    broadcast use vstd::multiset::group_multiset_properties;

    if k < w.len() {
        lemma_take_sub_multiset(w, k + 1);
        assert(w.take(k + 1) =~= w.take(k).push(w[k]));
        assert(w.take(k).to_multiset().subset_of(w.take(k + 1).to_multiset()));
    } else {
        assert(w.take(k) =~= w);
    }
}

/// Shuffles all elements (a full Fisher-Yates shuffle from generator state
/// `seed + 99`), so that a benchmark does not run one language after another.
pub fn shuffle_all(items: Vec<String>, seed: u64) -> (res: Vec<String>)
    ensures
        res@ == spec_shuffle_steps(
            items@,
            0,
            items@.len() as int,
            vstd::wrapping::u64_specs::wrapping_add(seed, 99),
        ),
{
    let mut v = items;
    let n = v.len();
    shuffle_prefix(&mut v, n, seed.wrapping_add(99));
    v
}

/// The sum of the bytes of `b`.
pub open spec fn spec_byte_sum(b: Seq<u8>) -> nat
    decreases b.len(),
{
    if b.len() == 0 {
        0
    } else {
        spec_byte_sum(b.drop_last()) + b.last() as nat
    }
}

/// The sampling seed of a language: `(seed + 1) * (sum of code bytes + 1)`, modulo 2^64.
pub open spec fn spec_language_rng(seed: u64, iso2: Seq<char>) -> u64 {
    vstd::wrapping::u64_specs::wrapping_mul(
        vstd::wrapping::u64_specs::wrapping_add(seed, 1),
        (spec_byte_sum(vstd::utf8::encode_utf8(iso2)) + 1) as u64,
    )
}

/// The generator state that samples the paragraphs of one language.
pub fn language_rng(seed: u64, iso2: &str) -> (res: u64)
    requires
        vstd::utf8::encode_utf8(iso2@).len() < 0x0100_0000_0000_0000,
    ensures
        res == spec_language_rng(seed, iso2@),
{
    let b = iso2.as_bytes();
    let mut sum: u64 = 0;
    let mut i: usize = 0;
    while i < b.len()
        invariant
            i <= b.len(),
            b.len() < 0x0100_0000_0000_0000,
            sum == spec_byte_sum(b@.subrange(0, i as int)),
            sum <= 255 * i,
        decreases b.len() - i,
    {
        assert(b@.subrange(0, i + 1).drop_last() =~= b@.subrange(0, i as int));
        sum = sum + b[i] as u64;
        i += 1;
    }
    assert(b@.subrange(0, b.len() as int) =~= b@);
    seed.wrapping_add(1).wrapping_mul(sum + 1)
}

/// The paragraphs of one language for the long-form benchmark: sentences
/// grouped `size` at a time, then `samples` of them picked with the
/// language's generator state.
pub open spec fn spec_language_paragraphs(
    sentences: Seq<Seq<char>>,
    size: nat,
    samples: nat,
    seed: u64,
    iso2: Seq<char>,
) -> Seq<Seq<char>> {
    spec_sample(spec_paragraphs(sentences, size), samples, spec_language_rng(seed, iso2))
}

/// Groups a language's sentences into paragraphs and samples them.
pub fn language_paragraphs(
    sentences: &[String],
    size: usize,
    samples: usize,
    seed: u64,
    iso2: &str,
) -> (res: Vec<String>)
    requires
        size > 0,
        vstd::utf8::encode_utf8(iso2@).len() < 0x0100_0000_0000_0000,
    ensures
        res.deep_view() == spec_language_paragraphs(
            sentences.deep_view(),
            size as nat,
            samples as nat,
            seed,
            iso2@,
        ),
{
    let paragraphs = group_paragraphs(sentences, size);
    let ghost pv = paragraphs@;
    let ghost pdv = paragraphs.deep_view();
    let count = paragraphs.len();
    assert(pv.len() <= u64::MAX) by {
        assert(count as int <= usize::MAX);
    }
    let rng = language_rng(seed, iso2);
    let res = sample_paragraphs(paragraphs, samples, rng);
    proof {
        let f = |s: String| s@;
        lemma_sample_map(pv, f, samples as nat, rng);
        assert(res.deep_view() =~= res@.map_values(f));
        assert(pdv =~= pv.map_values(f));
    }
    res
}

/// Shuffling commutes with mapping each element.
pub proof fn lemma_shuffle_map<T, U>(v: Seq<T>, f: spec_fn(T) -> U, i: int, stop: int, rng: u64)
    requires
        v.len() <= u64::MAX,
    ensures
        spec_shuffle_steps(v, i, stop, rng).map_values(f) == spec_shuffle_steps(
            v.map_values(f),
            i,
            stop,
            rng,
        ),
    decreases stop - i,
{
    let vm = v.map_values(f);
    if !(i < 0 || i >= stop || i >= v.len()) {
        let r = spec_lcg(rng);
        let m = (v.len() - i) as u64;
        assert(r % m < m) by (nonlinear_arith)
            requires
                m > 0,
        ;
        let j = i + (r % m) as int;
        let w = spec_swap(v, i, j);
        assert(spec_shuffle_steps(v, i, stop, rng) == spec_shuffle_steps(w, i + 1, stop, r)) by {
            reveal(spec_shuffle_steps);
        }
        assert(spec_shuffle_steps(vm, i, stop, rng) == spec_shuffle_steps(
            spec_swap(vm, i, j),
            i + 1,
            stop,
            r,
        )) by {
            reveal(spec_shuffle_steps);
        }
        assert(w.map_values(f) =~= spec_swap(vm, i, j));
        lemma_shuffle_map(w, f, i + 1, stop, r);
    } else {
        assert(spec_shuffle_steps(v, i, stop, rng) == v) by {
            reveal(spec_shuffle_steps);
        }
        assert(spec_shuffle_steps(vm, i, stop, rng) == vm) by {
            reveal(spec_shuffle_steps);
        }
    }
}

proof fn lemma_sample_map<T, U>(v: Seq<T>, f: spec_fn(T) -> U, samples: nat, rng: u64)
    requires
        v.len() <= u64::MAX,
    ensures
        spec_sample(v, samples, rng).map_values(f) == spec_sample(v.map_values(f), samples, rng),
{
    if v.len() > samples {
        let w = spec_shuffle_steps(v, 0, samples as int, rng);
        lemma_shuffle_map(v, f, 0, samples as int, rng);
        lemma_shuffle_permutes(v, 0, samples as int, rng);
        assert(w.take(samples as int).map_values(f) =~= w.map_values(f).take(samples as int));
    }
}

/// The JSON array a benchmark fixture holds: one escaped string per line,
/// indented by two spaces.
pub open spec fn spec_json_array(items: Seq<Seq<char>>) -> Seq<char> {
    "["@ + spec_join(items.map_values(|it: Seq<char>| "\n  "@ + spec_json_escape(it)), ","@) + (
    if items.len() > 0 {
        "\n"@
    } else {
        seq![]
    }) + "]\n"@
}

/// Renders strings as a JSON array, one element per line.
pub fn json_array(items: &[String]) -> (res: String)
    ensures
        res@ == spec_json_array(items.deep_view()),
{
    let ghost iv = items.deep_view();
    let ghost parts = iv.map_values(|it: Seq<char>| "\n  "@ + spec_json_escape(it));
    let mut content = String::from_str("[");
    let mut i: usize = 0;
    while i < items.len()
        invariant
            iv == items.deep_view(),
            parts == iv.map_values(|it: Seq<char>| "\n  "@ + spec_json_escape(it)),
            i <= items.len(),
            content@ == "["@ + spec_join(parts.subrange(0, i as int), ","@),
        decreases items.len() - i,
    {
        assert(parts.subrange(0, i + 1).drop_last() =~= parts.subrange(0, i as int));
        assert(iv[i as int] == items@[i as int]@);
        if i > 0 {
            content.append(",");
        } else {
            assert(spec_join(parts.subrange(0, 0), ","@) =~= Seq::<char>::empty());
        }
        content.append("\n  ");
        let e = json_escape(items[i].as_str());
        content.append(e.as_str());
        assert(content@ =~= "["@ + spec_join(parts.subrange(0, i + 1), ","@));
        i += 1;
    }
    assert(parts.subrange(0, items.len() as int) =~= parts);
    if items.len() > 0 {
        content.append("\n");
    }
    content.append("]\n");
    content
}

/// The sentence of one line `<id>\t<lang>\t<text>` of a Tatoeba export,
/// when its language is `iso3` and its trimmed text has between `min_chars`
/// and `max_chars` chars.
pub open spec fn spec_tatoeba_sentence(
    line: Seq<char>,
    iso3: Seq<char>,
    min_chars: nat,
    max_chars: nat,
) -> Option<Seq<char>> {
    let t1 = next_index_of(line, '\t', 0);
    let t2 = next_index_of(line, '\t', t1 + 1);
    if t1 >= line.len() {
        None
    } else if line.subrange(t1 + 1, t2) != iso3 {
        None
    } else if t2 >= line.len() {
        None
    } else {
        let text = spec_trim(line.subrange(t2 + 1, line.len() as int));
        if text.len() < min_chars || text.len() > max_chars {
            None
        } else {
            Some(text)
        }
    }
}

/// Picks the sentence out of one Tatoeba export line, or nothing when the
/// line is malformed, in another language, or too short or too long.
pub fn tatoeba_sentence(line: &str, iso3: &str, min_chars: usize, max_chars: usize) -> (res: Option<String>)
    ensures
        match res {
            Some(s) => spec_tatoeba_sentence(line@, iso3@, min_chars as nat, max_chars as nat) == Some(s@),
            None => spec_tatoeba_sentence(line@, iso3@, min_chars as nat, max_chars as nat) is None,
        },
{
    let cs = chars_of(line);
    proof {
        lemma_next_index_of(cs@, '\t', 0);
    }
    let t1 = match find_char(cs.as_slice(), '\t', 0) {
        Some(t) => t,
        None => return None,
    };
    proof {
        lemma_next_index_of(cs@, '\t', t1 + 1);
    }
    let t2 = match find_char(cs.as_slice(), '\t', t1 + 1) {
        Some(t) => t,
        None => cs.len(),
    };
    let lang = crate::text::substring(cs.as_slice(), t1 + 1, t2);
    if !str_eq(lang.as_str(), iso3) {
        return None;
    }
    if t2 >= cs.len() {
        return None;
    }
    let mut rest: Vec<char> = Vec::new();
    let mut k = t2 + 1;
    while k < cs.len()
        invariant
            t2 < cs.len(),
            t2 + 1 <= k <= cs.len(),
            rest@ == cs@.subrange(t2 + 1, k as int),
        decreases cs.len() - k,
    {
        rest.push(cs[k]);
        assert(rest@ =~= cs@.subrange(t2 + 1, k + 1));
        k += 1;
    }
    let text = trim_chars(rest.as_slice());
    if text.len() < min_chars || text.len() > max_chars {
        return None;
    }
    Some(string_from_chars(text.as_slice()))
}

/// The abstract state of a reservoir sample.
pub struct ReservoirView {
    pub items: Seq<Seq<char>>,
    pub capacity: nat,
    pub seen: nat,
    pub rng: u64,
    pub offered: Seq<Seq<char>>,
}

/// A uniform sample of at most `capacity` of the texts offered so far
/// (reservoir sampling), driven by a deterministic generator.
pub struct Reservoir {
    items: Vec<String>,
    capacity: usize,
    seen: usize,
    rng: u64,
    offered: Ghost<Seq<Seq<char>>>,
}

impl View for Reservoir {
    type V = ReservoirView;

    closed spec fn view(&self) -> ReservoirView {
        ReservoirView {
            items: self.items.deep_view(),
            capacity: self.capacity as nat,
            seen: self.seen as nat,
            rng: self.rng,
            offered: self.offered@,
        }
    }
}

/// The reservoir after one more text is offered: kept while there is room;
/// then it replaces the slot `r % (seen + 1)` when that is a slot, `r` being
/// the next generator state.
pub open spec fn spec_offer(v: ReservoirView, text: Seq<char>) -> ReservoirView {
    if v.items.len() < v.capacity {
        ReservoirView {
            items: v.items.push(text),
            seen: v.seen + 1,
            offered: v.offered.push(text),
            ..v
        }
    } else {
        let r = spec_lcg(v.rng);
        let slot = (r % ((v.seen + 1) as u64)) as int;
        ReservoirView {
            items: if slot < v.capacity {
                v.items.update(slot, text)
            } else {
                v.items
            },
            seen: v.seen + 1,
            rng: r,
            offered: v.offered.push(text),
            ..v
        }
    }
}

/// Well-formed reservoir: it holds `min(capacity, seen)` texts, each one of
/// the texts offered, and has seen every text offered.
pub open spec fn reservoir_wf(v: ReservoirView) -> bool {
    &&& v.items.len() == if v.seen < v.capacity {
        v.seen
    } else {
        v.capacity
    }
    &&& v.seen == v.offered.len()
    &&& forall|k: int| 0 <= k < v.items.len() ==> v.offered.contains(#[trigger] v.items[k])
}

impl Reservoir {
    /// An empty reservoir of the given capacity; the generator starts at `seed + 1`.
    pub fn new(capacity: usize, seed: u64) -> (res: Reservoir)
        ensures
            res@.items == Seq::<Seq<char>>::empty(),
            res@.capacity == capacity,
            res@.seen == 0,
            res@.rng == vstd::wrapping::u64_specs::wrapping_add(seed, 1),
            res@.offered == Seq::<Seq<char>>::empty(),
            reservoir_wf(res@),
    {
        let r = Reservoir {
            items: Vec::new(),
            capacity,
            seen: 0,
            rng: seed.wrapping_add(1),
            offered: Ghost(Seq::empty()),
        };
        assert(r@.items =~= Seq::<Seq<char>>::empty());
        r
    }

    /// How many texts have been offered.
    pub fn seen(&self) -> (res: usize)
        ensures
            res == self@.seen,
    {
        self.seen
    }

    /// Offers one more text.
    pub fn offer(&mut self, text: String)
        requires
            old(self)@.seen < usize::MAX,
            reservoir_wf(old(self)@),
        ensures
            final(self)@ == spec_offer(old(self)@, text@),
            reservoir_wf(final(self)@),
    {
        let ghost old_v = self@;
        let ghost t = text@;
        if self.items.len() < self.capacity {
            self.items.push(text);
            assert(self.items.deep_view() =~= old_v.items.push(t));
        } else {
            let r = lcg_next(&mut self.rng);
            let slot = (r % (self.seen as u64 + 1)) as usize;
            if slot < self.capacity {
                self.items.set(slot, text);
                assert(self.items.deep_view() =~= old_v.items.update(slot as int, t));
            }
        }
        self.seen = self.seen + 1;
        proof {
            self.offered@ = self.offered@.push(t);
            assert forall|k: int| 0 <= k < self@.items.len() implies self@.offered.contains(
                #[trigger] self@.items[k],
            ) by {
                if self@.items[k] == t {
                    assert(self@.offered[self@.offered.len() - 1] == t);
                } else {
                    assert(old_v.offered.contains(self@.items[k]));
                    let m = choose|m: int| 0 <= m < old_v.offered.len() && old_v.offered[m] == self@.items[k];
                    assert(self@.offered[m] == self@.items[k]);
                }
            }
        }
    }

    /// The sampled texts.
    pub fn into_items(self) -> (res: Vec<String>)
        ensures
            res.deep_view() == self@.items,
    {
        self.items
    }
}

/// Whether `split` names a FLORES-200 split (`dev` or `devtest`).
pub open spec fn spec_flores_split_ok(split: Seq<char>) -> bool {
    split == seq!['d', 'e', 'v'] || split == seq!['d', 'e', 'v', 't', 'e', 's', 't']
}

/// Whether a FLORES-200 split is known.
pub fn flores_split_ok(split: &str) -> (res: bool)
    ensures
        res == spec_flores_split_ok(split@),
{
    proof {
        reveal_strlit("dev");
        reveal_strlit("devtest");
        assert("dev"@ =~= seq!['d', 'e', 'v']);
        assert("devtest"@ =~= seq!['d', 'e', 'v', 't', 'e', 's', 't']);
    }
    str_eq(split, "dev") || str_eq(split, "devtest")
}

/// The archive path `flores200_dataset/<split>/<code>.<split>` of one language.
pub fn flores_entry_path(split: &str, code: &str) -> (res: String)
    ensures
        res@ == "flores200_dataset/"@ + split@ + "/"@ + code@ + "."@ + split@,
{
    let mut p = String::from_str("flores200_dataset/");
    p.append(split);
    p.append("/");
    p.append(code);
    p.append(".");
    p.append(split);
    p
}

/// `raw` without a leading `./`.
pub open spec fn spec_strip_dot_slash(raw: Seq<char>) -> Seq<char> {
    if raw.len() >= 2 && raw[0] == '.' && raw[1] == '/' {
        raw.subrange(2, raw.len() as int)
    } else {
        raw
    }
}

/// Archive entry names start with `./`; this drops it.
pub fn strip_dot_slash(raw: &str) -> (res: String)
    ensures
        res@ == spec_strip_dot_slash(raw@),
{
    let cs = chars_of(raw);
    if cs.len() >= 2 && cs[0] == '.' && cs[1] == '/' {
        crate::text::substring(cs.as_slice(), 2, cs.len())
    } else {
        String::from_str(raw)
    }
}

/// The trimmed lines of `lines`, dropping those that are empty once trimmed.
pub open spec fn spec_nonempty_trimmed(lines: Seq<Seq<char>>) -> Seq<Seq<char>>
    decreases lines.len(),
{
    if lines.len() == 0 {
        seq![]
    } else {
        let prev = spec_nonempty_trimmed(lines.drop_last());
        let t = spec_trim(lines.last());
        if t.len() > 0 {
            prev.push(t)
        } else {
            prev
        }
    }
}

/// The sentences of a FLORES-200 file: its non-blank lines, trimmed.
pub fn nonempty_trimmed_lines(contents: &str) -> (res: Vec<String>)
    ensures
        res.deep_view() == spec_nonempty_trimmed(spec_lines(contents@)),
{
    let ls = lines(contents);
    let ghost lv = ls.deep_view();
    let mut out: Vec<String> = Vec::new();
    let mut i: usize = 0;
    while i < ls.len()
        invariant
            lv == ls.deep_view(),
            i <= ls.len(),
            out.deep_view() == spec_nonempty_trimmed(lv.subrange(0, i as int)),
        decreases ls.len() - i,
    {
        assert(lv.subrange(0, i + 1).drop_last() =~= lv.subrange(0, i as int));
        assert(lv[i as int] =~= ls@[i as int]@);
        let t = trim_chars(ls[i].as_slice());
        if t.len() > 0 {
            let s = string_from_chars(t.as_slice());
            let ghost before = out.deep_view();
            out.push(s);
            assert(out.deep_view() =~= before.push(s@));
        }
        i += 1;
    }
    assert(lv.subrange(0, ls.len() as int) =~= lv);
    out
}

/// One fixture line: `<iso2>\t<sentence>\n`, tabs and line breaks in the
/// sentence turned into spaces.
pub open spec fn spec_fixture_line(iso2: Seq<char>, sentence: Seq<char>) -> Seq<char> {
    iso2 + seq!['\t'] + crate::text::spec_flatten_whitespace(sentence) + seq!['\n']
}

/// The fixture lines of one language's sentences, concatenated.
pub open spec fn spec_fixture_lines(iso2: Seq<char>, sentences: Seq<Seq<char>>) -> Seq<char>
    decreases sentences.len(),
{
    if sentences.len() == 0 {
        seq![]
    } else {
        spec_fixture_lines(iso2, sentences.drop_last()) + spec_fixture_line(iso2, sentences.last())
    }
}

/// Appends the fixture lines of one language's sentences to `content`.
pub fn append_fixture_lines(content: &mut String, iso2: &str, sentences: &[String])
    ensures
        final(content)@ == old(content)@ + spec_fixture_lines(iso2@, sentences.deep_view()),
{
    let ghost sv = sentences.deep_view();
    let ghost start = content@;
    let mut i: usize = 0;
    while i < sentences.len()
        invariant
            sv == sentences.deep_view(),
            i <= sentences.len(),
            content@ == start + spec_fixture_lines(iso2@, sv.subrange(0, i as int)),
        decreases sentences.len() - i,
    {
        assert(sv.subrange(0, i + 1).drop_last() =~= sv.subrange(0, i as int));
        assert(sv[i as int] == sentences@[i as int]@);
        let cleaned = crate::text::flatten_whitespace(sentences[i].as_str());
        content.append(iso2);
        push_char(content, '\t');
        content.append(cleaned.as_str());
        push_char(content, '\n');
        assert(content@ =~= start + spec_fixture_lines(iso2@, sv.subrange(0, i + 1)));
        i += 1;
    }
    assert(sv.subrange(0, sentences.len() as int) =~= sv);
}

/// An ASCII decimal digit char.
pub open spec fn is_digit_char(c: char) -> bool {
    '0' <= c <= '9'
}

/// The number the decimal digits `d` spell.
pub open spec fn spec_digits_value(d: Seq<char>) -> nat
    decreases d.len(),
{
    if d.len() == 0 {
        0
    } else {
        spec_digits_value(d.drop_last()) * 10 + ((d.last() as nat) - 48) as nat
    }
}

/// `s` without a leading `+`.
pub open spec fn spec_digits_part(s: Seq<char>) -> Seq<char> {
    if s.len() > 0 && s[0] == '+' {
        s.drop_first()
    } else {
        s
    }
}

/// `str::parse::<u64>`: an optional `+`, then one or more decimal digits,
/// whose value fits in 64 bits.
pub open spec fn spec_parse_u64(s: Seq<char>) -> Option<u64> {
    let d = spec_digits_part(s);
    if d.len() == 0 || !(forall|k: int| 0 <= k < d.len() ==> is_digit_char(#[trigger] d[k])) {
        None
    } else if spec_digits_value(d) > u64::MAX {
        None
    } else {
        Some(spec_digits_value(d) as u64)
    }
}

proof fn lemma_digits_value_prefix_monotone(d: Seq<char>, k: int)
    requires
        0 <= k <= d.len(),
        forall|m: int| 0 <= m < d.len() ==> is_digit_char(#[trigger] d[m]),
    ensures
        spec_digits_value(d.take(k)) <= spec_digits_value(d),
    decreases d.len() - k,
{
    if k < d.len() {
        lemma_digits_value_prefix_monotone(d, k + 1);
        assert(d.take(k + 1).drop_last() =~= d.take(k));
    } else {
        assert(d.take(k) =~= d);
    }
}

/// Parses an unsigned decimal number as `str::parse::<u64>` does.
pub fn parse_u64(s: &[char]) -> (res: Option<u64>)
    ensures
        res == spec_parse_u64(s@),
{
    let start: usize = if s.len() > 0 && s[0] == '+' {
        1
    } else {
        0
    };
    let ghost d = s@.subrange(start as int, s@.len() as int);
    assert(d =~= spec_digits_part(s@));
    if start >= s.len() {
        return None;
    }
    let mut k = start;
    while k < s.len()
        invariant
            start <= k <= s.len(),
            d == s@.subrange(start as int, s@.len() as int),
            d == spec_digits_part(s@),
            forall|m: int| 0 <= m < k - start ==> is_digit_char(#[trigger] d[m]),
        decreases s.len() - k,
    {
        assert(d[k - start] == s@[k as int]);
        if !('0' <= s[k] && s[k] <= '9') {
            assert(!is_digit_char(d[k - start]));
            assert(!(forall|m: int| 0 <= m < d.len() ==> is_digit_char(#[trigger] d[m])));
            return None;
        }
        k += 1;
    }
    let mut value: u64 = 0;
    let mut k = start;
    while k < s.len()
        invariant
            start <= k <= s.len(),
            d == s@.subrange(start as int, s@.len() as int),
            d == spec_digits_part(s@),
            forall|m: int| 0 <= m < d.len() ==> is_digit_char(#[trigger] d[m]),
            value == spec_digits_value(d.take(k - start)),
        decreases s.len() - k,
    {
        assert(d.take(k - start + 1).drop_last() =~= d.take(k - start));
        assert(d[k - start] == s@[k as int]);
        assert(is_digit_char(d[k - start]));
        let digit = (s[k] as u32 - 48) as u64;
        assert(d.take(k - start + 1).last() == s@[k as int]);
        assert(spec_digits_value(d.take(k - start + 1)) == value * 10 + digit);
        if value > (u64::MAX - digit) / 10 {
            proof {
                assert(spec_digits_value(d.take(k - start + 1)) > u64::MAX) by (nonlinear_arith)
                    requires
                        value > (u64::MAX - digit) / 10,
                        spec_digits_value(d.take(k - start + 1)) == value * 10 + digit,
                        digit <= 9,
                ;
                lemma_digits_value_prefix_monotone(d, k - start + 1);
            }
            return None;
        }
        value = value * 10 + digit;
        k += 1;
    }
    assert(d.take(d.len() as int) =~= d);
    Some(value)
}

/// Index of the first whitespace char at or after `i`, or the length.
pub open spec fn next_whitespace(s: Seq<char>, i: int) -> int
    decreases s.len() - i,
{
    if i < 0 || i >= s.len() || spec_is_whitespace(s[i]) {
        i
    } else {
        next_whitespace(s, i + 1)
    }
}

/// The whitespace-separated fields of `s` from index `i` on (`split_whitespace`).
pub open spec fn spec_fields_from(s: Seq<char>, i: int) -> Seq<Seq<char>>
    decreases s.len() - i,
{
    let a = skip_leading_ws(s, i);
    if i < 0 || a < i || a >= s.len() {
        seq![]
    } else {
        let b = next_whitespace(s, a);
        if b <= a || b > s.len() {
            seq![]
        } else {
            seq![s.subrange(a, b)] + spec_fields_from(s, b)
        }
    }
}

/// The whitespace-separated fields of `s`.
pub open spec fn spec_fields(s: Seq<char>) -> Seq<Seq<char>> {
    spec_fields_from(s, 0)
}

proof fn lemma_skip_ws_bounds(s: Seq<char>, i: int)
    requires
        0 <= i <= s.len(),
    ensures
        i <= skip_leading_ws(s, i) <= s.len(),
        skip_leading_ws(s, i) < s.len() ==> !spec_is_whitespace(s[skip_leading_ws(s, i)]),
    decreases s.len() - i,
{
    if i < s.len() && spec_is_whitespace(s[i]) {
        lemma_skip_ws_bounds(s, i + 1);
    }
}

proof fn lemma_next_ws_bounds(s: Seq<char>, i: int)
    requires
        0 <= i <= s.len(),
    ensures
        i <= next_whitespace(s, i) <= s.len(),
    decreases s.len() - i,
{
    if i < s.len() && !spec_is_whitespace(s[i]) {
        lemma_next_ws_bounds(s, i + 1);
    }
}

/// The next field at or after `i`: its start and end, if any.
fn next_field(s: &[char], i: usize) -> (res: Option<(usize, usize)>)
    requires
        i <= s.len(),
    ensures
        match res {
            Some((a, b)) => {
                &&& a == skip_leading_ws(s@, i as int)
                &&& b == next_whitespace(s@, a as int)
                &&& i <= a < b <= s.len()
            },
            None => skip_leading_ws(s@, i as int) >= s.len(),
        },
{
    let mut a = i;
    while a < s.len() && is_whitespace(s[a])
        invariant
            i <= a <= s.len(),
            skip_leading_ws(s@, a as int) == skip_leading_ws(s@, i as int),
        decreases s.len() - a,
    {
        a += 1;
    }
    if a >= s.len() {
        return None;
    }
    let mut b = a;
    while b < s.len() && !is_whitespace(s[b])
        invariant
            a <= b <= s.len(),
            next_whitespace(s@, b as int) == next_whitespace(s@, a as int),
        decreases s.len() - b,
    {
        b += 1;
    }
    Some((a, b))
}

/// The first two whitespace-separated fields of `s`, if it has two.
pub fn first_two_fields(s: &[char]) -> (res: Option<(String, String)>)
    ensures
        match res {
            Some((x, y)) => spec_fields(s@).len() >= 2 && x@ == spec_fields(s@)[0] && y@
                == spec_fields(s@)[1],
            None => spec_fields(s@).len() < 2,
        },
{
    proof {
        reveal_with_fuel(spec_fields_from, 3);
    }
    match next_field(s, 0) {
        None => None,
        Some((a, b)) => {
            let first = crate::text::substring(s, a, b);
            match next_field(s, b) {
                None => {
                    assert(spec_fields_from(s@, b as int) =~= Seq::<Seq<char>>::empty());
                    None
                },
                Some((c, d)) => {
                    let second = crate::text::substring(s, c, d);
                    Some((first, second))
                },
            }
        },
    }
}

/// One parsed line of a frequency list `<word> <count>`: the word (which must
/// hold an alphabetic char), NFKC-normalized and lowercased, and the count.
pub open spec fn spec_frequency_line(line: Seq<char>) -> Option<(Seq<char>, u64)> {
    let f = spec_fields(line);
    if f.len() < 2 {
        None
    } else {
        match spec_parse_u64(f[1]) {
            None => None,
            Some(freq) => if !crate::tokenize::spec_has_alphabetic(f[0]) {
                None
            } else {
                Some((crate::tokenize::spec_normalize(f[0]), freq))
            },
        }
    }
}

/// Whether `w` is the word of one of the entries.
pub open spec fn entries_have_word(entries: Seq<(Seq<char>, u64)>, w: Seq<char>) -> bool {
    exists|k: int| 0 <= k < entries.len() && (#[trigger] entries[k]).0 == w
}

/// The entries of a frequency list read from line `i` on: each well-formed
/// line adds its word with its count unless the word is empty or already
/// there; reading stops as soon as `top_n` entries are held, so a `top_n` of
/// zero keeps none.
pub open spec fn spec_frequency_from(
    lines: Seq<Seq<char>>,
    i: int,
    acc: Seq<(Seq<char>, u64)>,
    top_n: nat,
) -> Seq<(Seq<char>, u64)>
    decreases lines.len() - i,
{
    if i < 0 || i >= lines.len() || acc.len() >= top_n {
        acc
    } else {
        match spec_frequency_line(lines[i]) {
            Some((w, freq)) => if w.len() == 0 || entries_have_word(acc, w) {
                spec_frequency_from(lines, i + 1, acc, top_n)
            } else {
                spec_frequency_from(lines, i + 1, acc.push((w, freq)), top_n)
            },
            None => spec_frequency_from(lines, i + 1, acc, top_n),
        }
    }
}

/// The entries of a frequency-list body.
pub open spec fn spec_frequency_list(body: Seq<char>, top_n: nat) -> Seq<(Seq<char>, u64)> {
    spec_frequency_from(spec_lines(body), 0, seq![], top_n)
}

/// The abstract view of parsed entries.
pub open spec fn entries_view(v: Seq<(String, u64)>) -> Seq<(Seq<char>, u64)> {
    v.map_values(|e: (String, u64)| (e.0@, e.1))
}

fn has_word(entries: &Vec<(String, u64)>, w: &str) -> (res: bool)
    ensures
        res == entries_have_word(entries_view(entries@), w@),
{
    let mut k: usize = 0;
    while k < entries.len()
        invariant
            k <= entries.len(),
            forall|m: int| 0 <= m < k ==> (#[trigger] entries@[m]).0@ != w@,
        decreases entries.len() - k,
    {
        if str_eq(entries[k].0.as_str(), w) {
            assert(entries_view(entries@)[k as int].0 == w@);
            return true;
        }
        k += 1;
    }
    assert forall|m: int| 0 <= m < entries@.len() implies (#[trigger] entries_view(entries@)[m]).0
        != w@ by {
        assert(entries_view(entries@)[m].0 == entries@[m].0@);
    }
    false
}

/// Parses one frequency-list line.
pub fn frequency_line(line: &[char]) -> (res: Option<(String, u64)>)
    ensures
        match res {
            Some((w, f)) => spec_frequency_line(line@) == Some((w@, f)),
            None => spec_frequency_line(line@) is None,
        },
{
    match first_two_fields(line) {
        None => None,
        Some((word, count)) => {
            let cc = chars_of(count.as_str());
            match parse_u64(cc.as_slice()) {
                None => None,
                Some(freq) => {
                    if !crate::tokenize::has_alphabetic(word.as_str()) {
                        return None;
                    }
                    let n = crate::tokenize::normalize(word.as_str());
                    Some((n, freq))
                },
            }
        },
    }
}

/// Reads a frequency list: each `<word> <count>` line contributes its
/// normalized word once, in file order, until `top_n` words are collected.
pub fn parse_frequency_list(body: &str, top_n: usize) -> (res: Vec<(String, u64)>)
    ensures
        entries_view(res@) == spec_frequency_list(body@, top_n as nat),
{
    let ls = lines(body);
    let ghost lv = ls.deep_view();
    let mut entries: Vec<(String, u64)> = Vec::new();
    let mut i: usize = 0;
    assert(entries_view(entries@) =~= Seq::<(Seq<char>, u64)>::empty());
    while i < ls.len()
        invariant_except_break
            lv == ls.deep_view(),
            lv == spec_lines(body@),
            i <= ls.len(),
            spec_frequency_from(lv, i as int, entries_view(entries@), top_n as nat)
                == spec_frequency_list(body@, top_n as nat),
        ensures
            entries_view(entries@) == spec_frequency_list(body@, top_n as nat),
        decreases ls.len() - i,
    {
        if entries.len() >= top_n {
            break;
        }
        assert(lv[i as int] =~= ls@[i as int]@);
        match frequency_line(ls[i].as_slice()) {
            None => {},
            Some((w, freq)) => {
                if !w.as_str().is_empty() && !has_word(&entries, w.as_str()) {
                    let ghost before = entries_view(entries@);
                    let ghost wv = w@;
                    entries.push((w, freq));
                    assert(entries_view(entries@) =~= before.push((wv, freq)));
                }
            },
        }
        i += 1;
    }
    entries
}

proof fn lemma_frequency_from_len(lines: Seq<Seq<char>>, i: int, acc: Seq<(Seq<char>, u64)>, top_n: nat)
    requires
        acc.len() <= top_n,
    ensures
        spec_frequency_from(lines, i, acc, top_n).len() <= top_n,
    decreases lines.len() - i,
{
    if 0 <= i < lines.len() && acc.len() < top_n {
        match spec_frequency_line(lines[i]) {
            Some((w, freq)) => {
                lemma_frequency_from_len(lines, i + 1, acc, top_n);
                lemma_frequency_from_len(lines, i + 1, acc.push((w, freq)), top_n);
            },
            None => {
                lemma_frequency_from_len(lines, i + 1, acc, top_n);
            },
        }
    }
}

/// A frequency list never yields more than `top_n` entries; with `top_n`
/// zero it yields none.
pub proof fn lemma_frequency_list_at_most_top_n(body: Seq<char>, top_n: nat)
    ensures
        spec_frequency_list(body, top_n).len() <= top_n,
{
    lemma_frequency_from_len(spec_lines(body), 0, seq![], top_n);
}

/// The word list file: the first `dict_size` words, one per line.
pub open spec fn spec_words_file(entries: Seq<(Seq<char>, u64)>, dict_size: nat) -> Seq<char> {
    let n = if entries.len() < dict_size {
        entries.len()
    } else {
        dict_size
    };
    spec_join(entries.take(n as int).map_values(|e: (Seq<char>, u64)| e.0), "\n"@) + "\n"@
}

/// Renders the word list file of a language.
pub fn words_file(entries: &[(String, u64)], dict_size: usize) -> (res: String)
    ensures
        res@ == spec_words_file(entries_view(entries@), dict_size as nat),
{
    let n = if entries.len() < dict_size {
        entries.len()
    } else {
        dict_size
    };
    let mut words: Vec<String> = Vec::new();
    let mut k: usize = 0;
    while k < n
        invariant
            n <= entries.len(),
            k <= n,
            words.deep_view() == entries_view(entries@).take(k as int).map_values(
                |e: (Seq<char>, u64)| e.0,
            ),
        decreases n - k,
    {
        let ghost before = words.deep_view();
        let ghost ev = entries_view(entries@);
        let w = entries[k].0.clone();
        assert(ev.take(k + 1) =~= ev.take(k as int).push(ev[k as int]));
        assert(ev[k as int].0 == w@);
        words.push(w);
        assert(words.deep_view() =~= before.push(w@));
        assert(words.deep_view() =~= entries_view(entries@).take(k + 1).map_values(
            |e: (Seq<char>, u64)| e.0,
        ));
        k += 1;
    }
    let mut content = join(words.as_slice(), "\n");
    content.append("\n");
    content
}

/// The decimal digit char of `d`.
pub open spec fn digit_char(d: nat) -> char {
    ((0x30 + d) as u32) as char
}

/// The decimal numeral of `n`, without leading zeros.
pub open spec fn spec_decimal(n: nat) -> Seq<char>
    decreases n,
{
    if n < 10 {
        seq![digit_char(n)]
    } else {
        spec_decimal(n / 10).push(digit_char(n % 10))
    }
}

/// Appends the decimal numeral of `n` to `s`.
fn push_decimal(s: &mut String, n: u64)
    ensures
        final(s)@ == old(s)@ + spec_decimal(n as nat),
    decreases n,
{
    if n >= 10 {
        push_decimal(s, n / 10);
    }
    push_char(s, char_of_ascii((0x30 + n % 10) as u8));
    assert(((0x30 + n % 10) as u8) as u32 == (0x30 + n % 10) as u32);
}

/// The header of the Tatoeba accuracy fixture: three comment lines naming the
/// fixture, its source and its license, a comment line with the parameters,
/// and a blank line.
pub open spec fn spec_tatoeba_header(seed: nat, samples: nat, min_chars: nat, max_chars: nat) -> Seq<
    char,
> {
    "# Accuracy-benchmark fixtures (large) \u{2014} from `cargo xtask fetch-eval`.\n"@
        + "# Source: Tatoeba.org \u{2014} https://downloads.tatoeba.org/\n"@
        + "# License: CC-BY 2.0 FR (https://creativecommons.org/licenses/by/2.0/fr/)\n"@
        + "# Params: seed="@ + spec_decimal(seed) + ", samples="@ + spec_decimal(samples)
        + ", min_chars="@ + spec_decimal(min_chars) + ", max_chars="@ + spec_decimal(max_chars)
        + "\n\n"@
}

/// The header lines of the Tatoeba accuracy fixture.
pub fn tatoeba_fixture_header(seed: u64, samples: usize, min_chars: usize, max_chars: usize) -> (res:
    String)
    ensures
        res@ == spec_tatoeba_header(seed as nat, samples as nat, min_chars as nat, max_chars as nat),
{
    let mut s = String::from_str(
        "# Accuracy-benchmark fixtures (large) \u{2014} from `cargo xtask fetch-eval`.\n",
    );
    s.append("# Source: Tatoeba.org \u{2014} https://downloads.tatoeba.org/\n");
    s.append("# License: CC-BY 2.0 FR (https://creativecommons.org/licenses/by/2.0/fr/)\n");
    s.append("# Params: seed=");
    push_decimal(&mut s, seed);
    s.append(", samples=");
    push_decimal(&mut s, samples as u64);
    s.append(", min_chars=");
    push_decimal(&mut s, min_chars as u64);
    s.append(", max_chars=");
    push_decimal(&mut s, max_chars as u64);
    s.append("\n\n");
    s
}

/// The header of the FLORES-200 accuracy fixture: three comment lines naming
/// the fixture, its source and its license, a comment line with the split,
/// and a blank line.
pub open spec fn spec_flores_header(split: Seq<char>) -> Seq<char> {
    "# Accuracy-benchmark fixture (FLORES-200) \u{2014} from `cargo xtask fetch-flores`.\n"@
        + "# Source: FLORES-200 \u{2014} https://github.com/facebookresearch/flores\n"@
        + "# License: CC-BY-SA 4.0 (https://creativecommons.org/licenses/by-sa/4.0/)\n"@
        + "# Split: "@ + split + "\n\n"@
}

/// The header lines of the FLORES-200 accuracy fixture.
pub fn flores_fixture_header(split: &str) -> (res: String)
    ensures
        res@ == spec_flores_header(split@),
{
    let mut s = String::from_str(
        "# Accuracy-benchmark fixture (FLORES-200) \u{2014} from `cargo xtask fetch-flores`.\n",
    );
    s.append("# Source: FLORES-200 \u{2014} https://github.com/facebookresearch/flores\n");
    s.append("# License: CC-BY-SA 4.0 (https://creativecommons.org/licenses/by-sa/4.0/)\n");
    s.append("# Split: ");
    s.append(split);
    s.append("\n\n");
    s
}

/// The error for a paragraph size the Leipzig bench cannot use: a size of
/// zero is refused with "--paragraph-size must be >= 1"; any other size is
/// fine.
pub fn paragraph_size_error(size: usize) -> (res: Option<String>)
    ensures
        match res {
            Some(m) => size == 0 && m@ == "--paragraph-size must be >= 1"@,
            None => size >= 1,
        },
{
    if size == 0 {
        Some(String::from_str("--paragraph-size must be >= 1"))
    } else {
        None
    }
}

/// Whether some string of `found` equals `s`.
fn contains_str(found: &[String], s: &str) -> (res: bool)
    ensures
        res == found.deep_view().contains(s@),
{
    let ghost fv = found.deep_view();
    let mut k: usize = 0;
    while k < found.len()
        invariant
            fv == found.deep_view(),
            k <= found.len(),
            forall|j: int| 0 <= j < k ==> fv[j] != s@,
        decreases found.len() - k,
    {
        if str_eq(found[k].as_str(), s) {
            assert(fv[k as int] == s@);
            return true;
        }
        k += 1;
    }
    false
}

/// The position of the first language of `langs` for which nothing was
/// found, or `None` when every one was found.
pub fn first_missing_language(langs: &[String], found: &[String]) -> (res: Option<usize>)
    ensures
        match res {
            Some(i) => i < langs.len() && !found.deep_view().contains(langs.deep_view()[i as int])
                && forall|j: int| 0 <= j < i ==> found.deep_view().contains(#[trigger] langs.deep_view()[j]),
            None => forall|j: int| 0 <= j < langs.len() ==> found.deep_view().contains(#[trigger] langs.deep_view()[j]),
        },
{
    let mut i: usize = 0;
    while i < langs.len()
        invariant
            i <= langs.len(),
            forall|j: int| 0 <= j < i ==> found.deep_view().contains(#[trigger] langs.deep_view()[j]),
        decreases langs.len() - i,
    {
        if !contains_str(found, langs[i].as_str()) {
            return Some(i);
        }
        i += 1;
    }
    None
}

/// Every entry of `acc` comes from a well-formed line before `i`.
spec fn entries_from_lines(lines: Seq<Seq<char>>, i: int, acc: Seq<(Seq<char>, u64)>) -> bool {
    forall|x: int|
        0 <= x < acc.len() ==> exists|m: int|
            0 <= m < i && spec_frequency_line(#[trigger] lines[m]) == Some(#[trigger] acc[x])
}

/// Every non-empty word of a well-formed line before `i` is held in `acc`.
spec fn lines_covered(lines: Seq<Seq<char>>, i: int, acc: Seq<(Seq<char>, u64)>) -> bool {
    forall|m: int|
        0 <= m < i && #[trigger] spec_frequency_line(lines[m]) is Some && spec_frequency_line(
            lines[m],
        )->Some_0.0.len() > 0 ==> exists|x: int|
            0 <= x < acc.len() && acc[x].0 == spec_frequency_line(lines[m])->Some_0.0
}

/// No two entries share a word, and no word is empty.
spec fn words_distinct(acc: Seq<(Seq<char>, u64)>) -> bool {
    &&& forall|x: int, y: int| 0 <= x < y < acc.len() ==> #[trigger] acc[x].0 != #[trigger] acc[y].0
    &&& forall|x: int| 0 <= x < acc.len() ==> (#[trigger] acc[x]).0.len() > 0
}

proof fn lemma_frequency_from_shape(
    lines: Seq<Seq<char>>,
    i: int,
    acc: Seq<(Seq<char>, u64)>,
    top_n: nat,
)
    requires
        0 <= i <= lines.len(),
        words_distinct(acc),
        entries_from_lines(lines, i, acc),
        lines_covered(lines, i, acc),
    ensures
        words_distinct(spec_frequency_from(lines, i, acc, top_n)),
        entries_from_lines(lines, lines.len() as int, spec_frequency_from(lines, i, acc, top_n)),
        spec_frequency_from(lines, i, acc, top_n).len() < top_n ==> lines_covered(
            lines,
            lines.len() as int,
            spec_frequency_from(lines, i, acc, top_n),
        ),
    decreases lines.len() - i,
{
    if i >= lines.len() || acc.len() >= top_n {
        assert forall|x: int| 0 <= x < acc.len() implies exists|m: int|
            0 <= m < lines.len() && spec_frequency_line(#[trigger] lines[m]) == Some(
                #[trigger] acc[x],
            ) by {
            let m = choose|m: int| 0 <= m < i && spec_frequency_line(#[trigger] lines[m]) == Some(acc[x]);
        }
    } else {
        match spec_frequency_line(lines[i]) {
            Some((w, freq)) => {
                if w.len() == 0 || entries_have_word(acc, w) {
                    assert forall|x: int| 0 <= x < acc.len() implies exists|m: int|
                        0 <= m < i + 1 && spec_frequency_line(#[trigger] lines[m]) == Some(
                            #[trigger] acc[x],
                        ) by {
                        let m = choose|m: int|
                            0 <= m < i && spec_frequency_line(#[trigger] lines[m]) == Some(acc[x]);
                    }
                    assert forall|m: int|
                        0 <= m < i + 1 && #[trigger] spec_frequency_line(lines[m]) is Some
                            && spec_frequency_line(lines[m])->Some_0.0.len() > 0 implies exists|x: int|
                        0 <= x < acc.len() && acc[x].0 == spec_frequency_line(lines[m])->Some_0.0 by {
                        if m == i {
                            let k = choose|k: int| 0 <= k < acc.len() && (#[trigger] acc[k]).0 == w;
                        }
                    }
                    lemma_frequency_from_shape(lines, i + 1, acc, top_n);
                } else {
                    let acc2 = acc.push((w, freq));
                    assert forall|x: int, y: int| 0 <= x < y < acc2.len() implies #[trigger] acc2[x].0
                        != #[trigger] acc2[y].0 by {
                        if y == acc.len() {
                            assert(acc2[x] == acc[x]);
                            if acc[x].0 == w {
                                assert(entries_have_word(acc, w));
                            }
                        } else {
                            assert(acc2[x] == acc[x] && acc2[y] == acc[y]);
                        }
                    }
                    assert forall|x: int| 0 <= x < acc2.len() implies (#[trigger] acc2[x]).0.len() > 0 by {
                        if x < acc.len() {
                            assert(acc2[x] == acc[x]);
                        }
                    }
                    assert forall|x: int| 0 <= x < acc2.len() implies exists|m: int|
                        0 <= m < i + 1 && spec_frequency_line(#[trigger] lines[m]) == Some(
                            #[trigger] acc2[x],
                        ) by {
                        if x < acc.len() {
                            assert(acc2[x] == acc[x]);
                            let m = choose|m: int|
                                0 <= m < i && spec_frequency_line(#[trigger] lines[m]) == Some(acc[x]);
                        } else {
                            assert(spec_frequency_line(lines[i]) == Some(acc2[x]));
                        }
                    }
                    assert forall|m: int|
                        0 <= m < i + 1 && #[trigger] spec_frequency_line(lines[m]) is Some
                            && spec_frequency_line(lines[m])->Some_0.0.len() > 0 implies exists|x: int|
                        0 <= x < acc2.len() && acc2[x].0 == spec_frequency_line(lines[m])->Some_0.0 by {
                        if m == i {
                            assert(acc2[acc.len() as int].0 == w);
                        } else {
                            let x = choose|x: int|
                                0 <= x < acc.len() && acc[x].0 == spec_frequency_line(lines[m])->Some_0.0;
                            assert(acc2[x] == acc[x]);
                        }
                    }
                    lemma_frequency_from_shape(lines, i + 1, acc2, top_n);
                }
            },
            None => {
                assert forall|x: int| 0 <= x < acc.len() implies exists|m: int|
                    0 <= m < i + 1 && spec_frequency_line(#[trigger] lines[m]) == Some(
                        #[trigger] acc[x],
                    ) by {
                    let m = choose|m: int|
                        0 <= m < i && spec_frequency_line(#[trigger] lines[m]) == Some(acc[x]);
                }
                lemma_frequency_from_shape(lines, i + 1, acc, top_n);
            },
        }
    }
}

/// A parsed frequency list holds each word at most once, every entry is the
/// word and count of one well-formed line of the body, and when fewer than
/// `top_n` entries were kept, the word of every well-formed line with a
/// non-empty word is among them.
pub proof fn lemma_frequency_list_unique(body: Seq<char>, top_n: nat)
    ensures
        forall|x: int, y: int|
            0 <= x < y < spec_frequency_list(body, top_n).len() ==> #[trigger] spec_frequency_list(
                body,
                top_n,
            )[x].0 != #[trigger] spec_frequency_list(body, top_n)[y].0,
        forall|x: int|
            0 <= x < spec_frequency_list(body, top_n).len() ==> exists|m: int|
                0 <= m < spec_lines(body).len() && spec_frequency_line(#[trigger] spec_lines(body)[m])
                    == Some(#[trigger] spec_frequency_list(body, top_n)[x]),
        spec_frequency_list(body, top_n).len() < top_n ==> forall|m: int|
            0 <= m < spec_lines(body).len() && #[trigger] spec_frequency_line(spec_lines(body)[m]) is Some
                && spec_frequency_line(spec_lines(body)[m])->Some_0.0.len() > 0 ==> exists|x: int|
                0 <= x < spec_frequency_list(body, top_n).len() && spec_frequency_list(body, top_n)[x].0
                    == spec_frequency_line(spec_lines(body)[m])->Some_0.0,
{
    let lines = spec_lines(body);
    lemma_frequency_from_shape(lines, 0, seq![], top_n);
}

proof fn lemma_next_index_is(s: Seq<char>, c: char, i: int, p: int)
    requires
        0 <= i <= p < s.len(),
        s[p] == c,
        forall|k: int| i <= k < p ==> s[k] != c,
    ensures
        next_index_of(s, c, i) == p,
{
    lemma_next_index_of(s, c, i);
    let n = next_index_of(s, c, i);
    if n < p {
        assert(s[n] == c);
    } else if n > p {
        assert(s[p] != c);
    }
}

/// A kept Tatoeba sentence has between `min_chars` and `max_chars` chars,
/// counted as chars, not as UTF-8 bytes.
pub proof fn lemma_tatoeba_sentence_bounds(line: Seq<char>, iso3: Seq<char>, min_chars: nat, max_chars: nat)
    ensures
        spec_tatoeba_sentence(line, iso3, min_chars, max_chars) matches Some(s) ==> min_chars <= s.len()
            <= max_chars,
{
}

/// A line `<id>\t<iso3>\t<text>` of the wanted language gives its trimmed
/// text exactly when that has between `min_chars` and `max_chars` chars, and
/// nothing otherwise.
pub proof fn lemma_tatoeba_sentence_kept(
    id: Seq<char>,
    iso3: Seq<char>,
    text: Seq<char>,
    min_chars: nat,
    max_chars: nat,
)
    requires
        forall|k: int| 0 <= k < id.len() ==> #[trigger] id[k] != '\t',
        forall|k: int| 0 <= k < iso3.len() ==> #[trigger] iso3[k] != '\t',
    ensures
        spec_tatoeba_sentence(id + seq!['\t'] + iso3 + seq!['\t'] + text, iso3, min_chars, max_chars)
            == if min_chars <= spec_trim(text).len() <= max_chars {
            Some(spec_trim(text))
        } else {
            None
        },
{
    let line = id + seq!['\t'] + iso3 + seq!['\t'] + text;
    let t1 = id.len() as int;
    let t2 = t1 + 1 + iso3.len();
    assert forall|k: int| 0 <= k < t1 implies line[k] != '\t' by {
        assert(line[k] == id[k]);
    }
    lemma_next_index_is(line, '\t', 0, t1);
    assert forall|k: int| t1 + 1 <= k < t2 implies line[k] != '\t' by {
        assert(line[k] == iso3[k - t1 - 1]);
    }
    lemma_next_index_is(line, '\t', t1 + 1, t2);
    assert(line.subrange(t1 + 1, t2) =~= iso3);
    assert(line.subrange(t2 + 1, line.len() as int) =~= text);
}

/// Offering a text to a reservoir that still has room appends it and leaves
/// the generator alone; offering one to a full reservoir draws the next
/// generator state `r` and puts the text in slot `r % (seen + 1)` when that
/// slot exists, replacing what was there, and keeps the items otherwise.
pub proof fn lemma_offer_slots(v: ReservoirView, text: Seq<char>)
    requires
        reservoir_wf(v),
        v.seen < u64::MAX,
    ensures
        spec_offer(v, text).seen == v.seen + 1,
        spec_offer(v, text).capacity == v.capacity,
        v.seen < v.capacity ==> spec_offer(v, text).items == v.items.push(text) && spec_offer(
            v,
            text,
        ).rng == v.rng,
        v.seen >= v.capacity ==> spec_offer(v, text).rng == spec_lcg(v.rng),
        v.seen >= v.capacity && spec_lcg(v.rng) % ((v.seen + 1) as u64) < v.capacity ==> spec_offer(
            v,
            text,
        ).items == v.items.update((spec_lcg(v.rng) % ((v.seen + 1) as u64)) as int, text),
        v.seen >= v.capacity && spec_lcg(v.rng) % ((v.seen + 1) as u64) >= v.capacity ==> spec_offer(
            v,
            text,
        ).items == v.items,
{
}

proof fn lemma_shuffle_steps_tail<T>(w: Seq<T>, i: int, stop: int, rng: u64)
    requires
        1 <= i,
        w.len() <= u64::MAX,
    ensures
        spec_shuffle_steps(w, i, stop, rng).len() == w.len(),
        w.len() > 0 ==> spec_shuffle_steps(w, i, stop, rng)[0] == w[0],
        w.len() > 0 ==> spec_shuffle_steps(w, i, stop, rng).drop_first() == spec_shuffle_steps(
            w.drop_first(),
            i - 1,
            stop - 1,
            rng,
        ),
    decreases stop - i,
{
    reveal(spec_shuffle_steps);
    lemma_shuffle_permutes(w, i, stop, rng);
    if w.len() > 0 && !(i >= stop || i >= w.len()) {
        let r = spec_lcg(rng);
        let m = (w.len() - i) as u64;
        assert(r % m < m) by (nonlinear_arith)
            requires
                m > 0,
        ;
        let j = i + (r % m) as int;
        let t = w.drop_first();
        assert(((t.len() - (i - 1)) as u64) == m);
        assert(spec_swap(w, i, j).drop_first() =~= spec_swap(t, i - 1, j - 1));
        lemma_shuffle_steps_tail(spec_swap(w, i, j), i + 1, stop, r);
        assert(spec_shuffle_steps(t, i - 1, stop - 1, rng) == spec_shuffle_steps(
            spec_swap(t, i - 1, j - 1),
            i,
            stop - 1,
            r,
        ));
    }
}

/// Sampling picks by the generator: the first paragraph of a sample is the
/// one at position `r % len`, where `r` is the generator's next state, and
/// the rest is a sample of one fewer from the other paragraphs (the picked
/// one's place taken by the first), drawn from state `r` on.
pub proof fn lemma_sample_picks_by_generator<T>(v: Seq<T>, samples: nat, rng: u64)
    requires
        samples >= 1,
        v.len() > samples,
        v.len() <= u64::MAX,
    ensures
        spec_sample(v, samples, rng) == seq![v[(spec_lcg(rng) % (v.len() as u64)) as int]]
            + spec_sample(
            spec_swap(v, 0, (spec_lcg(rng) % (v.len() as u64)) as int).drop_first(),
            (samples - 1) as nat,
            spec_lcg(rng),
        ),
        spec_sample(v, samples, rng)[0] == v[(spec_lcg(rng) % (v.len() as u64)) as int],
{
    reveal(spec_shuffle_steps);
    let r = spec_lcg(rng);
    let n = v.len() as u64;
    assert(r % n < n) by (nonlinear_arith)
        requires
            n > 0,
    ;
    let j = (r % n) as int;
    let w = spec_swap(v, 0, j);
    assert(spec_shuffle_steps(v, 0, samples as int, rng) == spec_shuffle_steps(w, 1, samples as int, r));
    lemma_shuffle_steps_tail(w, 1, samples as int, r);
    let x = spec_shuffle_steps(w, 1, samples as int, r);
    assert(x.take(samples as int) =~= seq![x[0]] + x.drop_first().take(samples - 1));
}

} // verus!
