//! The languages a detector can report.

use vstd::prelude::*;

use crate::text::str_eq;

verus! {

/// A detectable language, plus `Unknown` for inputs that carry no usable signal.
#[non_exhaustive]
#[derive(Debug, Clone, Copy, PartialEq, Eq, Structural, Hash)]
pub enum Lang {
    De,
    En,
    Tr,
    Ru,
    Fr,
    Es,
    It,
    Nl,
    Pt,
    Pl,
    Unknown,
}

/// The ISO 639-1 code of a language; `?` for `Unknown`.
pub open spec fn spec_iso_code(l: Lang) -> Seq<char> {
    match l {
        Lang::De => seq!['d', 'e'],
        Lang::En => seq!['e', 'n'],
        Lang::Tr => seq!['t', 'r'],
        Lang::Ru => seq!['r', 'u'],
        Lang::Fr => seq!['f', 'r'],
        Lang::Es => seq!['e', 's'],
        Lang::It => seq!['i', 't'],
        Lang::Nl => seq!['n', 'l'],
        Lang::Pt => seq!['p', 't'],
        Lang::Pl => seq!['p', 'l'],
        Lang::Unknown => seq!['?'],
    }
}

/// The language whose code is `code`, if any.
pub open spec fn spec_lang_of_code(code: Seq<char>) -> Option<Lang> {
    if code == spec_iso_code(Lang::De) {
        Some(Lang::De)
    } else if code == spec_iso_code(Lang::En) {
        Some(Lang::En)
    } else if code == spec_iso_code(Lang::Tr) {
        Some(Lang::Tr)
    } else if code == spec_iso_code(Lang::Ru) {
        Some(Lang::Ru)
    } else if code == spec_iso_code(Lang::Fr) {
        Some(Lang::Fr)
    } else if code == spec_iso_code(Lang::Es) {
        Some(Lang::Es)
    } else if code == spec_iso_code(Lang::It) {
        Some(Lang::It)
    } else if code == spec_iso_code(Lang::Nl) {
        Some(Lang::Nl)
    } else if code == spec_iso_code(Lang::Pt) {
        Some(Lang::Pt)
    } else if code == spec_iso_code(Lang::Pl) {
        Some(Lang::Pl)
    } else if code == spec_iso_code(Lang::Unknown) {
        Some(Lang::Unknown)
    } else {
        None
    }
}

/// Every detectable language, in declaration order; `Unknown` is not among them.
pub open spec fn spec_all_enabled() -> Seq<Lang> {
    seq![
        Lang::De,
        Lang::En,
        Lang::Tr,
        Lang::Ru,
        Lang::Fr,
        Lang::Es,
        Lang::It,
        Lang::Nl,
        Lang::Pt,
        Lang::Pl,
    ]
}

impl Lang {
    /// Parses an ISO 639-1 code (`"?"` is `Unknown`).
    pub fn from_iso_639_1(code: &str) -> (res: Option<Lang>)
        ensures
            res == spec_lang_of_code(code@),
    {
        proof {
            reveal_strlit("de");
            assert("de"@ =~= seq!['d', 'e']);
            reveal_strlit("en");
            assert("en"@ =~= seq!['e', 'n']);
            reveal_strlit("tr");
            assert("tr"@ =~= seq!['t', 'r']);
            reveal_strlit("ru");
            assert("ru"@ =~= seq!['r', 'u']);
            reveal_strlit("fr");
            assert("fr"@ =~= seq!['f', 'r']);
            reveal_strlit("es");
            assert("es"@ =~= seq!['e', 's']);
            reveal_strlit("it");
            assert("it"@ =~= seq!['i', 't']);
            reveal_strlit("nl");
            assert("nl"@ =~= seq!['n', 'l']);
            reveal_strlit("pt");
            assert("pt"@ =~= seq!['p', 't']);
            reveal_strlit("pl");
            assert("pl"@ =~= seq!['p', 'l']);
            reveal_strlit("?");
            assert("?"@ =~= seq!['?']);
        }
        if str_eq(code, "de") {
            Some(Lang::De)
        } else if str_eq(code, "en") {
            Some(Lang::En)
        } else if str_eq(code, "tr") {
            Some(Lang::Tr)
        } else if str_eq(code, "ru") {
            Some(Lang::Ru)
        } else if str_eq(code, "fr") {
            Some(Lang::Fr)
        } else if str_eq(code, "es") {
            Some(Lang::Es)
        } else if str_eq(code, "it") {
            Some(Lang::It)
        } else if str_eq(code, "nl") {
            Some(Lang::Nl)
        } else if str_eq(code, "pt") {
            Some(Lang::Pt)
        } else if str_eq(code, "pl") {
            Some(Lang::Pl)
        } else if str_eq(code, "?") {
            Some(Lang::Unknown)
        } else {
            None
        }
    }

    /// The ISO 639-1 code of this language (`"?"` for `Unknown`).
    pub fn iso_639_1(self) -> (res: &'static str)
        ensures
            res@ == spec_iso_code(self),
    {
        match self {
            Lang::De => {
                proof { reveal_strlit("de"); assert("de"@ =~= seq!['d', 'e']); }
                "de"
            },
            Lang::En => {
                proof { reveal_strlit("en"); assert("en"@ =~= seq!['e', 'n']); }
                "en"
            },
            Lang::Tr => {
                proof { reveal_strlit("tr"); assert("tr"@ =~= seq!['t', 'r']); }
                "tr"
            },
            Lang::Ru => {
                proof { reveal_strlit("ru"); assert("ru"@ =~= seq!['r', 'u']); }
                "ru"
            },
            Lang::Fr => {
                proof { reveal_strlit("fr"); assert("fr"@ =~= seq!['f', 'r']); }
                "fr"
            },
            Lang::Es => {
                proof { reveal_strlit("es"); assert("es"@ =~= seq!['e', 's']); }
                "es"
            },
            Lang::It => {
                proof { reveal_strlit("it"); assert("it"@ =~= seq!['i', 't']); }
                "it"
            },
            Lang::Nl => {
                proof { reveal_strlit("nl"); assert("nl"@ =~= seq!['n', 'l']); }
                "nl"
            },
            Lang::Pt => {
                proof { reveal_strlit("pt"); assert("pt"@ =~= seq!['p', 't']); }
                "pt"
            },
            Lang::Pl => {
                proof { reveal_strlit("pl"); assert("pl"@ =~= seq!['p', 'l']); }
                "pl"
            },
            Lang::Unknown => {
                proof { reveal_strlit("?"); assert("?"@ =~= seq!['?']); }
                "?"
            },
        }
    }

    /// The languages this build detects.
    pub fn all_enabled() -> (res: Vec<Lang>)
        ensures
            res@ == spec_all_enabled(),
    {
        let res = vec![
            Lang::De,
            Lang::En,
            Lang::Tr,
            Lang::Ru,
            Lang::Fr,
            Lang::Es,
            Lang::It,
            Lang::Nl,
            Lang::Pt,
            Lang::Pl,
        ];
        assert(res@ =~= spec_all_enabled());
        res
    }
}

/// The languages this build detects.
pub fn supported_languages() -> (res: Vec<Lang>)
    ensures
        res@ == spec_all_enabled(),
{
    Lang::all_enabled()
}

/// Parsing the code of a language gives that language back.
pub proof fn lemma_code_round_trip(l: Lang)
    ensures
        spec_lang_of_code(spec_iso_code(l)) == Some(l),
{
}

/// A code that parses is the code of the language it parses to.
pub proof fn lemma_code_parse_inverse(code: Seq<char>)
    ensures
        spec_lang_of_code(code) matches Some(l) ==> spec_iso_code(l) == code,
{
}

/// Distinct languages have distinct codes.
pub proof fn lemma_codes_distinct(a: Lang, b: Lang)
    ensures
        spec_iso_code(a) == spec_iso_code(b) ==> a == b,
{
    lemma_code_round_trip(a);
    lemma_code_round_trip(b);
}

/// The enabled languages are pairwise distinct and never include `Unknown`.
pub proof fn lemma_all_enabled_distinct()
    ensures
        forall|i: int, j: int|
            0 <= i < j < spec_all_enabled().len() ==> spec_all_enabled()[i]
                != spec_all_enabled()[j],
        !spec_all_enabled().contains(Lang::Unknown),
        spec_all_enabled().len() == 10,
{
    assert(!spec_all_enabled().contains(Lang::Unknown)) by {
        if spec_all_enabled().contains(Lang::Unknown) {
            let k = choose|k: int| 0 <= k < spec_all_enabled().len() && spec_all_enabled()[k] == Lang::Unknown;
            assert(0 <= k < 10);
        }
    }
}

} // verus!
