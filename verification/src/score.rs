//! Where a word's scores came from.

use vstd::prelude::*;

verus! {

/// The stage that scored a word.
#[derive(Debug, Clone, Copy, PartialEq, Eq, Structural)]
pub enum MatchSource {
    /// Found in the top-frequency dictionary.
    Dict,
    /// Scored by character trigrams.
    Ngram,
    /// No enabled language could score it.
    Unknown,
}

/// The lowercase name of a source, as the bindings print it.
pub open spec fn spec_source_name(s: MatchSource) -> Seq<char> {
    match s {
        MatchSource::Dict => seq!['d', 'i', 'c', 't'],
        MatchSource::Ngram => seq!['n', 'g', 'r', 'a', 'm'],
        MatchSource::Unknown => seq!['u', 'n', 'k', 'n', 'o', 'w', 'n'],
    }
}

impl MatchSource {
    /// `"dict"`, `"ngram"` or `"unknown"`.
    pub fn as_str(self) -> (res: &'static str)
        ensures
            res@ == spec_source_name(self),
    {
        match self {
            MatchSource::Dict => {
                proof {
                    reveal_strlit("dict");
                    assert("dict"@ =~= spec_source_name(self));
                }
                "dict"
            },
            MatchSource::Ngram => {
                proof {
                    reveal_strlit("ngram");
                    assert("ngram"@ =~= spec_source_name(self));
                }
                "ngram"
            },
            MatchSource::Unknown => {
                proof {
                    reveal_strlit("unknown");
                    assert("unknown"@ =~= spec_source_name(self));
                }
                "unknown"
            },
        }
    }
}

} // verus!
