//! The tokenizer of the earlier `lang-detect` detector: every UAX #29 word,
//! normalized, with no ASCII fast path and no filter on letters.

use vstd::prelude::*;

use crate::tokenize::{normalize, spec_normalize, spec_unicode_words, unicode_words};

verus! {

/// The normalized words, dropping those that normalize to nothing.
pub open spec fn spec_normalized_words(words: Seq<Seq<char>>) -> Seq<Seq<char>>
    decreases words.len(),
{
    if words.len() == 0 {
        seq![]
    } else {
        let prev = spec_normalized_words(words.drop_last());
        let n = spec_normalize(words.last());
        if n.len() > 0 {
            prev.push(n)
        } else {
            prev
        }
    }
}

/// Splits on UAX #29 word boundaries and normalizes each word (NFKC, then
/// Unicode default lowercase), dropping words that normalize to nothing.
pub fn tokenize(input: &str) -> (res: Vec<String>)
    ensures
        res.deep_view() == spec_normalized_words(spec_unicode_words(input@)),
{
    let words = unicode_words(input);
    let ghost ws = words.deep_view();
    let mut out: Vec<String> = Vec::new();
    let mut i: usize = 0;
    while i < words.len()
        invariant
            i <= words.len(),
            words.deep_view() == ws,
            out.deep_view() == spec_normalized_words(ws.subrange(0, i as int)),
        decreases words.len() - i,
    {
        assert(ws.subrange(0, i + 1).drop_last() =~= ws.subrange(0, i as int));
        assert(words[i as int]@ == ws[i as int]);
        let n = normalize(words[i].as_str());
        if !n.as_str().is_empty() {
            let ghost before = out.deep_view();
            out.push(n);
            assert(out.deep_view() =~= before.push(n@));
        }
        i += 1;
    }
    assert(ws.subrange(0, words.len() as int) =~= ws);
    out
}

} // verus!
