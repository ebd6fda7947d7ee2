//! Stage 2 support: the boundary-padded character trigrams of a word.

use vstd::prelude::*;

use crate::text::{chars_of, push_char};

verus! {

/// A word padded with two `^` in front and two `$` behind.
pub open spec fn spec_padded(word: Seq<char>) -> Seq<char> {
    seq!['^', '^'] + word + seq!['$', '$']
}

/// The trigrams of a word: every window of three consecutive chars of the
/// padded word, left to right.
pub open spec fn spec_trigrams(word: Seq<char>) -> Seq<Seq<char>> {
    Seq::new(word.len() + 2, |i: int| spec_padded(word).subrange(i, i + 3))
}

/// The boundary-padded character trigrams of `word`, in order. A word of
/// `n` chars has `n + 2` of them.
pub fn extract_trigrams(word: &str) -> (res: Vec<String>)
    ensures
        res.deep_view() == spec_trigrams(word@),
{
    let wc = chars_of(word);
    let mut padded: Vec<char> = Vec::new();
    padded.push('^');
    padded.push('^');
    let mut k: usize = 0;
    while k < wc.len()
        invariant
            k <= wc.len(),
            wc@ == word@,
            padded@ == seq!['^', '^'] + wc@.subrange(0, k as int),
        decreases wc.len() - k,
    {
        padded.push(wc[k]);
        assert(wc@.subrange(0, k + 1) =~= wc@.subrange(0, k as int).push(wc@[k as int]));
        k += 1;
    }
    padded.push('$');
    padded.push('$');
    assert(wc@.subrange(0, wc.len() as int) =~= wc@);
    assert(padded@ =~= spec_padded(word@));
    let mut out: Vec<String> = Vec::new();
    let n = padded.len() - 2;
    let mut i: usize = 0;
    while i < n
        invariant
            padded@ == spec_padded(word@),
            n == word@.len() + 2,
            n + 2 == padded.len(),
            i <= n,
            out.deep_view() == spec_trigrams(word@).subrange(0, i as int),
        decreases n - i,
    {
        let mut t = String::new();
        push_char(&mut t, padded[i]);
        push_char(&mut t, padded[i + 1]);
        push_char(&mut t, padded[i + 2]);
        assert(t@ =~= spec_padded(word@).subrange(i as int, i + 3));
        let ghost before = out.deep_view();
        out.push(t);
        assert(out.deep_view() =~= before.push(t@));
        assert(out.deep_view() =~= spec_trigrams(word@).subrange(0, i + 1));
        i += 1;
    }
    assert(spec_trigrams(word@).subrange(0, n as int) =~= spec_trigrams(word@));
    out
}

/// Each trigram has three chars, and consecutive trigrams overlap in two.
pub proof fn lemma_trigram_shape(word: Seq<char>)
    ensures
        spec_trigrams(word).len() == word.len() + 2,
        forall|i: int| 0 <= i < word.len() + 2 ==> #[trigger] spec_trigrams(word)[i].len() == 3,
        forall|i: int|
            0 <= i < word.len() + 1 ==> (#[trigger] spec_trigrams(word)[i]).subrange(1, 3)
                == spec_trigrams(word)[i + 1].subrange(0, 2),
        spec_trigrams(word)[0] == seq!['^', '^'] + spec_padded(word).subrange(2, 3),
        spec_trigrams(word)[word.len() + 1int] == spec_padded(word).subrange(
            word.len() + 1int,
            word.len() + 2int,
        ) + seq!['$', '$'],
{
    let p = spec_padded(word);
    assert forall|i: int| 0 <= i < word.len() + 1 implies (#[trigger] spec_trigrams(word)[i]).subrange(1, 3)
        == spec_trigrams(word)[i + 1].subrange(0, 2) by {
        assert(p.subrange(i, i + 3).subrange(1, 3) =~= p.subrange(i + 1, i + 4).subrange(0, 2));
    }
    assert(p.subrange(0, 3) =~= seq!['^', '^'] + p.subrange(2, 3));
    let n = word.len() as int;
    assert(p.subrange(n + 1, n + 4) =~= p.subrange(n + 1, n + 2) + seq!['$', '$']);
}

} // verus!
