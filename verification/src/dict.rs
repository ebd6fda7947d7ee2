//! Stage 1: exact lookup of a token in a table of top-frequency words.
//!
//! The table is sorted by word (byte order, as `str` compares), so a binary
//! search finds the first candidate and the matches follow it contiguously.

use smallvec::SmallVec;
use vstd::prelude::*;

use crate::lang::Lang;
use crate::text::bytes_eq;

verus! {

broadcast use vstd::utf8::group_utf8_lib;

/// Dictionary hits for one token: `(language, rank)` pairs, kept inline for
/// the common case of a handful of languages.
#[verifier::external_body]
pub struct Hits {
    items: SmallVec<[(Lang, u16); 4]>,
}

/// The `(language, rank)` pairs a `Hits` holds, in order.
pub uninterp spec fn hits_items(h: Hits) -> Seq<(Lang, u16)>;

impl Hits {
    /// No hits.
    ///
    /// Calls `SmallVec::new`, which makes an empty vector.
    #[verifier::external_body]
    pub(crate) fn empty() -> (res: Hits)
        ensures
            hits_items(res) == Seq::<(Lang, u16)>::empty(),
    {
        Hits { items: SmallVec::new() }
    }

    /// Appends one hit.
    ///
    /// Calls `SmallVec::push`, which appends an element to the back.
    #[verifier::external_body]
    pub(crate) fn push(&mut self, hit: (Lang, u16))
        ensures
            hits_items(*final(self)) == hits_items(*old(self)).push(hit),
    {
        self.items.push(hit)
    }

    /// The hits as a slice.
    ///
    /// Calls `SmallVec::as_slice`, which views the elements in order.
    #[verifier::external_body]
    fn items_slice(&self) -> (res: &[(Lang, u16)])
        ensures
            res@ == hits_items(*self),
    {
        self.items.as_slice()
    }

    /// The number of hits.
    ///
    /// Calls `SmallVec::len`, the number of elements.
    #[verifier::external_body]
    fn count(&self) -> (res: usize)
        ensures
            res == hits_items(*self).len(),
    {
        self.items.len()
    }

    /// The `(language, rank)` pairs, in order.
    pub fn as_slice(&self) -> (res: &[(Lang, u16)])
        ensures
            res@ == hits_items(*self),
    {
        self.items_slice()
    }

    /// The number of hits.
    pub fn len(&self) -> (res: usize)
        ensures
            res == hits_items(*self).len(),
    {
        self.count()
    }

    /// Whether there are no hits.
    pub fn is_empty(&self) -> (res: bool)
        ensures
            res == (hits_items(*self).len() == 0),
    {
        self.len() == 0
    }
}

/// Byte-lexicographic "less than": `a` is a proper prefix of `b`, or the
/// first differing byte of `a` is smaller.
pub open spec fn bytes_lt(a: Seq<u8>, b: Seq<u8>) -> bool
    decreases a.len(),
{
    if b.len() == 0 {
        false
    } else if a.len() == 0 {
        true
    } else if a[0] != b[0] {
        a[0] < b[0]
    } else {
        bytes_lt(a.drop_first(), b.drop_first())
    }
}

/// The order on words: byte order of their UTF-8 encodings.
pub open spec fn word_lt(a: Seq<char>, b: Seq<char>) -> bool {
    bytes_lt(vstd::utf8::encode_utf8(a), vstd::utf8::encode_utf8(b))
}

/// `a` sorts no later than `b`.
pub open spec fn word_le(a: Seq<char>, b: Seq<char>) -> bool {
    word_lt(a, b) || a == b
}

/// A dictionary table sorted by word.
pub open spec fn table_sorted(t: Seq<(&str, Lang, u16)>) -> bool {
    forall|i: int, j: int| 0 <= i < j < t.len() ==> word_le(#[trigger] t[i].0@, #[trigger] t[j].0@)
}

/// The `(language, rank)` of every entry of `t` whose word is `w`, in table order.
pub open spec fn spec_lookup(t: Seq<(&str, Lang, u16)>, w: Seq<char>) -> Seq<(Lang, u16)>
    decreases t.len(),
{
    if t.len() == 0 {
        seq![]
    } else {
        let prev = spec_lookup(t.drop_last(), w);
        if t.last().0@ == w {
            prev.push((t.last().1, t.last().2))
        } else {
            prev
        }
    }
}

proof fn lemma_bytes_lt_irreflexive(a: Seq<u8>)
    ensures
        !bytes_lt(a, a),
    decreases a.len(),
{
    if a.len() > 0 {
        lemma_bytes_lt_irreflexive(a.drop_first());
    }
}

proof fn lemma_bytes_lt_transitive(a: Seq<u8>, b: Seq<u8>, c: Seq<u8>)
    requires
        bytes_lt(a, b),
        bytes_lt(b, c),
    ensures
        bytes_lt(a, c),
    decreases a.len(),
{
    if a.len() > 0 && b.len() > 0 && c.len() > 0 && a[0] == b[0] && b[0] == c[0] {
        lemma_bytes_lt_transitive(a.drop_first(), b.drop_first(), c.drop_first());
    }
}

proof fn lemma_bytes_lt_total(a: Seq<u8>, b: Seq<u8>)
    ensures
        a == b || bytes_lt(a, b) || bytes_lt(b, a),
    decreases a.len(),
{
    if a.len() > 0 && b.len() > 0 && a[0] == b[0] {
        lemma_bytes_lt_total(a.drop_first(), b.drop_first());
        if a.drop_first() == b.drop_first() {
            assert(a =~= seq![a[0]] + a.drop_first());
            assert(b =~= seq![b[0]] + b.drop_first());
        }
    } else if a.len() == 0 && b.len() == 0 {
        assert(a =~= b);
    }
}

pub(crate) proof fn lemma_word_order(a: Seq<char>, b: Seq<char>, c: Seq<char>)
    ensures
        !word_lt(a, a),
        word_lt(a, b) && word_lt(b, c) ==> word_lt(a, c),
        a == b || word_lt(a, b) || word_lt(b, a),
{
    let ea = vstd::utf8::encode_utf8(a);
    let eb = vstd::utf8::encode_utf8(b);
    let ec = vstd::utf8::encode_utf8(c);
    lemma_bytes_lt_irreflexive(ea);
    if word_lt(a, b) && word_lt(b, c) {
        lemma_bytes_lt_transitive(ea, eb, ec);
    }
    lemma_bytes_lt_total(ea, eb);
    crate::text::lemma_encode_utf8_injective(a, b);
}

/// Compares two byte strings in byte-lexicographic order.
pub(crate) fn bytes_less(a: &[u8], b: &[u8]) -> (res: bool)
    ensures
        res == bytes_lt(a@, b@),
{
    let mut i: usize = 0;
    assert(a@.subrange(0, a.len() as int) =~= a@);
    assert(b@.subrange(0, b.len() as int) =~= b@);
    while i < a.len() && i < b.len() && a[i] == b[i]
        invariant
            i <= a.len(),
            i <= b.len(),
            bytes_lt(a@, b@) == bytes_lt(a@.subrange(i as int, a.len() as int), b@.subrange(
                i as int,
                b.len() as int,
            )),
        decreases a.len() - i,
    {
        assert(a@.subrange(i as int, a.len() as int).drop_first() =~= a@.subrange(
            i + 1,
            a.len() as int,
        ));
        assert(b@.subrange(i as int, b.len() as int).drop_first() =~= b@.subrange(
            i + 1,
            b.len() as int,
        ));
        i += 1;
    }
    if i == b.len() {
        false
    } else if i == a.len() {
        true
    } else {
        a[i] < b[i]
    }
}

proof fn lemma_spec_lookup_prefix_none(t: Seq<(&str, Lang, u16)>, w: Seq<char>, k: int)
    requires
        0 <= k <= t.len(),
        forall|i: int| 0 <= i < k ==> #[trigger] t[i].0@ != w,
    ensures
        spec_lookup(t.subrange(0, k), w) == Seq::<(Lang, u16)>::empty(),
    decreases k,
{
    if k > 0 {
        assert(t.subrange(0, k).drop_last() =~= t.subrange(0, k - 1));
        lemma_spec_lookup_prefix_none(t, w, k - 1);
    }
}

proof fn lemma_spec_lookup_suffix_none(t: Seq<(&str, Lang, u16)>, w: Seq<char>, q: int, k: int)
    requires
        0 <= q <= k <= t.len(),
        forall|i: int| q <= i < k ==> #[trigger] t[i].0@ != w,
    ensures
        spec_lookup(t.subrange(0, k), w) == spec_lookup(t.subrange(0, q), w),
    decreases k - q,
{
    if k > q {
        assert(t.subrange(0, k).drop_last() =~= t.subrange(0, k - 1));
        lemma_spec_lookup_suffix_none(t, w, q, k - 1);
    }
}

/// All entries of a sorted table whose word equals `word`, as
/// `(language, rank)` pairs in table order.
pub fn lookup(entries: &[(&str, Lang, u16)], word: &str) -> (res: Hits)
    requires
        table_sorted(entries@),
    ensures
        hits_items(res) == spec_lookup(entries@, word@),
{
    let wb = word.as_bytes();
    let ghost t = entries@;
    // Binary search for the first entry that does not sort before `word`.
    let mut lo: usize = 0;
    let mut hi: usize = entries.len();
    while lo < hi
        invariant
            t == entries@,
            0 <= lo <= hi <= t.len(),
            table_sorted(t),
            wb@ == vstd::utf8::encode_utf8(word@),
            forall|i: int| 0 <= i < lo ==> word_lt(#[trigger] t[i].0@, word@),
            forall|i: int| hi <= i < t.len() ==> !word_lt(#[trigger] t[i].0@, word@),
        decreases hi - lo,
    {
        let mid = lo + (hi - lo) / 2;
        let (w, _, _) = entries[mid];
        if bytes_less(w.as_bytes(), wb) {
            assert forall|i: int| 0 <= i < mid + 1 implies word_lt(#[trigger] t[i].0@, word@) by {
                if i < mid {
                    assert(word_le(t[i].0@, t[mid as int].0@));
                    lemma_word_order(t[i].0@, t[mid as int].0@, word@);
                }
            }
            lo = mid + 1;
        } else {
            assert forall|i: int| mid <= i < t.len() implies !word_lt(#[trigger] t[i].0@, word@) by {
                if mid < i {
                    assert(word_le(t[mid as int].0@, t[i].0@));
                    lemma_word_order(t[mid as int].0@, t[i].0@, word@);
                }
            }
            hi = mid;
        }
    }
    let start = lo;
    proof {
        assert forall|i: int| 0 <= i < start implies #[trigger] t[i].0@ != word@ by {
            lemma_word_order(t[i].0@, word@, word@);
        }
        lemma_spec_lookup_prefix_none(t, word@, start as int);
    }
    // Matches, if any, follow contiguously.
    let mut hits = Hits::empty();
    let mut i: usize = start;
    while i < entries.len()
        invariant_except_break
            t == entries@,
            start <= i <= t.len(),
            table_sorted(t),
            wb@ == vstd::utf8::encode_utf8(word@),
            hits_items(hits) == spec_lookup(t.subrange(0, i as int), word@),
            forall|j: int| start <= j < t.len() ==> !word_lt(#[trigger] t[j].0@, word@),
        ensures
            start <= i <= t.len(),
            hits_items(hits) == spec_lookup(t.subrange(0, i as int), word@),
            i < t.len() ==> t[i as int].0@ != word@ && !word_lt(t[i as int].0@, word@),
        decreases t.len() - i,
    {
        let (w, lang, rank) = entries[i];
        proof {
            crate::text::lemma_encode_utf8_injective(w@, word@);
        }
        if !bytes_eq(w.as_bytes(), wb) {
            break;
        }
        assert(t.subrange(0, i + 1).drop_last() =~= t.subrange(0, i as int));
        hits.push((lang, rank));
        i += 1;
    }
    proof {
        if i < t.len() {
            assert forall|j: int| i <= j < t.len() implies #[trigger] t[j].0@ != word@ by {
                lemma_word_order(word@, t[i as int].0@, word@);
                if i < j {
                    assert(word_le(t[i as int].0@, t[j].0@));
                    lemma_word_order(word@, t[i as int].0@, t[j].0@);
                    lemma_word_order(t[j].0@, t[j].0@, t[j].0@);
                }
            }
        }
        lemma_spec_lookup_suffix_none(t, word@, i as int, t.len() as int);
        assert(t.subrange(0, t.len() as int) =~= t);
    }
    hits
}

/// Whether `table_is_sorted` would accept the table: each word sorts no
/// later than the next.
pub fn table_is_sorted(entries: &[(&str, Lang, u16)]) -> (res: bool)
    ensures
        res == table_sorted(entries@),
{
    let ghost t = entries@;
    if entries.len() == 0 {
        return true;
    }
    let mut k: usize = 1;
    while k < entries.len()
        invariant
            t == entries@,
            1 <= k <= t.len(),
            forall|i: int, j: int| 0 <= i < j < k ==> word_le(#[trigger] t[i].0@, #[trigger] t[j].0@),
        decreases t.len() - k,
    {
        let (a, _, _) = entries[k - 1];
        let (b, _, _) = entries[k];
        proof {
            crate::text::lemma_encode_utf8_injective(a@, b@);
            lemma_word_order(b@, a@, b@);
        }
        if bytes_less(b.as_bytes(), a.as_bytes()) {
            assert(!word_le(t[k - 1].0@, t[k as int].0@));
            return false;
        }
        assert forall|i: int, j: int| 0 <= i < j < k + 1 implies word_le(
            #[trigger] t[i].0@,
            #[trigger] t[j].0@,
        ) by {
            if j == k && i < k - 1 {
                assert(word_le(t[i].0@, t[k - 1].0@));
                lemma_word_order(t[i].0@, t[k - 1].0@, t[j].0@);
            }
        }
        k += 1;
    }
    true
}

/// The hits whose language is among `enabled`, in order.
pub open spec fn spec_filter_enabled(hits: Seq<(Lang, u16)>, enabled: Seq<Lang>) -> Seq<(Lang, u16)>
    decreases hits.len(),
{
    if hits.len() == 0 {
        seq![]
    } else {
        let prev = spec_filter_enabled(hits.drop_last(), enabled);
        if enabled.contains(hits.last().0) {
            prev.push(hits.last())
        } else {
            prev
        }
    }
}

/// Whether `l` occurs in `langs`.
pub fn contains_lang(langs: &[Lang], l: Lang) -> (res: bool)
    ensures
        res == langs@.contains(l),
{
    let mut i: usize = 0;
    while i < langs.len()
        invariant
            i <= langs.len(),
            forall|j: int| 0 <= j < i ==> langs@[j] != l,
        decreases langs.len() - i,
    {
        if langs[i] == l {
            return true;
        }
        i += 1;
    }
    false
}

/// Keeps the hits of enabled languages, in order.
pub fn filter_enabled(hits: &Hits, enabled: &[Lang]) -> (res: Hits)
    ensures
        hits_items(res) == spec_filter_enabled(hits_items(*hits), enabled@),
{
    let items = hits.as_slice();
    let mut out = Hits::empty();
    let mut i: usize = 0;
    while i < items.len()
        invariant
            items@ == hits_items(*hits),
            i <= items.len(),
            hits_items(out) == spec_filter_enabled(items@.subrange(0, i as int), enabled@),
        decreases items.len() - i,
    {
        assert(items@.subrange(0, i + 1).drop_last() =~= items@.subrange(0, i as int));
        if contains_lang(enabled, items[i].0) {
            out.push(items[i]);
        }
        i += 1;
    }
    assert(items@.subrange(0, items.len() as int) =~= items@);
    out
}

} // verus!
