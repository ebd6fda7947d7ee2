//! Trigram statistics for model training: the frequency-weighted count of
//! every trigram of a word list.

use std::collections::HashMap;

use vstd::prelude::*;

use crate::ngram::{extract_trigrams, lemma_trigram_shape, spec_trigrams};
use crate::text::chars_of;

verus! {

broadcast use {
    vstd::std_specs::hash::axiom_u64_obeys_hash_table_key_model,
    vstd::std_specs::hash::axiom_random_state_builds_valid_hashers,
    vstd::std_specs::hash::axiom_maps_deref_key_to_value,
};

/// The hash key of a three-char trigram: the three code points side by side,
/// 21 bits each.
pub open spec fn spec_trigram_key(t: Seq<char>) -> u64 {
    (((t[0] as u32) as u64) << 42u64) | (((t[1] as u32) as u64) << 21u64) | ((t[2] as u32) as u64)
}

proof fn lemma_pack_injective(a: u64, b: u64, c: u64, x: u64, y: u64, z: u64)
    by (bit_vector)
    requires
        a < 0x200000,
        b < 0x200000,
        c < 0x200000,
        x < 0x200000,
        y < 0x200000,
        z < 0x200000,
        ((a << 42u64) | (b << 21u64) | c) == ((x << 42u64) | (y << 21u64) | z),
    ensures
        a == x && b == y && c == z,
{
}

/// Distinct trigrams have distinct keys.
proof fn lemma_trigram_key_injective(s: Seq<char>, t: Seq<char>)
    requires
        s.len() == 3,
        t.len() == 3,
        spec_trigram_key(s) == spec_trigram_key(t),
    ensures
        s == t,
{
    vstd::utf8::char_is_scalar(s[0]);
    vstd::utf8::char_is_scalar(s[1]);
    vstd::utf8::char_is_scalar(s[2]);
    vstd::utf8::char_is_scalar(t[0]);
    vstd::utf8::char_is_scalar(t[1]);
    vstd::utf8::char_is_scalar(t[2]);
    lemma_pack_injective(
        (s[0] as u32) as u64,
        (s[1] as u32) as u64,
        (s[2] as u32) as u64,
        (t[0] as u32) as u64,
        (t[1] as u32) as u64,
        (t[2] as u32) as u64,
    );
    vstd::utf8::char_u32_cast(s[0], s[0] as u32);
    vstd::utf8::char_u32_cast(s[1], s[1] as u32);
    vstd::utf8::char_u32_cast(s[2], s[2] as u32);
    vstd::utf8::char_u32_cast(t[0], t[0] as u32);
    vstd::utf8::char_u32_cast(t[1], t[1] as u32);
    vstd::utf8::char_u32_cast(t[2], t[2] as u32);
    assert(s =~= t);
}

fn trigram_key(t: &str) -> (res: u64)
    requires
        t@.len() == 3,
    ensures
        res == spec_trigram_key(t@),
{
    let cs = chars_of(t);
    (((cs[0] as u32) as u64) << 42u64) | (((cs[1] as u32) as u64) << 21u64) | ((cs[2] as u32) as u64)
}


/// Each trigram of `ts` paired with the frequency `f`.
pub open spec fn spec_tagged(ts: Seq<Seq<char>>, f: u64) -> Seq<(Seq<char>, u64)> {
    ts.map_values(|t: Seq<char>| (t, f))
}

/// One `(trigram, frequency)` pair per trigram occurrence: the trigrams of
/// each entry's word, in order, each tagged with that entry's frequency.
pub open spec fn spec_weighted_trigrams(entries: Seq<(Seq<char>, u64)>) -> Seq<(Seq<char>, u64)>
    decreases entries.len(),
{
    if entries.len() == 0 {
        Seq::empty()
    } else {
        let f = entries.last().1;
        spec_weighted_trigrams(entries.drop_last()) + spec_tagged(spec_trigrams(entries.last().0), f)
    }
}

/// The summed frequency of the pairs whose trigram is `t`.
pub open spec fn spec_weight(pairs: Seq<(Seq<char>, u64)>, t: Seq<char>) -> int
    decreases pairs.len(),
{
    if pairs.len() == 0 {
        0
    } else {
        spec_weight(pairs.drop_last(), t) + if pairs.last().0 == t {
            pairs.last().1 as int
        } else {
            0
        }
    }
}

/// The summed frequency of all pairs.
pub open spec fn spec_total(pairs: Seq<(Seq<char>, u64)>) -> int
    decreases pairs.len(),
{
    if pairs.len() == 0 {
        0
    } else {
        spec_total(pairs.drop_last()) + pairs.last().1
    }
}

/// The total trigram weight of a word list: each frequency times the number
/// of trigrams of its word (its char count plus two).
pub open spec fn spec_training_weight(entries: Seq<(Seq<char>, u64)>) -> int
    decreases entries.len(),
{
    if entries.len() == 0 {
        0
    } else {
        spec_training_weight(entries.drop_last()) + entries.last().1 * (entries.last().0.len() + 2)
    }
}

/// Some pair of `pairs` has the trigram `t`.
#[verifier::opaque]
pub open spec fn occurs_in(pairs: Seq<(Seq<char>, u64)>, t: Seq<char>) -> bool {
    exists|m: int| 0 <= m < pairs.len() && pairs[m].0 == t
}

/// `counts` names every trigram of `pairs` exactly once, each with its
/// summed frequency, and nothing else.
pub open spec fn counts_exact(pairs: Seq<(Seq<char>, u64)>, counts: Seq<(Seq<char>, u64)>) -> bool {
    &&& forall|i: int, j: int|
        0 <= i < j < counts.len() ==> #[trigger] counts[i].0 != #[trigger] counts[j].0
    &&& forall|i: int| 0 <= i < counts.len() ==> occurs_in(pairs, #[trigger] counts[i].0)
    &&& forall|m: int| 0 <= m < pairs.len() ==> occurs_in(counts, #[trigger] pairs[m].0)
    &&& forall|i: int| 0 <= i < counts.len() ==> #[trigger] counts[i].1 == spec_weight(pairs, counts[i].0)
}

proof fn lemma_weight_absent(pairs: Seq<(Seq<char>, u64)>, t: Seq<char>)
    requires
        forall|m: int| 0 <= m < pairs.len() ==> #[trigger] pairs[m].0 != t,
    ensures
        spec_weight(pairs, t) == 0,
    decreases pairs.len(),
{
    if pairs.len() > 0 {
        lemma_weight_absent(pairs.drop_last(), t);
    }
}

proof fn lemma_weight_le_total(pairs: Seq<(Seq<char>, u64)>, t: Seq<char>)
    ensures
        0 <= spec_weight(pairs, t) <= spec_total(pairs),
    decreases pairs.len(),
{
    if pairs.len() > 0 {
        lemma_weight_le_total(pairs.drop_last(), t);
    }
}

proof fn lemma_training_weight_prefix(entries: Seq<(Seq<char>, u64)>, k: int)
    requires
        0 <= k <= entries.len(),
    ensures
        0 <= spec_training_weight(entries.take(k)) <= spec_training_weight(entries),
    decreases entries.len(),
{
    if entries.len() > 0 {
        let n = entries.len() as int;
        let f = entries.last().1;
        let l = entries.last().0.len() + 2;
        assert(f * l >= 0) by (nonlinear_arith)
            requires
                f >= 0,
                l >= 0,
        ;
        if k == n {
            assert(entries.take(k) =~= entries);
        } else {
            assert(entries.take(k) =~= entries.drop_last().take(k));
        }
        lemma_training_weight_prefix(entries.drop_last(), if k == n { k - 1 } else { k });
    } else {
        assert(entries.take(k) =~= entries);
    }
}

proof fn lemma_total_tagged(ts: Seq<Seq<char>>, f: u64)
    ensures
        spec_total(spec_tagged(ts, f)) == f * ts.len(),
    decreases ts.len(),
{
    let tagged = spec_tagged(ts, f);
    if ts.len() > 0 {
        assert(tagged.drop_last() =~= spec_tagged(ts.drop_last(), f));
        assert(tagged.last().1 == f);
        lemma_total_tagged(ts.drop_last(), f);
        assert(f * ts.len() == f * (ts.len() - 1) + f) by (nonlinear_arith);
    } else {
        assert(f * ts.len() == 0) by (nonlinear_arith)
            requires
                ts.len() == 0,
        ;
    }
}

proof fn lemma_total_concat(a: Seq<(Seq<char>, u64)>, b: Seq<(Seq<char>, u64)>)
    ensures
        spec_total(a + b) == spec_total(a) + spec_total(b),
    decreases b.len(),
{
    if b.len() > 0 {
        assert((a + b).drop_last() =~= a + b.drop_last());
        lemma_total_concat(a, b.drop_last());
    } else {
        assert(a + b =~= a);
    }
}

/// The total weight of all trigram occurrences of a word list is the sum,
/// over its entries, of the frequency times the word's char count plus two.
pub proof fn lemma_total_weight(entries: Seq<(Seq<char>, u64)>)
    ensures
        spec_total(spec_weighted_trigrams(entries)) == spec_training_weight(entries),
    decreases entries.len(),
{
    if entries.len() > 0 {
        let w = entries.last().0;
        let f = entries.last().1;
        lemma_total_weight(entries.drop_last());
        lemma_total_concat(
            spec_weighted_trigrams(entries.drop_last()),
            spec_tagged(spec_trigrams(w), f),
        );
        lemma_total_tagged(spec_trigrams(w), f);
    }
}


/// The total trigram weight of a word list (each frequency times its word's
/// char count plus two), or `None` where it does not fit in a `u64`.
pub fn training_weight(entries: &[(String, u64)]) -> (res: Option<u64>)
    ensures
        match res {
            Some(w) => w == spec_training_weight(entries.deep_view()),
            None => spec_training_weight(entries.deep_view()) > u64::MAX,
        },
{
    let ghost ev = entries.deep_view();
    let mut acc: u64 = 0;
    let mut k: usize = 0;
    while k < entries.len()
        invariant
            ev == entries.deep_view(),
            k <= entries.len(),
            acc == spec_training_weight(ev.take(k as int)),
        decreases entries.len() - k,
    {
        let n = chars_of(entries[k].0.as_str()).len();
        let f = entries[k].1;
        proof {
            assert(ev.take(k + 1).drop_last() =~= ev.take(k as int));
            lemma_training_weight_prefix(ev, k + 1);
            lemma_training_weight_prefix(ev, k as int);
        }
        let term = match (f as u128).checked_mul((n as u128) + 2) {
            Some(t) => t,
            None => {
                return None;
            },
        };
        if term > u64::MAX as u128 {
            return None;
        }
        let sum = (acc as u128) + term;
        if sum > u64::MAX as u128 {
            return None;
        }
        acc = sum as u64;
        k += 1;
    }
    assert(ev.take(k as int) =~= ev);
    Some(acc)
}

/// The invariant of the counting pass over the pairs `done` seen so far:
/// `keys`/`counts` list each trigram once with its weight, and `index` maps
/// each trigram's key to its position.
spec fn counting_state(
    done: Seq<(Seq<char>, u64)>,
    keys: Seq<Seq<char>>,
    counts: Seq<u64>,
    index: Map<u64, usize>,
) -> bool {
    &&& keys.len() == counts.len()
    &&& forall|m: int| 0 <= m < done.len() ==> (#[trigger] done[m]).0.len() == 3
    &&& forall|i: int|
        0 <= i < keys.len() ==> (#[trigger] keys[i]).len() == 3 && index.contains_key(
            spec_trigram_key(keys[i]),
        ) && index[spec_trigram_key(keys[i])] == i
    &&& forall|key: u64|
        #[trigger] index.contains_key(key) ==> index[key] < keys.len() && spec_trigram_key(
            keys[index[key] as int],
        ) == key
    &&& counts_exact(done, Seq::new(keys.len(), |i: int| (keys[i], counts[i])))
}

proof fn lemma_rows_push_pair(done: Seq<(Seq<char>, u64)>, ts: Seq<char>, f: u64)
    ensures
        done.push((ts, f)).drop_last() == done,
        spec_total(done.push((ts, f))) == spec_total(done) + f,
        forall|t: Seq<char>|
            #[trigger] spec_weight(done.push((ts, f)), t) == spec_weight(done, t) + if t == ts {
                f as int
            } else {
                0
            },
{
    assert(done.push((ts, f)).drop_last() =~= done);
}

/// A further occurrence of a trigram that `rows` already lists adds its
/// frequency to that row.
proof fn lemma_rows_existing(
    done: Seq<(Seq<char>, u64)>,
    rows: Seq<(Seq<char>, u64)>,
    i: int,
    f: u64,
)
    requires
        counts_exact(done, rows),
        0 <= i < rows.len(),
        rows[i].1 + f <= u64::MAX,
    ensures
        counts_exact(done.push((rows[i].0, f)), rows.update(i, (rows[i].0, (rows[i].1 + f) as u64))),
{
    let ts = rows[i].0;
    let new_done = done.push((ts, f));
    let new_rows = rows.update(i, (ts, (rows[i].1 + f) as u64));
    lemma_rows_push_pair(done, ts, f);
    assert forall|x: int| 0 <= x < new_rows.len() implies occurs_in(new_done, #[trigger] new_rows[x].0) by {
        reveal(occurs_in);
        assert(occurs_in(done, rows[x].0));
        let m = choose|m: int| 0 <= m < done.len() && done[m].0 == rows[x].0;
        assert(new_done[m] == done[m]);
    }
    assert forall|m: int| 0 <= m < new_done.len() implies occurs_in(new_rows, #[trigger] new_done[m].0) by {
        reveal(occurs_in);
        if m < done.len() {
            assert(occurs_in(rows, done[m].0));
            let x = choose|x: int| 0 <= x < rows.len() && rows[x].0 == done[m].0;
            assert(new_rows[x].0 == rows[x].0);
        } else {
            assert(new_rows[i].0 == new_done[m].0);
        }
    }
    assert forall|x: int| 0 <= x < new_rows.len() implies #[trigger] new_rows[x].1 == spec_weight(
        new_done,
        new_rows[x].0,
    ) by {
        assert(rows[x].1 == spec_weight(done, rows[x].0));
        if x != i {
            assert(rows[x].0 != rows[i].0);
        }
    }
    assert forall|x: int, y: int| 0 <= x < y < new_rows.len() implies #[trigger] new_rows[x].0
        != #[trigger] new_rows[y].0 by {
        assert(rows[x].0 != rows[y].0);
    }
}

/// The first occurrence of a trigram adds a row for it.
proof fn lemma_rows_new(done: Seq<(Seq<char>, u64)>, rows: Seq<(Seq<char>, u64)>, ts: Seq<char>, f: u64)
    requires
        counts_exact(done, rows),
        forall|x: int| 0 <= x < rows.len() ==> #[trigger] rows[x].0 != ts,
    ensures
        spec_weight(done, ts) == 0,
        counts_exact(done.push((ts, f)), rows.push((ts, f))),
{
    let new_done = done.push((ts, f));
    let new_rows = rows.push((ts, f));
    lemma_rows_push_pair(done, ts, f);
    assert forall|m: int| 0 <= m < done.len() implies #[trigger] done[m].0 != ts by {
        if done[m].0 == ts {
            reveal(occurs_in);
            assert(occurs_in(rows, done[m].0));
            let x = choose|x: int| 0 <= x < rows.len() && rows[x].0 == done[m].0;
        }
    }
    lemma_weight_absent(done, ts);
    assert forall|x: int| 0 <= x < new_rows.len() implies occurs_in(new_done, #[trigger] new_rows[x].0) by {
        reveal(occurs_in);
        if x < rows.len() {
            assert(occurs_in(done, rows[x].0));
            let m = choose|m: int| 0 <= m < done.len() && done[m].0 == rows[x].0;
            assert(new_done[m] == done[m]);
        } else {
            assert(new_done[done.len() as int].0 == new_rows[x].0);
        }
    }
    assert forall|m: int| 0 <= m < new_done.len() implies occurs_in(new_rows, #[trigger] new_done[m].0) by {
        reveal(occurs_in);
        if m < done.len() {
            assert(occurs_in(rows, done[m].0));
            let x = choose|x: int| 0 <= x < rows.len() && rows[x].0 == done[m].0;
            assert(new_rows[x].0 == rows[x].0);
        } else {
            assert(new_rows[rows.len() as int].0 == new_done[m].0);
        }
    }
    assert forall|x: int| 0 <= x < new_rows.len() implies #[trigger] new_rows[x].1 == spec_weight(
        new_done,
        new_rows[x].0,
    ) by {
        if x < rows.len() {
            assert(rows[x].1 == spec_weight(done, rows[x].0));
        }
    }
    assert forall|x: int, y: int| 0 <= x < y < new_rows.len() implies #[trigger] new_rows[x].0
        != #[trigger] new_rows[y].0 by {
        if y < rows.len() {
            assert(rows[x].0 != rows[y].0);
        }
    }
}

/// Adding an occurrence of a trigram that is already listed.
proof fn lemma_count_existing(
    done: Seq<(Seq<char>, u64)>,
    keys: Seq<Seq<char>>,
    counts: Seq<u64>,
    index: Map<u64, usize>,
    i: int,
    f: u64,
)
    requires
        counting_state(done, keys, counts, index),
        0 <= i < keys.len(),
        counts[i] + f <= u64::MAX,
    ensures
        counting_state(
            done.push((keys[i], f)),
            keys,
            counts.update(i, (counts[i] + f) as u64),
            index,
        ),
{
    let new_done = done.push((keys[i], f));
    let new_counts = counts.update(i, (counts[i] + f) as u64);
    let rows = Seq::new(keys.len(), |x: int| (keys[x], counts[x]));
    lemma_rows_existing(done, rows, i, f);
    assert(Seq::new(keys.len(), |x: int| (keys[x], new_counts[x])) =~= rows.update(
        i,
        (rows[i].0, (rows[i].1 + f) as u64),
    ));
    assert forall|m: int| 0 <= m < new_done.len() implies (#[trigger] new_done[m]).0.len() == 3 by {
        if m < done.len() {
            assert(new_done[m] == done[m]);
        }
    }
}

/// Adding the first occurrence of a trigram.
proof fn lemma_count_new(
    done: Seq<(Seq<char>, u64)>,
    keys: Seq<Seq<char>>,
    counts: Seq<u64>,
    index: Map<u64, usize>,
    ts: Seq<char>,
    f: u64,
)
    requires
        counting_state(done, keys, counts, index),
        ts.len() == 3,
        !index.contains_key(spec_trigram_key(ts)),
        keys.len() <= usize::MAX,
    ensures
        spec_weight(done, ts) == 0,
        counting_state(
            done.push((ts, f)),
            keys.push(ts),
            counts.push(f),
            index.insert(spec_trigram_key(ts), keys.len() as usize),
        ),
{
    let key = spec_trigram_key(ts);
    let new_done = done.push((ts, f));
    let keys2 = keys.push(ts);
    let counts2 = counts.push(f);
    let index2 = index.insert(key, keys.len() as usize);
    let rows = Seq::new(keys.len(), |x: int| (keys[x], counts[x]));
    assert forall|x: int| 0 <= x < rows.len() implies #[trigger] rows[x].0 != ts by {
        assert(index.contains_key(spec_trigram_key(keys[x])));
    }
    lemma_rows_new(done, rows, ts, f);
    assert(Seq::new(keys2.len(), |x: int| (keys2[x], counts2[x])) =~= rows.push((ts, f)));
    assert forall|i: int| 0 <= i < keys2.len() implies (#[trigger] keys2[i]).len() == 3
        && index2.contains_key(spec_trigram_key(keys2[i])) && index2[spec_trigram_key(keys2[i])]
        == i by {
        if i < keys.len() {
            if spec_trigram_key(keys2[i]) == key {
                lemma_trigram_key_injective(keys2[i], ts);
            }
        }
    }
    assert forall|kk: u64| #[trigger] index2.contains_key(kk) implies index2[kk] < keys2.len()
        && spec_trigram_key(keys2[index2[kk] as int]) == kk by {
        if kk != key {
            assert(keys2[index2[kk] as int] == keys[index[kk] as int]);
        }
    }
    assert forall|m: int| 0 <= m < new_done.len() implies (#[trigger] new_done[m]).0.len() == 3 by {
        if m < done.len() {
            assert(new_done[m] == done[m]);
        }
    }
}

/// Every trigram of every word, counted once per occurrence and weighted by
/// the word's frequency: each trigram that occurs appears once in the result,
/// with its summed frequency.
pub fn trigram_counts(entries: &[(String, u64)]) -> (res: Vec<(String, u64)>)
    requires
        spec_training_weight(entries.deep_view()) <= u64::MAX,
    ensures
        counts_exact(spec_weighted_trigrams(entries.deep_view()), res.deep_view()),
{
    let ghost ev = entries.deep_view();
    let mut keys: Vec<String> = Vec::new();
    let mut counts: Vec<u64> = Vec::new();
    let mut index: HashMap<u64, usize> = HashMap::new();
    let ghost mut done: Seq<(Seq<char>, u64)> = Seq::empty();
    let mut k: usize = 0;
    proof {
        assert(ev.take(0) =~= Seq::<(Seq<char>, u64)>::empty());
        assert(Seq::new(0, |i: int| (keys.deep_view()[i], counts@[i])) =~= Seq::<
            (Seq<char>, u64),
        >::empty());
    }
    while k < entries.len()
        invariant
            ev == entries.deep_view(),
            k <= entries.len(),
            spec_training_weight(ev) <= u64::MAX,
            done == spec_weighted_trigrams(ev.take(k as int)),
            spec_total(done) == spec_training_weight(ev.take(k as int)),
            counting_state(done, keys.deep_view(), counts@, index@),
        decreases entries.len() - k,
    {
        let f = entries[k].1;
        let tris = extract_trigrams(entries[k].0.as_str());
        let ghost word = ev[k as int].0;
        let ghost tagged = spec_tagged(spec_trigrams(word), f);
        let ghost start = done;
        proof {
            lemma_trigram_shape(word);
            assert(ev.take(k + 1).drop_last() =~= ev.take(k as int));
            lemma_training_weight_prefix(ev, k + 1);
            assert(start + tagged.take(0) =~= start);
        }
        let mut j: usize = 0;
        while j < tris.len()
            invariant
                ev == entries.deep_view(),
                k < entries.len(),
                word == ev[k as int].0,
                f == ev[k as int].1,
                tris.deep_view() == spec_trigrams(word),
                tagged == spec_tagged(spec_trigrams(word), f),
                forall|m: int| 0 <= m < tris.len() ==> (#[trigger] spec_trigrams(word)[m]).len() == 3,
                spec_training_weight(ev.take(k + 1)) <= u64::MAX,
                spec_training_weight(ev.take(k + 1)) == spec_training_weight(ev.take(k as int))
                    + f * (word.len() + 2),
                start == spec_weighted_trigrams(ev.take(k as int)),
                j <= tris.len(),
                done == start + tagged.take(j as int),
                spec_total(done) == spec_training_weight(ev.take(k as int)) + f * j,
                counting_state(done, keys.deep_view(), counts@, index@),
            decreases tris.len() - j,
        {
            let t = &tris[j];
            let ghost ts = t@;
            assert(ts == spec_trigrams(word)[j as int]);
            let key = trigram_key(t.as_str());
            proof {
                lemma_rows_push_pair(done, ts, f);
                assert(f * j + f == f * (j + 1)) by (nonlinear_arith);
                assert(f * (j + 1) <= f * (word.len() + 2)) by (nonlinear_arith)
                    requires
                        j + 1 <= word.len() + 2,
                ;
                assert(done.push((ts, f)) =~= start + tagged.take(j + 1));
                lemma_weight_le_total(done.push((ts, f)), ts);
            }
            match index.get(&key) {
                Some(pos) => {
                    let i = *pos;
                    proof {
                        lemma_trigram_key_injective(keys.deep_view()[i as int], ts);
                        let rows = Seq::new(
                            keys.deep_view().len(),
                            |x: int| (keys.deep_view()[x], counts@[x]),
                        );
                        assert(rows[i as int].1 == spec_weight(done, rows[i as int].0));
                        lemma_count_existing(done, keys.deep_view(), counts@, index@, i as int, f);
                    }
                    let c = counts[i] + f;
                    counts.set(i, c);
                },
                None => {
                    proof {
                        assert(keys.deep_view().len() == keys.len());
                        lemma_count_new(done, keys.deep_view(), counts@, index@, ts, f);
                    }
                    let pos = keys.len();
                    index.insert(key, pos);
                    let ghost kv = keys.deep_view();
                    keys.push(t.clone());
                    counts.push(f);
                    assert(keys.deep_view() =~= kv.push(ts));
                },
            }
            proof {
                done = done.push((ts, f));
            }
            j += 1;
        }
        proof {
            assert(tagged.take(tris.len() as int) =~= tagged);
            assert(spec_weighted_trigrams(ev.take(k + 1)) =~= start + tagged);
        }
        k += 1;
    }
    proof {
        assert(ev.take(entries.len() as int) =~= ev);
    }
    let mut res: Vec<(String, u64)> = Vec::new();
    let mut i: usize = 0;
    while i < keys.len()
        invariant
            i <= keys.len(),
            keys.len() == counts.len(),
            res.len() == i,
            forall|x: int| 0 <= x < i ==> (#[trigger] res.deep_view()[x]) == (
                keys.deep_view()[x],
                counts@[x],
            ),
        decreases keys.len() - i,
    {
        let ghost before = res.deep_view();
        res.push((keys[i].clone(), counts[i]));
        assert(res.deep_view() =~= before.push((keys.deep_view()[i as int], counts@[i as int])));
        i += 1;
    }
    proof {
        let rows = Seq::new(keys.len() as nat, |x: int| (keys.deep_view()[x], counts@[x]));
        assert(res.deep_view() =~= rows);
    }
    res
}

} // verus!
