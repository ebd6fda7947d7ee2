//! Top-K selection of counted trigrams: the K highest counts, listed in
//! byte order of the trigram.

use vstd::prelude::*;

use crate::corpus::{lemma_swap_multiset, swap_elems};
use crate::dict::{bytes_less, lemma_word_order, word_lt};
use crate::training::{counts_exact, spec_training_weight, spec_weighted_trigrams, trigram_counts};

verus! {

/// No value occurs twice in `s`.
pub open spec fn all_distinct(s: Seq<usize>) -> bool {
    forall|a: int, b: int| 0 <= a < b < s.len() ==> #[trigger] s[a] != #[trigger] s[b]
}

/// The positions `order` name rows of `rows` by non-increasing count.
pub open spec fn by_count_desc(rows: Seq<(Seq<char>, u64)>, order: Seq<usize>) -> bool {
    forall|a: int, b: int|
        0 <= a < b < order.len() ==> rows[#[trigger] order[a] as int].1 >= rows[#[trigger] order[b] as int].1
}

/// Sorts positions of `rows` by non-increasing count; equal counts keep
/// their relative order.
fn sort_by_count_desc(order: &mut Vec<usize>, rows: &[(String, u64)])
    requires
        forall|i: int| 0 <= i < old(order).len() ==> #[trigger] old(order)[i] < rows.len(),
        all_distinct(old(order)@),
    ensures
        final(order)@.to_multiset() == old(order)@.to_multiset(),
        final(order)@.len() == old(order)@.len(),
        forall|i: int| 0 <= i < final(order).len() ==> #[trigger] final(order)[i] < rows.len(),
        all_distinct(final(order)@),
        by_count_desc(rows.deep_view(), final(order)@),
{
    let ghost rv = rows.deep_view();
    let ghost orig = order@;
    let n = order.len();
    if n == 0 {
        return;
    }
    let mut i: usize = 1;
    while i < n
        invariant
            rv == rows.deep_view(),
            order.len() == n,
            1 <= i <= n,
            order@.to_multiset() == orig.to_multiset(),
            forall|x: int| 0 <= x < n ==> #[trigger] order[x] < rows.len(),
            all_distinct(order@),
            forall|a: int, b: int|
                0 <= a < b < i ==> rv[#[trigger] order[a] as int].1 >= rv[#[trigger] order[b] as int].1,
        decreases n - i,
    {
        let mut j: usize = i;
        while j > 0 && rows[order[j]].1 > rows[order[j - 1]].1
            invariant
                rv == rows.deep_view(),
                order.len() == n,
                0 <= j <= i < n,
                order@.to_multiset() == orig.to_multiset(),
                forall|x: int| 0 <= x < n ==> #[trigger] order[x] < rows.len(),
                all_distinct(order@),
                forall|a: int, b: int|
                    0 <= a < b <= i && a != j && b != j ==> rv[#[trigger] order[a] as int].1
                        >= rv[#[trigger] order[b] as int].1,
                forall|b: int| j < b <= i ==> rv[order[j as int] as int].1 > rv[#[trigger] order[b] as int].1,
            decreases j,
        {
            let ghost before = order@;
            proof {
                lemma_swap_multiset(before, j - 1, j as int);
            }
            swap_elems(order, j - 1, j);
            assert forall|a: int, b: int| 0 <= a < b < n implies #[trigger] order[a] != #[trigger] order[b] by {
                assert(before[a] != before[b]);
                if a == j - 1 && b != j {
                    assert(before[j as int] != before[b]);
                }
                if b == j && a != j - 1 {
                    assert(before[a] != before[j - 1]);
                }
                if a == j - 1 && b == j {
                    assert(before[j - 1] != before[j as int]);
                }
            }
            j -= 1;
        }
        i += 1;
    }
}

/// No two rows share a trigram.
pub open spec fn keys_distinct(rows: Seq<(Seq<char>, u64)>) -> bool {
    forall|a: int, b: int| 0 <= a < b < rows.len() ==> #[trigger] rows[a].0 != #[trigger] rows[b].0
}

/// The positions `order` name rows of `rows` in strictly increasing byte
/// order of their trigrams.
pub open spec fn by_word(rows: Seq<(Seq<char>, u64)>, order: Seq<usize>) -> bool {
    forall|a: int, b: int|
        0 <= a < b < order.len() ==> word_lt(
            rows[#[trigger] order[a] as int].0,
            rows[#[trigger] order[b] as int].0,
        )
}

/// Sorts positions of `rows` by the byte order of their trigrams.
fn sort_by_word(order: &mut Vec<usize>, rows: &[(String, u64)])
    requires
        forall|i: int| 0 <= i < old(order).len() ==> #[trigger] old(order)[i] < rows.len(),
        all_distinct(old(order)@),
        keys_distinct(rows.deep_view()),
    ensures
        final(order)@.to_multiset() == old(order)@.to_multiset(),
        final(order)@.len() == old(order)@.len(),
        forall|i: int| 0 <= i < final(order).len() ==> #[trigger] final(order)[i] < rows.len(),
        all_distinct(final(order)@),
        by_word(rows.deep_view(), final(order)@),
{
    let ghost rv = rows.deep_view();
    let ghost orig = order@;
    let n = order.len();
    if n == 0 {
        return;
    }
    let mut i: usize = 1;
    while i < n
        invariant
            rv == rows.deep_view(),
            keys_distinct(rv),
            order.len() == n,
            1 <= i <= n,
            order@.to_multiset() == orig.to_multiset(),
            forall|x: int| 0 <= x < n ==> #[trigger] order[x] < rows.len(),
            all_distinct(order@),
            forall|a: int, b: int|
                0 <= a < b < i ==> word_lt(
                    rv[#[trigger] order[a] as int].0,
                    rv[#[trigger] order[b] as int].0,
                ),
        decreases n - i,
    {
        let mut j: usize = i;
        while j > 0 && bytes_less(
            rows[order[j]].0.as_str().as_bytes(),
            rows[order[j - 1]].0.as_str().as_bytes(),
        )
            invariant
                rv == rows.deep_view(),
                keys_distinct(rv),
                order.len() == n,
                0 <= j <= i < n,
                order@.to_multiset() == orig.to_multiset(),
                forall|x: int| 0 <= x < n ==> #[trigger] order[x] < rows.len(),
                all_distinct(order@),
                forall|a: int, b: int|
                    0 <= a < b <= i && a != j && b != j ==> word_lt(
                        rv[#[trigger] order[a] as int].0,
                        rv[#[trigger] order[b] as int].0,
                    ),
                forall|b: int|
                    j < b <= i ==> word_lt(
                        rv[order[j as int] as int].0,
                        rv[#[trigger] order[b] as int].0,
                    ),
            decreases j,
        {
            let ghost before = order@;
            proof {
                lemma_swap_multiset(before, j - 1, j as int);
            }
            swap_elems(order, j - 1, j);
            assert forall|a: int, b: int| 0 <= a < b < n implies #[trigger] order[a] != #[trigger] order[b] by {
                assert(before[a] != before[b]);
                if a == j - 1 && b != j {
                    assert(before[j as int] != before[b]);
                }
                if b == j && a != j - 1 {
                    assert(before[a] != before[j - 1]);
                }
                if a == j - 1 && b == j {
                    assert(before[j - 1] != before[j as int]);
                }
            }
            j -= 1;
        }
        proof {
            if j > 0 {
                let x = order[j as int] as int;
                let y = order[j - 1] as int;
                assert(rv[x].0 != rv[y].0) by {
                    if x < y {
                        assert(rv[x].0 != rv[y].0);
                    } else {
                        assert(order[j - 1] != order[j as int]);
                        assert(rv[y].0 != rv[x].0);
                    }
                }
                lemma_word_order(rv[x].0, rv[y].0, rv[x].0);
                assert forall|a: int, b: int| 0 <= a < b < i + 1 implies word_lt(
                    rv[#[trigger] order[a] as int].0,
                    rv[#[trigger] order[b] as int].0,
                ) by {
                    if b == j && a < j - 1 {
                        lemma_word_order(rv[order[a] as int].0, rv[y].0, rv[x].0);
                    }
                }
            }
        }
        i += 1;
    }
}

/// Every row that `kept` leaves out has a count no higher than any kept
/// row, where `kept` holds the first `m` positions of a count-sorted
/// permutation of all rows.
proof fn lemma_kept_dominate(
    rv: Seq<(Seq<char>, u64)>,
    order: Seq<usize>,
    kept: Seq<usize>,
    m: int,
    a: int,
)
    requires
        0 <= m <= order.len(),
        order.len() == rv.len(),
        order.to_multiset() == Seq::new(rv.len(), |x: int| x as usize).to_multiset(),
        by_count_desc(rv, order),
        kept.to_multiset() == order.take(m).to_multiset(),
        0 <= a < rv.len(),
        forall|i: int| 0 <= i < kept.len() ==> #[trigger] kept[i] != a,
        forall|i: int| 0 <= i < order.len() ==> #[trigger] order[i] < rv.len(),
        rv.len() <= usize::MAX,
    ensures
        forall|i: int| 0 <= i < kept.len() ==> rv[#[trigger] kept[i] as int].1 >= rv[a].1,
{
    broadcast use vstd::seq_lib::group_to_multiset_ensures;

    let ident = Seq::new(rv.len(), |x: int| x as usize);
    assert(ident[a] == a as usize);
    assert(ident.contains(a as usize));
    assert(ident.to_multiset().count(a as usize) > 0);
    assert(order.to_multiset().count(a as usize) > 0);
    assert(order.contains(a as usize));
    let b = choose|b: int| 0 <= b < order.len() && order[b] == a as usize;
    if b < m {
        assert(order.take(m)[b] == a as usize);
        assert(order.take(m).contains(a as usize));
        assert(order.take(m).to_multiset().count(a as usize) > 0);
        assert(kept.to_multiset().count(a as usize) > 0);
        assert(kept.contains(a as usize));
        let i = choose|i: int| 0 <= i < kept.len() && kept[i] == a as usize;
        assert(kept[i] != a);
    }
    assert forall|i: int| 0 <= i < kept.len() implies rv[#[trigger] kept[i] as int].1 >= rv[a].1 by {
        assert(kept.contains(kept[i]));
        assert(kept.to_multiset().count(kept[i]) > 0);
        assert(order.take(m).to_multiset().count(kept[i]) > 0);
        assert(order.take(m).contains(kept[i]));
        let c = choose|c: int| 0 <= c < m && order.take(m)[c] == kept[i];
        assert(order[c] == kept[i]);
        assert(rv[order[c] as int].1 >= rv[order[b] as int].1);
    }
}

/// `top` holds `k` rows of `rows` (all of them, when there are no more than
/// `k`) in strictly increasing byte order of their trigrams, and no row left
/// out has a higher count than a row kept.
pub open spec fn is_top_k(rows: Seq<(Seq<char>, u64)>, k: int, top: Seq<(Seq<char>, u64)>) -> bool {
    &&& top.len() == if k < rows.len() {
        k
    } else {
        rows.len() as int
    }
    &&& forall|i: int| 0 <= i < top.len() ==> rows.contains(#[trigger] top[i])
    &&& forall|a: int, b: int| 0 <= a < b < top.len() ==> word_lt(#[trigger] top[a].0, #[trigger] top[b].0)
    &&& forall|x: (Seq<char>, u64)|
        #[trigger] rows.contains(x) && !top.contains(x) ==> forall|i: int|
            0 <= i < top.len() ==> #[trigger] top[i].1 >= x.1
}

/// The `k` rows with the highest counts (every row, when there are no more
/// than `k`), listed in byte order of their trigrams. Which of several rows
/// of equal count at the cut are kept is left open.
pub fn top_trigrams(rows: &[(String, u64)], k: usize) -> (res: Vec<(String, u64)>)
    requires
        keys_distinct(rows.deep_view()),
    ensures
        is_top_k(rows.deep_view(), k as int, res.deep_view()),
{
    broadcast use vstd::seq_lib::group_to_multiset_ensures;

    let ghost rv = rows.deep_view();
    let n = rows.len();
    let mut order: Vec<usize> = Vec::new();
    let mut i: usize = 0;
    while i < n
        invariant
            i <= n,
            n == rows.len(),
            order@ == Seq::new(i as nat, |x: int| x as usize),
        decreases n - i,
    {
        order.push(i);
        assert(order@ =~= Seq::new((i + 1) as nat, |x: int| x as usize));
        i += 1;
    }
    let ghost ident = order@;
    assert(all_distinct(order@));
    sort_by_count_desc(&mut order, rows);
    let m = if k < n {
        k
    } else {
        n
    };
    let mut kept: Vec<usize> = Vec::new();
    let mut c: usize = 0;
    while c < m
        invariant
            c <= m <= n,
            order.len() == n,
            kept@ == order@.take(c as int),
        decreases m - c,
    {
        kept.push(order[c]);
        assert(kept@ =~= order@.take(c + 1));
        c += 1;
    }
    let ghost chosen = kept@;
    assert(all_distinct(kept@)) by {
        assert forall|a: int, b: int| 0 <= a < b < kept.len() implies #[trigger] kept@[a]
            != #[trigger] kept@[b] by {
            assert(order@[a] != order@[b]);
        }
    }
    sort_by_word(&mut kept, rows);
    let mut res: Vec<(String, u64)> = Vec::new();
    let mut r: usize = 0;
    while r < m
        invariant
            r <= m,
            kept.len() == m,
            rv == rows.deep_view(),
            forall|x: int| 0 <= x < m ==> #[trigger] kept[x] < n,
            n == rows.len(),
            res.len() == r,
            forall|x: int| 0 <= x < r ==> #[trigger] res.deep_view()[x] == rv[kept[x] as int],
        decreases m - r,
    {
        let p = kept[r];
        let ghost before = res.deep_view();
        res.push((rows[p].0.clone(), rows[p].1));
        assert(res.deep_view() =~= before.push(rv[p as int]));
        r += 1;
    }
    proof {
        assert forall|i: int| 0 <= i < res.len() implies rv.contains(#[trigger] res.deep_view()[i]) by {
            assert(rv[kept[i] as int] == res.deep_view()[i]);
        }
        assert forall|x: (Seq<char>, u64)| #[trigger]
            rv.contains(x) && !res.deep_view().contains(x) implies forall|i: int|
            0 <= i < res.len() ==> #[trigger] res.deep_view()[i].1 >= x.1 by {
            let a = choose|a: int| 0 <= a < rv.len() && rv[a] == x;
            assert forall|i: int| 0 <= i < kept.len() implies #[trigger] kept@[i] != a by {
                if kept@[i] == a {
                    assert(res.deep_view()[i] == x);
                }
            }
            assert(kept@.to_multiset() == order@.take(m as int).to_multiset());
            lemma_kept_dominate(rv, order@, kept@, m as int, a);
            assert forall|i: int| 0 <= i < res.len() implies #[trigger] res.deep_view()[i].1 >= x.1 by {
                assert(rv[kept@[i] as int].1 >= rv[a].1);
            }
        }
    }
    res
}

/// The trigram table of a word list: its frequency-weighted trigram counts
/// cut to the `k` highest and listed in byte order, together with the number
/// of distinct trigrams counted.
pub fn trigram_table(entries: &[(String, u64)], k: usize) -> (res: (Vec<(String, u64)>, usize))
    requires
        spec_training_weight(entries.deep_view()) <= u64::MAX,
    ensures
        exists|counts: Seq<(Seq<char>, u64)>|
            counts_exact(spec_weighted_trigrams(entries.deep_view()), counts) && counts.len()
                == res.1 && is_top_k(counts, k as int, res.0.deep_view()),
{
    let counts = trigram_counts(entries);
    let top = top_trigrams(counts.as_slice(), k);
    let vocab = counts.len();
    assert(counts_exact(spec_weighted_trigrams(entries.deep_view()), counts.deep_view()));
    (top, vocab)
}

} // verus!
