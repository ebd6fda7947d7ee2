//! Conditional parallelism: below a size threshold, per-item work is done in
//! order on the calling thread; above it, items are handed to rayon. Either
//! way each output is the function applied to the input at the same index.

use rayon::iter::{IntoParallelIterator, IntoParallelRefIterator, ParallelIterator};
use vstd::prelude::*;

verus! {

/// A batch is fanned out across threads only when it has at least this many inputs.
pub const BATCH_MIN_CARDINALITY: usize = 2;

/// ... and only when its inputs hold at least this many whitespace-separated words in all.
pub const BATCH_MIN_APPROX_TOKENS: usize = 50;

/// Maps `f` over owned words on rayon's thread pool.
///
/// Calls `IntoParallelIterator::into_par_iter` on the vector, `map` and
/// `collect` into a `Vec`. Collecting an indexed parallel iterator into a
/// vector puts each item at the index it came from, so the result has one
/// output per word, in order, each an output `f` may give for that word.
#[verifier::external_body]
fn rayon_map_owned<F, T>(words: Vec<String>, f: F) -> (res: Vec<T>)
    where
        F: Fn(String) -> T + Sync + Send,
        T: Send,
    requires
        forall|i: int| 0 <= i < words@.len() ==> f.requires((#[trigger] words@[i],)),
    ensures
        res@.len() == words@.len(),
        forall|i: int| 0 <= i < words@.len() ==> f.ensures((words@[i],), #[trigger] res@[i]),
{
    words.into_par_iter().map(f).collect()
}

/// Maps `f` over borrowed inputs on rayon's thread pool.
///
/// Calls `IntoParallelRefIterator::par_iter` on the slice, `map` and
/// `collect` into a `Vec`; as above, outputs keep the order of the inputs.
#[verifier::external_body]
fn rayon_map_ref<S, F, T>(inputs: &[S], f: F) -> (res: Vec<T>)
    where
        S: Sync,
        F: Fn(&S) -> T + Sync + Send,
        T: Send,
    requires
        forall|i: int| 0 <= i < inputs@.len() ==> f.requires((&inputs@[i],)),
    ensures
        res@.len() == inputs@.len(),
        forall|i: int| 0 <= i < inputs@.len() ==> f.ensures((&inputs@[i],), #[trigger] res@[i]),
{
    inputs.par_iter().map(f).collect()
}

/// Applies `f` to every word: in order on this thread when there are fewer
/// than `threshold` words, on rayon's thread pool otherwise. The result has
/// one output per word, at the word's index.
pub fn map_words<F, T>(words: Vec<String>, threshold: usize, f: F) -> (res: Vec<T>)
    where
        F: Fn(String) -> T + Sync + Send,
        T: Send,
    requires
        forall|i: int| 0 <= i < words@.len() ==> f.requires((#[trigger] words@[i],)),
    ensures
        res@.len() == words@.len(),
        forall|i: int| 0 <= i < words@.len() ==> f.ensures((words@[i],), #[trigger] res@[i]),
{
    if words.len() < threshold {
        let ghost ws = words@;
        let mut out: Vec<T> = Vec::new();
        for w in it: words
            invariant
                ws == it.seq(),
                out@.len() == it.index(),
                forall|i: int| 0 <= i < ws.len() ==> f.requires((#[trigger] ws[i],)),
                forall|i: int| 0 <= i < it.index() ==> f.ensures((ws[i],), #[trigger] out@[i]),
        {
            out.push(f(w));
        }
        out
    } else {
        rayon_map_owned(words, f)
    }
}

/// Applies `f` to every input of a batch on rayon's thread pool; outputs keep
/// the order of the inputs. Callers check the batch routing gates first.
pub fn par_map_batch<S, F, T>(inputs: &[S], f: F) -> (res: Vec<T>)
    where
        S: Sync,
        F: Fn(&S) -> T + Sync + Send,
        T: Send,
    requires
        forall|i: int| 0 <= i < inputs@.len() ==> f.requires((&inputs@[i],)),
    ensures
        res@.len() == inputs@.len(),
        forall|i: int| 0 <= i < inputs@.len() ==> f.ensures((&inputs@[i],), #[trigger] res@[i]),
{
    rayon_map_ref(inputs, f)
}

} // verus!
