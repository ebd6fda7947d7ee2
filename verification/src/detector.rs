//! Detector configuration and the decisions that do not depend on scores:
//! which stage scores a word, and whether a batch is fanned out.
//!
//! The unknown threshold is a 32-bit float; the detector carries it as the
//! float's bit pattern (`f32::to_bits`) and never computes with it.

use vstd::prelude::*;

use crate::dict::{filter_enabled, hits_items, lookup, spec_filter_enabled, spec_lookup, table_sorted, Hits};
use crate::lang::{spec_all_enabled, Lang};
use crate::parallel::{BATCH_MIN_APPROX_TOKENS, BATCH_MIN_CARDINALITY};
use crate::score::MatchSource;
use crate::text::{chars_of, is_whitespace, spec_is_whitespace};

verus! {

/// Bit pattern of `0.20_f32`, the default unknown threshold: with three
/// languages roughly equally mixed the top share peaks near a third, so a top
/// share under a fifth means a near-random guess.
pub const DEFAULT_UNKNOWN_THRESHOLD_BITS: u32 = 0x3e4c_cccd;

/// Inputs with at least this many tokens have their words scored in parallel.
pub const DEFAULT_PARALLEL_THRESHOLD: usize = 32;

/// The number of maximal runs of non-whitespace chars in `s`.
pub open spec fn spec_whitespace_words(s: Seq<char>) -> nat
    decreases s.len(),
{
    if s.len() == 0 {
        0
    } else {
        let starts_word = !spec_is_whitespace(s.last()) && (s.len() == 1 || spec_is_whitespace(
            s[s.len() - 2],
        ));
        spec_whitespace_words(s.drop_last()) + if starts_word {
            1nat
        } else {
            0nat
        }
    }
}

/// The sum of the whitespace-word counts of all inputs.
pub open spec fn spec_approx_tokens(inputs: Seq<Seq<char>>) -> nat
    decreases inputs.len(),
{
    if inputs.len() == 0 {
        0
    } else {
        spec_approx_tokens(inputs.drop_last()) + spec_whitespace_words(inputs.last())
    }
}

/// How many whitespace-separated words `s` holds (`split_whitespace().count()`).
pub fn whitespace_word_count(s: &str) -> (res: usize)
    ensures
        res == spec_whitespace_words(s@),
{
    let cs = chars_of(s);
    let mut count: usize = 0;
    let mut i: usize = 0;
    while i < cs.len()
        invariant
            cs@ == s@,
            i <= cs.len(),
            count <= i,
            count == spec_whitespace_words(cs@.subrange(0, i as int)),
        decreases cs.len() - i,
    {
        let ws = is_whitespace(cs[i]);
        let prev_ws = i == 0 || is_whitespace(cs[i - 1]);
        assert(cs@.subrange(0, i + 1).drop_last() =~= cs@.subrange(0, i as int));
        if !ws && prev_ws {
            count += 1;
        }
        i += 1;
    }
    assert(cs@.subrange(0, cs.len() as int) =~= cs@);
    count
}

/// The abstract configuration of a detector.
pub struct DetectorView {
    pub enabled: Seq<Lang>,
    pub unknown_threshold_bits: u32,
    pub parallel_threshold: usize,
}

/// A language detector's configuration: the languages it may report, the
/// top share below which it reports `Unknown`, and the token count from which
/// it scores words in parallel.
pub struct Detector {
    enabled: Vec<Lang>,
    unknown_threshold: u32,
    parallel_threshold: usize,
}

impl View for Detector {
    type V = DetectorView;

    closed spec fn view(&self) -> DetectorView {
        DetectorView {
            enabled: self.enabled@,
            unknown_threshold_bits: self.unknown_threshold,
            parallel_threshold: self.parallel_threshold,
        }
    }
}

/// Which stage scores a word, decided before any score is computed.
pub enum WordStage {
    /// Dictionary hits in enabled languages; scored by rank.
    Dict(Hits),
    /// No dictionary hit; scored by trigrams over the enabled languages.
    Ngram,
    /// No dictionary hit and no enabled language to score it.
    Unknown,
}

impl WordStage {
    /// The match source that the stage reports.
    pub fn source(&self) -> (res: MatchSource)
        ensures
            res == match self {
                WordStage::Dict(_) => MatchSource::Dict,
                WordStage::Ngram => MatchSource::Ngram,
                WordStage::Unknown => MatchSource::Unknown,
            },
    {
        match self {
            WordStage::Dict(_) => MatchSource::Dict,
            WordStage::Ngram => MatchSource::Ngram,
            WordStage::Unknown => MatchSource::Unknown,
        }
    }
}

/// The stage for `token`: its dictionary hits in enabled languages if there
/// are any, else trigrams if some language is enabled, else nothing.
pub open spec fn spec_stage_is(
    stage: WordStage,
    table: Seq<(&str, Lang, u16)>,
    enabled: Seq<Lang>,
    token: Seq<char>,
) -> bool {
    let hits = spec_filter_enabled(spec_lookup(table, token), enabled);
    match stage {
        WordStage::Dict(h) => hits.len() > 0 && hits_items(h) == hits,
        WordStage::Ngram => hits.len() == 0 && enabled.len() > 0,
        WordStage::Unknown => hits.len() == 0 && enabled.len() == 0,
    }
}

/// Whether a batch is fanned out across threads: parallelism is not opted out
/// of, the batch has at least two inputs, and they hold at least fifty
/// whitespace-separated words in all.
pub open spec fn spec_batch_parallel(parallel_threshold: usize, inputs: Seq<Seq<char>>) -> bool {
    &&& parallel_threshold != usize::MAX
    &&& inputs.len() >= BATCH_MIN_CARDINALITY
    &&& spec_approx_tokens(inputs) >= BATCH_MIN_APPROX_TOKENS
}

impl Detector {
    /// A detector over every enabled language with the default thresholds.
    pub fn new() -> (res: Detector)
        ensures
            res@.enabled == spec_all_enabled(),
            res@.unknown_threshold_bits == DEFAULT_UNKNOWN_THRESHOLD_BITS,
            res@.parallel_threshold == DEFAULT_PARALLEL_THRESHOLD,
    {
        Detector {
            enabled: Lang::all_enabled(),
            unknown_threshold: DEFAULT_UNKNOWN_THRESHOLD_BITS,
            parallel_threshold: DEFAULT_PARALLEL_THRESHOLD,
        }
    }

    /// A builder with nothing set.
    pub fn builder() -> (res: DetectorBuilder)
        ensures
            res@ == (DetectorBuilderView { langs: None, unknown_threshold_bits: None, parallel_threshold: None }),
    {
        DetectorBuilder::default()
    }

    /// The languages this detector may report.
    pub fn enabled(&self) -> (res: &[Lang])
        ensures
            res@ == self@.enabled,
    {
        self.enabled.as_slice()
    }

    /// The bit pattern of the unknown threshold.
    pub fn unknown_threshold_bits(&self) -> (res: u32)
        ensures
            res == self@.unknown_threshold_bits,
    {
        self.unknown_threshold
    }

    /// The token count from which words are scored in parallel.
    pub fn parallel_threshold(&self) -> (res: usize)
        ensures
            res == self@.parallel_threshold,
    {
        self.parallel_threshold
    }

    /// Decides which stage scores `token`.
    pub fn stage_word(&self, table: &[(&str, Lang, u16)], token: &str) -> (res: WordStage)
        requires
            table_sorted(table@),
        ensures
            spec_stage_is(res, table@, self@.enabled, token@),
    {
        let raw = lookup(table, token);
        let filtered = filter_enabled(&raw, self.enabled.as_slice());
        if !filtered.is_empty() {
            WordStage::Dict(filtered)
        } else if self.enabled.len() > 0 {
            WordStage::Ngram
        } else {
            WordStage::Unknown
        }
    }

    /// Whether a batch is fanned out across threads. Setting the parallel
    /// threshold to `usize::MAX` opts out at both levels.
    pub fn should_batch_parallel(&self, inputs: &[&str]) -> (res: bool)
        ensures
            res == spec_batch_parallel(self@.parallel_threshold, inputs@.map_values(|s: &str| s@)),
    {
        let ghost views = inputs@.map_values(|s: &str| s@);
        if self.parallel_threshold == usize::MAX {
            return false;
        }
        if inputs.len() < BATCH_MIN_CARDINALITY {
            return false;
        }
        // `total` sums the word counts so far, never above the routing limit.
        let mut total: usize = 0;
        let mut i: usize = 0;
        while i < inputs.len()
            invariant
                i <= inputs.len(),
                views == inputs@.map_values(|s: &str| s@),
                total == if spec_approx_tokens(views.subrange(0, i as int))
                    < BATCH_MIN_APPROX_TOKENS {
                    spec_approx_tokens(views.subrange(0, i as int))
                } else {
                    BATCH_MIN_APPROX_TOKENS as nat
                },
            decreases inputs.len() - i,
        {
            let c = whitespace_word_count(inputs[i]);
            assert(views.subrange(0, i + 1).drop_last() =~= views.subrange(0, i as int));
            assert(views[i as int] == inputs@[i as int]@);
            if c >= BATCH_MIN_APPROX_TOKENS - total {
                total = BATCH_MIN_APPROX_TOKENS;
            } else {
                total = total + c;
            }
            i += 1;
        }
        assert(views.subrange(0, inputs.len() as int) =~= views);
        total >= BATCH_MIN_APPROX_TOKENS
    }
}

impl Default for Detector {
    fn default() -> (res: Detector)
        ensures
            res@.enabled == spec_all_enabled(),
            res@.unknown_threshold_bits == DEFAULT_UNKNOWN_THRESHOLD_BITS,
            res@.parallel_threshold == DEFAULT_PARALLEL_THRESHOLD,
    {
        Detector::new()
    }
}

/// The abstract state of a builder: what has been set so far.
pub struct DetectorBuilderView {
    pub langs: Option<Seq<Lang>>,
    pub unknown_threshold_bits: Option<u32>,
    pub parallel_threshold: Option<usize>,
}

/// Collects detector settings; unset ones take their defaults at `build`.
pub struct DetectorBuilder {
    langs: Option<Vec<Lang>>,
    unknown_threshold: Option<u32>,
    parallel_threshold: Option<usize>,
}

impl View for DetectorBuilder {
    type V = DetectorBuilderView;

    closed spec fn view(&self) -> DetectorBuilderView {
        DetectorBuilderView {
            langs: match self.langs {
                Some(v) => Some(v@),
                None => None,
            },
            unknown_threshold_bits: self.unknown_threshold,
            parallel_threshold: self.parallel_threshold,
        }
    }
}

impl Default for DetectorBuilder {
    fn default() -> (res: DetectorBuilder)
        ensures
            res@ == (DetectorBuilderView { langs: None, unknown_threshold_bits: None, parallel_threshold: None }),
    {
        DetectorBuilder { langs: None, unknown_threshold: None, parallel_threshold: None }
    }
}

impl DetectorBuilder {
    /// Restricts detection to `langs`, in that order.
    pub fn only(self, langs: Vec<Lang>) -> (res: DetectorBuilder)
        ensures
            res@ == (DetectorBuilderView { langs: Some(langs@), ..self@ }),
    {
        DetectorBuilder { langs: Some(langs), ..self }
    }

    /// Sets the unknown threshold, given as the bit pattern of an `f32`.
    pub fn unknown_threshold(self, bits: u32) -> (res: DetectorBuilder)
        ensures
            res@ == (DetectorBuilderView { unknown_threshold_bits: Some(bits), ..self@ }),
    {
        DetectorBuilder { unknown_threshold: Some(bits), ..self }
    }

    /// Sets the token count from which words are scored in parallel;
    /// `usize::MAX` turns parallelism off.
    pub fn parallel_threshold(self, n: usize) -> (res: DetectorBuilder)
        ensures
            res@ == (DetectorBuilderView { parallel_threshold: Some(n), ..self@ }),
    {
        DetectorBuilder { parallel_threshold: Some(n), ..self }
    }

    /// The detector: each setting as set, or its default.
    pub fn build(self) -> (res: Detector)
        ensures
            res@.enabled == match self@.langs {
                Some(l) => l,
                None => spec_all_enabled(),
            },
            res@.unknown_threshold_bits == match self@.unknown_threshold_bits {
                Some(b) => b,
                None => DEFAULT_UNKNOWN_THRESHOLD_BITS,
            },
            res@.parallel_threshold == match self@.parallel_threshold {
                Some(n) => n,
                None => DEFAULT_PARALLEL_THRESHOLD,
            },
    {
        let enabled = match self.langs {
            Some(v) => v,
            None => Lang::all_enabled(),
        };
        let unknown_threshold = match self.unknown_threshold {
            Some(b) => b,
            None => DEFAULT_UNKNOWN_THRESHOLD_BITS,
        };
        let parallel_threshold = match self.parallel_threshold {
            Some(n) => n,
            None => DEFAULT_PARALLEL_THRESHOLD,
        };
        Detector { enabled, unknown_threshold, parallel_threshold }
    }
}

} // verus!
