//! The parts of the Node and Python bindings that decide something: parsing
//! language options, the error text for an unsupported code, and the handles
//! that share one detector between calls and background tasks.

use std::sync::Arc;

use vstd::prelude::*;

use crate::detector::{Detector, DetectorBuilderView, DEFAULT_PARALLEL_THRESHOLD, DEFAULT_UNKNOWN_THRESHOLD_BITS};
use crate::lang::{spec_all_enabled, spec_iso_code, spec_lang_of_code, Lang};
use crate::text::spec_join;

verus! {

/// The codes of the enabled languages, in order.
pub open spec fn spec_supported_codes() -> Seq<Seq<char>> {
    spec_all_enabled().map_values(|l: Lang| spec_iso_code(l))
}

/// The ISO 639-1 codes of the enabled languages.
pub fn supported_language_codes() -> (res: Vec<String>)
    ensures
        res.deep_view() == spec_supported_codes(),
{
    let langs = Lang::all_enabled();
    let mut out: Vec<String> = Vec::new();
    let mut i: usize = 0;
    while i < langs.len()
        invariant
            langs@ == spec_all_enabled(),
            i <= langs.len(),
            out.deep_view() == spec_supported_codes().subrange(0, i as int),
        decreases langs.len() - i,
    {
        let code = String::from_str(langs[i].iso_639_1());
        let ghost before = out.deep_view();
        assert(spec_supported_codes()[i as int] == spec_iso_code(langs@[i as int]));
        out.push(code);
        assert(out.deep_view() =~= before.push(code@));
        assert(out.deep_view() =~= spec_supported_codes().subrange(0, i + 1));
        i += 1;
    }
    assert(spec_supported_codes().subrange(0, langs.len() as int) =~= spec_supported_codes());
    out
}

/// A language code that no enabled language has.
pub struct UnsupportedLang {
    pub code: String,
}

/// The message reported for an unsupported code.
pub open spec fn spec_unsupported_message(code: Seq<char>) -> Seq<char> {
    "unsupported language `"@ + code + "`. supported languages: "@ + spec_join(
        spec_supported_codes(),
        ", "@,
    )
}

impl UnsupportedLang {
    /// "unsupported language `<code>`. supported languages: de, en, ..."
    pub fn message(&self) -> (res: String)
        ensures
            res@ == spec_unsupported_message(self.code@),
    {
        let codes = supported_language_codes();
        let mut msg = String::from_str("unsupported language `");
        msg.append(self.code.as_str());
        msg.append("`. supported languages: ");
        let ghost head = msg@;
        let mut i: usize = 0;
        while i < codes.len()
            invariant
                codes.deep_view() == spec_supported_codes(),
                i <= codes.len(),
                msg@ == head + spec_join(codes.deep_view().subrange(0, i as int), ", "@),
            decreases codes.len() - i,
        {
            let ghost parts = codes.deep_view().subrange(0, i + 1);
            assert(parts.drop_last() =~= codes.deep_view().subrange(0, i as int));
            if i > 0 {
                msg.append(", ");
            }
            msg.append(codes[i].as_str());
            proof {
                if i == 0 {
                    assert(spec_join(codes.deep_view().subrange(0, 0), ", "@) =~= Seq::<char>::empty());
                    assert(msg@ =~= head + parts[0]);
                } else {
                    assert(msg@ =~= head + spec_join(parts.drop_last(), ", "@) + ", "@ + parts.last());
                }
            }
            i += 1;
        }
        assert(codes.deep_view().subrange(0, codes.len() as int) =~= codes.deep_view());
        msg
    }
}

/// The languages of `codes`, if every code parses; otherwise the first code
/// that does not.
pub open spec fn spec_parse_langs(codes: Seq<Seq<char>>) -> Result<Seq<Lang>, Seq<char>>
    decreases codes.len(),
{
    if codes.len() == 0 {
        Ok(seq![])
    } else {
        match spec_parse_langs(codes.drop_last()) {
            Err(c) => Err(c),
            Ok(ls) => match spec_lang_of_code(codes.last()) {
                Some(l) => Ok(ls.push(l)),
                None => Err(codes.last()),
            },
        }
    }
}

/// Parses language codes, stopping at the first unsupported one.
pub fn parse_langs(codes: &[String]) -> (res: Result<Vec<Lang>, UnsupportedLang>)
    ensures
        match (res, spec_parse_langs(codes.deep_view())) {
            (Ok(v), Ok(ls)) => v@ == ls,
            (Err(e), Err(c)) => e.code@ == c,
            _ => false,
        },
{
    let ghost cs = codes.deep_view();
    let mut out: Vec<Lang> = Vec::new();
    let mut i: usize = 0;
    while i < codes.len()
        invariant
            cs == codes.deep_view(),
            i <= codes.len(),
            spec_parse_langs(cs.subrange(0, i as int)) == Ok::<Seq<Lang>, Seq<char>>(out@),
        decreases codes.len() - i,
    {
        assert(cs.subrange(0, i + 1).drop_last() =~= cs.subrange(0, i as int));
        assert(cs[i as int] == codes@[i as int]@);
        match Lang::from_iso_639_1(codes[i].as_str()) {
            Some(l) => out.push(l),
            None => {
                proof {
                    lemma_parse_langs_err_extends(cs, i as int + 1);
                }
                return Err(UnsupportedLang { code: codes[i].clone() });
            },
        }
        i += 1;
    }
    assert(cs.subrange(0, codes.len() as int) =~= cs);
    Ok(out)
}

proof fn lemma_parse_langs_err_extends(cs: Seq<Seq<char>>, k: int)
    requires
        0 < k <= cs.len(),
        spec_parse_langs(cs.subrange(0, k)) is Err,
    ensures
        spec_parse_langs(cs) == spec_parse_langs(cs.subrange(0, k)),
    decreases cs.len() - k,
{
    if k < cs.len() {
        assert(cs.subrange(0, k + 1).drop_last() =~= cs.subrange(0, k));
        lemma_parse_langs_err_extends(cs, k + 1);
    } else {
        assert(cs.subrange(0, k) =~= cs);
    }
}

/// A detector from binding options: the languages given (all enabled ones if
/// none), the threshold given as `f32` bits, and the parallel threshold.
pub fn detector_from_options(
    only: Option<Vec<String>>,
    unknown_threshold_bits: Option<u32>,
    parallel_threshold: Option<usize>,
) -> (res: Result<Detector, UnsupportedLang>)
    ensures
        match only {
            Some(codes) => match (res, spec_parse_langs(codes.deep_view())) {
                (Ok(d), Ok(ls)) => d@.enabled == ls,
                (Err(e), Err(c)) => e.code@ == c,
                _ => false,
            },
            None => res matches Ok(d) && d@.enabled == spec_all_enabled(),
        },
        res matches Ok(d) ==> d@.unknown_threshold_bits == match unknown_threshold_bits {
            Some(b) => b,
            None => DEFAULT_UNKNOWN_THRESHOLD_BITS,
        } && d@.parallel_threshold == match parallel_threshold {
            Some(n) => n,
            None => DEFAULT_PARALLEL_THRESHOLD,
        },
{
    let mut builder = Detector::builder();
    if let Some(codes) = only {
        match parse_langs(codes.as_slice()) {
            Ok(langs) => builder = builder.only(langs),
            Err(e) => return Err(e),
        }
    }
    if let Some(bits) = unknown_threshold_bits {
        builder = builder.unknown_threshold(bits);
    }
    if let Some(n) = parallel_threshold {
        builder = builder.parallel_threshold(n);
    }
    Ok(builder.build())
}

/// Another handle on a shared detector.
///
/// Calls `Arc::clone`, which makes a new pointer to the same allocation, so
/// the detector seen through it is the same.
#[verifier::external_body]
fn share(d: &Arc<Detector>) -> (res: Arc<Detector>)
    ensures
        *res == **d,
{
    Arc::clone(d)
}

/// A detector shared between binding calls and background batch tasks.
pub struct NativeDetector {
    inner: Arc<Detector>,
}

impl NativeDetector {
    /// Builds the shared detector from binding options; the parallel
    /// threshold arrives as a `u32`.
    pub fn new(
        only: Option<Vec<String>>,
        unknown_threshold_bits: Option<u32>,
        parallel_threshold: Option<u32>,
    ) -> (res: Result<NativeDetector, UnsupportedLang>)
        ensures
            match only {
                Some(codes) => match (res, spec_parse_langs(codes.deep_view())) {
                    (Ok(d), Ok(ls)) => d.detector()@.enabled == ls,
                    (Err(e), Err(c)) => e.code@ == c,
                    _ => false,
                },
                None => res matches Ok(d) && d.detector()@.enabled == spec_all_enabled(),
            },
            res matches Ok(d) ==> d.detector()@.unknown_threshold_bits == match unknown_threshold_bits {
                Some(b) => b,
                None => DEFAULT_UNKNOWN_THRESHOLD_BITS,
            } && d.detector()@.parallel_threshold == match parallel_threshold {
                Some(n) => n as usize,
                None => DEFAULT_PARALLEL_THRESHOLD,
            },
    {
        let parallel = match parallel_threshold {
            Some(n) => Some(n as usize),
            None => None,
        };
        match detector_from_options(only, unknown_threshold_bits, parallel) {
            Ok(d) => Ok(NativeDetector { inner: Arc::new(d) }),
            Err(e) => Err(e),
        }
    }

    /// The detector behind this handle.
    pub closed spec fn detector(&self) -> Detector {
        *self.inner
    }

    /// The shared detector.
    pub fn inner(&self) -> (res: &Detector)
        ensures
            *res == self.detector(),
    {
        &*self.inner
    }

    /// A background task that detects a batch with this detector.
    pub fn batch_task(&self, inputs: Vec<String>) -> (res: DetectBatchTask)
        ensures
            res.detector() == self.detector(),
            res.inputs() == inputs@,
    {
        DetectBatchTask { detector: share(&self.inner), inputs }
    }

    /// A background task that detects a batch with per-word detail.
    pub fn detailed_batch_task(&self, inputs: Vec<String>) -> (res: DetectDetailedBatchTask)
        ensures
            res.detector() == self.detector(),
            res.inputs() == inputs@,
    {
        DetectDetailedBatchTask { detector: share(&self.inner), inputs }
    }
}

/// Inputs waiting to be detected off the caller's thread.
pub struct DetectBatchTask {
    detector: Arc<Detector>,
    inputs: Vec<String>,
}

impl DetectBatchTask {
    /// The detector the task runs.
    pub closed spec fn detector(&self) -> Detector {
        *self.detector
    }

    /// The inputs the task detects.
    pub closed spec fn inputs(&self) -> Seq<String> {
        self.inputs@
    }

    /// The detector and the inputs.
    pub fn parts(&self) -> (res: (&Detector, &[String]))
        ensures
            *res.0 == self.detector(),
            res.1@ == self.inputs(),
    {
        (&*self.detector, self.inputs.as_slice())
    }
}

/// Inputs waiting to be detected, with per-word detail, off the caller's thread.
pub struct DetectDetailedBatchTask {
    detector: Arc<Detector>,
    inputs: Vec<String>,
}

impl DetectDetailedBatchTask {
    /// The detector the task runs.
    pub closed spec fn detector(&self) -> Detector {
        *self.detector
    }

    /// The inputs the task detects.
    pub closed spec fn inputs(&self) -> Seq<String> {
        self.inputs@
    }

    /// The detector and the inputs.
    pub fn parts(&self) -> (res: (&Detector, &[String]))
        ensures
            *res.0 == self.detector(),
            res.1@ == self.inputs(),
    {
        (&*self.detector, self.inputs.as_slice())
    }
}

} // verus!
