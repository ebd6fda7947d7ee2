//! Fast, small-binary language detection: tokenization, a sorted
//! top-frequency dictionary, boundary-padded character trigrams, the
//! detector's configuration and routing decisions, and the pure logic of the
//! offline data tooling.

pub mod bindings;
pub mod corpus;
pub mod detector;
pub mod dict;
pub mod lang;
pub mod lang_detect;
pub mod ngram;
pub mod parallel;
pub mod ranking;
pub mod score;
pub mod text;
pub mod tokenize;
pub mod training;

pub use detector::{Detector, DetectorBuilder};
pub use lang::{supported_languages, Lang};
pub use score::MatchSource;
