//! Online clustering of near-duplicate text lines.
//!
//! A stream of lines is grouped into clusters of near-duplicates: each
//! incoming line is scored against the stored representatives by a cheap
//! bag-of-words vector distance, and either becomes a fresh representative
//! or attaches to the closest one, in which case a character-level edit
//! script between the two is recovered for display.

pub mod cluster;
pub mod color;
pub mod colorize;
pub mod levenshtein;
pub mod ratio;
pub mod text;
pub mod word2vec;
pub mod word_distance;

pub use cluster::AddOrClosest;
pub use cluster::Pattern;
pub use cluster::PatternBuffer;
pub use color::Color;
pub use colorize::colorize;
pub use colorize::Segment;
pub use levenshtein::levenshtein;
pub use levenshtein::Levenshtein;
pub use levenshtein::LevenshteinOp;
pub use ratio::Ratio;
pub use word2vec::Embedding;
pub use word_distance::normalized_distance;
