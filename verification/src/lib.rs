//! Text statistics over an immutable owned string: character counts,
//! word-frequency counts, and a ranked list of the most common words.

pub mod analyzer;
pub mod counting;
pub mod laws;
pub mod model;
pub mod order;
pub mod ranking;
pub mod tokenize;
pub mod unicode;

pub use analyzer::AnalyzerError;
pub use analyzer::TextAnalyzer;
