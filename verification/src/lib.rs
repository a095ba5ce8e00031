//! Knuth–Liang hyphenation: dictionaries of patterns, compiled into an index,
//! and the breaks that they give to a word.

pub mod case_folding;
pub mod exceptions;
pub mod extended;
pub mod hyphenator;
pub mod index;
pub mod keys;
pub mod laws;
pub mod normalize;
pub mod parse;
pub mod patterns;
pub mod score;
pub mod standard;
pub mod tally;
pub mod text;
pub mod uniques;

pub use crate::exceptions::Exceptions;
pub use crate::extended::Extended;
pub use crate::hyphenator::{soft_hyphen_indices, Hyphenator, Word};
pub use crate::patterns::{BuildError, Patterns};
pub use crate::standard::Standard;
pub use crate::tally::{ExtendedTally, Subregion, Tally};
