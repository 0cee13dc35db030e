//! Near-duplicate record search: order-insensitive text normalization, a
//! trigram inverted index for candidate generation, and a banded, bounded
//! Levenshtein distance for verification of candidates.

pub mod chars;
pub mod distance;
pub mod normalize;
pub mod trigram;
pub mod index;
