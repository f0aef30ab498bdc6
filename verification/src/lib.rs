//! String similarity metrics with verified contracts.
//!
//! The crate offers several classical edit-distance and similarity-ratio
//! algorithms over character sequences (and, for some, over generic element
//! sequences), together with a top-N fuzzy matcher built on them.  Ratio
//! scores are exact rational numbers (see [`Ratio`]), so every score a
//! function returns is pinned down precisely by its contract.

pub mod codepoint_map;
pub mod common_count;
pub mod damerau_levenshtein;
pub mod gestalt;
pub mod hamming;
pub mod interface;
pub mod jaro;
pub mod levenshtein;
pub mod matcher;
pub mod optimal_string_alignment;
pub mod processors;
pub mod ratio;
pub mod sorensen_dice;
pub mod utils;

pub use codepoint_map::{HybridGrowingHashmapChar, RowId};
pub use damerau_levenshtein::{
    damerau_levenshtein, damerau_levenshtein_chars, generic_damerau_levenshtein,
    normalized_damerau_levenshtein,
};
pub use gestalt::sequence_matcher;
pub use hamming::{generic_hamming, hamming, hamming_chars};
pub use interface::{
    DamerauLevenshtein, Hamming, Jaro, JaroWinkler, Levenshtein, NormalizedDamerauLevenshtein,
    NormalizedLevenshtein, OSADistance, Similarity, SimilarityMetric, SequenceMatcher,
    SorensenDice,
};
pub use jaro::{jaro, jaro_chars, jaro_winkler, jaro_winkler_chars};
pub use levenshtein::{generic_levenshtein, levenshtein, levenshtein_chars, normalized_levenshtein};
pub use matcher::{get_top_n, Processor, Scorer};
pub use optimal_string_alignment::{osa_distance, osa_distance_chars};
pub use processors::{LowerAlphaNumStringProcessor, NullStringProcessor, StringProcessor};
pub use ratio::Ratio;
pub use sorensen_dice::sorensen_dice;
pub use utils::{bigrams, chars_of, flat_index, FuzztError, StringWrapper};
