//! The similarity abstraction: a score is either an integer edit distance
//! (smaller means more similar) or an exact ratio in [0, 1] (larger means
//! more similar), and every algorithm can be used through one scoring
//! capability.

use vstd::prelude::*;

verus! {

use vstd::string::StringSliceAdditionalSpecFns;
use vstd::utf8::encode_utf8;
use crate::damerau_levenshtein::{dl, norm_dl};
use crate::damerau_levenshtein::{damerau_levenshtein, normalized_damerau_levenshtein};
use crate::damerau_levenshtein::{lemma_dl_le_max, lemma_norm_dl_bounds};
use crate::gestalt::{gestalt_frac, sequence_matcher};
use crate::hamming::{ham, hamming, lemma_ham_le_len};
use crate::jaro::{jaro, jaro_frac, jaro_winkler, jaro_winkler_frac};
use crate::jaro::{lemma_jaro_in_range, lemma_jaro_winkler_in_range};
use crate::levenshtein::{lemma_lev_le_max, lemma_norm_lev_bounds, lev, norm_lev};
use crate::levenshtein::{levenshtein, normalized_levenshtein};
use crate::optimal_string_alignment::{lemma_osa_le_max, osa, osa_distance};
use crate::ratio::Ratio;
use crate::sorensen_dice::{dice_frac, lemma_dice_in_range, sorensen_dice};
use crate::utils::char_eq;

/// A similarity score: an integer edit distance, or an exact ratio.
#[derive(Debug, Clone, Copy, PartialEq, Eq, Structural)]
pub enum Similarity {
    Usize(usize),
    Rational(Ratio),
}

/// A scoring capability: every algorithm of this crate scores a pair of
/// strings as a [`Similarity`], pinned down by `metric_spec`, on the inputs
/// that `metric_req` admits.
pub trait SimilarityMetric {
    /// The inputs on which the metric may be computed.
    spec fn metric_req(&self, a: Seq<char>, b: Seq<char>) -> bool;

    /// The score the metric assigns to the pair.
    spec fn metric_spec(&self, a: Seq<char>, b: Seq<char>) -> Similarity;

    /// Computes the metric's score for the pair.
    fn compute_metric(&self, a: &str, b: &str) -> (r: Similarity)
        requires
            self.metric_req(a@, b@),
        ensures
            r == self.metric_spec(a@, b@),
    ;
}

/// Levenshtein distance as a scorer.
pub struct Levenshtein;

/// Normalized Levenshtein similarity as a scorer.
pub struct NormalizedLevenshtein;

/// Damerau–Levenshtein distance as a scorer.
pub struct DamerauLevenshtein;

/// Normalized Damerau–Levenshtein similarity as a scorer.
pub struct NormalizedDamerauLevenshtein;

/// Optimal-string-alignment distance as a scorer.
pub struct OSADistance;

/// Hamming distance as a scorer; only equal-length strings can be scored.
pub struct Hamming;

/// Jaro similarity as a scorer.
pub struct Jaro;

/// Jaro–Winkler similarity as a scorer.
pub struct JaroWinkler;

/// Sørensen–Dice coefficient as a scorer.
pub struct SorensenDice;

/// Gestalt quick ratio as a scorer.
pub struct SequenceMatcher;

impl SimilarityMetric for Levenshtein {
    open spec fn metric_req(&self, a: Seq<char>, b: Seq<char>) -> bool {
        a.len() < usize::MAX && b.len() < usize::MAX
    }

    open spec fn metric_spec(&self, a: Seq<char>, b: Seq<char>) -> Similarity {
        Similarity::Usize(lev(a, b) as usize)
    }

    fn compute_metric(&self, a: &str, b: &str) -> (r: Similarity) {
        proof {
            lemma_lev_le_max(a@, b@, char_eq());
        }
        Similarity::Usize(levenshtein(a, b))
    }
}

impl SimilarityMetric for NormalizedLevenshtein {
    open spec fn metric_req(&self, a: Seq<char>, b: Seq<char>) -> bool {
        a.len() < usize::MAX && b.len() < usize::MAX
    }

    open spec fn metric_spec(&self, a: Seq<char>, b: Seq<char>) -> Similarity {
        Similarity::Rational(
            Ratio { num: norm_lev(a, b).0 as u128, den: norm_lev(a, b).1 as u128 },
        )
    }

    fn compute_metric(&self, a: &str, b: &str) -> (r: Similarity) {
        proof {
            lemma_norm_lev_bounds(a@, b@);
        }
        Similarity::Rational(normalized_levenshtein(a, b))
    }
}

impl SimilarityMetric for DamerauLevenshtein {
    open spec fn metric_req(&self, a: Seq<char>, b: Seq<char>) -> bool {
        a.len() < usize::MAX / 32 && b.len() < usize::MAX / 32
    }

    open spec fn metric_spec(&self, a: Seq<char>, b: Seq<char>) -> Similarity {
        Similarity::Usize(dl(a, b) as usize)
    }

    fn compute_metric(&self, a: &str, b: &str) -> (r: Similarity) {
        proof {
            lemma_dl_le_max(a@, b@, char_eq());
        }
        Similarity::Usize(damerau_levenshtein(a, b))
    }
}

impl SimilarityMetric for NormalizedDamerauLevenshtein {
    open spec fn metric_req(&self, a: Seq<char>, b: Seq<char>) -> bool {
        a.len() < usize::MAX / 32 && b.len() < usize::MAX / 32
    }

    open spec fn metric_spec(&self, a: Seq<char>, b: Seq<char>) -> Similarity {
        Similarity::Rational(Ratio { num: norm_dl(a, b).0 as u128, den: norm_dl(a, b).1 as u128 })
    }

    fn compute_metric(&self, a: &str, b: &str) -> (r: Similarity) {
        proof {
            lemma_norm_dl_bounds(a@, b@);
        }
        Similarity::Rational(normalized_damerau_levenshtein(a, b))
    }
}

impl SimilarityMetric for OSADistance {
    open spec fn metric_req(&self, a: Seq<char>, b: Seq<char>) -> bool {
        a.len() < usize::MAX && b.len() < usize::MAX
    }

    open spec fn metric_spec(&self, a: Seq<char>, b: Seq<char>) -> Similarity {
        Similarity::Usize(osa(a, b) as usize)
    }

    fn compute_metric(&self, a: &str, b: &str) -> (r: Similarity) {
        proof {
            lemma_osa_le_max(a@, b@, a@.len(), b@.len());
        }
        Similarity::Usize(osa_distance(a, b))
    }
}

impl SimilarityMetric for Hamming {
    open spec fn metric_req(&self, a: Seq<char>, b: Seq<char>) -> bool {
        a.len() == b.len() && a.len() < usize::MAX
    }

    open spec fn metric_spec(&self, a: Seq<char>, b: Seq<char>) -> Similarity {
        Similarity::Usize(ham(a, b) as usize)
    }

    fn compute_metric(&self, a: &str, b: &str) -> (r: Similarity) {
        proof {
            lemma_ham_le_len(a@, b@, char_eq());
        }
        match hamming(a, b) {
            Ok(d) => Similarity::Usize(d),
            Err(_) => Similarity::Usize(0),
        }
    }
}

impl SimilarityMetric for Jaro {
    open spec fn metric_req(&self, a: Seq<char>, b: Seq<char>) -> bool {
        a.len() <= 0x3FFF_FFFF && b.len() <= 0x3FFF_FFFF
    }

    open spec fn metric_spec(&self, a: Seq<char>, b: Seq<char>) -> Similarity {
        Similarity::Rational(Ratio { num: jaro_frac(a, b).0 as u128, den: jaro_frac(a, b).1 as u128 })
    }

    fn compute_metric(&self, a: &str, b: &str) -> (r: Similarity) {
        proof {
            lemma_jaro_in_range(a@, b@);
        }
        Similarity::Rational(jaro(a, b))
    }
}

impl SimilarityMetric for JaroWinkler {
    open spec fn metric_req(&self, a: Seq<char>, b: Seq<char>) -> bool {
        a.len() <= 0x3FFF_FFFF && b.len() <= 0x3FFF_FFFF
    }

    open spec fn metric_spec(&self, a: Seq<char>, b: Seq<char>) -> Similarity {
        Similarity::Rational(
            Ratio {
                num: jaro_winkler_frac(a, b).0 as u128,
                den: jaro_winkler_frac(a, b).1 as u128,
            },
        )
    }

    fn compute_metric(&self, a: &str, b: &str) -> (r: Similarity) {
        proof {
            lemma_jaro_winkler_in_range(a@, b@);
        }
        Similarity::Rational(jaro_winkler(a, b))
    }
}

impl SimilarityMetric for SorensenDice {
    open spec fn metric_req(&self, a: Seq<char>, b: Seq<char>) -> bool {
        true
    }

    open spec fn metric_spec(&self, a: Seq<char>, b: Seq<char>) -> Similarity {
        Similarity::Rational(Ratio { num: dice_frac(a, b).0 as u128, den: dice_frac(a, b).1 as u128 })
    }

    fn compute_metric(&self, a: &str, b: &str) -> (r: Similarity) {
        proof {
            lemma_dice_in_range(a@, b@);
        }
        Similarity::Rational(sorensen_dice(a, b))
    }
}

impl SimilarityMetric for SequenceMatcher {
    open spec fn metric_req(&self, a: Seq<char>, b: Seq<char>) -> bool {
        true
    }

    open spec fn metric_spec(&self, a: Seq<char>, b: Seq<char>) -> Similarity {
        Similarity::Rational(
            Ratio {
                num: gestalt_frac(
                    a,
                    b,
                    (encode_utf8(a).len() as usize) as int,
                    (encode_utf8(b).len() as usize) as int,
                ).0 as u128,
                den: gestalt_frac(
                    a,
                    b,
                    (encode_utf8(a).len() as usize) as int,
                    (encode_utf8(b).len() as usize) as int,
                ).1 as u128,
            },
        )
    }

    fn compute_metric(&self, a: &str, b: &str) -> (r: Similarity) {
        Similarity::Rational(sequence_matcher(a, b))
    }
}

} // verus!
