//! Top-N ranking: scores a query against a list of candidates with a chosen
//! scorer and preprocessor, keeps those at or above a cutoff, and returns
//! the best `n` in descending score order, ties broken by ascending
//! lexicographic order of the original candidate.

use vstd::prelude::*;

verus! {

use vstd::string::StringSliceAdditionalSpecFns;
use vstd::utf8::encode_utf8;
use crate::damerau_levenshtein::{dl, norm_dl};
use crate::damerau_levenshtein::{damerau_levenshtein, normalized_damerau_levenshtein};
use crate::damerau_levenshtein::{lemma_dl_le_max, lemma_norm_dl_bounds};
use crate::gestalt::{gestalt_frac, sequence_matcher};
use crate::jaro::{jaro, jaro_frac, jaro_winkler, jaro_winkler_frac};
use crate::jaro::{lemma_jaro_in_range, lemma_jaro_winkler_in_range};
use crate::levenshtein::{lemma_lev_le_max, lemma_norm_lev_bounds, lev, norm_lev};
use crate::levenshtein::{levenshtein, normalized_levenshtein};
use crate::optimal_string_alignment::{lemma_osa_le_max, osa, osa_distance};
use crate::processors::{
    keep_alnum_space,
    LowerAlphaNumStringProcessor,
    NullStringProcessor,
    StringProcessor,
    trim_spec,
};
use crate::ratio::Ratio;
use crate::sorensen_dice::{dice_frac, lemma_dice_in_range, sorensen_dice};
use crate::utils::{char_eq, chars_of, lower_of};

/// The scoring algorithms the ranking engine can dispatch to.
#[derive(Debug, Clone, Copy, PartialEq, Eq, Structural)]
pub enum Scorer {
    Levenshtein,
    NormalizedLevenshtein,
    DamerauLevenshtein,
    NormalizedDamerauLevenshtein,
    OsaDistance,
    Jaro,
    JaroWinkler,
    SorensenDice,
    SequenceMatcher,
}

/// The preprocessors the ranking engine can dispatch to.
#[derive(Debug, Clone, Copy, PartialEq, Eq, Structural)]
pub enum Processor {
    Null,
    LowerAlphaNum,
}

/// What a processor returns, as a function of the input characters.
pub open spec fn proc_spec(p: Processor, s: Seq<char>) -> Seq<char> {
    match p {
        Processor::Null => s,
        Processor::LowerAlphaNum => lower_of(trim_spec(keep_alnum_space(s, s.len() as int))),
    }
}

/// Applies the chosen processor.
pub fn process_with(p: Processor, s: &str) -> (r: String)
    ensures
        r@ == proc_spec(p, s@),
{
    match p {
        Processor::Null => (NullStringProcessor).process(s),
        Processor::LowerAlphaNum => (LowerAlphaNumStringProcessor).process(s),
    }
}

/// The score a scorer assigns to a pair, as an exact fraction: integer
/// distances count as `d / 1`, ratio scores as themselves.
pub open spec fn scorer_frac(sc: Scorer, a: Seq<char>, b: Seq<char>) -> (int, int) {
    match sc {
        Scorer::Levenshtein => (lev(a, b) as int, 1int),
        Scorer::NormalizedLevenshtein => norm_lev(a, b),
        Scorer::DamerauLevenshtein => (dl(a, b), 1int),
        Scorer::NormalizedDamerauLevenshtein => norm_dl(a, b),
        Scorer::OsaDistance => (osa(a, b) as int, 1int),
        Scorer::Jaro => jaro_frac(a, b),
        Scorer::JaroWinkler => jaro_winkler_frac(a, b),
        Scorer::SorensenDice => dice_frac(a, b),
        Scorer::SequenceMatcher => gestalt_frac(
            a,
            b,
            (encode_utf8(a).len() as usize) as int,
            (encode_utf8(b).len() as usize) as int,
        ),
    }
}

/// Computes the chosen scorer's fraction for a pair of strings.
pub fn score_with(sc: Scorer, a: &str, b: &str) -> (r: Ratio)
    requires
        a@.len() <= 0x3FF_FFFF,
        b@.len() <= 0x3FF_FFFF,
    ensures
        r.wf(),
        r.num as int == scorer_frac(sc, a@, b@).0,
        r.den as int == scorer_frac(sc, a@, b@).1,
{
    proof {
        assert(usize::MAX / 32 > 0x3FF_FFFF) by {
            vstd::arithmetic::div_mod::lemma_div_is_ordered(
                0xFFFF_FFFF,
                usize::MAX as int,
                32,
            );
        }
    }
    match sc {
        Scorer::Levenshtein => {
            proof {
                lemma_lev_le_max(a@, b@, char_eq());
            }
            Ratio::new(levenshtein(a, b) as u128, 1)
        },
        Scorer::NormalizedLevenshtein => {
            proof {
                lemma_norm_lev_bounds(a@, b@);
            }
            normalized_levenshtein(a, b)
        },
        Scorer::DamerauLevenshtein => {
            proof {
                lemma_dl_le_max(a@, b@, char_eq());
            }
            Ratio::new(damerau_levenshtein(a, b) as u128, 1)
        },
        Scorer::NormalizedDamerauLevenshtein => {
            proof {
                lemma_norm_dl_bounds(a@, b@);
            }
            normalized_damerau_levenshtein(a, b)
        },
        Scorer::OsaDistance => {
            proof {
                lemma_osa_le_max(a@, b@, a@.len(), b@.len());
            }
            Ratio::new(osa_distance(a, b) as u128, 1)
        },
        Scorer::Jaro => {
            proof {
                lemma_jaro_in_range(a@, b@);
            }
            jaro(a, b)
        },
        Scorer::JaroWinkler => {
            proof {
                lemma_jaro_winkler_in_range(a@, b@);
            }
            jaro_winkler(a, b)
        },
        Scorer::SorensenDice => {
            proof {
                lemma_dice_in_range(a@, b@);
            }
            sorensen_dice(a, b)
        },
        Scorer::SequenceMatcher => sequence_matcher(a, b),
    }
}

/// Lexicographic order on character sequences by Unicode scalar value;
/// a proper prefix comes first.
pub open spec fn str_lt(a: Seq<char>, b: Seq<char>) -> bool
    decreases a.len(),
{
    if b.len() == 0 {
        false
    } else if a.len() == 0 {
        true
    } else if (a[0] as u32) < (b[0] as u32) {
        true
    } else if (a[0] as u32) > (b[0] as u32) {
        false
    } else {
        str_lt(a.drop_first(), b.drop_first())
    }
}

/// Decides the lexicographic order of two character vectors.
pub fn str_lt_chars(a: &Vec<char>, b: &Vec<char>) -> (r: bool)
    ensures
        r == str_lt(a@, b@),
{
    let alen = a.len();
    let blen = b.len();
    let n = if alen < blen {
        alen
    } else {
        blen
    };
    proof {
        assert(a@.skip(0) =~= a@);
        assert(b@.skip(0) =~= b@);
    }
    for i in 0..n
        invariant
            n == if alen < blen {
                alen
            } else {
                blen
            },
            alen == a@.len(),
            blen == b@.len(),
            str_lt(a@, b@) == str_lt(a@.skip(i as int), b@.skip(i as int)),
    {
        proof {
            assert(a@.skip(i as int).drop_first() =~= a@.skip(i + 1));
            assert(b@.skip(i as int).drop_first() =~= b@.skip(i + 1));
        }
        if (a[i] as u32) < (b[i] as u32) {
            return true;
        }
        if (a[i] as u32) > (b[i] as u32) {
            return false;
        }
        proof {
            crate::codepoint_map::lemma_char_injective(a@[i as int], b@[i as int]);
        }
    }
    proof {
        if alen < blen {
            assert(a@.skip(n as int).len() == 0);
            assert(b@.skip(n as int).len() > 0);
        } else {
            assert(b@.skip(n as int).len() == 0);
        }
    }
    alen < blen
}

/// Whether entry `e` ranks strictly ahead of entry `f`: a strictly greater
/// score, or an equal score with a lexicographically smaller candidate.
pub open spec fn ranks_ahead(ks: Seq<Seq<char>>, e: (Ratio, usize), f: (Ratio, usize)) -> bool {
    let se = e.0;
    let sf = f.0;
    if sf.ratio_lt(&se) {
        true
    } else if se.ratio_lt(&sf) {
        false
    } else {
        str_lt(ks[e.1 as int], ks[f.1 as int])
    }
}

/// Index of the best entry: the first one that no later entry strictly
/// outranks.
pub open spec fn pick_best(ks: Seq<Seq<char>>, s: Seq<(Ratio, usize)>) -> int
    decreases s.len(),
{
    if s.len() <= 1 {
        0
    } else {
        let p = pick_best(ks, s.drop_last());
        if ranks_ahead(ks, s.last(), s[p]) {
            (s.len() - 1) as int
        } else {
            p
        }
    }
}

/// The best index is in range.
pub proof fn lemma_pick_best_range(ks: Seq<Seq<char>>, s: Seq<(Ratio, usize)>)
    requires
        s.len() >= 1,
    ensures
        0 <= pick_best(ks, s) < s.len(),
    decreases s.len(),
{
    if s.len() > 1 {
        lemma_pick_best_range(ks, s.drop_last());
    }
}

/// Candidate indices of the top `n` entries, best first: repeatedly take
/// the best remaining entry.
pub open spec fn topn_idx(ks: Seq<Seq<char>>, s: Seq<(Ratio, usize)>, n: int) -> Seq<usize>
    decreases n,
{
    if n <= 0 || s.len() == 0 {
        Seq::empty()
    } else {
        let b = pick_best(ks, s);
        seq![s[b].1] + topn_idx(ks, s.remove(b), n - 1)
    }
}

/// The entries that pass the cutoff among the first `i` candidates: each
/// candidate is preprocessed, skipped when its processed form exceeds the
/// scoring length bound, scored against the processed query, and kept with
/// its index when the score reaches the cutoff.
pub open spec fn kept_spec(
    ks: Seq<Seq<char>>,
    qp: Seq<char>,
    sc: Scorer,
    pr: Processor,
    cutoff: Ratio,
    i: int,
) -> Seq<(Ratio, usize)>
    decreases i,
{
    if i <= 0 {
        Seq::empty()
    } else {
        let pre = kept_spec(ks, qp, sc, pr, cutoff, i - 1);
        let pc = proc_spec(pr, ks[i - 1]);
        if pc.len() > 0x3FF_FFFF {
            pre
        } else {
            let f = scorer_frac(sc, qp, pc);
            if cutoff.num * f.1 <= f.0 * cutoff.den {
                pre.push((Ratio { num: f.0 as u128, den: f.1 as u128 }, (i - 1) as usize))
            } else {
                pre
            }
        }
    }
}

/// The character sequences of a candidate list.
pub open spec fn keys_of(choices: Seq<&str>) -> Seq<Seq<char>> {
    Seq::new(choices.len(), |i: int| choices[i]@)
}

/// Returns the best matches to `query` among `choices`.
///
/// The query and every candidate are preprocessed with `processor`
/// (identity when absent), the candidates are scored against the query with
/// `scorer` (normalized Levenshtein when absent), candidates scoring at
/// least `cutoff` (`7/10` when absent) are ranked by descending score with
/// ties broken by ascending lexicographic order of the original candidate,
/// and the best `n` (3 when absent) are returned in rank order.  A
/// candidate whose processed form exceeds the scoring length bound is
/// skipped; a query whose processed form exceeds it yields no matches.
pub fn get_top_n<'a>(
    query: &str,
    choices: &[&'a str],
    cutoff: Option<Ratio>,
    n: Option<usize>,
    processor: Option<Processor>,
    scorer: Option<Scorer>,
) -> (r: Vec<&'a str>)
    requires
        (cutoff matches Some(c) ==> c.wf()),
    ensures
        ({
            let prv = match processor {
                Some(p) => p,
                None => Processor::Null,
            };
            let scv = match scorer {
                Some(s) => s,
                None => Scorer::NormalizedLevenshtein,
            };
            let cutv = match cutoff {
                Some(c) => c,
                None => Ratio { num: 7, den: 10 },
            };
            let nv = match n {
                Some(m) => m,
                None => 3usize,
            };
            let qp = proc_spec(prv, query@);
            let ks = keys_of(choices@);
            let picks = topn_idx(
                ks,
                kept_spec(ks, qp, scv, prv, cutv, choices@.len() as int),
                nv as int,
            );
            &&& (qp.len() > 0x3FF_FFFF ==> r@.len() == 0)
            &&& (qp.len() <= 0x3FF_FFFF ==> r@.len() == picks.len() && (forall|t: int|
                0 <= t < picks.len() ==> r@[t] == choices@[picks[t] as int]))
        }),
{
    let prv = match processor {
        Some(p) => p,
        None => Processor::Null,
    };
    let scv = match scorer {
        Some(s) => s,
        None => Scorer::NormalizedLevenshtein,
    };
    let cutv = match cutoff {
        Some(c) => c,
        None => Ratio::new(7, 10),
    };
    let nv = match n {
        Some(m) => m,
        None => 3,
    };
    let ghost ks = keys_of(choices@);
    let pq = process_with(prv, query);
    let pqv = chars_of(pq.as_str());
    if pqv.len() > 0x3FF_FFFF {
        return Vec::new();
    }
    let ghost qp = pq@;
    let m = choices.len();
    let mut kept: Vec<(Ratio, usize)> = Vec::new();
    for i in 0..m
        invariant
            m == choices@.len(),
            ks == keys_of(choices@),
            qp == pq@,
            pq@.len() <= 0x3FF_FFFF,
            cutv.wf(),
            kept@ == kept_spec(ks, qp, scv, prv, cutv, i as int),
            forall|t: int| 0 <= t < kept@.len() ==> (#[trigger] kept@[t]).0.wf(),
            forall|t: int| 0 <= t < kept@.len() ==> (#[trigger] kept@[t]).1 < m,
    {
        let pc = process_with(prv, choices[i]);
        let pcv = chars_of(pc.as_str());
        if pcv.len() <= 0x3FF_FFFF {
            let score = score_with(scv, pq.as_str(), pc.as_str());
            let keep = cutv.le(&score);
            if keep {
                kept.push((score, i));
            }
        }
    }
    let nn = nv;
    let mut out: Vec<&'a str> = Vec::new();
    let ghost kept0 = kept@;
    let mut pool = kept;
    while out.len() < nn && pool.len() > 0
        invariant
            m == choices@.len(),
            ks == keys_of(choices@),
            forall|t: int| 0 <= t < pool@.len() ==> (#[trigger] pool@[t]).0.wf(),
            forall|t: int| 0 <= t < pool@.len() ==> (#[trigger] pool@[t]).1 < m,
            out@.len() <= nn,
            out@ + topn_idx(ks, pool@, nn - out@.len()).map_values(
                |x: usize| choices@[x as int],
            ) == topn_idx(ks, kept0, nn as int).map_values(|x: usize| choices@[x as int]),
            out@.len() < nn || topn_idx(ks, pool@, nn - out@.len()).len() == 0,
        decreases pool@.len(),
    {
        let plen = pool.len();
        let mut best: usize = 0;
        proof {
            assert(pool@.take(1).drop_last() =~= pool@.take(0));
        }
        for k in 1..plen
            invariant
                plen == pool@.len(),
                m == choices@.len(),
                ks == keys_of(choices@),
                forall|t: int| 0 <= t < pool@.len() ==> (#[trigger] pool@[t]).0.wf(),
                forall|t: int| 0 <= t < pool@.len() ==> (#[trigger] pool@[t]).1 < m,
                best < k,
                best as int == pick_best(ks, pool@.take(k as int)),
        {
            proof {
                assert(pool@.take(k + 1).drop_last() =~= pool@.take(k as int));
                assert(pool@.take(k + 1).last() == pool@[k as int]);
                lemma_pick_best_range(ks, pool@.take(k as int));
            }
            let cand = pool[k];
            let cur = pool[best];
            let ahead = if frac_gt(&cand.0, &cur.0) {
                true
            } else if frac_gt(&cur.0, &cand.0) {
                false
            } else {
                let ck = chars_of(choices[cand.1]);
                let bk = chars_of(choices[cur.1]);
                str_lt_chars(&ck, &bk)
            };
            proof {
                assert(ahead == ranks_ahead(ks, pool@[k as int], pool@[best as int]));
            }
            if ahead {
                best = k;
            }
        }
        proof {
            assert(pool@.take(plen as int) =~= pool@);
            lemma_pick_best_range(ks, pool@);
        }
        let chosen = pool[best];
        out.push(choices[chosen.1]);
        pool.remove(best);
    }
    proof {
        if out@.len() < nn {
            assert(pool@.len() == 0);
            assert(topn_idx(ks, pool@, nn - out@.len()).len() == 0);
        }
        assert(out@ + topn_idx(ks, pool@, nn - out@.len()).map_values(
            |x: usize| choices@[x as int],
        ) =~= out@);
        let picks = topn_idx(ks, kept0, nn as int);
        assert(out@ =~= picks.map_values(|x: usize| choices@[x as int]));
        assert forall|t: int| 0 <= t < picks.len() implies out@[t] == choices@[
            picks[t] as int
        ] by {
            assert(out@[t] == picks.map_values(|x: usize| choices@[x as int])[t]);
        }
    }
    out
}

/// `a > b` as rationals.
fn frac_gt(a: &Ratio, b: &Ratio) -> (r: bool)
    requires
        a.wf(),
        b.wf(),
    ensures
        r == b.ratio_lt(a),
{
    b.lt(a)
}

} // verus!
