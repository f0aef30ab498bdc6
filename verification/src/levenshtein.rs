//! Levenshtein edit distance: the minimum number of single-element
//! insertions, deletions and substitutions turning one sequence into the
//! other, computed with a single rolling row of the dynamic-programming
//! matrix.

use vstd::prelude::*;

verus! {

use vstd::std_specs::cmp::PartialEqSpec;
use crate::ratio::Ratio;
use crate::utils::{char_eq, chars_of, eq_fn, max2, min2, min3};

/// Levenshtein distance between `a` and `b`, where elements are compared by
/// the relation `eq`: the least number of insertions, deletions and
/// substitutions (each of cost one) turning `a` into `b`.
pub open spec fn lev_rel<T>(a: Seq<T>, b: Seq<T>, eq: spec_fn(T, T) -> bool) -> nat
    decreases a.len() + b.len(),
{
    if a.len() == 0 {
        b.len()
    } else if b.len() == 0 {
        a.len()
    } else {
        let sub_cost: nat = if eq(a.last(), b.last()) {
            0
        } else {
            1
        };
        min3(
            lev_rel(a.drop_last(), b, eq) + 1,
            lev_rel(a, b.drop_last(), eq) + 1,
            lev_rel(a.drop_last(), b.drop_last(), eq) + sub_cost,
        )
    }
}

/// Levenshtein distance between two character sequences.
pub open spec fn lev(a: Seq<char>, b: Seq<char>) -> nat {
    lev_rel(a, b, char_eq())
}

/// The distance between prefixes obeys the textbook cell recurrence.
pub proof fn lemma_lev_step<T>(a: Seq<T>, b: Seq<T>, eq: spec_fn(T, T) -> bool, i: int, j: int)
    requires
        1 <= i <= a.len(),
        1 <= j <= b.len(),
    ensures
        lev_rel(a.take(i), b.take(j), eq) == min3(
            lev_rel(a.take(i - 1), b.take(j), eq) + 1,
            lev_rel(a.take(i), b.take(j - 1), eq) + 1,
            lev_rel(a.take(i - 1), b.take(j - 1), eq) + if eq(a[i - 1], b[j - 1]) {
                0nat
            } else {
                1nat
            },
        ),
{
    assert(a.take(i).drop_last() =~= a.take(i - 1));
    assert(b.take(j).drop_last() =~= b.take(j - 1));
    assert(a.take(i).last() == a[i - 1]);
    assert(b.take(j).last() == b[j - 1]);
}

/// The normalized Levenshtein score of `a` and `b` as an exact fraction
/// `(numerator, denominator)`: `1 - lev(a, b) / max(|a|, |b|)`, and one when
/// both sequences are empty.
pub open spec fn norm_lev(a: Seq<char>, b: Seq<char>) -> (int, int) {
    if a.len() == 0 && b.len() == 0 {
        (1int, 1int)
    } else {
        (max2(a.len(), b.len()) - lev(a, b), max2(a.len(), b.len()) as int)
    }
}

/// The normalized score is a well-formed fraction in `[0, 1]`.
pub proof fn lemma_norm_lev_bounds(a: Seq<char>, b: Seq<char>)
    ensures
        0 < norm_lev(a, b).1,
        0 <= norm_lev(a, b).0 <= norm_lev(a, b).1,
{
    if a.len() != 0 || b.len() != 0 {
        lemma_lev_le_max(a, b, char_eq());
    }
}

/// Identity: the normalized score of a sequence against itself is one.
pub proof fn lemma_norm_lev_identity(a: Seq<char>)
    ensures
        norm_lev(a, a).0 == norm_lev(a, a).1,
{
    lemma_lev_identity(a, char_eq());
}

/// The distance never exceeds the longer length.
pub proof fn lemma_lev_le_max<T>(a: Seq<T>, b: Seq<T>, eq: spec_fn(T, T) -> bool)
    ensures
        lev_rel(a, b, eq) <= max2(a.len(), b.len()),
    decreases a.len() + b.len(),
{
    if a.len() == 0 || b.len() == 0 {
    } else {
        lemma_lev_le_max(a.drop_last(), b.drop_last(), eq);
    }
}

/// Symmetry: swapping the two sequences leaves the distance unchanged,
/// provided the element relation is itself symmetric.
pub proof fn lemma_lev_symmetric<T>(a: Seq<T>, b: Seq<T>, eq: spec_fn(T, T) -> bool)
    requires
        forall|x: T, y: T| #[trigger] eq(x, y) == eq(y, x),
    ensures
        lev_rel(a, b, eq) == lev_rel(b, a, eq),
    decreases a.len() + b.len(),
{
    if a.len() == 0 || b.len() == 0 {
    } else {
        lemma_lev_symmetric(a.drop_last(), b, eq);
        lemma_lev_symmetric(a, b.drop_last(), eq);
        lemma_lev_symmetric(a.drop_last(), b.drop_last(), eq);
    }
}

/// Identity: a sequence is at distance zero from itself, provided the
/// element relation is reflexive.
pub proof fn lemma_lev_identity<T>(a: Seq<T>, eq: spec_fn(T, T) -> bool)
    requires
        forall|x: T| #[trigger] eq(x, x),
    ensures
        lev_rel(a, a, eq) == 0,
    decreases a.len(),
{
    if a.len() > 0 {
        lemma_lev_identity(a.drop_last(), eq);
        lemma_lev_step(a, a, eq, a.len() as int, a.len() as int);
        assert(a.take(a.len() as int) =~= a);
        assert(a.take(a.len() - 1) =~= a.drop_last());
    }
}

/// Rolling-row Levenshtein computation over slices, with elements compared
/// by `eq`-respecting `==`.  `row[k]` always holds the distance between the
/// processed prefix of `a` and the length-`k` prefix of `b`; one diagonal
/// value is threaded through each row update.
pub fn generic_levenshtein<T: PartialEq>(a: &[T], b: &[T]) -> (r: usize)
    requires
        T::obeys_eq_spec(),
        a@.len() < usize::MAX,
        b@.len() < usize::MAX,
    ensures
        r == lev_rel(a@, b@, eq_fn::<T>()),
{
    let ghost eq = eq_fn::<T>();
    let alen = a.len();
    let blen = b.len();
    let mut row: Vec<usize> = Vec::new();
    for j in 0..(blen + 1)
        invariant
            row@.len() == j,
            forall|k: int| 0 <= k < j ==> row@[k] == k,
    {
        row.push(j);
    }
    assert forall|k: int| 0 <= k <= blen implies row@[k] == lev_rel(
        a@.take(0),
        b@.take(k),
        eq,
    ) by {
        assert(a@.take(0).len() == 0);
        assert(b@.take(k).len() == k);
    }
    for i in 0..alen
        invariant
            row@.len() == blen + 1,
            alen == a@.len() < usize::MAX,
            blen == b@.len() < usize::MAX,
            T::obeys_eq_spec(),
            eq == eq_fn::<T>(),
            forall|k: int| 0 <= k <= blen ==> row@[k] == lev_rel(a@.take(i as int), b@.take(k), eq),
    {
        let mut diag = row[0];
        row.set(0, i + 1);
        assert(a@.take(i + 1).len() == i + 1 && b@.take(0).len() == 0);
        for j in 0..blen
            invariant
                row@.len() == blen + 1,
                i < alen == a@.len() < usize::MAX,
                blen == b@.len() < usize::MAX,
                T::obeys_eq_spec(),
                eq == eq_fn::<T>(),
                diag == lev_rel(a@.take(i as int), b@.take(j as int), eq),
                forall|k: int| 0 <= k <= j ==> row@[k] == lev_rel(a@.take(i + 1), b@.take(k), eq),
                forall|k: int|
                    j < k <= blen ==> row@[k] == lev_rel(a@.take(i as int), b@.take(k), eq),
        {
            let cost: usize = if a[i] == b[j] {
                0
            } else {
                1
            };
            proof {
                lemma_lev_le_max(a@.take(i + 1), b@.take(j as int), eq);
                lemma_lev_le_max(a@.take(i as int), b@.take(j + 1), eq);
                lemma_lev_le_max(a@.take(i as int), b@.take(j as int), eq);
            }
            let left = row[j];
            let up = row[j + 1];
            let sub = diag + cost;
            let mut m = if left < up {
                left + 1
            } else {
                up + 1
            };
            if sub < m {
                m = sub;
            }
            proof {
                lemma_lev_step(a@, b@, eq, i + 1, j + 1);
            }
            diag = up;
            row.set(j + 1, m);
        }
        assert(a@.take(alen as int) =~= a@);
    }
    assert(a@.take(alen as int) =~= a@);
    assert(b@.take(blen as int) =~= b@);
    row[blen]
}

/// Levenshtein distance between the character sequences of two strings.
pub fn levenshtein(a: &str, b: &str) -> (r: usize)
    requires
        a@.len() < usize::MAX,
        b@.len() < usize::MAX,
    ensures
        r == lev(a@, b@),
{
    let ca = chars_of(a);
    let cb = chars_of(b);
    levenshtein_chars(&ca, &cb)
}

/// Normalized Levenshtein score between two strings, as an exact fraction:
/// one for two empty strings, else `1 - levenshtein(a, b) / max(|a|, |b|)`.
pub fn normalized_levenshtein(a: &str, b: &str) -> (r: Ratio)
    requires
        a@.len() < usize::MAX,
        b@.len() < usize::MAX,
    ensures
        r.wf(),
        r.num == norm_lev(a@, b@).0,
        r.den == norm_lev(a@, b@).1,
        r.num <= r.den,
{
    let ca = chars_of(a);
    let cb = chars_of(b);
    normalized_levenshtein_chars(&ca, &cb)
}

/// Normalized Levenshtein score between two character vectors.
pub fn normalized_levenshtein_chars(a: &Vec<char>, b: &Vec<char>) -> (r: Ratio)
    requires
        a@.len() < usize::MAX,
        b@.len() < usize::MAX,
    ensures
        r.wf(),
        r.num == norm_lev(a@, b@).0,
        r.den == norm_lev(a@, b@).1,
        r.num <= r.den,
{
    if a.len() == 0 && b.len() == 0 {
        return Ratio::one();
    }
    let d = levenshtein_chars(a, b);
    let mx = if a.len() >= b.len() {
        a.len()
    } else {
        b.len()
    };
    proof {
        lemma_lev_le_max(a@, b@, char_eq());
    }
    Ratio::new((mx - d) as u128, mx as u128)
}

/// Rolling-row Levenshtein computation over character vectors.
pub fn levenshtein_chars(a: &Vec<char>, b: &Vec<char>) -> (r: usize)
    requires
        a@.len() < usize::MAX,
        b@.len() < usize::MAX,
    ensures
        r == lev(a@, b@),
{
    let ghost eq = char_eq();
    let alen = a.len();
    let blen = b.len();
    let mut row: Vec<usize> = Vec::new();
    for j in 0..(blen + 1)
        invariant
            row@.len() == j,
            forall|k: int| 0 <= k < j ==> row@[k] == k,
    {
        row.push(j);
    }
    assert forall|k: int| 0 <= k <= blen implies row@[k] == lev_rel(
        a@.take(0),
        b@.take(k),
        eq,
    ) by {
        assert(a@.take(0).len() == 0);
        assert(b@.take(k).len() == k);
    }
    for i in 0..alen
        invariant
            row@.len() == blen + 1,
            alen == a@.len() < usize::MAX,
            blen == b@.len() < usize::MAX,
            eq == char_eq(),
            forall|k: int| 0 <= k <= blen ==> row@[k] == lev_rel(a@.take(i as int), b@.take(k), eq),
    {
        let mut diag = row[0];
        row.set(0, i + 1);
        assert(a@.take(i + 1).len() == i + 1 && b@.take(0).len() == 0);
        for j in 0..blen
            invariant
                row@.len() == blen + 1,
                i < alen == a@.len() < usize::MAX,
                blen == b@.len() < usize::MAX,
                eq == char_eq(),
                diag == lev_rel(a@.take(i as int), b@.take(j as int), eq),
                forall|k: int| 0 <= k <= j ==> row@[k] == lev_rel(a@.take(i + 1), b@.take(k), eq),
                forall|k: int|
                    j < k <= blen ==> row@[k] == lev_rel(a@.take(i as int), b@.take(k), eq),
        {
            let cost: usize = if a[i] == b[j] {
                0
            } else {
                1
            };
            proof {
                lemma_lev_le_max(a@.take(i + 1), b@.take(j as int), eq);
                lemma_lev_le_max(a@.take(i as int), b@.take(j + 1), eq);
                lemma_lev_le_max(a@.take(i as int), b@.take(j as int), eq);
            }
            let left = row[j];
            let up = row[j + 1];
            let sub = diag + cost;
            let mut m = if left < up {
                left + 1
            } else {
                up + 1
            };
            if sub < m {
                m = sub;
            }
            proof {
                lemma_lev_step(a@, b@, eq, i + 1, j + 1);
            }
            diag = up;
            row.set(j + 1, m);
        }
        assert(a@.take(alen as int) =~= a@);
    }
    assert(a@.take(alen as int) =~= a@);
    assert(b@.take(blen as int) =~= b@);
    row[blen]
}

} // verus!
