//! Hamming distance: the number of positions at which two equal-length
//! sequences differ.

use vstd::prelude::*;

verus! {

use vstd::std_specs::cmp::PartialEqSpec;
use crate::utils::{char_eq, chars_of, eq_fn, FuzztError};

/// Number of positions (counted from the end) at which `a` and `b` differ
/// under the relation `eq`.  Meaningful when the sequences have equal
/// length; extra leading elements of the longer sequence are ignored.
pub open spec fn ham_rel<T>(a: Seq<T>, b: Seq<T>, eq: spec_fn(T, T) -> bool) -> nat
    decreases a.len(),
{
    if a.len() == 0 || b.len() == 0 {
        0
    } else {
        ham_rel(a.drop_last(), b.drop_last(), eq) + if eq(a.last(), b.last()) {
            0nat
        } else {
            1nat
        }
    }
}

/// Hamming distance between two equal-length character sequences.
pub open spec fn ham(a: Seq<char>, b: Seq<char>) -> nat {
    ham_rel(a, b, char_eq())
}

/// The mismatch count over prefixes grows by one exactly at mismatching
/// positions.
pub proof fn lemma_ham_step<T>(a: Seq<T>, b: Seq<T>, eq: spec_fn(T, T) -> bool, i: int)
    requires
        1 <= i <= a.len(),
        1 <= i <= b.len(),
    ensures
        ham_rel(a.take(i), b.take(i), eq) == ham_rel(a.take(i - 1), b.take(i - 1), eq) + if eq(
            a[i - 1],
            b[i - 1],
        ) {
            0nat
        } else {
            1nat
        },
{
    assert(a.take(i).drop_last() =~= a.take(i - 1));
    assert(b.take(i).drop_last() =~= b.take(i - 1));
    assert(a.take(i).last() == a[i - 1]);
    assert(b.take(i).last() == b[i - 1]);
}

/// The mismatch count never exceeds the shorter length.
pub proof fn lemma_ham_le_len<T>(a: Seq<T>, b: Seq<T>, eq: spec_fn(T, T) -> bool)
    ensures
        ham_rel(a, b, eq) <= a.len(),
        ham_rel(a, b, eq) <= b.len(),
    decreases a.len(),
{
    if a.len() > 0 && b.len() > 0 {
        lemma_ham_le_len(a.drop_last(), b.drop_last(), eq);
    }
}

/// Symmetry: the mismatch count is unchanged when the sequences are
/// swapped, provided the element relation is symmetric.
pub proof fn lemma_ham_symmetric<T>(a: Seq<T>, b: Seq<T>, eq: spec_fn(T, T) -> bool)
    requires
        forall|x: T, y: T| #[trigger] eq(x, y) == eq(y, x),
    ensures
        ham_rel(a, b, eq) == ham_rel(b, a, eq),
    decreases a.len(),
{
    if a.len() > 0 && b.len() > 0 {
        lemma_ham_symmetric(a.drop_last(), b.drop_last(), eq);
    }
}

/// Identity: a sequence is at Hamming distance zero from itself, provided
/// the element relation is reflexive.
pub proof fn lemma_ham_identity<T>(a: Seq<T>, eq: spec_fn(T, T) -> bool)
    requires
        forall|x: T| #[trigger] eq(x, x),
    ensures
        ham_rel(a, a, eq) == 0,
    decreases a.len(),
{
    if a.len() > 0 {
        lemma_ham_identity(a.drop_last(), eq);
    }
}

/// Equal-length sequences that differ at every position are at Hamming
/// distance exactly their length.
pub proof fn lemma_ham_all_diff<T>(a: Seq<T>, b: Seq<T>, eq: spec_fn(T, T) -> bool)
    requires
        a.len() == b.len(),
        forall|i: int| 0 <= i < a.len() ==> !#[trigger] eq(a[i], b[i]),
    ensures
        ham_rel(a, b, eq) == a.len(),
    decreases a.len(),
{
    if a.len() > 0 {
        lemma_ham_all_diff(a.drop_last(), b.drop_last(), eq);
    }
}

/// Counts the positions where equal-length slices differ; rejects slices of
/// different lengths.
pub fn generic_hamming<T: PartialEq>(a: &[T], b: &[T]) -> (r: Result<usize, FuzztError>)
    requires
        T::obeys_eq_spec(),
    ensures
        r is Ok <==> a@.len() == b@.len(),
        r matches Ok(c) ==> c == ham_rel(a@, b@, eq_fn::<T>()),
        r matches Err(e) ==> e == FuzztError::DifferentLengthArgs,
{
    let ghost eq = eq_fn::<T>();
    if a.len() != b.len() {
        return Err(FuzztError::DifferentLengthArgs);
    }
    let n = a.len();
    let mut count: usize = 0;
    for i in 0..n
        invariant
            n == a@.len() == b@.len(),
            T::obeys_eq_spec(),
            eq == eq_fn::<T>(),
            count == ham_rel(a@.take(i as int), b@.take(i as int), eq),
            count <= i,
    {
        proof {
            lemma_ham_step(a@, b@, eq, i + 1);
        }
        if a[i] != b[i] {
            count += 1;
        }
    }
    assert(a@.take(n as int) =~= a@);
    assert(b@.take(n as int) =~= b@);
    Ok(count)
}

/// Counts the positions where the character sequences of two equal-length
/// strings differ; rejects strings whose character counts differ.
pub fn hamming(a: &str, b: &str) -> (r: Result<usize, FuzztError>)
    ensures
        r is Ok <==> a@.len() == b@.len(),
        r matches Ok(c) ==> c == ham(a@, b@),
        r matches Err(e) ==> e == FuzztError::DifferentLengthArgs,
{
    let ca = chars_of(a);
    let cb = chars_of(b);
    hamming_chars(&ca, &cb)
}

/// Counts the positions where two equal-length character vectors differ.
pub fn hamming_chars(a: &Vec<char>, b: &Vec<char>) -> (r: Result<usize, FuzztError>)
    ensures
        r is Ok <==> a@.len() == b@.len(),
        r matches Ok(c) ==> c == ham(a@, b@),
        r matches Err(e) ==> e == FuzztError::DifferentLengthArgs,
{
    let ghost eq = char_eq();
    if a.len() != b.len() {
        return Err(FuzztError::DifferentLengthArgs);
    }
    let n = a.len();
    let mut count: usize = 0;
    for i in 0..n
        invariant
            n == a@.len() == b@.len(),
            eq == char_eq(),
            count == ham_rel(a@.take(i as int), b@.take(i as int), eq),
            count <= i,
    {
        proof {
            lemma_ham_step(a@, b@, eq, i + 1);
        }
        if a[i] != b[i] {
            count += 1;
        }
    }
    assert(a@.take(n as int) =~= a@);
    assert(b@.take(n as int) =~= b@);
    Ok(count)
}

} // verus!
