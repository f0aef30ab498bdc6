//! Optimal string alignment distance: Levenshtein plus adjacent
//! transposition as a single operation, with the restriction that no
//! substring is edited more than once.  It is not a metric: the triangle
//! inequality can fail.

use vstd::prelude::*;

verus! {

use crate::utils::{chars_of, max2, min2, min3};

/// Cell `(i, j)` of the optimal-string-alignment matrix for `a` and `b`:
/// the distance between the length-`i` prefix of `a` and the length-`j`
/// prefix of `b`.
pub open spec fn osa_cell(a: Seq<char>, b: Seq<char>, i: nat, j: nat) -> nat
    decreases i + j,
{
    if i == 0 {
        j
    } else if j == 0 {
        i
    } else {
        let cost: nat = if a[i - 1] == b[j - 1] {
            0
        } else {
            1
        };
        let base = min3(
            osa_cell(a, b, (i - 1) as nat, j) + 1,
            osa_cell(a, b, i, (j - 1) as nat) + 1,
            osa_cell(a, b, (i - 1) as nat, (j - 1) as nat) + cost,
        );
        if i >= 2 && j >= 2 && a[i - 1] != b[j - 1] && a[i - 1] == b[j - 2] && a[i - 2] == b[j
            - 1] {
            min2(base, osa_cell(a, b, (i - 2) as nat, (j - 2) as nat) + 1)
        } else {
            base
        }
    }
}

/// Optimal-string-alignment distance between two character sequences.
pub open spec fn osa(a: Seq<char>, b: Seq<char>) -> nat {
    osa_cell(a, b, a.len(), b.len())
}

/// Each matrix cell is bounded by the larger prefix length.
pub proof fn lemma_osa_le_max(a: Seq<char>, b: Seq<char>, i: nat, j: nat)
    ensures
        osa_cell(a, b, i, j) <= max2(i, j),
    decreases i + j,
{
    if i == 0 || j == 0 {
    } else {
        lemma_osa_le_max(a, b, (i - 1) as nat, (j - 1) as nat);
    }
}

/// Symmetry: swapping the sequences transposes the matrix.
pub proof fn lemma_osa_cell_symmetric(a: Seq<char>, b: Seq<char>, i: nat, j: nat)
    ensures
        osa_cell(a, b, i, j) == osa_cell(b, a, j, i),
    decreases i + j,
{
    if i == 0 || j == 0 {
    } else {
        lemma_osa_cell_symmetric(a, b, (i - 1) as nat, j);
        lemma_osa_cell_symmetric(a, b, i, (j - 1) as nat);
        lemma_osa_cell_symmetric(a, b, (i - 1) as nat, (j - 1) as nat);
        if i >= 2 && j >= 2 {
            lemma_osa_cell_symmetric(a, b, (i - 2) as nat, (j - 2) as nat);
        }
    }
}

/// Symmetry of the distance itself.
pub proof fn lemma_osa_symmetric(a: Seq<char>, b: Seq<char>)
    ensures
        osa(a, b) == osa(b, a),
{
    lemma_osa_cell_symmetric(a, b, a.len(), b.len());
}

/// Identity: every diagonal cell of the matrix for a sequence against
/// itself is zero.
pub proof fn lemma_osa_identity_cell(a: Seq<char>, i: nat)
    requires
        i <= a.len(),
    ensures
        osa_cell(a, a, i, i) == 0,
    decreases i,
{
    if i > 0 {
        lemma_osa_identity_cell(a, (i - 1) as nat);
    }
}

/// Identity: a sequence is at distance zero from itself.
pub proof fn lemma_osa_identity(a: Seq<char>)
    ensures
        osa(a, a) == 0,
{
    lemma_osa_identity_cell(a, a.len());
}

/// Optimal-string-alignment distance between the character sequences of
/// two strings.
pub fn osa_distance(a: &str, b: &str) -> (r: usize)
    requires
        a@.len() < usize::MAX,
        b@.len() < usize::MAX,
    ensures
        r == osa(a@, b@),
{
    let ca = chars_of(a);
    let cb = chars_of(b);
    osa_distance_chars(&ca, &cb)
}

/// Three-rolling-row computation of the optimal-string-alignment matrix:
/// the current row, the previous row, and the row before that (needed for
/// the transposition candidate).
#[verifier::rlimit(60)]
pub fn osa_distance_chars(a: &Vec<char>, b: &Vec<char>) -> (r: usize)
    requires
        a@.len() < usize::MAX,
        b@.len() < usize::MAX,
    ensures
        r == osa(a@, b@),
{
    let alen = a.len();
    let blen = b.len();
    let mut prev_two: Vec<usize> = Vec::new();
    let mut prev: Vec<usize> = Vec::new();
    let mut curr: Vec<usize> = Vec::new();
    for j in 0..(blen + 1)
        invariant
            prev_two@.len() == j,
            prev@.len() == j,
            curr@.len() == j,
            forall|k: int| 0 <= k < j ==> prev@[k] == k,
            forall|k: int| 0 <= k < j ==> curr@[k] == 0,
    {
        prev_two.push(j);
        prev.push(j);
        curr.push(0);
    }
    for i in 0..alen
        invariant
            prev_two@.len() == blen + 1,
            prev@.len() == blen + 1,
            curr@.len() == blen + 1,
            alen == a@.len() < usize::MAX,
            blen == b@.len() < usize::MAX,
            forall|k: int| 0 <= k <= blen ==> prev@[k] == osa_cell(a@, b@, i as nat, k as nat),
            i >= 1 ==> forall|k: int|
                0 <= k <= blen ==> prev_two@[k] == osa_cell(a@, b@, (i - 1) as nat, k as nat),
    {
        curr.set(0, i + 1);
        for j in 0..blen
            invariant
                prev_two@.len() == blen + 1,
                prev@.len() == blen + 1,
                curr@.len() == blen + 1,
                i < alen == a@.len() < usize::MAX,
                blen == b@.len() < usize::MAX,
                forall|k: int| 0 <= k <= blen ==> prev@[k] == osa_cell(a@, b@, i as nat, k as nat),
                i >= 1 ==> forall|k: int|
                    0 <= k <= blen ==> prev_two@[k] == osa_cell(a@, b@, (i - 1) as nat, k as nat),
                forall|k: int| 0 <= k <= j ==> curr@[k] == osa_cell(a@, b@, (i + 1) as nat, k as nat),
        {
            let cost: usize = if a[i] == b[j] {
                0
            } else {
                1
            };
            proof {
                lemma_osa_le_max(a@, b@, (i + 1) as nat, j as nat);
                lemma_osa_le_max(a@, b@, i as nat, (j + 1) as nat);
                lemma_osa_le_max(a@, b@, i as nat, j as nat);
                if i >= 1 && j >= 1 {
                    lemma_osa_le_max(a@, b@, (i - 1) as nat, (j - 1) as nat);
                }
            }
            let mut m = if curr[j] < prev[j + 1] {
                curr[j] + 1
            } else {
                prev[j + 1] + 1
            };
            if prev[j] + cost < m {
                m = prev[j] + cost;
            }
            if i > 0 && j > 0 && a[i] != b[j] && a[i] == b[j - 1] && a[i - 1] == b[j] {
                if prev_two[j - 1] + 1 < m {
                    m = prev_two[j - 1] + 1;
                }
            }
            curr.set(j + 1, m);
        }
        let tmp = prev_two;
        prev_two = prev;
        prev = curr;
        curr = tmp;
    }
    prev[blen]
}

} // verus!
