//! Unrestricted Damerau–Levenshtein distance: like optimal string alignment,
//! but substrings can be edited an unlimited number of times, so the triangle
//! inequality holds.  Both variants fill a padded matrix with sentinel
//! borders; the cost of a transposition is found in O(1) per cell through a
//! running record of the last row at which each element was seen.

use vstd::prelude::*;

verus! {

use vstd::std_specs::cmp::PartialEqSpec;
use crate::codepoint_map::{HybridGrowingHashmapChar, RowId};
use crate::ratio::Ratio;
use crate::utils::{char_eq, chars_of, eq_fn, imin, max2};

/// The largest index `m` in `1..n` with `eq(s[m - 1], c)`, or `0` when no
/// such index exists: the last (1-based) position before `n` at which the
/// element `c` occurs in `s`.
pub open spec fn last_occ<T>(s: Seq<T>, c: T, n: int, eq: spec_fn(T, T) -> bool) -> int
    decreases n,
{
    if n <= 1 {
        0
    } else if eq(s[n - 2], c) {
        n - 1
    } else {
        last_occ(s, c, n - 1, eq)
    }
}

/// The last occurrence index is within `[0, n)` for positive `n`.
pub proof fn lemma_last_occ_range<T>(s: Seq<T>, c: T, n: int, eq: spec_fn(T, T) -> bool)
    ensures
        n >= 1 ==> 0 <= last_occ(s, c, n, eq) < n,
        n < 1 ==> last_occ(s, c, n, eq) == 0,
    decreases n,
{
    if n > 1 {
        lemma_last_occ_range(s, c, n - 1, eq);
    }
}

/// Cell `(p, q)` of the padded Damerau–Levenshtein matrix for `a` and `b`
/// under the element relation `eq`.  Rows `p == 0` and columns `q == 0` hold
/// the sentinel `a.len() + b.len()`; row `p` (for `p >= 1`) aligns the
/// length-`p - 1` prefix of `a` with the length-`q - 1` prefix of `b`.
pub open spec fn dl_cell<T>(a: Seq<T>, b: Seq<T>, eq: spec_fn(T, T) -> bool, p: int, q: int) -> int
    decreases p + q,
    when p + q >= 0
    via dl_cell_decreases::<T>
{
    let maxd = a.len() + b.len();
    if p <= 0 || q <= 0 {
        maxd as int
    } else if q == 1 {
        p - 1
    } else if p == 1 {
        q - 1
    } else {
        let ii = p - 1;
        let jj = q - 1;
        let k = last_occ(a, b[jj - 1], ii, eq);
        let db = last_occ(b, a[ii - 1], jj, eq);
        let cost: int = if eq(a[ii - 1], b[jj - 1]) {
            0
        } else {
            1
        };
        imin(
            imin(dl_cell(a, b, eq, ii, q) + 1, dl_cell(a, b, eq, p, jj) + 1),
            imin(
                dl_cell(a, b, eq, ii, jj) + cost,
                dl_cell(a, b, eq, k, db) + (ii - k - 1) + 1 + (jj - db - 1),
            ),
        )
    }
}

#[via_fn]
proof fn dl_cell_decreases<T>(a: Seq<T>, b: Seq<T>, eq: spec_fn(T, T) -> bool, p: int, q: int) {
    if p >= 2 && q >= 2 {
        lemma_last_occ_range(a, b[q - 2], p - 1, eq);
        lemma_last_occ_range(b, a[p - 2], q - 1, eq);
    }
}

/// Damerau–Levenshtein distance between `a` and `b` under the relation `eq`.
pub open spec fn dl_rel<T>(a: Seq<T>, b: Seq<T>, eq: spec_fn(T, T) -> bool) -> int {
    dl_cell(a, b, eq, a.len() as int + 1, b.len() as int + 1)
}

/// Damerau–Levenshtein distance between two character sequences.
pub open spec fn dl(a: Seq<char>, b: Seq<char>) -> int {
    dl_rel(a, b, char_eq())
}

/// Every cell is nonnegative, bounded by the sentinel, and, inside the
/// aligned region, bounded by the larger prefix length.
pub proof fn lemma_dl_bounds<T>(a: Seq<T>, b: Seq<T>, eq: spec_fn(T, T) -> bool, p: int, q: int)
    requires
        0 <= p <= a.len() + 1,
        0 <= q <= b.len() + 1,
    ensures
        0 <= dl_cell(a, b, eq, p, q) <= a.len() + b.len(),
        p >= 1 && q >= 1 ==> dl_cell(a, b, eq, p, q) <= max2((p - 1) as nat, (q - 1) as nat),
    decreases p + q,
{
    if p >= 2 && q >= 2 {
        let ii = p - 1;
        let jj = q - 1;
        lemma_last_occ_range(a, b[jj - 1], ii, eq);
        lemma_last_occ_range(b, a[ii - 1], jj, eq);
        let k = last_occ(a, b[jj - 1], ii, eq);
        let db = last_occ(b, a[ii - 1], jj, eq);
        lemma_dl_bounds(a, b, eq, ii, q);
        lemma_dl_bounds(a, b, eq, p, jj);
        lemma_dl_bounds(a, b, eq, ii, jj);
        lemma_dl_bounds(a, b, eq, k, db);
    }
}

/// The distance never exceeds the longer length.
pub proof fn lemma_dl_le_max<T>(a: Seq<T>, b: Seq<T>, eq: spec_fn(T, T) -> bool)
    ensures
        0 <= dl_rel(a, b, eq) <= max2(a.len(), b.len()),
{
    lemma_dl_bounds(a, b, eq, a.len() as int + 1, b.len() as int + 1);
}

/// The normalized Damerau–Levenshtein score of `a` and `b` as an exact
/// fraction `(numerator, denominator)`: `1 - dl(a, b) / max(|a|, |b|)`, and
/// one when both sequences are empty.
pub open spec fn norm_dl(a: Seq<char>, b: Seq<char>) -> (int, int) {
    if a.len() == 0 && b.len() == 0 {
        (1int, 1int)
    } else {
        (max2(a.len(), b.len()) - dl(a, b), max2(a.len(), b.len()) as int)
    }
}

/// The normalized score is a well-formed fraction in `[0, 1]`.
pub proof fn lemma_norm_dl_bounds(a: Seq<char>, b: Seq<char>)
    ensures
        0 < norm_dl(a, b).1,
        0 <= norm_dl(a, b).0 <= norm_dl(a, b).1,
{
    if a.len() != 0 || b.len() != 0 {
        lemma_dl_le_max(a, b, char_eq());
    }
}

/// Identity: the normalized score of a sequence against itself is one.
pub proof fn lemma_norm_dl_identity(a: Seq<char>)
    ensures
        norm_dl(a, a).0 == norm_dl(a, a).1,
{
    lemma_dl_identity(a, char_eq());
}

/// Symmetry: swapping the sequences transposes the padded matrix, provided
/// the element relation is symmetric.
pub proof fn lemma_dl_cell_symmetric<T>(
    a: Seq<T>,
    b: Seq<T>,
    eq: spec_fn(T, T) -> bool,
    p: int,
    q: int,
)
    requires
        forall|x: T, y: T| #[trigger] eq(x, y) == eq(y, x),
        0 <= p,
        0 <= q,
    ensures
        dl_cell(a, b, eq, p, q) == dl_cell(b, a, eq, q, p),
    decreases p + q,
{
    if p >= 2 && q >= 2 {
        let ii = p - 1;
        let jj = q - 1;
        lemma_last_occ_range(a, b[jj - 1], ii, eq);
        lemma_last_occ_range(b, a[ii - 1], jj, eq);
        let k = last_occ(a, b[jj - 1], ii, eq);
        let db = last_occ(b, a[ii - 1], jj, eq);
        lemma_dl_cell_symmetric(a, b, eq, ii, q);
        lemma_dl_cell_symmetric(a, b, eq, p, jj);
        lemma_dl_cell_symmetric(a, b, eq, ii, jj);
        lemma_dl_cell_symmetric(a, b, eq, k, db);
    }
}

/// Symmetry of the distance itself.
pub proof fn lemma_dl_symmetric<T>(a: Seq<T>, b: Seq<T>, eq: spec_fn(T, T) -> bool)
    requires
        forall|x: T, y: T| #[trigger] eq(x, y) == eq(y, x),
    ensures
        dl_rel(a, b, eq) == dl_rel(b, a, eq),
{
    lemma_dl_cell_symmetric(a, b, eq, a.len() as int + 1, b.len() as int + 1);
}

/// Identity: every diagonal cell of the matrix for a sequence against
/// itself is zero, provided the element relation is reflexive.
pub proof fn lemma_dl_identity_cell<T>(a: Seq<T>, eq: spec_fn(T, T) -> bool, p: int)
    requires
        forall|x: T| #[trigger] eq(x, x),
        1 <= p <= a.len() + 1,
    ensures
        dl_cell(a, a, eq, p, p) == 0,
    decreases p,
{
    if p >= 2 {
        lemma_dl_identity_cell(a, eq, p - 1);
        lemma_dl_bounds(a, a, eq, p - 1, p);
        lemma_dl_bounds(a, a, eq, p, p - 1);
        let ii = p - 1;
        lemma_last_occ_range(a, a[ii - 1], ii, eq);
        let k = last_occ(a, a[ii - 1], ii, eq);
        let db = last_occ(a, a[ii - 1], ii, eq);
        lemma_dl_bounds(a, a, eq, k, db);
        lemma_last_occ_range(a, a[ii - 1], ii, eq);
    }
}

/// Identity: a sequence is at distance zero from itself.
pub proof fn lemma_dl_identity<T>(a: Seq<T>, eq: spec_fn(T, T) -> bool)
    requires
        forall|x: T| #[trigger] eq(x, x),
    ensures
        dl_rel(a, a, eq) == 0,
{
    lemma_dl_identity_cell(a, eq, a.len() as int + 1);
}

/// Equivalence of the generic-element and character-specialised variants:
/// under any element relation that agrees with structural character
/// equality — as the `==` of every well-behaved element type does — the
/// generic distance of two character sequences is exactly the
/// character-specialised distance.
pub proof fn lemma_dl_generic_char_agree(a: Seq<char>, b: Seq<char>, eq: spec_fn(char, char) -> bool)
    requires
        forall|x: char, y: char| #[trigger] eq(x, y) == (x == y),
    ensures
        dl_rel(a, b, eq) == dl(a, b),
{
    assert(eq =~= char_eq());
}

/// Damerau–Levenshtein distance over generic element slices, with elements
/// compared by `==`.  The per-cell transposition term reads a per-column
/// record of the last row at which each element of `b` was seen.
#[verifier::rlimit(60)]
pub fn generic_damerau_levenshtein<T: PartialEq>(a: &[T], b: &[T]) -> (r: usize)
    requires
        T::obeys_eq_spec(),
        forall|x: T, y: T| #[trigger] x.eq_spec(&y) == y.eq_spec(&x),
        2 * (a@.len() + b@.len() + 2) <= usize::MAX,
    ensures
        r == dl_rel(a@, b@, eq_fn::<T>()),
{
    let ghost eq = eq_fn::<T>();
    let alen = a.len();
    let blen = b.len();
    if alen == 0 {
        return blen;
    }
    if blen == 0 {
        return alen;
    }
    let maxd = alen + blen;
    let mut grid: Vec<Vec<usize>> = Vec::new();
    let mut row0: Vec<usize> = Vec::new();
    for q in 0..(blen + 2)
        invariant
            row0@.len() == q,
            forall|x: int| 0 <= x < q ==> row0@[x] == maxd,
            maxd == alen + blen <= usize::MAX,
    {
        row0.push(maxd);
    }
    grid.push(row0);
    let mut row1: Vec<usize> = Vec::new();
    row1.push(maxd);
    for q in 1..(blen + 2)
        invariant
            row1@.len() == q,
            row1@[0] == maxd,
            forall|x: int| 1 <= x < q ==> row1@[x] == x - 1,
            maxd == alen + blen <= usize::MAX,
            blen >= 1,
    {
        row1.push(q - 1);
    }
    grid.push(row1);
    let mut lastrow: Vec<usize> = Vec::new();
    for j in 0..blen
        invariant
            lastrow@.len() == j,
            forall|x: int| 0 <= x < j ==> lastrow@[x] == 0,
    {
        lastrow.push(0);
    }
    assert forall|x: int| 0 <= x < blen implies lastrow@[x] == last_occ(a@, b@[x], 1, eq) by {}
    assert forall|q: int| 0 <= q < blen + 2 implies grid@[0][q] == dl_cell(a@, b@, eq, 0, q)
        && grid@[1][q] == dl_cell(a@, b@, eq, 1, q) by {}
    for ii in 1..(alen + 1)
        invariant
            alen == a@.len() >= 1,
            blen == b@.len() >= 1,
            maxd == alen + blen,
            2 * (alen + blen + 2) <= usize::MAX,
            T::obeys_eq_spec(),
            forall|x: T, y: T| #[trigger] x.eq_spec(&y) == y.eq_spec(&x),
            eq == eq_fn::<T>(),
            grid@.len() == ii + 1,
            forall|p: int| 0 <= p <= ii ==> #[trigger] grid@[p].len() == blen + 2,
            forall|p: int, q: int|
                0 <= p <= ii && 0 <= q < blen + 2 ==> #[trigger] grid@[p][q] == dl_cell(
                    a@,
                    b@,
                    eq,
                    p,
                    q,
                ),
            lastrow@.len() == blen,
            forall|x: int| 0 <= x < blen ==> lastrow@[x] == last_occ(a@, b@[x], ii as int, eq),
    {
        let mut cur: Vec<usize> = Vec::new();
        cur.push(maxd);
        cur.push(ii);
        let mut db: usize = 0;
        assert(cur@[0] == dl_cell(a@, b@, eq, ii + 1, 0));
        assert(cur@[1] == dl_cell(a@, b@, eq, ii + 1, 1));
        for jj in 1..(blen + 1)
            invariant
                alen == a@.len() >= 1,
                blen == b@.len() >= 1,
                maxd == alen + blen,
                2 * (alen + blen + 2) <= usize::MAX,
                T::obeys_eq_spec(),
                forall|x: T, y: T| #[trigger] x.eq_spec(&y) == y.eq_spec(&x),
                eq == eq_fn::<T>(),
                1 <= ii <= alen,
                grid@.len() == ii + 1,
                forall|p: int| 0 <= p <= ii ==> #[trigger] grid@[p].len() == blen + 2,
                forall|p: int, q: int|
                    0 <= p <= ii && 0 <= q < blen + 2 ==> #[trigger] grid@[p][q] == dl_cell(
                        a@,
                        b@,
                        eq,
                        p,
                        q,
                    ),
                lastrow@.len() == blen,
                forall|x: int| 0 <= x < blen ==> lastrow@[x] == last_occ(a@, b@[x], ii as int, eq),
                cur@.len() == jj + 1,
                forall|q: int| 0 <= q <= jj ==> #[trigger] cur@[q] == dl_cell(a@, b@, eq, ii + 1, q),
                db == last_occ(b@, a@[ii - 1], jj as int, eq),
                0 <= db < jj,
        {
            let k = lastrow[jj - 1];
            proof {
                lemma_last_occ_range(a@, b@[jj - 1], ii as int, eq);
                lemma_last_occ_range(b@, a@[ii - 1], jj as int, eq);
                lemma_dl_bounds(a@, b@, eq, ii as int, jj + 1);
                lemma_dl_bounds(a@, b@, eq, ii + 1, jj as int);
                lemma_dl_bounds(a@, b@, eq, ii as int, jj as int);
                lemma_dl_bounds(a@, b@, eq, k as int, db as int);
            }
            proof {
                assert(grid@[ii as int].len() == blen + 2);
                assert(grid@[k as int].len() == blen + 2);
            }
            let ins = grid[ii][jj + 1] + 1;
            let del = cur[jj] + 1;
            let cost: usize = if a[ii - 1] == b[jj - 1] {
                0
            } else {
                1
            };
            let sub = grid[ii][jj] + cost;
            let trans = grid[k][db] + (ii - k - 1) + 1 + (jj - db - 1);
            let mut m = if ins < del {
                ins
            } else {
                del
            };
            if sub < m {
                m = sub;
            }
            if trans < m {
                m = trans;
            }
            assert(m == dl_cell(a@, b@, eq, ii + 1, jj + 1));
            cur.push(m);
            if a[ii - 1] == b[jj - 1] {
                db = jj;
            }
        }
        grid.push(cur);
        for j in 0..blen
            invariant
                alen == a@.len() >= 1,
                blen == b@.len() >= 1,
                T::obeys_eq_spec(),
                eq == eq_fn::<T>(),
                1 <= ii <= alen,
                lastrow@.len() == blen,
                forall|x: int| j <= x < blen ==> lastrow@[x] == last_occ(a@, b@[x], ii as int, eq),
                forall|x: int| 0 <= x < j ==> lastrow@[x] == last_occ(a@, b@[x], ii + 1, eq),
        {
            if a[ii - 1] == b[j] {
                lastrow.set(j, ii);
            }
        }
    }
    proof {
        assert(grid@[alen + 1].len() == blen + 2);
    }
    grid[alen + 1][blen + 1]
}

/// Damerau–Levenshtein distance between the character sequences of two
/// strings.
pub fn damerau_levenshtein(a: &str, b: &str) -> (r: usize)
    requires
        a@.len() < usize::MAX / 32,
        b@.len() < usize::MAX / 32,
    ensures
        r == dl(a@, b@),
{
    let ca = chars_of(a);
    let cb = chars_of(b);
    damerau_levenshtein_chars(&ca, &cb)
}

/// Normalized Damerau–Levenshtein score between two strings, as an exact
/// fraction: one for two empty strings, else
/// `1 - damerau_levenshtein(a, b) / max(|a|, |b|)`.
pub fn normalized_damerau_levenshtein(a: &str, b: &str) -> (r: Ratio)
    requires
        a@.len() < usize::MAX / 32,
        b@.len() < usize::MAX / 32,
    ensures
        r.wf(),
        r.num == norm_dl(a@, b@).0,
        r.den == norm_dl(a@, b@).1,
        r.num <= r.den,
{
    let ca = chars_of(a);
    let cb = chars_of(b);
    normalized_damerau_levenshtein_chars(&ca, &cb)
}

/// Normalized Damerau–Levenshtein score between two character vectors.
pub fn normalized_damerau_levenshtein_chars(a: &Vec<char>, b: &Vec<char>) -> (r: Ratio)
    requires
        a@.len() < usize::MAX / 32,
        b@.len() < usize::MAX / 32,
    ensures
        r.wf(),
        r.num == norm_dl(a@, b@).0,
        r.den == norm_dl(a@, b@).1,
        r.num <= r.den,
{
    if a.len() == 0 && b.len() == 0 {
        return Ratio::one();
    }
    let d = damerau_levenshtein_chars(a, b);
    let mx = if a.len() >= b.len() {
        a.len()
    } else {
        b.len()
    };
    proof {
        lemma_dl_le_max(a@, b@, char_eq());
    }
    Ratio::new((mx - d) as u128, mx as u128)
}

/// Character-specialised Damerau–Levenshtein distance.  The last row at
/// which each character of `a` was seen is kept in the two-tier
/// codepoint-indexed map instead of a generic hash map; it yields the same
/// matrix, and so the same distance, as the generic variant.
#[verifier::rlimit(60)]
pub fn damerau_levenshtein_chars(a: &Vec<char>, b: &Vec<char>) -> (r: usize)
    requires
        a@.len() < usize::MAX / 32,
        b@.len() < usize::MAX / 32,
    ensures
        r == dl(a@, b@),
{
    let ghost eq = char_eq();
    let alen = a.len();
    let blen = b.len();
    if alen == 0 {
        return blen;
    }
    if blen == 0 {
        return alen;
    }
    let maxd = alen + blen;
    let mut grid: Vec<Vec<usize>> = Vec::new();
    let mut row0: Vec<usize> = Vec::new();
    for q in 0..(blen + 2)
        invariant
            row0@.len() == q,
            forall|x: int| 0 <= x < q ==> row0@[x] == maxd,
            maxd == alen + blen <= usize::MAX,
    {
        row0.push(maxd);
    }
    grid.push(row0);
    let mut row1: Vec<usize> = Vec::new();
    row1.push(maxd);
    for q in 1..(blen + 2)
        invariant
            row1@.len() == q,
            row1@[0] == maxd,
            forall|x: int| 1 <= x < q ==> row1@[x] == x - 1,
            maxd == alen + blen <= usize::MAX,
            blen >= 1,
    {
        row1.push(q - 1);
    }
    grid.push(row1);
    let mut last_row_id = HybridGrowingHashmapChar::new();
    assert forall|q: int| 0 <= q < blen + 2 implies grid@[0][q] == dl_cell(a@, b@, eq, 0, q)
        && grid@[1][q] == dl_cell(a@, b@, eq, 1, q) by {}
    for ii in 1..(alen + 1)
        invariant
            alen == a@.len() >= 1,
            blen == b@.len() >= 1,
            alen < usize::MAX / 32,
            blen < usize::MAX / 32,
            maxd == alen + blen,
            eq == char_eq(),
            grid@.len() == ii + 1,
            forall|p: int| 0 <= p <= ii ==> #[trigger] grid@[p].len() == blen + 2,
            forall|p: int, q: int|
                0 <= p <= ii && 0 <= q < blen + 2 ==> #[trigger] grid@[p][q] == dl_cell(
                    a@,
                    b@,
                    eq,
                    p,
                    q,
                ),
            last_row_id.inv(),
            last_row_id.tbl_used() <= ii - 1,
            forall|c: char|
                #[trigger] last_row_id.spec_get(c).val == if last_occ(a@, c, ii as int, eq) == 0 {
                    -1int
                } else {
                    last_occ(a@, c, ii as int, eq) as int
                },
    {
        let mut cur: Vec<usize> = Vec::new();
        cur.push(maxd);
        cur.push(ii);
        let mut db: usize = 0;
        assert(cur@[0] == dl_cell(a@, b@, eq, ii + 1, 0));
        assert(cur@[1] == dl_cell(a@, b@, eq, ii + 1, 1));
        for jj in 1..(blen + 1)
            invariant
                alen == a@.len() >= 1,
                blen == b@.len() >= 1,
                alen < usize::MAX / 32,
                blen < usize::MAX / 32,
                maxd == alen + blen,
                eq == char_eq(),
                1 <= ii <= alen,
                grid@.len() == ii + 1,
                forall|p: int| 0 <= p <= ii ==> #[trigger] grid@[p].len() == blen + 2,
                forall|p: int, q: int|
                    0 <= p <= ii && 0 <= q < blen + 2 ==> #[trigger] grid@[p][q] == dl_cell(
                        a@,
                        b@,
                        eq,
                        p,
                        q,
                    ),
                last_row_id.inv(),
                last_row_id.tbl_used() <= ii - 1,
                forall|c: char|
                    #[trigger] last_row_id.spec_get(c).val == if last_occ(
                        a@,
                        c,
                        ii as int,
                        eq,
                    ) == 0 {
                        -1int
                    } else {
                        last_occ(a@, c, ii as int, eq) as int
                    },
                cur@.len() == jj + 1,
                forall|q: int| 0 <= q <= jj ==> #[trigger] cur@[q] == dl_cell(a@, b@, eq, ii + 1, q),
                db == last_occ(b@, a@[ii - 1], jj as int, eq),
                0 <= db < jj,
        {
            let kv = last_row_id.get(b[jj - 1]).val;
            let k: usize = if kv < 0 {
                0
            } else {
                kv as usize
            };
            proof {
                lemma_last_occ_range(a@, b@[jj - 1], ii as int, eq);
                lemma_last_occ_range(b@, a@[ii - 1], jj as int, eq);
                lemma_dl_bounds(a@, b@, eq, ii as int, jj + 1);
                lemma_dl_bounds(a@, b@, eq, ii + 1, jj as int);
                lemma_dl_bounds(a@, b@, eq, ii as int, jj as int);
                lemma_dl_bounds(a@, b@, eq, k as int, db as int);
            }
            proof {
                assert(grid@[ii as int].len() == blen + 2);
                assert(grid@[k as int].len() == blen + 2);
            }
            let ins = grid[ii][jj + 1] + 1;
            let del = cur[jj] + 1;
            let cost: usize = if a[ii - 1] == b[jj - 1] {
                0
            } else {
                1
            };
            let sub = grid[ii][jj] + cost;
            let trans = grid[k][db] + (ii - k - 1) + 1 + (jj - db - 1);
            let mut m = if ins < del {
                ins
            } else {
                del
            };
            if sub < m {
                m = sub;
            }
            if trans < m {
                m = trans;
            }
            assert(m == dl_cell(a@, b@, eq, ii + 1, jj + 1));
            cur.push(m);
            if a[ii - 1] == b[jj - 1] {
                db = jj;
            }
        }
        grid.push(cur);
        last_row_id.set(a[ii - 1], RowId { val: ii as isize });
    }
    proof {
        assert(grid@[alen + 1].len() == blen + 2);
    }
    grid[alen + 1][blen + 1]
}

} // verus!
