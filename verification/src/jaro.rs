//! Jaro and Jaro–Winkler similarity: a ratio in [0, 1] built from the number
//! of window-matched elements and the number of order mismatches among them;
//! Jaro–Winkler boosts scores above 0.7 for sequences with a common prefix.

use vstd::prelude::*;

verus! {

use crate::hamming::{ham_rel, lemma_ham_le_len};
use crate::hamming::hamming_chars;
use crate::ratio::Ratio;
use crate::utils::{char_eq, chars_of, imin};

/// The half-width of the match window: `max(la, lb) / 2 - 1`, not below 0.
pub open spec fn jaro_sr(la: int, lb: int) -> int {
    let mx = if la >= lb {
        la
    } else {
        lb
    };
    if mx / 2 >= 1 {
        mx / 2 - 1
    } else {
        0
    }
}

/// Lower end (inclusive) of the window of `b` searched for `a[i]`.
pub open spec fn jaro_lo(i: int, sr: int) -> int {
    if i > sr {
        i - sr
    } else {
        0
    }
}

/// Upper end (exclusive) of the window of `b` searched for `a[i]`.
pub open spec fn jaro_hi(i: int, sr: int, lb: int) -> int {
    imin(lb, i + sr + 1)
}

/// First index in `[j, hi)` at which the still-unflagged `b` holds `c`, or
/// `-1` when there is none.
pub open spec fn find_match(b: Seq<char>, bf: Seq<bool>, c: char, j: int, hi: int) -> int
    decreases hi - j,
{
    if j >= hi {
        -1
    } else if b[j] == c && !bf[j] {
        j
    } else {
        find_match(b, bf, c, j + 1, hi)
    }
}

/// A found match lies in `[j, hi)`, is unflagged, and holds `c`.
pub proof fn lemma_find_match_range(b: Seq<char>, bf: Seq<bool>, c: char, j: int, hi: int)
    ensures
        find_match(b, bf, c, j, hi) == -1 || (j <= find_match(b, bf, c, j, hi) < hi && b[find_match(
            b,
            bf,
            c,
            j,
            hi,
        )] == c && !bf[find_match(b, bf, c, j, hi)]),
    decreases hi - j,
{
    if j < hi && !(b[j] == c && !bf[j]) {
        lemma_find_match_range(b, bf, c, j + 1, hi);
    }
}

/// The match-flag state after the first `i` elements of `a` have been
/// processed: `.0` flags the matched positions of `a`, `.1` those of `b`.
/// Element `i - 1` claims the first unflagged equal element of `b` within
/// its window, if any.
pub open spec fn jaro_state(a: Seq<char>, b: Seq<char>, i: int) -> (Seq<bool>, Seq<bool>)
    decreases i,
{
    if i <= 0 {
        (Seq::new(a.len(), |x: int| false), Seq::new(b.len(), |x: int| false))
    } else {
        let prev = jaro_state(a, b, i - 1);
        let sr = jaro_sr(a.len() as int, b.len() as int);
        let m = find_match(
            b,
            prev.1,
            a[i - 1],
            jaro_lo(i - 1, sr),
            jaro_hi(i - 1, sr, b.len() as int),
        );
        if m >= 0 {
            (prev.0.update(i - 1, true), prev.1.update(m, true))
        } else {
            prev
        }
    }
}

/// Number of set flags among the first `n`.
pub open spec fn count_true(f: Seq<bool>, n: int) -> int
    decreases n,
{
    if n <= 0 {
        0
    } else {
        count_true(f, n - 1) + if f[n - 1] {
            1int
        } else {
            0int
        }
    }
}

/// The count of set flags lies between 0 and `n`.
pub proof fn lemma_count_true_bound(f: Seq<bool>, n: int)
    ensures
        0 <= count_true(f, n),
        count_true(f, n) <= if n >= 0 {
            n
        } else {
            0
        },
    decreases n,
{
    if n > 0 {
        lemma_count_true_bound(f, n - 1);
    }
}

/// Overwriting one flag below `n` changes the count accordingly.
pub proof fn lemma_count_true_update(f: Seq<bool>, n: int, idx: int, v: bool)
    requires
        0 <= idx < n <= f.len(),
    ensures
        count_true(f.update(idx, v), n) == count_true(f, n) - (if f[idx] {
            1int
        } else {
            0int
        }) + (if v {
            1int
        } else {
            0int
        }),
    decreases n,
{
    if idx == n - 1 {
        assert(count_true(f.update(idx, v), n - 1) == count_true(f, n - 1)) by {
            lemma_count_true_frame(f, f.update(idx, v), n - 1);
        }
    } else {
        lemma_count_true_update(f, n - 1, idx, v);
    }
}

/// Flag sequences that agree below `n` have the same count there.
pub proof fn lemma_count_true_frame(f: Seq<bool>, g: Seq<bool>, n: int)
    requires
        forall|x: int| 0 <= x < n ==> f[x] == g[x],
    ensures
        count_true(f, n) == count_true(g, n),
    decreases n,
{
    if n > 0 {
        lemma_count_true_frame(f, g, n - 1);
    }
}

/// The elements of `s` at flagged positions below `n`, in order.
pub open spec fn selected(s: Seq<char>, f: Seq<bool>, n: int) -> Seq<char>
    decreases n,
{
    if n <= 0 {
        Seq::empty()
    } else {
        let pre = selected(s, f, n - 1);
        if f[n - 1] {
            pre.push(s[n - 1])
        } else {
            pre
        }
    }
}

/// There are as many selected elements as set flags.
pub proof fn lemma_selected_len(s: Seq<char>, f: Seq<bool>, n: int)
    ensures
        selected(s, f, n).len() == count_true(f, n),
    decreases n,
{
    if n > 0 {
        lemma_selected_len(s, f, n - 1);
        lemma_count_true_bound(f, n - 1);
    }
}

/// Shape of the match state: the flag rows have the right lengths, flags of
/// `a` at or beyond `i` are clear, and both rows carry the same number of
/// set flags, at most `i` of them.
pub proof fn lemma_jaro_state_wf(a: Seq<char>, b: Seq<char>, i: int)
    requires
        0 <= i <= a.len(),
    ensures
        jaro_state(a, b, i).0.len() == a.len(),
        jaro_state(a, b, i).1.len() == b.len(),
        forall|x: int| i <= x < a.len() ==> !jaro_state(a, b, i).0[x],
        count_true(jaro_state(a, b, i).0, a.len() as int) == count_true(
            jaro_state(a, b, i).1,
            b.len() as int,
        ),
        count_true(jaro_state(a, b, i).0, a.len() as int) <= i,
    decreases i,
{
    if i <= 0 {
        lemma_count_true_frame(
            jaro_state(a, b, i).0,
            Seq::new(a.len(), |x: int| false),
            a.len() as int,
        );
        lemma_count_true_empty_false(jaro_state(a, b, i).0, a.len() as int);
        lemma_count_true_empty_false(jaro_state(a, b, i).1, b.len() as int);
    } else {
        lemma_jaro_state_wf(a, b, i - 1);
        let prev = jaro_state(a, b, i - 1);
        let sr = jaro_sr(a.len() as int, b.len() as int);
        let m = find_match(
            b,
            prev.1,
            a[i - 1],
            jaro_lo(i - 1, sr),
            jaro_hi(i - 1, sr, b.len() as int),
        );
        lemma_find_match_range(
            b,
            prev.1,
            a[i - 1],
            jaro_lo(i - 1, sr),
            jaro_hi(i - 1, sr, b.len() as int),
        );
        if m >= 0 {
            lemma_count_true_update(prev.0, a.len() as int, i - 1, true);
            lemma_count_true_update(prev.1, b.len() as int, m, true);
        }
    }
}

/// An all-clear flag row counts zero.
proof fn lemma_count_true_empty_false(f: Seq<bool>, n: int)
    requires
        forall|x: int| 0 <= x < n ==> !f[x],
    ensures
        count_true(f, n) == 0,
    decreases n,
{
    if n > 0 {
        lemma_count_true_empty_false(f, n - 1);
    }
}

/// Number of elements of `a` matched into `b`.
pub open spec fn jaro_m(a: Seq<char>, b: Seq<char>) -> int {
    count_true(jaro_state(a, b, a.len() as int).1, b.len() as int)
}

/// Twice the transposition count: the number of positions at which the
/// matched elements of `a` and of `b`, each read left to right, disagree.
pub open spec fn jaro_t2(a: Seq<char>, b: Seq<char>) -> int {
    let st = jaro_state(a, b, a.len() as int);
    ham_rel(selected(a, st.0, a.len() as int), selected(b, st.1, b.len() as int), char_eq()) as int
}

/// The Jaro score of `a` and `b` as an exact fraction `(num, den)`:
/// one for two empty sequences; zero when exactly one is empty or nothing
/// matches; else the mean of `m/la`, `m/lb` and `(m - t)/m`, where `m`
/// counts matches and `t` transpositions.
pub open spec fn jaro_frac(a: Seq<char>, b: Seq<char>) -> (int, int) {
    let la = a.len() as int;
    let lb = b.len() as int;
    if la == 0 && lb == 0 {
        (1int, 1int)
    } else if la == 0 || lb == 0 {
        (0int, 1int)
    } else if jaro_m(a, b) == 0 {
        (0int, 1int)
    } else {
        let m = jaro_m(a, b);
        let t = jaro_t2(a, b) / 2;
        (m * m * (la + lb) + (m - t) * la * lb, 3 * la * lb * m)
    }
}

/// The Jaro score is a well-formed fraction in `[0, 1]`, with the match and
/// transposition counts in their expected ranges.
pub proof fn lemma_jaro_in_range(a: Seq<char>, b: Seq<char>)
    ensures
        0 < jaro_frac(a, b).1,
        0 <= jaro_frac(a, b).0 <= jaro_frac(a, b).1,
        0 <= jaro_m(a, b) <= a.len(),
        jaro_m(a, b) <= b.len(),
        0 <= jaro_t2(a, b) <= jaro_m(a, b),
{
    let la = a.len() as int;
    let lb = b.len() as int;
    let st = jaro_state(a, b, la);
    lemma_jaro_state_wf(a, b, la);
    lemma_count_true_bound(st.0, la);
    lemma_count_true_bound(st.1, lb);
    lemma_selected_len(a, st.0, la);
    lemma_selected_len(b, st.1, lb);
    lemma_ham_le_len(selected(a, st.0, la), selected(b, st.1, lb), char_eq());
    let m = jaro_m(a, b);
    let t2 = jaro_t2(a, b);
    if la > 0 && lb > 0 && m > 0 {
        let t = t2 / 2;
        assert(0 <= t <= t2) by {
            vstd::arithmetic::div_mod::lemma_div_pos_is_pos(t2, 2);
            vstd::arithmetic::div_mod::lemma_div_nonincreasing(t2, 2);
        }
        assert(m * m * (la + lb) + (m - t) * la * lb <= 3 * la * lb * m) by (nonlinear_arith)
            requires
                1 <= m <= la,
                m <= lb,
                0 <= t <= m,
        ;
        assert(0 <= m * m * (la + lb) + (m - t) * la * lb) by (nonlinear_arith)
            requires
                1 <= m <= la,
                m <= lb,
                0 <= t <= m,
        ;
        assert(0 < 3 * la * lb * m) by (nonlinear_arith)
            requires
                1 <= m,
                1 <= la,
                1 <= lb,
        ;
    }
}

/// First index below 4 (and below both lengths) at which the sequences
/// disagree, scanning from `k`: the capped common-prefix length.
pub open spec fn common_prefix_from(a: Seq<char>, b: Seq<char>, k: int) -> int
    decreases 4 - k,
{
    if k >= 4 || k >= a.len() || k >= b.len() || a[k] != b[k] {
        k
    } else {
        common_prefix_from(a, b, k + 1)
    }
}

/// The capped common-prefix length lies in `[k, 4]`.
pub proof fn lemma_common_prefix_range(a: Seq<char>, b: Seq<char>, k: int)
    requires
        0 <= k <= 4,
    ensures
        k <= common_prefix_from(a, b, k) <= 4,
    decreases 4 - k,
{
    if !(k >= 4 || k >= a.len() || k >= b.len() || a[k] != b[k]) {
        lemma_common_prefix_range(a, b, k + 1);
    }
}

/// The Jaro–Winkler score as an exact fraction: the Jaro score, boosted by
/// `0.1 * prefix * (1 - score)` when it exceeds 0.7, where `prefix` is the
/// common-prefix length capped at 4.
pub open spec fn jaro_winkler_frac(a: Seq<char>, b: Seq<char>) -> (int, int) {
    let s = jaro_frac(a, b);
    if s.0 * 10 > s.1 * 7 {
        let p = common_prefix_from(a, b, 0);
        (10 * s.0 + p * (s.1 - s.0), 10 * s.1)
    } else {
        s
    }
}

/// The Jaro–Winkler score is a well-formed fraction in `[0, 1]`.
pub proof fn lemma_jaro_winkler_in_range(a: Seq<char>, b: Seq<char>)
    ensures
        0 < jaro_winkler_frac(a, b).1,
        0 <= jaro_winkler_frac(a, b).0 <= jaro_winkler_frac(a, b).1,
{
    lemma_jaro_in_range(a, b);
    let s = jaro_frac(a, b);
    if s.0 * 10 > s.1 * 7 {
        let p = common_prefix_from(a, b, 0);
        lemma_common_prefix_range(a, b, 0);
        assert(0 <= 10 * s.0 + p * (s.1 - s.0) <= 10 * s.1) by (nonlinear_arith)
            requires
                0 <= s.0 <= s.1,
                0 <= p <= 4,
        ;
    }
}

/// Scans `b[lo..hi]` for the first unflagged position holding `c`.
fn find_match_exec(b: &Vec<char>, bf: &Vec<bool>, c: char, lo: usize, hi: usize) -> (r: Option<
    usize,
>)
    requires
        bf@.len() == b@.len(),
        hi <= b@.len(),
    ensures
        match r {
            Some(j) => find_match(b@, bf@, c, lo as int, hi as int) == j,
            None => find_match(b@, bf@, c, lo as int, hi as int) == -1,
        },
{
    let mut j = lo;
    while j < hi
        invariant
            bf@.len() == b@.len(),
            hi <= b@.len(),
            lo <= j,
            find_match(b@, bf@, c, lo as int, hi as int) == find_match(
                b@,
                bf@,
                c,
                j as int,
                hi as int,
            ),
        decreases hi - j,
    {
        if b[j] == c && !bf[j] {
            return Some(j);
        }
        j += 1;
    }
    None
}

/// The Jaro similarity of two strings, as an exact fraction in [0, 1].
pub fn jaro(a: &str, b: &str) -> (r: Ratio)
    requires
        a@.len() <= 0x3FFF_FFFF,
        b@.len() <= 0x3FFF_FFFF,
    ensures
        r.wf(),
        r.num == jaro_frac(a@, b@).0,
        r.den == jaro_frac(a@, b@).1,
        r.num <= r.den,
{
    let ca = chars_of(a);
    let cb = chars_of(b);
    jaro_chars(&ca, &cb)
}

/// The Jaro similarity of two character vectors.
pub fn jaro_chars(a: &Vec<char>, b: &Vec<char>) -> (r: Ratio)
    requires
        a@.len() <= 0x3FFF_FFFF,
        b@.len() <= 0x3FFF_FFFF,
    ensures
        r.wf(),
        r.num == jaro_frac(a@, b@).0,
        r.den == jaro_frac(a@, b@).1,
        r.num <= r.den,
{
    proof {
        lemma_jaro_in_range(a@, b@);
    }
    let la = a.len();
    let lb = b.len();
    if la == 0 && lb == 0 {
        return Ratio::one();
    }
    if la == 0 || lb == 0 {
        return Ratio::zero();
    }
    let mx = if la >= lb {
        la
    } else {
        lb
    };
    let mut sr = mx / 2;
    if sr >= 1 {
        sr = sr - 1;
    }
    assert(sr == jaro_sr(la as int, lb as int));
    let mut aflags: Vec<bool> = Vec::new();
    for x in 0..la
        invariant
            aflags@.len() == x,
            forall|y: int| 0 <= y < x ==> !aflags@[y],
    {
        aflags.push(false);
    }
    let mut bflags: Vec<bool> = Vec::new();
    for x in 0..lb
        invariant
            bflags@.len() == x,
            forall|y: int| 0 <= y < x ==> !bflags@[y],
    {
        bflags.push(false);
    }
    proof {
        assert(aflags@ =~= jaro_state(a@, b@, 0).0);
        assert(bflags@ =~= jaro_state(a@, b@, 0).1);
        lemma_count_true_empty_false(bflags@, lb as int);
    }
    let mut matches: usize = 0;
    for i in 0..la
        invariant
            la == a@.len() <= 0x3FFF_FFFF,
            lb == b@.len() <= 0x3FFF_FFFF,
            la >= 1,
            lb >= 1,
            sr == jaro_sr(la as int, lb as int),
            0 <= sr <= mx / 2,
            mx == if la >= lb {
                la
            } else {
                lb
            },
            aflags@ == jaro_state(a@, b@, i as int).0,
            bflags@ == jaro_state(a@, b@, i as int).1,
            aflags@.len() == la,
            bflags@.len() == lb,
            matches == count_true(bflags@, lb as int),
    {
        proof {
            lemma_jaro_state_wf(a@, b@, i as int);
            lemma_count_true_bound(bflags@, lb as int);
        }
        let lo = if i > sr {
            i - sr
        } else {
            0
        };
        let hi = if lb < i + sr + 1 {
            lb
        } else {
            i + sr + 1
        };
        assert(lo == jaro_lo(i as int, sr as int));
        assert(hi == jaro_hi(i as int, sr as int, lb as int));
        let found = find_match_exec(b, &bflags, a[i], lo, hi);
        proof {
            lemma_find_match_range(b@, bflags@, a@[i as int], lo as int, hi as int);
        }
        match found {
            Some(j) => {
                proof {
                    lemma_count_true_update(bflags@, lb as int, j as int, true);
                }
                aflags.set(i, true);
                bflags.set(j, true);
                matches += 1;
            },
            None => {},
        }
    }
    if matches == 0 {
        return Ratio::zero();
    }
    let ghost st = jaro_state(a@, b@, la as int);
    let mut sel_a: Vec<char> = Vec::new();
    for i in 0..la
        invariant
            la == a@.len(),
            aflags@ == st.0,
            aflags@.len() == la,
            sel_a@ == selected(a@, st.0, i as int),
    {
        if aflags[i] {
            sel_a.push(a[i]);
        }
    }
    let mut sel_b: Vec<char> = Vec::new();
    for j in 0..lb
        invariant
            lb == b@.len(),
            bflags@ == st.1,
            bflags@.len() == lb,
            sel_b@ == selected(b@, st.1, j as int),
    {
        if bflags[j] {
            sel_b.push(b[j]);
        }
    }
    proof {
        lemma_jaro_state_wf(a@, b@, la as int);
        lemma_selected_len(a@, st.0, la as int);
        lemma_selected_len(b@, st.1, lb as int);
    }
    let h = hamming_chars(&sel_a, &sel_b);
    let t2: usize = match h {
        Ok(t) => t,
        Err(_) => 0,
    };
    assert(t2 == jaro_t2(a@, b@));
    let t = t2 / 2;
    let m128 = matches as u128;
    let la128 = la as u128;
    let lb128 = lb as u128;
    let t128 = t as u128;
    proof {
        assert(t2 / 2 <= t2) by {
            vstd::arithmetic::div_mod::lemma_div_nonincreasing(t2 as int, 2);
            vstd::arithmetic::div_mod::lemma_div_pos_is_pos(t2 as int, 2);
        }
        let mi = matches as int;
        let lai = la as int;
        let lbi = lb as int;
        let ti = t as int;
        assert(mi * mi <= 0x1000_0000_0000_0000_0000_0000) by (nonlinear_arith)
            requires
                0 <= mi <= 0x3FFF_FFFF,
        ;
        assert(mi * mi * (lai + lbi) <= 0x1000_0000_0000_0000_0000_0000_0000_0000) by (
        nonlinear_arith)
            requires
                0 <= mi <= 0x3FFF_FFFF,
                0 <= lai <= 0x3FFF_FFFF,
                0 <= lbi <= 0x3FFF_FFFF,
        ;
        assert((mi - ti) * lai <= 0x1000_0000_0000_0000_0000_0000) by (nonlinear_arith)
            requires
                0 <= ti <= mi <= 0x3FFF_FFFF,
                1 <= lai <= 0x3FFF_FFFF,
        ;
        assert((mi - ti) * lai * lbi <= 0x1000_0000_0000_0000_0000_0000_0000_0000) by (
        nonlinear_arith)
            requires
                0 <= (mi - ti) * lai <= 0x1000_0000_0000_0000_0000_0000,
                1 <= lbi <= 0x3FFF_FFFF,
        ;
        assert(0 <= (mi - ti) * lai * lbi) by (nonlinear_arith)
            requires
                0 <= ti <= mi,
                1 <= lai,
                1 <= lbi,
        ;
        assert(3 * lai * lbi <= 0x1000_0000_0000_0000_0000_0000) by (nonlinear_arith)
            requires
                1 <= lai <= 0x3FFF_FFFF,
                1 <= lbi <= 0x3FFF_FFFF,
        ;
        assert(3 * lai * lbi * mi <= 0x1000_0000_0000_0000_0000_0000_0000_0000) by (nonlinear_arith)
            requires
                0 <= 3 * lai * lbi <= 0x1000_0000_0000_0000_0000_0000,
                1 <= mi <= 0x3FFF_FFFF,
        ;
        assert(0 < 3 * lai * lbi * mi) by (nonlinear_arith)
            requires
                1 <= lai,
                1 <= lbi,
                1 <= mi,
        ;
    }
    let num = m128 * m128 * (la128 + lb128) + (m128 - t128) * la128 * lb128;
    let den = 3 * la128 * lb128 * m128;
    Ratio::new(num, den)
}

/// The Jaro–Winkler similarity of two strings, as an exact fraction.
pub fn jaro_winkler(a: &str, b: &str) -> (r: Ratio)
    requires
        a@.len() <= 0x3FFF_FFFF,
        b@.len() <= 0x3FFF_FFFF,
    ensures
        r.wf(),
        r.num == jaro_winkler_frac(a@, b@).0,
        r.den == jaro_winkler_frac(a@, b@).1,
        r.num <= r.den,
{
    let ca = chars_of(a);
    let cb = chars_of(b);
    jaro_winkler_chars(&ca, &cb)
}

/// The Jaro–Winkler similarity of two character vectors.
pub fn jaro_winkler_chars(a: &Vec<char>, b: &Vec<char>) -> (r: Ratio)
    requires
        a@.len() <= 0x3FFF_FFFF,
        b@.len() <= 0x3FFF_FFFF,
    ensures
        r.wf(),
        r.num == jaro_winkler_frac(a@, b@).0,
        r.den == jaro_winkler_frac(a@, b@).1,
        r.num <= r.den,
{
    let sim = jaro_chars(a, b);
    proof {
        lemma_jaro_in_range(a@, b@);
        lemma_jaro_den_small(a@, b@);
        lemma_jaro_winkler_in_range(a@, b@);
    }
    if sim.num * 10 > sim.den * 7 {
        let mut p: usize = 0;
        let cap = if a.len() < b.len() {
            a.len()
        } else {
            b.len()
        };
        while p < 4 && p < cap && !(p >= a.len()) && !(p >= b.len()) && a[p] == b[p]
            invariant
                cap == if a@.len() < b@.len() {
                    a@.len()
                } else {
                    b@.len()
                },
                0 <= p <= 4,
                common_prefix_from(a@, b@, 0) == common_prefix_from(a@, b@, p as int),
            decreases 4 - p,
        {
            p += 1;
        }
        assert(p == common_prefix_from(a@, b@, 0));
        let num = 10 * sim.num + (p as u128) * (sim.den - sim.num);
        let den = 10 * sim.den;
        Ratio::new(num, den)
    } else {
        sim
    }
}

/// Both parts of the Jaro fraction fit well below the integer limit.
proof fn lemma_jaro_den_small(a: Seq<char>, b: Seq<char>)
    requires
        a.len() <= 0x3FFF_FFFF,
        b.len() <= 0x3FFF_FFFF,
    ensures
        jaro_frac(a, b).1 <= 0x1000_0000_0000_0000_0000_0000_0000_0000,
        jaro_frac(a, b).0 <= 0x1000_0000_0000_0000_0000_0000_0000_0000,
{
    lemma_jaro_in_range(a, b);
    let la = a.len() as int;
    let lb = b.len() as int;
    let m = jaro_m(a, b);
    if la > 0 && lb > 0 && m > 0 {
        assert(3 * la * lb * m <= 0x1000_0000_0000_0000_0000_0000_0000_0000) by (nonlinear_arith)
            requires
                1 <= la <= 0x3FFF_FFFF,
                1 <= lb <= 0x3FFF_FFFF,
                1 <= m <= 0x3FFF_FFFF,
        ;
    }
}

/// In the matching of a sequence against itself, position `i - 1` claims
/// position `i - 1`: everything before it is already flagged.
proof fn lemma_find_match_self(b: Seq<char>, bf: Seq<bool>, c: char, j: int, i: int, hi: int)
    requires
        0 <= j <= i < hi <= b.len(),
        b[i] == c,
        forall|x: int| 0 <= x < i ==> bf[x],
        i < bf.len(),
        !bf[i],
    ensures
        find_match(b, bf, c, j, hi) == i,
    decreases i - j,
{
    if j < i {
        lemma_find_match_self(b, bf, c, j + 1, i, hi);
    }
}

/// Matching a sequence against itself flags exactly the first `i`
/// positions on both sides.
proof fn lemma_jaro_state_self(a: Seq<char>, i: int)
    requires
        0 <= i <= a.len(),
    ensures
        jaro_state(a, a, i).0 =~= Seq::new(a.len(), |x: int| 0 <= x < i),
        jaro_state(a, a, i).1 =~= Seq::new(a.len(), |x: int| 0 <= x < i),
    decreases i,
{
    lemma_jaro_state_wf(a, a, i);
    if i > 0 {
        lemma_jaro_state_self(a, i - 1);
        let prev = jaro_state(a, a, i - 1);
        let la = a.len() as int;
        let sr = jaro_sr(la, la);
        let lo = jaro_lo(i - 1, sr);
        let hi = jaro_hi(i - 1, sr, la);
        assert(lo <= i - 1 < hi <= la);
        lemma_find_match_self(a, prev.1, a[i - 1], lo, i - 1, hi);
    }
}

/// Identity: the Jaro score of a sequence with itself is one.
pub proof fn lemma_jaro_identity(a: Seq<char>)
    ensures
        jaro_frac(a, a).0 == jaro_frac(a, a).1,
{
    let la = a.len() as int;
    lemma_jaro_state_self(a, la);
    let st = jaro_state(a, a, la);
    let full = Seq::new(a.len(), |x: int| 0 <= x < la);
    lemma_count_true_full(full, la);
    lemma_count_true_frame(st.1, full, la);
    if la > 0 {
        assert(jaro_m(a, a) == la);
        lemma_selected_all(a, st.0, la);
        lemma_count_true_frame(st.0, full, la);
        crate::hamming::lemma_ham_identity(selected(a, st.0, la), char_eq());
        assert(jaro_t2(a, a) == 0) by {
            assert(selected(a, st.0, la) == selected(a, st.1, la));
        }
        assert(jaro_t2(a, a) / 2 == 0);
        assert(la * la * (la + la) + (la - 0) * la * la == 3 * la * la * la) by (nonlinear_arith);
    }
}

/// Identity: the Jaro–Winkler score of a sequence with itself is one.
pub proof fn lemma_jaro_winkler_identity(a: Seq<char>)
    ensures
        jaro_winkler_frac(a, a).0 == jaro_winkler_frac(a, a).1,
{
    lemma_jaro_identity(a);
    lemma_jaro_in_range(a, a);
    let s = jaro_frac(a, a);
    if s.0 * 10 > s.1 * 7 {
        let p = common_prefix_from(a, a, 0);
        lemma_common_prefix_range(a, a, 0);
        assert(10 * s.0 + p * (s.1 - s.0) == 10 * s.1);
    }
}

/// An all-true flag row counts its length.
proof fn lemma_count_true_full(f: Seq<bool>, n: int)
    requires
        0 <= n <= f.len(),
        forall|x: int| 0 <= x < n ==> f[x],
    ensures
        count_true(f, n) == n,
    decreases n,
{
    if n > 0 {
        lemma_count_true_full(f, n - 1);
    }
}

/// Selecting with an all-true flag row keeps the whole prefix.
proof fn lemma_selected_all(s: Seq<char>, f: Seq<bool>, n: int)
    requires
        0 <= n <= s.len(),
        forall|x: int| 0 <= x < n ==> f[x],
    ensures
        selected(s, f, n) =~= s.take(n),
    decreases n,
{
    if n > 0 {
        lemma_selected_all(s, f, n - 1);
        assert(selected(s, f, n) =~= s.take(n));
    }
}

} // verus!
