//! Exact rational scores.  Every similarity ratio this crate produces is a
//! fraction of machine integers, so contracts can pin scores down exactly;
//! fractions are compared without overflow by a Euclidean continued-fraction
//! descent instead of cross-multiplication.

use vstd::prelude::*;

verus! {

/// A nonnegative rational number `num / den` with `den > 0`.
#[derive(Debug, Clone, Copy, PartialEq, Eq, Structural)]
pub struct Ratio {
    pub num: u128,
    pub den: u128,
}

impl Ratio {
    /// Well-formedness: the denominator is positive.
    pub open spec fn wf(&self) -> bool {
        self.den > 0
    }

    /// The fraction `num / den`, as a comparison-free pair of integers:
    /// `self` and `other` denote the same rational exactly when the cross
    /// products agree.
    pub open spec fn ratio_eq(&self, other: &Ratio) -> bool {
        self.num * other.den == other.num * self.den
    }

    /// `self < other` as rationals.
    pub open spec fn ratio_lt(&self, other: &Ratio) -> bool {
        self.num * other.den < other.num * self.den
    }

    /// `self <= other` as rationals.
    pub open spec fn ratio_le(&self, other: &Ratio) -> bool {
        self.num * other.den <= other.num * self.den
    }

    /// Builds the fraction `num / den`.
    pub fn new(num: u128, den: u128) -> (r: Ratio)
        requires
            den > 0,
        ensures
            r.num == num,
            r.den == den,
            r.wf(),
    {
        Ratio { num, den }
    }

    /// The fraction one (a full match).
    pub fn one() -> (r: Ratio)
        ensures
            r.num == 1 && r.den == 1,
            r.wf(),
    {
        Ratio { num: 1, den: 1 }
    }

    /// The fraction zero (no match at all).
    pub fn zero() -> (r: Ratio)
        ensures
            r.num == 0 && r.den == 1,
            r.wf(),
    {
        Ratio { num: 0, den: 1 }
    }

    /// Exact comparison `self < other`.
    pub fn lt(&self, other: &Ratio) -> (r: bool)
        requires
            self.wf(),
            other.wf(),
        ensures
            r == self.ratio_lt(other),
    {
        frac_lt(self.num, self.den, other.num, other.den)
    }

    /// Exact comparison `self <= other`.
    pub fn le(&self, other: &Ratio) -> (r: bool)
        requires
            self.wf(),
            other.wf(),
        ensures
            r == self.ratio_le(other),
    {
        !frac_lt(other.num, other.den, self.num, self.den)
    }
}

/// Exact test for `n1 / d1 < n2 / d2` without overflow: compare integer
/// parts, then recurse on the reciprocals of the remainders (which flips
/// numerators and denominators but preserves the cross-product sign).
pub fn frac_lt(n1: u128, d1: u128, n2: u128, d2: u128) -> (r: bool)
    requires
        d1 > 0,
        d2 > 0,
    ensures
        r == ((n1 * d2) < (n2 * d1)),
    decreases d1 + d2,
{
    let q1 = n1 / d1;
    let r1 = n1 % d1;
    let q2 = n2 / d2;
    let r2 = n2 % d2;
    proof {
        lemma_frac_cross(n1 as int, d1 as int, n2 as int, d2 as int);
    }
    if q1 != q2 {
        return q1 < q2;
    }
    if r1 == 0 {
        return r2 != 0;
    }
    if r2 == 0 {
        return false;
    }
    frac_lt(d2, r2, d1, r1)
}

/// With equal quotients the cross-product comparison reduces to the
/// remainders; with distinct quotients it is decided by them.
proof fn lemma_frac_cross(n1: int, d1: int, n2: int, d2: int)
    requires
        d1 > 0,
        d2 > 0,
        0 <= n1,
        0 <= n2,
    ensures
        (n1 / d1) == (n2 / d2) ==> ((n1 * d2 < n2 * d1) == ((n1 % d1) * d2 < (n2 % d2) * d1)),
        (n1 / d1) < (n2 / d2) ==> (n1 * d2 < n2 * d1),
        (n1 / d1) > (n2 / d2) ==> (n1 * d2 >= n2 * d1),
        (n1 % d1) == 0 && (n2 % d2) != 0 ==> (n1 % d1) * d2 < (n2 % d2) * d1,
        (n1 % d1) != 0 && (n2 % d2) == 0 ==> (n1 % d1) * d2 >= (n2 % d2) * d1,
        ((n1 % d1) * d2 < (n2 % d2) * d1) == (d2 * (n1 % d1) < d1 * (n2 % d2)),
{
    let q1 = n1 / d1;
    let r1 = n1 % d1;
    let q2 = n2 / d2;
    let r2 = n2 % d2;
    vstd::arithmetic::div_mod::lemma_fundamental_div_mod(n1, d1);
    vstd::arithmetic::div_mod::lemma_fundamental_div_mod(n2, d2);
    vstd::arithmetic::div_mod::lemma_mod_bound(n1, d1);
    vstd::arithmetic::div_mod::lemma_mod_bound(n2, d2);
    vstd::arithmetic::div_mod::lemma_div_pos_is_pos(n1, d1);
    vstd::arithmetic::div_mod::lemma_div_pos_is_pos(n2, d2);
    assert(n1 * d2 == q1 * d1 * d2 + r1 * d2) by (nonlinear_arith)
        requires
            n1 == d1 * q1 + r1,
    ;
    assert(n2 * d1 == q2 * d2 * d1 + r2 * d1) by (nonlinear_arith)
        requires
            n2 == d2 * q2 + r2,
    ;
    assert(q1 == q2 ==> q1 * d1 * d2 == q2 * d2 * d1) by (nonlinear_arith);
    if q1 < q2 {
        assert(q1 * d1 * d2 + r1 * d2 < q2 * d2 * d1 + r2 * d1) by (nonlinear_arith)
            requires
                q1 < q2,
                0 <= r1 < d1,
                0 <= r2,
                d1 > 0,
                d2 > 0,
                0 <= q1,
        ;
    }
    if q1 > q2 {
        assert(q1 * d1 * d2 + r1 * d2 >= q2 * d2 * d1 + r2 * d1) by (nonlinear_arith)
            requires
                q1 > q2,
                0 <= r1,
                0 <= r2 < d2,
                d1 > 0,
                d2 > 0,
                0 <= q2,
        ;
    }
    if r1 == 0 && r2 != 0 {
        assert(r1 * d2 < r2 * d1) by (nonlinear_arith)
            requires
                r1 == 0,
                r2 > 0,
                d1 > 0,
        ;
    }
    if r1 != 0 && r2 == 0 {
        assert(r1 * d2 >= r2 * d1) by (nonlinear_arith)
            requires
                r1 > 0,
                r2 == 0,
                d2 > 0,
        ;
    }
    assert((r1 * d2 < r2 * d1) == (d2 * r1 < d1 * r2)) by (nonlinear_arith);
}

} // verus!
