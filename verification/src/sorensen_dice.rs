//! Sørensen–Dice coefficient: twice the number of bigrams two
//! whitespace-stripped strings share, divided by their total bigram count.

use vstd::prelude::*;

verus! {

use crate::common_count::{common_count, Bigram};
use crate::ratio::Ratio;
use crate::utils::{char_is_whitespace, chars_of, is_space, vec_eq_chars};

/// The non-whitespace characters among the first `n` of `s`, in order.
pub open spec fn strip_spec(s: Seq<char>, n: int) -> Seq<char>
    decreases n,
{
    if n <= 0 {
        Seq::empty()
    } else {
        let pre = strip_spec(s, n - 1);
        if is_space(s[n - 1]) {
            pre
        } else {
            pre.push(s[n - 1])
        }
    }
}

/// The pair of adjacent characters `(a, b)`.
pub open spec fn mk_bigram(a: char, b: char) -> Bigram {
    Bigram { fst: a, snd: b }
}

/// The ordered adjacent pairs of a character sequence; empty below length
/// two.
pub open spec fn bigram_seq(s: Seq<char>) -> Seq<Bigram> {
    if s.len() < 2 {
        Seq::empty()
    } else {
        Seq::new((s.len() - 1) as nat, |i: int| mk_bigram(s[i], s[i + 1]))
    }
}

/// Number of bigrams the two sequences share, with multiplicity.
pub open spec fn dice_common(sa: Seq<char>, sb: Seq<char>) -> int {
    bigram_seq(sa).to_multiset().intersection_with(bigram_seq(sb).to_multiset()).len() as int
}

/// The Sørensen–Dice coefficient of `a` and `b` as an exact fraction, after
/// whitespace stripping: one for equal stripped strings; zero when either
/// stripped string is shorter than two characters; else twice the shared
/// bigram count over the total bigram count.
pub open spec fn dice_frac(a: Seq<char>, b: Seq<char>) -> (int, int) {
    let sa = strip_spec(a, a.len() as int);
    let sb = strip_spec(b, b.len() as int);
    if sa == sb {
        (1int, 1int)
    } else if sa.len() < 2 || sb.len() < 2 {
        (0int, 1int)
    } else {
        (2 * dice_common(sa, sb), sa.len() + sb.len() - 2)
    }
}

/// Symmetry: the coefficient does not depend on the order of the strings.
pub proof fn lemma_dice_symmetric(a: Seq<char>, b: Seq<char>)
    ensures
        dice_frac(a, b).0 * dice_frac(b, a).1 == dice_frac(b, a).0 * dice_frac(a, b).1,
{
    let sa = strip_spec(a, a.len() as int);
    let sb = strip_spec(b, b.len() as int);
    crate::common_count::lemma_inter_comm(
        bigram_seq(sa).to_multiset(),
        bigram_seq(sb).to_multiset(),
    );
}

/// Identity: the coefficient of a string with itself is one.
pub proof fn lemma_dice_identity(a: Seq<char>)
    ensures
        dice_frac(a, a) == (1int, 1int),
{
}

/// The coefficient is a well-formed fraction in `[0, 1]`.
pub proof fn lemma_dice_in_range(a: Seq<char>, b: Seq<char>)
    ensures
        0 < dice_frac(a, b).1,
        0 <= dice_frac(a, b).0 <= dice_frac(a, b).1,
{
    let sa = strip_spec(a, a.len() as int);
    let sb = strip_spec(b, b.len() as int);
    if sa != sb && sa.len() >= 2 && sb.len() >= 2 {
        crate::common_count::lemma_inter_le_lens(bigram_seq(sa), bigram_seq(sb));
        assert(bigram_seq(sa).len() == sa.len() - 1);
        assert(bigram_seq(sb).len() == sb.len() - 1);
        assert(dice_common(sa, sb) <= sa.len() - 1);
        assert(dice_common(sa, sb) <= sb.len() - 1);
    }
}

/// Removes the whitespace characters of a vector.
fn strip_spaces(cs: &Vec<char>) -> (r: Vec<char>)
    ensures
        r@ == strip_spec(cs@, cs@.len() as int),
{
    let n = cs.len();
    let mut r: Vec<char> = Vec::new();
    for i in 0..n
        invariant
            n == cs@.len(),
            r@ == strip_spec(cs@, i as int),
    {
        if !char_is_whitespace(cs[i]) {
            r.push(cs[i]);
        }
    }
    r
}

/// Builds the bigram vector of a character vector.
fn bigram_vec(cs: &Vec<char>) -> (r: Vec<Bigram>)
    ensures
        r@ == bigram_seq(cs@),
{
    let mut r: Vec<Bigram> = Vec::new();
    if cs.len() < 2 {
        proof {
            assert(r@ =~= bigram_seq(cs@));
        }
        return r;
    }
    let n = cs.len() - 1;
    for i in 0..n
        invariant
            n + 1 == cs@.len(),
            r@.len() == i,
            forall|k: int| 0 <= k < i ==> r@[k] == mk_bigram(cs@[k], cs@[k + 1]),
    {
        let e = Bigram::new(cs[i], cs[i + 1]);
        r.push(e);
        assert(r@[i as int] == mk_bigram(cs@[i as int], cs@[i + 1]));
    }
    proof {
        assert forall|k: int| 0 <= k < n implies r@[k] == bigram_seq(cs@)[k] by {
            assert(bigram_seq(cs@)[k] == mk_bigram(cs@[k], cs@[k + 1]));
        }
        assert(r@ =~= bigram_seq(cs@));
    }
    r
}

/// The Sørensen–Dice coefficient of two strings, as an exact fraction in
/// [0, 1].
pub fn sorensen_dice(a: &str, b: &str) -> (r: Ratio)
    ensures
        r.wf(),
        r.num == dice_frac(a@, b@).0,
        r.den == dice_frac(a@, b@).1,
        r.num <= r.den,
{
    proof {
        lemma_dice_in_range(a@, b@);
    }
    let ca = chars_of(a);
    let cb = chars_of(b);
    let sa = strip_spaces(&ca);
    let sb = strip_spaces(&cb);
    if vec_eq_chars(&sa, &sb) {
        return Ratio::one();
    }
    if sa.len() < 2 || sb.len() < 2 {
        return Ratio::zero();
    }
    let ba = bigram_vec(&sa);
    let bb = bigram_vec(&sb);
    let inter = common_count(&ba, &bb);
    let num = 2 * (inter as u128);
    let den = (sa.len() as u128) + (sb.len() as u128) - 2;
    Ratio::new(num, den)
}

} // verus!
