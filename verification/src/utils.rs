//! Shared helpers: the error type, character-sequence extraction, bigrams,
//! and flat indexing into a rectangular grid stored as one vector.

use vstd::prelude::*;

verus! {

use vstd::std_specs::cmp::PartialEqSpec;

/// The smaller of two integers.
pub open spec fn imin(a: int, b: int) -> int {
    if a <= b {
        a
    } else {
        b
    }
}

/// The smaller of two naturals.
pub open spec fn min2(a: nat, b: nat) -> nat {
    if a <= b {
        a
    } else {
        b
    }
}

/// The smallest of three naturals.
pub open spec fn min3(a: nat, b: nat, c: nat) -> nat {
    min2(a, min2(b, c))
}

/// The larger of two naturals.
pub open spec fn max2(a: nat, b: nat) -> nat {
    if a >= b {
        a
    } else {
        b
    }
}

/// Structural equality on characters, as a first-class relation.
pub open spec fn char_eq() -> spec_fn(char, char) -> bool {
    |x: char, y: char| x == y
}

/// The equality relation that `==` on `T` decides, as a first-class relation.
pub open spec fn eq_fn<T: PartialEq>() -> spec_fn(T, T) -> bool {
    |x: T, y: T| x.eq_spec(&y)
}

/// The one error this crate reports: two sequences of different lengths were
/// handed to an algorithm that requires equal lengths.
#[derive(Debug, PartialEq, Eq, Structural, Clone, Copy)]
pub enum FuzztError {
    DifferentLengthArgs,
}

impl FuzztError {
    /// A human-readable description of the error.
    pub fn message(&self) -> (r: &'static str)
        ensures
            r@ == "Differing length arguments provided"@,
    {
        "Differing length arguments provided"
    }
}

/// A borrowed string viewed as a sequence of Unicode scalar values.
pub struct StringWrapper<'a>(pub &'a str);

impl<'a> StringWrapper<'a> {
    /// The characters of the wrapped string, in order.
    pub fn chars_vec(&self) -> (r: Vec<char>)
        ensures
            r@ == self.0@,
    {
        chars_of(self.0)
    }
}

/// Collects the Unicode scalar values of `s` into a vector, in order.
pub fn chars_of(s: &str) -> (r: Vec<char>)
    ensures
        r@ == s@,
{
    broadcast use vstd::string::axiom_spec_iter;

    let mut v: Vec<char> = Vec::new();
    for c in it: s.chars()
        invariant
            it.seq() == s@,
            v@ == it.seq().take(it.index()),
    {
        v.push(c);
    }
    proof {
        assert(v@ =~= s@);
    }
    v
}

/// The adjacent character pairs of `s`, in order: element `i` is
/// `(s[i], s[i + 1])`.
pub open spec fn bigrams_spec(s: Seq<char>) -> Seq<(char, char)> {
    if s.len() < 2 {
        Seq::empty()
    } else {
        Seq::new((s.len() - 1) as nat, |i: int| (s[i], s[i + 1]))
    }
}

/// Returns the ordered pairs of adjacent characters of `s`.
pub fn bigrams(s: &str) -> (r: Vec<(char, char)>)
    ensures
        r@ == bigrams_spec(s@),
{
    let cs = chars_of(s);
    bigrams_of(&cs)
}

/// Returns the ordered pairs of adjacent characters of `cs`.
pub fn bigrams_of(cs: &Vec<char>) -> (r: Vec<(char, char)>)
    ensures
        r@ == bigrams_spec(cs@),
{
    let mut r: Vec<(char, char)> = Vec::new();
    if cs.len() < 2 {
        proof {
            assert(r@ =~= bigrams_spec(cs@));
        }
        return r;
    }
    let n = cs.len() - 1;
    for i in 0..n
        invariant
            n + 1 == cs.len(),
            r@.len() == i,
            forall|k: int| 0 <= k < i ==> r@[k] == (cs@[k], cs@[k + 1]),
    {
        r.push((cs[i], cs[i + 1]));
    }
    proof {
        assert(r@ =~= bigrams_spec(cs@));
    }
    r
}

/// Whether a character counts as whitespace, as `char::is_whitespace`
/// decides it.
pub uninterp spec fn is_space(c: char) -> bool;

/// Relies on char::is_whitespace: whether `c` has the Unicode White_Space
/// property; the result depends on the character alone.
#[verifier::external_body]
pub(crate) fn char_is_whitespace(c: char) -> (r: bool)
    ensures
        r == is_space(c),
{
    c.is_whitespace()
}

/// Whether a character counts as alphanumeric, as `char::is_alphanumeric`
/// decides it.
pub uninterp spec fn is_alnum(c: char) -> bool;

/// Relies on char::is_alphanumeric: whether `c` is in the Unicode
/// Alphabetic or Number categories; the result depends on the character
/// alone.
#[verifier::external_body]
pub(crate) fn char_is_alphanumeric(c: char) -> (r: bool)
    ensures
        r == is_alnum(c),
{
    c.is_alphanumeric()
}

/// The lowercase form of a character sequence, as `str::to_lowercase`
/// produces it.
pub uninterp spec fn lower_of(s: Seq<char>) -> Seq<char>;

/// Relies on str::to_lowercase: the full Unicode lowercase mapping of the
/// text; the result depends on the characters alone.
#[verifier::external_body]
pub(crate) fn lowercase_string(v: &Vec<char>) -> (r: String)
    ensures
        r@ == lower_of(v@),
{
    let s: String = v.iter().collect();
    s.to_lowercase()
}

/// True exactly when the two vectors hold the same characters in the same
/// order.
pub fn vec_eq_chars(a: &Vec<char>, b: &Vec<char>) -> (r: bool)
    ensures
        r == (a@ == b@),
{
    if a.len() != b.len() {
        return false;
    }
    let n = a.len();
    for i in 0..n
        invariant
            n == a@.len() == b@.len(),
            forall|k: int| 0 <= k < i ==> a@[k] == b@[k],
    {
        if a[i] != b[i] {
            return false;
        }
    }
    proof {
        assert(a@ =~= b@);
    }
    true
}

/// Index of cell `(i, j)` in a rectangular grid of the given width stored
/// row-major as one vector.
pub fn flat_index(i: usize, j: usize, width: usize) -> (r: usize)
    requires
        j * width + i <= usize::MAX,
    ensures
        r == j * width + i,
{
    j * width + i
}

} // verus!
