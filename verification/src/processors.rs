//! Text preprocessors: pure transforms applied to the query and the
//! candidates before scoring.  The identity transform, and a cleanup that
//! keeps only alphanumeric and whitespace characters, trims the ends, and
//! lowercases the rest.

use vstd::prelude::*;

verus! {

use crate::utils::{
    char_is_alphanumeric,
    char_is_whitespace,
    chars_of,
    is_alnum,
    is_space,
    lower_of,
    lowercase_string,
};

/// A pure, deterministic string transform applied before scoring.
pub trait StringProcessor {
    /// What the transform returns, as a function of the input characters.
    spec fn process_spec(&self, s: Seq<char>) -> Seq<char>;

    /// Applies the transform.
    fn process(&self, s: &str) -> (r: String)
        ensures
            r@ == self.process_spec(s@),
    ;
}

/// The identity transform.
pub struct NullStringProcessor;

/// Keeps alphanumeric and whitespace characters, trims whitespace from both
/// ends, and lowercases the result.
pub struct LowerAlphaNumStringProcessor;

/// The characters among the first `n` of `s` that are alphanumeric or
/// whitespace, in order.
pub open spec fn keep_alnum_space(s: Seq<char>, n: int) -> Seq<char>
    decreases n,
{
    if n <= 0 {
        Seq::empty()
    } else {
        let pre = keep_alnum_space(s, n - 1);
        if is_alnum(s[n - 1]) || is_space(s[n - 1]) {
            pre.push(s[n - 1])
        } else {
            pre
        }
    }
}

/// `s` without its leading whitespace.
pub open spec fn trim_front(s: Seq<char>) -> Seq<char>
    decreases s.len(),
{
    if s.len() == 0 {
        s
    } else if is_space(s[0]) {
        trim_front(s.drop_first())
    } else {
        s
    }
}

/// `s` without its trailing whitespace.
pub open spec fn trim_back(s: Seq<char>) -> Seq<char>
    decreases s.len(),
{
    if s.len() == 0 {
        s
    } else if is_space(s.last()) {
        trim_back(s.drop_last())
    } else {
        s
    }
}

/// `s` without leading and trailing whitespace.
pub open spec fn trim_spec(s: Seq<char>) -> Seq<char> {
    trim_back(trim_front(s))
}

/// When the first `f` characters are whitespace, trimming the front skips
/// exactly them.
proof fn lemma_trim_front_skip(s: Seq<char>, f: int)
    requires
        0 <= f <= s.len(),
        forall|k: int| 0 <= k < f ==> is_space(s[k]),
        f < s.len() ==> !is_space(s[f]),
    ensures
        trim_front(s) == s.skip(f),
    decreases f,
{
    if f == 0 {
        if s.len() > 0 {
            assert(s.skip(0) =~= s);
        } else {
            assert(s.skip(0) =~= s);
        }
    } else {
        assert(is_space(s[0]));
        lemma_trim_front_skip(s.drop_first(), f - 1);
        assert(s.drop_first().skip(f - 1) =~= s.skip(f));
    }
}

/// When the characters after position `l` are whitespace and `s[l]` is not,
/// trimming the back keeps exactly the first `l + 1`.
proof fn lemma_trim_back_take(s: Seq<char>, l: int)
    requires
        -1 <= l < s.len(),
        forall|k: int| l < k < s.len() ==> is_space(s[k]),
        l >= 0 ==> !is_space(s[l]),
    ensures
        trim_back(s) == s.take(l + 1),
    decreases s.len() - l,
{
    if l == s.len() - 1 {
        assert(s.take(l + 1) =~= s);
    } else {
        assert(is_space(s.last()));
        lemma_trim_back_take(s.drop_last(), l);
        assert(s.drop_last().take(l + 1) =~= s.take(l + 1));
    }
}

/// Removes leading and trailing whitespace from a character vector.
fn trim_chars(cs: &Vec<char>) -> (r: Vec<char>)
    ensures
        r@ == trim_spec(cs@),
{
    let n = cs.len();
    let mut f: usize = 0;
    while f < n && char_is_whitespace(cs[f])
        invariant
            n == cs@.len(),
            0 <= f <= n,
            forall|k: int| 0 <= k < f ==> is_space(cs@[k]),
        decreases n - f,
    {
        f += 1;
    }
    proof {
        lemma_trim_front_skip(cs@, f as int);
    }
    if f == n {
        let r: Vec<char> = Vec::new();
        proof {
            assert(cs@.skip(n as int) =~= Seq::<char>::empty());
            assert(r@ =~= trim_spec(cs@));
        }
        return r;
    }
    let mut l: usize = n - 1;
    while l > f && char_is_whitespace(cs[l])
        invariant
            n == cs@.len(),
            0 <= f <= l < n,
            forall|k: int| l < k < n ==> is_space(cs@[k]),
        decreases l,
    {
        l -= 1;
    }
    proof {
        assert(!is_space(cs@[l as int]));
        lemma_trim_back_take(cs@.skip(f as int), l - f);
        assert forall|k: int| l - f < k < cs@.skip(f as int).len() implies is_space(
            #[trigger] cs@.skip(f as int)[k],
        ) by {
            assert(cs@.skip(f as int)[k] == cs@[k + f]);
        }
    }
    let mut r: Vec<char> = Vec::new();
    for i in f..(l + 1)
        invariant
            n == cs@.len(),
            f <= l < n,
            r@.len() == i - f,
            forall|k: int| 0 <= k < i - f ==> r@[k] == cs@[k + f],
    {
        r.push(cs[i]);
    }
    proof {
        assert(r@ =~= cs@.skip(f as int).take(l - f + 1));
    }
    r
}

impl StringProcessor for NullStringProcessor {
    open spec fn process_spec(&self, s: Seq<char>) -> Seq<char> {
        s
    }

    fn process(&self, s: &str) -> (r: String) {
        s.to_owned()
    }
}

impl StringProcessor for LowerAlphaNumStringProcessor {
    open spec fn process_spec(&self, s: Seq<char>) -> Seq<char> {
        lower_of(trim_spec(keep_alnum_space(s, s.len() as int)))
    }

    fn process(&self, s: &str) -> (r: String) {
        let cs = chars_of(s);
        let n = cs.len();
        let mut kept: Vec<char> = Vec::new();
        for i in 0..n
            invariant
                n == cs@.len(),
                kept@ == keep_alnum_space(cs@, i as int),
        {
            let c = cs[i];
            if char_is_alphanumeric(c) || char_is_whitespace(c) {
                kept.push(c);
            }
        }
        let trimmed = trim_chars(&kept);
        lowercase_string(&trimmed)
    }
}

} // verus!
