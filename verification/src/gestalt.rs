//! Gestalt quick ratio: twice the number of characters two strings share
//! (with multiplicity, in any order), divided by their combined raw byte
//! length.

use vstd::prelude::*;

verus! {

use vstd::string::StringSliceAdditionalSpecFns;
use vstd::utf8::{encode_scalar, encode_utf8};
use crate::common_count::common_count;
use crate::ratio::Ratio;
use crate::utils::chars_of;

/// Number of characters the two sequences share, with multiplicity: the
/// size of the intersection of their character multisets.
pub open spec fn gestalt_common(a: Seq<char>, b: Seq<char>) -> int {
    a.to_multiset().intersection_with(b.to_multiset()).len() as int
}

/// The quick ratio of two strings as an exact fraction: one when both are
/// empty, else twice the shared character count over the combined byte
/// length (the raw length, not the character count).
pub open spec fn gestalt_frac(a: Seq<char>, b: Seq<char>, abytes: int, bbytes: int) -> (int, int) {
    if abytes + bbytes == 0 {
        (1int, 1int)
    } else {
        (2 * gestalt_common(a, b), abytes + bbytes)
    }
}

/// Symmetry: the shared character count does not depend on the order of
/// the sequences.
pub proof fn lemma_gestalt_symmetric(a: Seq<char>, b: Seq<char>)
    ensures
        gestalt_common(a, b) == gestalt_common(b, a),
{
    crate::common_count::lemma_inter_comm(a.to_multiset(), b.to_multiset());
}

/// Identity: a sequence shares all its characters with itself.
pub proof fn lemma_gestalt_identity(a: Seq<char>)
    ensures
        gestalt_common(a, a) == a.len(),
{
    broadcast use vstd::multiset::group_multiset_axioms;
    broadcast use vstd::multiset::group_multiset_properties;
    broadcast use vstd::seq_lib::group_to_multiset_ensures;

    assert(a.to_multiset().intersection_with(a.to_multiset()) =~= a.to_multiset());
}

/// Identity on single-byte text: when each character of `a` encodes to one
/// byte, the quick ratio of `a` with itself is one.  (With multi-byte
/// characters the divisor counts bytes while the matches count characters,
/// so the ratio of a string with itself drops below one.)
pub proof fn lemma_gestalt_identity_ratio(a: Seq<char>, abytes: int)
    requires
        abytes == a.len(),
    ensures
        gestalt_frac(a, a, abytes, abytes).0 == gestalt_frac(a, a, abytes, abytes).1,
{
    lemma_gestalt_identity(a);
}

/// A character sequence never has more characters than UTF-8 bytes.
pub proof fn lemma_chars_le_bytes(s: Seq<char>)
    ensures
        s.len() <= encode_utf8(s).len(),
    decreases s.len(),
{
    if s.len() > 0 {
        lemma_chars_le_bytes(s.drop_first());
        assert(encode_scalar(s[0] as u32).len() >= 1);
    }
}

/// The quick ratio is a well-formed fraction in `[0, 1]`, when the byte
/// lengths are those of the sequences' UTF-8 encodings.
pub proof fn lemma_gestalt_in_range(a: Seq<char>, b: Seq<char>)
    ensures
        0 < gestalt_frac(a, b, encode_utf8(a).len() as int, encode_utf8(b).len() as int).1,
        0 <= gestalt_frac(a, b, encode_utf8(a).len() as int, encode_utf8(b).len() as int).0
            <= gestalt_frac(a, b, encode_utf8(a).len() as int, encode_utf8(b).len() as int).1,
{
    let abytes = encode_utf8(a).len() as int;
    let bbytes = encode_utf8(b).len() as int;
    lemma_chars_le_bytes(a);
    lemma_chars_le_bytes(b);
    crate::common_count::lemma_inter_le_lens(a, b);
}

/// The gestalt quick ratio of two strings, as an exact fraction in [0, 1]:
/// one when both strings are empty, else twice the number of characters
/// they share (with multiplicity) over their combined byte length.
pub fn sequence_matcher(s1: &str, s2: &str) -> (r: Ratio)
    ensures
        r.wf(),
        r.num == gestalt_frac(
            s1@,
            s2@,
            (s1.spec_bytes().len() as usize) as int,
            (s2.spec_bytes().len() as usize) as int,
        ).0,
        r.den == gestalt_frac(
            s1@,
            s2@,
            (s1.spec_bytes().len() as usize) as int,
            (s2.spec_bytes().len() as usize) as int,
        ).1,
        s1.spec_bytes().len() <= usize::MAX && s2.spec_bytes().len() <= usize::MAX ==> r.num
            <= r.den,
{
    proof {
        lemma_gestalt_in_range(s1@, s2@);
    }
    let b1 = s1.len();
    let b2 = s2.len();
    if b1 == 0 && b2 == 0 {
        return Ratio::one();
    }
    let ca = chars_of(s1);
    let cb = chars_of(s2);
    let inter = common_count(&ca, &cb);
    let num = 2 * (inter as u128);
    let den = (b1 as u128) + (b2 as u128);
    Ratio::new(num, den)
}

} // verus!
