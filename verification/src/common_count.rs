//! Shared multiset machinery: how many elements two sequences have in
//! common, counted with multiplicity — the size of the intersection of
//! their multisets.  Computed by counting one sequence into an association
//! vector and consuming it greedily with the other.

use vstd::prelude::*;

verus! {

use vstd::multiset::Multiset;

/// An element type whose equality test can be run; `==` decides structural
/// equality.
pub trait EqElem: Sized + Copy {
    /// Decides `self == other`.
    fn eq_el(&self, other: &Self) -> (r: bool)
        ensures
            r == (*self == *other),
    ;
}

impl EqElem for char {
    fn eq_el(&self, other: &Self) -> (r: bool) {
        *self == *other
    }
}

/// An ordered pair of adjacent characters.
#[derive(Debug, Clone, Copy)]
pub struct Bigram {
    pub fst: char,
    pub snd: char,
}

impl Bigram {
    /// Builds the pair `(fst, snd)`.
    pub fn new(fst: char, snd: char) -> (r: Bigram)
        ensures
            r == (Bigram { fst, snd }),
    {
        Bigram { fst, snd }
    }
}

impl EqElem for Bigram {
    fn eq_el(&self, other: &Self) -> (r: bool) {
        self.fst == other.fst && self.snd == other.snd
    }
}

/// The count recorded for key `c` (at its first entry), or zero when
/// absent.
pub open spec fn assoc_cnt<T>(v: Seq<(T, usize)>, c: T) -> int
    decreases v.len(),
{
    if v.len() == 0 {
        0
    } else if v[0].0 == c {
        v[0].1 as int
    } else {
        assoc_cnt(v.drop_first(), c)
    }
}

/// A key that occurs in no entry counts zero.
pub proof fn lemma_assoc_absent<T>(v: Seq<(T, usize)>, c: T)
    requires
        forall|x: int| 0 <= x < v.len() ==> #[trigger] v[x].0 != c,
    ensures
        assoc_cnt(v, c) == 0,
    decreases v.len(),
{
    if v.len() > 0 {
        lemma_assoc_absent(v.drop_first(), c);
    }
}

/// The first entry holding a key decides its count.
pub proof fn lemma_assoc_first<T>(v: Seq<(T, usize)>, i: int, c: T)
    requires
        0 <= i < v.len(),
        v[i].0 == c,
        forall|x: int| 0 <= x < i ==> #[trigger] v[x].0 != c,
    ensures
        assoc_cnt(v, c) == v[i].1,
    decreases i,
{
    if i > 0 {
        lemma_assoc_first(v.drop_first(), i - 1, c);
    }
}

/// Overwriting the count at the first entry of `c` changes only the count
/// of `c`.
pub proof fn lemma_assoc_update_first<T>(v: Seq<(T, usize)>, i: int, c: T, n: usize)
    requires
        0 <= i < v.len(),
        v[i].0 == c,
        forall|x: int| 0 <= x < i ==> #[trigger] v[x].0 != c,
    ensures
        assoc_cnt(v.update(i, (c, n)), c) == n,
        forall|d: T| d != c ==> #[trigger] assoc_cnt(v.update(i, (c, n)), d) == assoc_cnt(v, d),
    decreases i,
{
    let w = v.update(i, (c, n));
    if i == 0 {
        assert(w.drop_last().push(w.last()) =~= w);
        assert(w.drop_first() =~= v.drop_first());
    } else {
        assert(w.drop_first() =~= v.drop_first().update(i - 1, (c, n)));
        lemma_assoc_update_first(v.drop_first(), i - 1, c, n);
        assert(w[0] == v[0]);
        assert(assoc_cnt(w, c) == n);
        assert forall|d: T| d != c implies #[trigger] assoc_cnt(w, d) == assoc_cnt(v, d) by {
            if v[0].0 != d {
                assert(assoc_cnt(w.drop_first(), d) == assoc_cnt(v.drop_first(), d));
            }
        }
    }
}

/// Appending an entry for an absent key gives it that count and changes no
/// other key's count.
pub proof fn lemma_assoc_push_absent<T>(v: Seq<(T, usize)>, c: T, n: usize)
    requires
        forall|x: int| 0 <= x < v.len() ==> #[trigger] v[x].0 != c,
    ensures
        assoc_cnt(v.push((c, n)), c) == n,
        forall|d: T| d != c ==> #[trigger] assoc_cnt(v.push((c, n)), d) == assoc_cnt(v, d),
    decreases v.len(),
{
    let w = v.push((c, n));
    if v.len() == 0 {
        assert(w.drop_first() =~= Seq::<(T, usize)>::empty());
        assert forall|d: T| d != c implies #[trigger] assoc_cnt(w, d) == assoc_cnt(v, d) by {
            assert(assoc_cnt(w.drop_first(), d) == 0);
        }
    } else {
        assert(w.drop_first() =~= v.drop_first().push((c, n)));
        lemma_assoc_push_absent(v.drop_first(), c, n);
        assert(w[0] == v[0]);
        assert(assoc_cnt(w, c) == n);
        assert forall|d: T| d != c implies #[trigger] assoc_cnt(w, d) == assoc_cnt(v, d) by {
            if v[0].0 != d {
                assert(assoc_cnt(w.drop_first(), d) == assoc_cnt(v.drop_first(), d));
            }
        }
    }
}

/// Finds the first entry with key `c`.
fn find_key<T: EqElem>(v: &Vec<(T, usize)>, c: T) -> (r: Option<usize>)
    ensures
        match r {
            Some(i) => 0 <= i < v@.len() && v@[i as int].0 == c && forall|x: int|
                0 <= x < i ==> #[trigger] v@[x].0 != c,
            None => forall|x: int| 0 <= x < v@.len() ==> #[trigger] v@[x].0 != c,
        },
{
    let n = v.len();
    for i in 0..n
        invariant
            n == v@.len(),
            forall|x: int| 0 <= x < i ==> #[trigger] v@[x].0 != c,
    {
        if v[i].0.eq_el(&c) {
            return Some(i);
        }
    }
    None
}

/// Counts the occurrences of each element of `s` into an association
/// vector.
pub fn counter<T: EqElem>(s: &Vec<T>) -> (r: Vec<(T, usize)>)
    ensures
        forall|c: T| #[trigger] assoc_cnt(r@, c) == s@.to_multiset().count(c),
{
    broadcast use vstd::seq_lib::group_to_multiset_ensures;

    let n = s.len();
    let mut r: Vec<(T, usize)> = Vec::new();
    assert(s@.take(0) =~= Seq::<T>::empty());
    for i in 0..n
        invariant
            n == s@.len(),
            forall|c: T| #[trigger] assoc_cnt(r@, c) == s@.take(i as int).to_multiset().count(c),
    {
        let c = s[i];
        proof {
            assert(s@.take(i + 1) =~= s@.take(i as int).push(s@[i as int]));
        }
        let ghost pre = s@.take(i as int).to_multiset();
        proof {
            broadcast use vstd::seq_lib::group_to_multiset_ensures;

            assert(s@.take(i as int).push(s@[i as int]).to_multiset() =~= pre.insert(c));
            assert(s@.take(i + 1).to_multiset() =~= pre.insert(c));
            assert(pre.len() == i);
            vstd::multiset::axiom_count_le_len(pre, c);
        }
        let ghost rpre = r@;
        match find_key(&r, c) {
            Some(idx) => {
                proof {
                    lemma_assoc_first(r@, idx as int, c);
                    vstd::multiset::axiom_count_le_len(pre, c);
                }
                let cnt = r[idx].1;
                r.set(idx, (c, cnt + 1));
                proof {
                    lemma_assoc_update_first(rpre, idx as int, c, (cnt + 1) as usize);
                }
            },
            None => {
                proof {
                    lemma_assoc_absent(r@, c);
                }
                r.push((c, 1));
                proof {
                    lemma_assoc_push_absent(rpre, c, 1);
                }
            },
        }
    }
    assert(s@.take(n as int) =~= s@);
    r
}

/// Number of elements of `s` that can be matched, one for one, against the
/// multiset `m`: consumed greedily left to right.
pub open spec fn greedy_common<T>(s: Seq<T>, m: Multiset<T>) -> int
    decreases s.len(),
{
    if s.len() == 0 {
        0
    } else if m.count(s[0]) > 0 {
        1 + greedy_common(s.drop_first(), m.remove(s[0]))
    } else {
        greedy_common(s.drop_first(), m)
    }
}

/// The greedy count is the size of the multiset intersection.
pub proof fn lemma_greedy_inter<T>(s: Seq<T>, m: Multiset<T>)
    ensures
        greedy_common(s, m) == s.to_multiset().intersection_with(m).len(),
    decreases s.len(),
{
    broadcast use vstd::multiset::group_multiset_axioms;
    broadcast use vstd::multiset::group_multiset_properties;
    broadcast use vstd::seq_lib::group_to_multiset_ensures;

    if s.len() == 0 {
        assert(s.to_multiset().intersection_with(m) =~= Multiset::<T>::empty());
    } else {
        let c = s[0];
        let rest = s.drop_first();
        assert(s =~= rest.insert(0, c));
        assert(rest.push(c).to_multiset() =~= rest.to_multiset().insert(c));
        lemma_to_multiset_head(s);
        if m.count(c) > 0 {
            lemma_greedy_inter(rest, m.remove(c));
            assert(s.to_multiset().intersection_with(m) =~= rest.to_multiset().intersection_with(
                m.remove(c),
            ).insert(c));
        } else {
            lemma_greedy_inter(rest, m);
            assert(s.to_multiset().intersection_with(m) =~= rest.to_multiset().intersection_with(
                m,
            ));
        }
    }
}

/// A nonempty sequence's multiset is its tail's multiset with the head
/// added.
proof fn lemma_to_multiset_head<T>(s: Seq<T>)
    requires
        s.len() > 0,
    ensures
        s.to_multiset() =~= s.drop_first().to_multiset().insert(s[0]),
{
    broadcast use vstd::seq_lib::group_to_multiset_ensures;

    assert(s.drop_first() =~= s.remove(0));
    assert(s.remove(0).to_multiset() =~= s.to_multiset().remove(s[0]));
    assert(s.to_multiset().count(s[0]) > 0);
    assert(s.to_multiset().remove(s[0]).insert(s[0]) =~= s.to_multiset());
}

/// The greedy count is bounded by the scanned sequence's length.
pub proof fn lemma_greedy_le_len<T>(s: Seq<T>, m: Multiset<T>)
    ensures
        0 <= greedy_common(s, m) <= s.len(),
    decreases s.len(),
{
    if s.len() > 0 {
        lemma_greedy_le_len(s.drop_first(), m.remove(s[0]));
        lemma_greedy_le_len(s.drop_first(), m);
    }
}

/// Multiset intersection is commutative.
pub proof fn lemma_inter_comm<T>(x: Multiset<T>, y: Multiset<T>)
    ensures
        x.intersection_with(y) == y.intersection_with(x),
{
    broadcast use vstd::multiset::group_multiset_axioms;
    broadcast use vstd::multiset::group_multiset_properties;

    assert(x.intersection_with(y) =~= y.intersection_with(x));
}

/// The intersection of two sequences' multisets is no larger than either
/// sequence.
pub proof fn lemma_inter_le_lens<T>(a: Seq<T>, b: Seq<T>)
    ensures
        0 <= a.to_multiset().intersection_with(b.to_multiset()).len() <= a.len(),
        a.to_multiset().intersection_with(b.to_multiset()).len() <= b.len(),
{
    lemma_greedy_inter(a, b.to_multiset());
    lemma_greedy_le_len(a, b.to_multiset());
    lemma_inter_comm(a.to_multiset(), b.to_multiset());
    lemma_greedy_inter(b, a.to_multiset());
    lemma_greedy_le_len(b, a.to_multiset());
}

/// Counts how many elements the two vectors have in common, with
/// multiplicity: the size of their multiset intersection.
pub fn common_count<T: EqElem>(a: &Vec<T>, b: &Vec<T>) -> (r: usize)
    ensures
        r == a.view().to_multiset().intersection_with(b.view().to_multiset()).len(),
        r <= a.view().len(),
        r <= b.view().len(),
{
    proof {
        lemma_inter_le_lens(a@, b@);
        lemma_greedy_inter(a@, b@.to_multiset());
    }
    let counts = counter(b);
    let mut counts = counts;
    let ghost mut ms = b@.to_multiset();
    let n = a.len();
    let mut matched: usize = 0;
    proof {
        assert(a@.skip(0) =~= a@);
    }
    for i in 0..n
        invariant
            n == a@.len(),
            forall|c: T| #[trigger] assoc_cnt(counts@, c) == ms.count(c),
            matched + greedy_common(a@.skip(i as int), ms) == greedy_common(
                a@,
                b@.to_multiset(),
            ),
            matched <= i,
    {
        let c = a[i];
        proof {
            assert(a@.skip(i as int).drop_first() =~= a@.skip(i + 1));
            assert(a@.skip(i as int)[0] == a@[i as int]);
        }
        let ghost cpre = counts@;
        match find_key(&counts, c) {
            Some(idx) => {
                proof {
                    lemma_assoc_first(counts@, idx as int, c);
                }
                let cnt = counts[idx].1;
                if cnt > 0 {
                    counts.set(idx, (c, cnt - 1));
                    matched += 1;
                    proof {
                        lemma_assoc_update_first(cpre, idx as int, c, (cnt - 1) as usize);
                        ms = ms.remove(c);
                        broadcast use vstd::multiset::group_multiset_axioms;
                    }
                } else {
                    proof {
                        assert(ms.count(c) == 0);
                    }
                }
            },
            None => {
                proof {
                    lemma_assoc_absent(counts@, c);
                    assert(ms.count(c) == 0);
                }
            },
        }
    }
    proof {
        assert(a@.skip(n as int) =~= Seq::<T>::empty());
    }
    matched
}

} // verus!
