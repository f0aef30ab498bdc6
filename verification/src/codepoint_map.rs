//! A map keyed by Unicode codepoints, specialised for the linear bookkeeping
//! of the Damerau–Levenshtein algorithm: codepoints 0–255 index a flat array,
//! larger codepoints go through a growable open-addressing table.  Slots carry
//! an explicit occupied flag, entries are never removed, and the table doubles
//! whenever it would become two-thirds full.

use vstd::prelude::*;

verus! {

use vstd::arithmetic::div_mod::{
    lemma_mod_bound,
    lemma_mod_multiples_vanish,
    lemma_small_mod,
};

/// A row index as stored in the map; `-1` marks "never seen".
#[derive(Debug, Clone, Copy, PartialEq, Eq, Structural)]
pub struct RowId {
    pub val: isize,
}

impl Default for RowId {
    /// The default row id marks a codepoint that has not been seen yet.
    fn default() -> (r: Self)
        ensures
            r.val == -1,
    {
        RowId { val: -1isize }
    }
}

/// One slot of the open-addressing table.
#[derive(Clone, Copy)]
struct MapElem {
    key: u32,
    occupied: bool,
    value: RowId,
}

/// Starting probe position for a key in a table of the given capacity.
pub open spec fn hash_of(key: u32, cap: int) -> int {
    (key as int) % cap
}

/// Probe position after `t` steps of linear probing from `h`.
pub open spec fn probe_at(h: int, t: int, cap: int) -> int {
    (h + t) % cap
}

/// Number of probe steps from `h` to slot `i` (both below `cap`).
pub open spec fn dist_of(h: int, i: int, cap: int) -> int {
    (i - h + cap) % cap
}

/// Distinct characters have distinct codepoints.
pub proof fn lemma_char_injective(a: char, b: char)
    requires
        a as u32 == b as u32,
    ensures
        a == b,
{
}

/// A value in `[0, 2 * cap)` reduced modulo `cap`.
proof fn lemma_mod_fold(x: int, cap: int)
    requires
        cap > 0,
        0 <= x < 2 * cap,
    ensures
        x % cap == if x < cap {
            x
        } else {
            x - cap
        },
{
    if x < cap {
        lemma_small_mod(x as nat, cap as nat);
    } else {
        lemma_mod_multiples_vanish(1, x - cap, cap);
        lemma_small_mod((x - cap) as nat, cap as nat);
    }
}

/// Probing for `dist_of(h, i, cap)` steps starting at `h` lands on `i`.
proof fn lemma_probe_dist(h: int, i: int, cap: int)
    requires
        cap > 0,
        0 <= h < cap,
        0 <= i < cap,
    ensures
        0 <= dist_of(h, i, cap) < cap,
        probe_at(h, dist_of(h, i, cap), cap) == i,
{
    lemma_mod_fold(i - h + cap, cap);
    lemma_mod_fold(h + dist_of(h, i, cap), cap);
}

/// Probing `t < cap` steps from `h` lands at distance `t`.
proof fn lemma_dist_probe(h: int, t: int, cap: int)
    requires
        cap > 0,
        0 <= h < cap,
        0 <= t < cap,
    ensures
        0 <= probe_at(h, t, cap) < cap,
        dist_of(h, probe_at(h, t, cap), cap) == t,
{
    lemma_mod_fold(h + t, cap);
    lemma_mod_fold(probe_at(h, t, cap) - h + cap, cap);
}

/// Number of occupied slots.
spec fn count_occ(s: Seq<MapElem>) -> nat
    decreases s.len(),
{
    if s.len() == 0 {
        0
    } else {
        count_occ(s.drop_last()) + if s.last().occupied {
            1nat
        } else {
            0nat
        }
    }
}

/// Overwriting one slot changes the occupied count accordingly.
proof fn lemma_count_occ_update(s: Seq<MapElem>, i: int, e: MapElem)
    requires
        0 <= i < s.len(),
    ensures
        count_occ(s.update(i, e)) == count_occ(s) - (if s[i].occupied {
            1int
        } else {
            0int
        }) + (if e.occupied {
            1int
        } else {
            0int
        }),
    decreases s.len(),
{
    let su = s.update(i, e);
    if i == s.len() - 1 {
        assert(su.drop_last() =~= s.drop_last());
    } else {
        assert(su.drop_last() =~= s.drop_last().update(i, e));
        lemma_count_occ_update(s.drop_last(), i, e);
    }
}

/// A table whose every slot is occupied has occupied count equal to its
/// length.
proof fn lemma_count_occ_full(s: Seq<MapElem>)
    requires
        forall|i: int| 0 <= i < s.len() ==> s[i].occupied,
    ensures
        count_occ(s) == s.len(),
    decreases s.len(),
{
    if s.len() > 0 {
        lemma_count_occ_full(s.drop_last());
    }
}

/// Structural invariant of the open-addressing table.
spec fn slots_wf(s: Seq<MapElem>, used: nat) -> bool {
    &&& used == count_occ(s)
    &&& (forall|i: int, j: int|
        0 <= i < s.len() && 0 <= j < s.len() && i != j && s[i].occupied && s[j].occupied
            ==> s[i].key != s[j].key)
    &&& (forall|i: int, t: int|
        0 <= i < s.len() && s[i].occupied && 0 <= t < dist_of(
            hash_of(s[i].key, s.len() as int),
            i,
            s.len() as int,
        ) ==> s[#[trigger] probe_at(hash_of(s[i].key, s.len() as int), t, s.len() as int)].occupied)
}

/// Some slot holds the key.
spec fn has_key(s: Seq<MapElem>, key: u32) -> bool {
    exists|i: int| 0 <= i < s.len() && s[i].occupied && #[trigger] s[i].key == key
}

/// The value stored for a key, or the default row id when absent.
spec fn tbl_get(s: Seq<MapElem>, key: u32) -> RowId {
    if has_key(s, key) {
        let i = choose|i: int| 0 <= i < s.len() && s[i].occupied && #[trigger] s[i].key == key;
        s[i].value
    } else {
        RowId { val: -1isize }
    }
}

/// When slot `j` holds the key, the lookup answer is slot `j`'s value.
proof fn lemma_tbl_get_at(s: Seq<MapElem>, used: nat, key: u32, j: int)
    requires
        slots_wf(s, used),
        0 <= j < s.len(),
        s[j].occupied,
        s[j].key == key,
    ensures
        has_key(s, key),
        tbl_get(s, key) == s[j].value,
{
    assert(has_key(s, key));
    let i = choose|i: int| 0 <= i < s.len() && s[i].occupied && #[trigger] s[i].key == key;
    assert(i == j);
}

/// The growable tier: an open-addressing table with linear probing.
/// A zero-length slot vector means the table has not been allocated yet.
struct GrowingHashmapChar {
    used: usize,
    slots: Vec<MapElem>,
}

impl GrowingHashmapChar {
    /// Well-formedness: the slot vector is either unallocated or a table
    /// below two-thirds full whose occupied slots are reachable by probing.
    spec fn inv(&self) -> bool {
        &&& slots_wf(self.slots@, self.used as nat)
        &&& (self.slots@.len() == 0 ==> self.used == 0)
        &&& (self.slots@.len() > 0 ==> self.slots@.len() >= 8)
        &&& self.used * 3 <= self.slots@.len() * 2
        &&& self.slots@.len() <= 24 + 3 * (self.used as int)
        &&& self.slots@.len() <= usize::MAX / 2
    }

    /// The value recorded for `key`, or the default row id.
    spec fn spec_get(&self, key: u32) -> RowId {
        tbl_get(self.slots@, key)
    }

    fn new() -> (r: Self)
        ensures
            r.inv(),
            r.used == 0,
            forall|k: u32| r.spec_get(k) == (RowId { val: -1isize }),
    {
        let r = GrowingHashmapChar { used: 0, slots: Vec::new() };
        proof {
            assert(count_occ(r.slots@) == 0);
        }
        r
    }

    /// Follows the probe sequence of `key` until it finds the key or an
    /// empty slot; reports which, and where.
    fn probe_find(slots: &Vec<MapElem>, ghost_used: Ghost<nat>, key: u32) -> (r: (bool, usize))
        requires
            slots_wf(slots@, ghost_used@),
            slots@.len() >= 8,
            slots@.len() <= usize::MAX / 2,
            ghost_used@ * 3 <= slots@.len() * 2,
        ensures
            r.1 < slots@.len(),
            r.0 ==> slots@[r.1 as int].occupied && slots@[r.1 as int].key == key,
            !r.0 ==> !slots@[r.1 as int].occupied && !has_key(slots@, key),
            forall|t: int|
                0 <= t < dist_of(hash_of(key, slots@.len() as int), r.1 as int, slots@.len() as int)
                    ==> slots@[#[trigger] probe_at(
                    hash_of(key, slots@.len() as int),
                    t,
                    slots@.len() as int,
                )].occupied,
    {
        let cap = slots.len();
        let ghost gcap = cap as int;
        let h = (key as usize) % cap;
        proof {
            lemma_mod_bound(key as int, gcap);
        }
        let mut t: usize = 0;
        while t < cap
            invariant
                slots_wf(slots@, ghost_used@),
                cap == slots@.len() >= 8,
                cap <= usize::MAX / 2,
                ghost_used@ * 3 <= slots@.len() * 2,
                gcap == cap as int,
                h == hash_of(key, gcap),
                0 <= h < cap,
                t <= cap,
                forall|u: int|
                    0 <= u < t ==> slots@[#[trigger] probe_at(h as int, u, gcap)].occupied
                        && slots@[probe_at(h as int, u, gcap)].key != key,
            decreases cap - t,
        {
            let idx = (h + t) % cap;
            proof {
                lemma_mod_bound((h + t) as int, gcap);
                lemma_dist_probe(h as int, t as int, gcap);
            }
            if !slots[idx].occupied {
                proof {
                    if has_key(slots@, key) {
                        let j = choose|i: int|
                            0 <= i < slots@.len() && slots@[i].occupied && #[trigger] slots@[
                                i
                            ].key == key;
                        lemma_probe_dist(h as int, j, gcap);
                        let d = dist_of(h as int, j, gcap);
                        if d < t {
                            assert(slots@[probe_at(h as int, d, gcap)].key != key);
                        } else if d == t {
                            assert(probe_at(h as int, d, gcap) == idx as int);
                        } else {
                            assert(slots@[probe_at(h as int, t as int, gcap)].occupied);
                        }
                        assert(false);
                    }
                }
                return (false, idx);
            }
            if slots[idx].key == key {
                return (true, idx);
            }
            t += 1;
        }
        proof {
            assert forall|i: int| 0 <= i < slots@.len() implies slots@[i].occupied by {
                lemma_probe_dist(h as int, i, gcap);
                let d = dist_of(h as int, i, gcap);
                assert(slots@[probe_at(h as int, d, gcap)].occupied);
            }
            lemma_count_occ_full(slots@);
            assert(false);
        }
        (false, 0)
    }

    fn get(&self, key: u32) -> (r: RowId)
        requires
            self.inv(),
        ensures
            r == self.spec_get(key),
    {
        if self.slots.len() == 0 {
            return RowId { val: -1isize };
        }
        let (found, idx) = Self::probe_find(&self.slots, Ghost(self.used as nat), key);
        if found {
            proof {
                lemma_tbl_get_at(self.slots@, self.used as nat, key, idx as int);
            }
            self.slots[idx].value
        } else {
            RowId { val: -1isize }
        }
    }

    /// Writes `value` under `key` at a free slot of `slots`, which must not
    /// already hold `key` and must have room.
    fn insert_free(slots: &mut Vec<MapElem>, ghost_used: Ghost<nat>, key: u32, value: RowId)
        requires
            slots_wf(old(slots)@, ghost_used@),
            old(slots)@.len() >= 8,
            old(slots)@.len() <= usize::MAX / 2,
            ghost_used@ * 3 <= old(slots)@.len() * 2,
            !has_key(old(slots)@, key),
        ensures
            final(slots)@.len() == old(slots)@.len(),
            slots_wf(final(slots)@, (ghost_used@ + 1) as nat),
            has_key(final(slots)@, key),
            tbl_get(final(slots)@, key) == value,
            forall|k: u32| k != key ==> tbl_get(final(slots)@, k) == tbl_get(old(slots)@, k),
            forall|k: u32| k != key ==> has_key(final(slots)@, k) == has_key(old(slots)@, k),
    {
        let ghost s0 = slots@;
        let ghost gcap = slots@.len() as int;
        let (found, idx) = Self::probe_find(slots, ghost_used, key);
        assert(!found);
        let e = MapElem { key, occupied: true, value };
        slots.set(idx, e);
        proof {
            let s1 = slots@;
            lemma_count_occ_update(s0, idx as int, e);
            // uniqueness
            assert forall|i: int, j: int|
                0 <= i < s1.len() && 0 <= j < s1.len() && i != j && s1[i].occupied
                    && s1[j].occupied implies s1[i].key != s1[j].key by {
                if i != idx as int && j != idx as int {
                    assert(s0[i] == s1[i] && s0[j] == s1[j]);
                }
            }
            // probe-path reachability
            assert forall|i: int, t: int|
                0 <= i < s1.len() && s1[i].occupied && 0 <= t < dist_of(
                    hash_of(s1[i].key, gcap),
                    i,
                    gcap,
                ) implies s1[#[trigger] probe_at(hash_of(s1[i].key, gcap), t, gcap)].occupied by {
                lemma_mod_bound(s1[i].key as int, gcap);
                lemma_mod_bound(hash_of(s1[i].key, gcap) + t, gcap);
                if i == idx as int {
                    assert(s0[probe_at(hash_of(key, gcap), t, gcap)].occupied);
                } else {
                    assert(s0[i].occupied && s0[i] == s1[i]);
                    assert(s0[probe_at(hash_of(s1[i].key, gcap), t, gcap)].occupied);
                }
            }
            lemma_tbl_get_at(s1, (ghost_used@ + 1) as nat, key, idx as int);
            // other keys unchanged
            assert forall|k: u32| k != key implies has_key(s1, k) == has_key(s0, k) && tbl_get(
                s1,
                k,
            ) == tbl_get(s0, k) by {
                if has_key(s0, k) {
                    let j = choose|i: int|
                        0 <= i < s0.len() && s0[i].occupied && #[trigger] s0[i].key == k;
                    assert(s1[j] == s0[j]);
                    lemma_tbl_get_at(s1, (ghost_used@ + 1) as nat, k, j);
                    lemma_tbl_get_at(s0, ghost_used@, k, j);
                } else {
                    if has_key(s1, k) {
                        let j = choose|i: int|
                            0 <= i < s1.len() && s1[i].occupied && #[trigger] s1[i].key == k;
                        assert(j != idx as int);
                        assert(s0[j] == s1[j]);
                        assert(false);
                    }
                }
            }
        }
    }

    /// Doubles the table and re-inserts every occupied slot.
    fn grow(&mut self)
        requires
            old(self).inv(),
            old(self).slots@.len() >= 8,
            old(self).slots@.len() <= usize::MAX / 4,
            (old(self).used + 1) * 3 >= old(self).slots@.len() * 2,
        ensures
            final(self).inv(),
            final(self).used == old(self).used,
            final(self).slots@.len() == old(self).slots@.len() * 2,
            forall|k: u32| final(self).spec_get(k) == old(self).spec_get(k),
            forall|k: u32| has_key(final(self).slots@, k) == has_key(old(self).slots@, k),
            final(self).used * 3 + 3 <= final(self).slots@.len() * 2,
    {
        let ghost s0 = self.slots@;
        let old_cap = self.slots.len();
        let new_cap = old_cap * 2;
        let mut fresh: Vec<MapElem> = Vec::new();
        for z in 0..new_cap
            invariant
                fresh@.len() == z,
                forall|i: int| 0 <= i < z ==> !fresh@[i].occupied,
        {
            fresh.push(MapElem { key: 0, occupied: false, value: RowId { val: -1isize } });
        }
        proof {
            lemma_count_occ_full_complement(fresh@);
        }
        let mut cnt: usize = 0;
        for p in 0..old_cap
            invariant
                self.slots@ == s0,
                old_cap == s0.len() >= 8,
                new_cap == old_cap * 2 <= usize::MAX / 2,
                fresh@.len() == new_cap,
                slots_wf(fresh@, cnt as nat),
                cnt as nat == count_occ(s0.take(p as int)),
                cnt <= p,
                forall|k: u32|
                    has_key(fresh@, k) <==> exists|j: int|
                        0 <= j < p && s0[j].occupied && #[trigger] s0[j].key == k,
                forall|k: u32|
                    has_key(fresh@, k) ==> tbl_get(fresh@, k) == tbl_get(s0, k),
                slots_wf(s0, old(self).used as nat),
                old(self).used * 3 <= s0.len() * 2,
        {
            proof {
                lemma_count_occ_take_le(s0, p as int);
                assert(s0.take(p as int + 1).drop_last() =~= s0.take(p as int));
            }
            let el = self.slots[p];
            if el.occupied {
                proof {
                    // the key is not yet in the fresh table
                    if has_key(fresh@, el.key) {
                        let j = choose|j: int|
                            0 <= j < p as int && s0[j].occupied && #[trigger] s0[j].key
                                == el.key;
                        assert(false);
                    }
                    // room: cnt <= used < new_cap * 2 / 3
                    lemma_count_occ_take_full(s0, p as int);
                }
                Self::insert_free(&mut fresh, Ghost(cnt as nat), el.key, el.value);
                proof {
                    lemma_tbl_get_at(s0, old(self).used as nat, el.key, p as int);
                }
                cnt += 1;
                proof {
                    assert forall|k: u32|
                        has_key(fresh@, k) implies tbl_get(fresh@, k) == tbl_get(s0, k) by {}
                }
            }
        }
        proof {
            assert(s0.take(old_cap as int) =~= s0);
        }
        self.slots = fresh;
        proof {
            assert(count_occ(s0) == cnt as nat);
            assert forall|k: u32| tbl_get(self.slots@, k) == tbl_get(s0, k) by {
                if has_key(s0, k) {
                    let j = choose|i: int|
                        0 <= i < s0.len() && s0[i].occupied && #[trigger] s0[i].key == k;
                    assert(has_key(self.slots@, k));
                } else {
                    if has_key(self.slots@, k) {
                        let j = choose|j: int|
                            0 <= j < s0.len() && s0[j].occupied && #[trigger] s0[j].key == k;
                        assert(false);
                    }
                }
            }
        }
    }

    fn set(&mut self, key: u32, value: RowId)
        requires
            old(self).inv(),
            old(self).used < usize::MAX / 32,
        ensures
            final(self).inv(),
            final(self).used <= old(self).used + 1,
            final(self).spec_get(key) == value,
            forall|k: u32| k != key ==> final(self).spec_get(k) == old(self).spec_get(k),
    {
        if self.slots.len() == 0 {
            let mut fresh: Vec<MapElem> = Vec::new();
            for z in 0..8usize
                invariant
                    fresh@.len() == z,
                    forall|i: int| 0 <= i < z ==> !fresh@[i].occupied,
            {
                fresh.push(MapElem { key: 0, occupied: false, value: RowId { val: -1isize } });
            }
            proof {
                lemma_count_occ_full_complement(fresh@);
                if has_key(fresh@, key) {
                    let j = choose|i: int|
                        0 <= i < fresh@.len() && fresh@[i].occupied && #[trigger] fresh@[i].key
                            == key;
                    assert(false);
                }
            }
            self.slots = fresh;
        }
        let ghost s_pre = self.slots@;
        let (found, idx) = Self::probe_find(&self.slots, Ghost(self.used as nat), key);
        if found {
            let e = MapElem { key, occupied: true, value };
            let ghost s0 = self.slots@;
            self.slots.set(idx, e);
            proof {
                let s1 = self.slots@;
                lemma_count_occ_update(s0, idx as int, e);
                assert forall|i: int, j: int|
                    0 <= i < s1.len() && 0 <= j < s1.len() && i != j && s1[i].occupied
                        && s1[j].occupied implies s1[i].key != s1[j].key by {
                    if i != idx as int && j != idx as int {
                        assert(s0[i] == s1[i] && s0[j] == s1[j]);
                    } else if i == idx as int {
                        assert(s0[j] == s1[j] && s0[idx as int].key == key);
                    } else {
                        assert(s0[i] == s1[i] && s0[idx as int].key == key);
                    }
                }
                assert forall|i: int, t: int|
                    0 <= i < s1.len() && s1[i].occupied && 0 <= t < dist_of(
                        hash_of(s1[i].key, s1.len() as int),
                        i,
                        s1.len() as int,
                    ) implies s1[#[trigger] probe_at(
                    hash_of(s1[i].key, s1.len() as int),
                    t,
                    s1.len() as int,
                )].occupied by {
                    let gcap = s1.len() as int;
                    lemma_mod_bound(s1[i].key as int, gcap);
                    lemma_mod_bound(hash_of(s1[i].key, gcap) + t, gcap);
                    if i == idx as int {
                        assert(s0[i].occupied && s0[i].key == key);
                        assert(s0[probe_at(hash_of(key, gcap), t, gcap)].occupied);
                    } else {
                        assert(s0[i] == s1[i]);
                        assert(s0[probe_at(hash_of(s1[i].key, gcap), t, gcap)].occupied);
                    }
                }
                lemma_tbl_get_at(s1, self.used as nat, key, idx as int);
                assert forall|k: u32| k != key implies tbl_get(s1, k) == tbl_get(s0, k) by {
                    if has_key(s0, k) {
                        let j = choose|i: int|
                            0 <= i < s0.len() && s0[i].occupied && #[trigger] s0[i].key == k;
                        assert(s1[j] == s0[j]);
                        lemma_tbl_get_at(s1, self.used as nat, k, j);
                        lemma_tbl_get_at(s0, self.used as nat, k, j);
                    } else {
                        if has_key(s1, k) {
                            let j = choose|i: int|
                                0 <= i < s1.len() && s1[i].occupied && #[trigger] s1[i].key
                                    == k;
                            assert(j != idx as int);
                            assert(s0[j] == s1[j]);
                            assert(false);
                        }
                    }
                }
            }
            return ;
        }
        // New key: grow first when the table would become two-thirds full.
        if (self.used + 1) * 3 >= self.slots.len() * 2 {
            self.grow();
        }
        let ghost s1 = self.slots@;
        proof {
            if has_key(s1, key) {
                assert(has_key(s_pre, key));
                assert(false);
            }
        }
        Self::insert_free(&mut self.slots, Ghost(self.used as nat), key, value);
        self.used += 1;
    }
}

/// An all-unoccupied table holds nothing.
proof fn lemma_count_occ_full_complement(s: Seq<MapElem>)
    requires
        forall|i: int| 0 <= i < s.len() ==> !s[i].occupied,
    ensures
        count_occ(s) == 0,
    decreases s.len(),
{
    if s.len() > 0 {
        lemma_count_occ_full_complement(s.drop_last());
    }
}

/// Occupied counts of prefixes are monotone in the prefix length.
proof fn lemma_count_occ_take_le(s: Seq<MapElem>, p: int)
    requires
        0 <= p <= s.len(),
    ensures
        count_occ(s.take(p)) <= count_occ(s),
    decreases s.len() - p,
{
    if p < s.len() {
        lemma_count_occ_take_le(s, p + 1);
        assert(s.take(p + 1).drop_last() =~= s.take(p));
    } else {
        assert(s.take(p) =~= s);
    }
}

/// The prefix count stays below the total when a later occupied slot exists.
proof fn lemma_count_occ_take_full(s: Seq<MapElem>, p: int)
    requires
        0 <= p < s.len(),
        s[p].occupied,
    ensures
        count_occ(s.take(p)) < count_occ(s),
    decreases s.len() - p,
{
    assert(s.take(p + 1).drop_last() =~= s.take(p));
    assert(s.take(p + 1).last() == s[p]);
    lemma_count_occ_take_le(s, p + 1);
}

/// The two-tier codepoint map: a flat array for codepoints 0–255 and the
/// growable open-addressing table for the rest.
pub struct HybridGrowingHashmapChar {
    map: GrowingHashmapChar,
    extended_ascii: Vec<RowId>,
}

impl HybridGrowingHashmapChar {
    /// Well-formedness of both tiers.
    pub closed spec fn inv(&self) -> bool {
        &&& self.map.inv()
        &&& self.extended_ascii@.len() == 256
    }

    /// Number of distinct keys written to the growable tier.
    pub closed spec fn tbl_used(&self) -> nat {
        self.map.used as nat
    }

    /// The row id recorded for `key`; `-1` when `key` was never written.
    pub closed spec fn spec_get(&self, key: char) -> RowId {
        if key as u32 <= 255 {
            self.extended_ascii@[key as u32 as int]
        } else {
            self.map.spec_get(key as u32)
        }
    }

    /// An empty map: every codepoint reads as the default row id.
    pub fn new() -> (r: Self)
        ensures
            r.inv(),
            r.tbl_used() == 0,
            forall|k: char| r.spec_get(k) == (RowId { val: -1isize }),
    {
        let mut arr: Vec<RowId> = Vec::new();
        for z in 0..256usize
            invariant
                arr@.len() == z,
                forall|i: int| 0 <= i < z ==> arr@[i] == (RowId { val: -1isize }),
        {
            arr.push(RowId { val: -1isize });
        }
        HybridGrowingHashmapChar { map: GrowingHashmapChar::new(), extended_ascii: arr }
    }

    /// Reads the row id recorded for `key`.
    pub fn get(&self, key: char) -> (r: RowId)
        requires
            self.inv(),
        ensures
            r == self.spec_get(key),
    {
        let value = key as u32;
        if value <= 255 {
            self.extended_ascii[value as usize]
        } else {
            self.map.get(value)
        }
    }

    /// Records `value` under `key`, replacing any earlier entry.
    pub fn set(&mut self, key: char, value: RowId)
        requires
            old(self).inv(),
            old(self).tbl_used() < usize::MAX / 32,
        ensures
            final(self).inv(),
            final(self).tbl_used() <= old(self).tbl_used() + 1,
            final(self).spec_get(key) == value,
            forall|k: char| k != key ==> final(self).spec_get(k) == old(self).spec_get(k),
    {
        let v = key as u32;
        if v <= 255 {
            self.extended_ascii.set(v as usize, value);
            proof {
                assert forall|k: char| k != key implies self.spec_get(k) == old(self).spec_get(
                    k,
                ) by {
                    if k as u32 <= 255 {
                        if k as u32 == v {
                            lemma_char_injective(k, key);
                        }
                        assert(k as u32 != v);
                    }
                }
            }
        } else {
            self.map.set(v, value);
            proof {
                assert forall|k: char| k != key implies self.spec_get(k) == old(self).spec_get(
                    k,
                ) by {
                    if k as u32 > 255 {
                        if k as u32 == v {
                            lemma_char_injective(k, key);
                        }
                        assert(k as u32 != v);
                    }
                }
            }
        }
    }
}

impl Default for HybridGrowingHashmapChar {
    /// An empty map, as [`HybridGrowingHashmapChar::new`] builds it.
    fn default() -> (r: Self)
        ensures
            r.inv(),
            r.tbl_used() == 0,
            forall|k: char| r.spec_get(k) == (RowId { val: -1isize }),
    {
        Self::new()
    }
}

} // verus!
