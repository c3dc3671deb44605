//! The hash table core: the slot array, the probe sequence, and the resize
//! policy, with every operation specified against an abstract map view.

use crate::slot::count_pairs;
use crate::slot::entries_map;
use crate::slot::lemma_count_pairs_split;
use crate::slot::lemma_entries_map_agrees;
use crate::slot::count_tombstones;
use crate::slot::distinct_keys;
use crate::slot::lemma_counts_all_empty;
use crate::slot::lemma_counts_total;
use crate::slot::lemma_counts_update;
use crate::slot::lemma_empty_slot_exists;
use crate::slot::lemma_no_pairs;
use crate::slot::Entry;
use crate::text::hash_of;
use crate::text::hash_str;
use crate::text::str_eq;
use vstd::prelude::*;

verus! {

/// Inverse of the maximum load factor: an insert may proceed only while
/// occupied-or-tombstoned slots (counting the incoming pair) fill at most
/// one half of the table; otherwise the table grows first.
pub const INVERSE_MAX_LOAD_FACTOR: usize = 2;

/// Inverse of the minimum load factor: after a removal, a table whose
/// capacity exceeds eight times its length is halved.
pub const INVERSE_MIN_LOAD_FACTOR: usize = 8;

/// The capacity allocated when the first pair is inserted into an
/// unallocated table.
pub const FIRST_ALLOCATION_SIZE: usize = 4;

/// Steps from slot `start` forward (wrapping past `cap - 1`) to slot `i`.
pub(crate) open spec fn wrap_dist(start: int, i: int, cap: int) -> int {
    if i >= start {
        i - start
    } else {
        i + cap - start
    }
}

/// A hash map from owned `String` keys to values of type `V`, built on open
/// addressing with linear probing, lazy tombstone deletion, and whole-array
/// rebuilds that keep the load factor bounded on both sides.
///
/// The abstract state is a `Map<Seq<char>, V>` (the view `self@`); `wf()` is
/// the representation invariant that every operation requires and preserves.
#[derive(Debug)]
pub struct HashMap<V> {
    capacity: usize,
    len: usize,
    tombstone_count: usize,
    entries: Vec<Entry<V>>,
}

impl<V> HashMap<V> {
    /// The number of allocated slots.
    pub closed spec fn spec_capacity(self) -> nat {
        self.capacity as nat
    }

    /// The number of occupied slots, i.e. of keys in the map.
    pub closed spec fn spec_len(self) -> nat {
        self.len as nat
    }

    /// The number of tombstoned slots.
    pub closed spec fn spec_tombstones(self) -> nat {
        self.tombstone_count as nat
    }

    /// The slot where a probe for key `k` starts.
    pub(crate) closed spec fn slot_start(self, k: Seq<char>) -> int
        recommends
            self.spec_capacity() > 0,
    {
        hash_of(k) as int % (self.capacity as int)
    }

    /// The probe chain of the pair at slot `i` is unbroken: no slot strictly
    /// between the key's start slot and `i` (in probe order) is empty, so a
    /// probe for that key cannot stop early.
    pub(crate) closed spec fn chain_ok(self, i: int) -> bool
        recommends
            0 <= i < self.spec_capacity(),
    {
        let cap = self.capacity as int;
        let st = self.slot_start(self.entries@[i].spec_key());
        forall|x: int|
            0 <= x < cap && wrap_dist(st, x, cap) < wrap_dist(st, i, cap) ==> !((
            #[trigger] self.entries@[x]) is Empty)
    }

    /// Slot `i` can receive a fresh pair with key `k`: it is not occupied,
    /// and writing the pair there leaves it reachable by a probe for `k`.
    pub(crate) closed spec fn fresh_slot_ok(self, i: int, k: Seq<char>) -> bool {
        let cap = self.capacity as int;
        let st = self.slot_start(k);
        &&& !(self.entries@[i] is Pair)
        &&& forall|x: int|
            0 <= x < cap && wrap_dist(st, x, cap) < wrap_dist(st, i, cap) ==> !((
            #[trigger] self.entries@[x]) is Empty)
    }

    /// The representation invariant: the slot array matches the capacity,
    /// the counters count exactly the occupied and tombstoned slots, at most
    /// half of an allocated table is in use, keys are distinct, and every
    /// occupied slot is reachable from its key's start slot.
    pub closed spec fn wf(self) -> bool {
        &&& self.entries@.len() == self.capacity
        &&& self.len == count_pairs(self.entries@)
        &&& self.tombstone_count == count_tombstones(self.entries@)
        &&& (self.capacity > 0 ==> 2 * (self.len as int + self.tombstone_count as int)
            <= self.capacity as int)
        &&& distinct_keys(self.entries@)
        &&& forall|i: int|
            0 <= i < self.entries@.len() && (#[trigger] self.entries@[i]) is Pair
                ==> self.chain_ok(i)
    }

    /// Bounds that hold in every state reachable through the public
    /// operations: an empty map holds no allocation, the capacity stays
    /// within a constant multiple of the length, and tombstones cannot
    /// accumulate without bound.
    pub open spec fn load_bounded(self) -> bool {
        &&& (self.spec_len() == 0 ==> self.spec_capacity() == 0)
        &&& self.spec_capacity() <= 20 * self.spec_len() + 20
        &&& self.spec_tombstones() <= 4 * self.spec_len() + 4
    }

    /// Some slot holds the key `k`.
    pub(crate) closed spec fn has_key(self, k: Seq<char>) -> bool {
        exists|i: int| 0 <= i < self.entries@.len() && (#[trigger] self.entries@[i]).is_pair_with(k)
    }

    /// The slot holding the key `k` (unique when keys are distinct).
    pub(crate) closed spec fn slot_for(self, k: Seq<char>) -> int {
        choose|i: int| 0 <= i < self.entries@.len() && (#[trigger] self.entries@[i]).is_pair_with(k)
    }

    /// Creates an empty table with no allocation.
    pub fn new() -> (r: Self)
        ensures
            r.wf(),
            r.load_bounded(),
            r@ == Map::<Seq<char>, V>::empty(),
            r.spec_capacity() == 0,
            r.spec_len() == 0,
            r.spec_tombstones() == 0,
    {
        let r = HashMap { capacity: 0, len: 0, tombstone_count: 0, entries: Vec::new() };
        proof {
            assert(r@ =~= Map::<Seq<char>, V>::empty());
        }
        r
    }

    /// The number of allocated slots.
    pub fn capacity(&self) -> (r: usize)
        ensures
            r == self.spec_capacity(),
    {
        self.capacity
    }

    /// The number of keys in the table.
    pub fn len(&self) -> (r: usize)
        ensures
            r == self.spec_len(),
    {
        self.len
    }

    /// Whether the table holds no keys.
    pub fn is_empty(&self) -> (r: bool)
        ensures
            r == (self.spec_len() == 0),
    {
        self.len == 0
    }
}

impl<V> HashMap<V> {
    /// The start index for a probe of `key`, or `None` when no slot array is
    /// allocated (indexing modulo a zero capacity is undefined).
    fn index(&self, key: &str) -> (r: Option<usize>)
        ensures
            match r {
                None => self.spec_capacity() == 0,
                Some(i) => self.spec_capacity() > 0 && i < self.spec_capacity() && i
                    == self.slot_start(key@),
            },
    {
        if self.capacity == 0 {
            return None;
        }
        let h = hash_str(key);
        let m = h % (self.capacity as u64);
        proof {
            assert(m as int == hash_of(key@) as int % (self.capacity as int));
            assert(m < self.capacity as u64);
        }
        Some(m as usize)
    }

    /// Probes for `key`: returns the slot holding it if present, else the
    /// slot where it should be inserted (the first tombstone seen during the
    /// scan, else the empty slot that terminated it). Returns `None` exactly
    /// when no slot array is allocated.
    fn lookup(&self, key: &str) -> (r: Option<usize>)
        requires
            self.wf(),
        ensures
            match r {
                None => self.spec_capacity() == 0,
                Some(i) => {
                    &&& self.spec_capacity() > 0
                    &&& i < self.spec_capacity()
                    &&& if self@.contains_key(key@) {
                        self.entries@[i as int].is_pair_with(key@)
                    } else {
                        self.fresh_slot_ok(i as int, key@)
                    }
                },
            },
    {
        let start = match self.index(key) {
            None => { return None; },
            Some(s) => s,
        };
        let cap = self.capacity;
        let ghost capi = cap as int;
        let ghost st = start as int;

        // at most half of the slots are in use, so an empty slot exists and
        // the probe must reach one
        proof {
            lemma_counts_total(self.entries@);
            lemma_empty_slot_exists(self.entries@);
        }
        let ghost e = choose|e: int|
            0 <= e < self.entries@.len() && (#[trigger] self.entries@[e]) is Empty;
        let ghost de = wrap_dist(st, e, capi);

        let mut i = start;
        let mut first_tombstone: Option<usize> = None;
        let ghost mut t: int = 0;
        loop
            invariant
                self.wf(),
                0 < cap,
                cap == self.spec_capacity(),
                capi == cap as int,
                st == self.slot_start(key@),
                0 <= st < capi,
                i < cap,
                t == wrap_dist(st, i as int, capi),
                0 <= t < capi,
                0 <= e < capi && self.entries@[e] is Empty,
                de == wrap_dist(st, e, capi),
                t <= de,
                forall|x: int|
                    0 <= x < capi && wrap_dist(st, x, capi) < t ==> !((
                    #[trigger] self.entries@[x]) is Empty) && !self.entries@[x].is_pair_with(key@),
                match first_tombstone {
                    None => true,
                    Some(ft) => ft < cap && self.entries@[ft as int] is Tombstone && wrap_dist(
                        st,
                        ft as int,
                        capi,
                    ) < t,
                },
            decreases capi - t,
        {
            match &self.entries[i] {
                Entry::Empty => {
                    proof {
                        if self@.contains_key(key@) {
                            let j = choose|j: int|
                                0 <= j < self.entries@.len() && (
                                #[trigger] self.entries@[j]).is_pair_with(key@);
                            let dj = wrap_dist(st, j, capi);
                            assert(self.chain_ok(j));
                            if dj < t {
                                assert(!self.entries@[j].is_pair_with(key@));
                            } else if dj == t {
                                assert(j == i as int);
                            } else {
                                assert(!(self.entries@[i as int] is Empty));
                            }
                            assert(false);
                        }
                    }
                    return Some(
                        match first_tombstone {
                            None => i,
                            Some(ft) => ft,
                        },
                    );
                },
                Entry::Tombstone => {
                    if first_tombstone.is_none() {
                        first_tombstone = Some(i);
                    }
                },
                Entry::Pair { key: stored, .. } => {
                    if str_eq(stored.as_str(), key) {
                        proof {
                            assert(self.entries@[i as int].is_pair_with(key@));
                            assert(self.has_key(key@));
                        }
                        return Some(i);
                    }
                },
            }
            proof {
                // the scanned slot is not the empty slot `e`, so the probe
                // has not yet covered distance `de`
                assert(t != de);
                t = t + 1;
            }
            i = i + 1;
            if i >= cap {
                i = 0;
            }
        }
    }

    /// A slot holding key `k` is the slot the view reads for `k`.
    proof fn lemma_found_slot(self, k: Seq<char>, i: int)
        requires
            distinct_keys(self.entries@),
            0 <= i < self.entries@.len(),
            self.entries@[i].is_pair_with(k),
        ensures
            self.has_key(k),
            self.slot_for(k) == i,
            self@.contains_key(k),
            self@[k] == self.entries@[i].spec_value(),
    {
        assert(self.has_key(k));
        let j = self.slot_for(k);
        assert(self.entries@[j].is_pair_with(k));
    }

    /// Writing a fresh pair into the insertable slot the probe selected
    /// preserves the invariant and inserts the key into the view.
    proof fn lemma_place_fresh(self, post: Self, i: int, k: Seq<char>, v: V)
        requires
            self.wf(),
            self.spec_capacity() > 0,
            2 * (self.spec_len() + self.spec_tombstones() + 1) <= self.spec_capacity(),
            0 <= i < self.entries@.len(),
            self.fresh_slot_ok(i, k),
            !self.has_key(k),
            post.capacity == self.capacity,
            post.entries@[i] is Pair,
            post.entries@[i].spec_key() == k,
            post.entries@[i].spec_value() == v,
            post.entries@ == self.entries@.update(i, post.entries@[i]),
            post.len == self.len + 1,
            post.tombstone_count == self.tombstone_count - (if self.entries@[i] is Tombstone {
                1int
            } else {
                0int
            }),
        ensures
            post.wf(),
            post@ == self@.insert(k, v),
    {
        lemma_counts_update(self.entries@, i, post.entries@[i]);
        let cap = self.capacity as int;
        // no other slot holds `k`, so keys stay distinct
        assert forall|a: int, b: int|
            #![trigger post.entries@[a], post.entries@[b]]
            0 <= a < post.entries@.len() && 0 <= b < post.entries@.len() && a != b
                && post.entries@[a] is Pair && post.entries@[b] is Pair implies post.entries@[a].spec_key()
            != post.entries@[b].spec_key() by {
            if a != i && b != i {
                assert(self.entries@[a] == post.entries@[a]);
                assert(self.entries@[b] == post.entries@[b]);
            } else {
                let other = if a == i {
                    b
                } else {
                    a
                };
                if post.entries@[other].spec_key() == k {
                    assert(self.entries@[other].is_pair_with(k));
                }
            }
        }
        // no slot became empty, so every probe chain stays unbroken
        assert forall|j: int|
            0 <= j < post.entries@.len() && (#[trigger] post.entries@[j]) is Pair implies post.chain_ok(
            j,
        ) by {
            let st = post.slot_start(post.entries@[j].spec_key());
            assert forall|x: int|
                0 <= x < cap && wrap_dist(st, x, cap) < wrap_dist(st, j, cap) implies !((
            #[trigger] post.entries@[x]) is Empty) by {
                if j == i {
                    assert(!(self.entries@[x] is Empty));
                } else {
                    assert(self.entries@[j] == post.entries@[j]);
                    assert(self.chain_ok(j));
                    assert(!(self.entries@[x] is Empty));
                }
            }
        }
        assert(post.wf());
        // the view gains exactly the pair (k, v)
        assert(post.entries@[i].is_pair_with(k));
        post.lemma_found_slot(k, i);
        assert forall|k2: Seq<char>| #[trigger] post.has_key(k2) implies k2 == k || self.has_key(
            k2,
        ) by {
            let j = choose|j: int|
                0 <= j < post.entries@.len() && (#[trigger] post.entries@[j]).is_pair_with(k2);
            if j != i {
                assert(self.entries@[j].is_pair_with(k2));
            }
        }
        assert forall|k2: Seq<char>| #[trigger] self.has_key(k2) implies post.has_key(k2) by {
            let j = choose|j: int|
                0 <= j < self.entries@.len() && (#[trigger] self.entries@[j]).is_pair_with(k2);
            assert(j != i);
            assert(post.entries@[j].is_pair_with(k2));
        }
        assert forall|k2: Seq<char>| #[trigger] post.has_key(k2) && k2 != k implies post@[k2]
            == self@[k2] by {
            let j = choose|j: int|
                0 <= j < post.entries@.len() && (#[trigger] post.entries@[j]).is_pair_with(k2);
            assert(j != i);
            assert(self.entries@[j].is_pair_with(k2));
            post.lemma_found_slot(k2, j);
            self.lemma_found_slot(k2, j);
        }
        assert(post@ =~= self@.insert(k, v));
    }

    /// Replacing only the value of the slot that already holds `k`
    /// preserves the invariant and overwrites the key's entry in the view.
    proof fn lemma_place_overwrite(self, post: Self, i: int, k: Seq<char>, v: V)
        requires
            self.wf(),
            0 <= i < self.entries@.len(),
            self.entries@[i].is_pair_with(k),
            post.capacity == self.capacity,
            post.len == self.len,
            post.tombstone_count == self.tombstone_count,
            post.entries@[i] is Pair,
            post.entries@[i].spec_key() == k,
            post.entries@[i].spec_value() == v,
            post.entries@ == self.entries@.update(i, post.entries@[i]),
        ensures
            post.wf(),
            post@ == self@.insert(k, v),
    {
        lemma_counts_update(self.entries@, i, post.entries@[i]);
        let cap = self.capacity as int;
        assert forall|a: int, b: int|
            #![trigger post.entries@[a], post.entries@[b]]
            0 <= a < post.entries@.len() && 0 <= b < post.entries@.len() && a != b
                && post.entries@[a] is Pair && post.entries@[b] is Pair implies post.entries@[a].spec_key()
            != post.entries@[b].spec_key() by {
            assert(post.entries@[a].spec_key() == self.entries@[a].spec_key());
            assert(post.entries@[b].spec_key() == self.entries@[b].spec_key());
            assert(post.entries@[a] is Pair == self.entries@[a] is Pair);
        }
        assert forall|j: int|
            0 <= j < post.entries@.len() && (#[trigger] post.entries@[j]) is Pair implies post.chain_ok(
            j,
        ) by {
            let st = post.slot_start(post.entries@[j].spec_key());
            assert(post.entries@[j].spec_key() == self.entries@[j].spec_key());
            assert(self.chain_ok(j));
            assert forall|x: int|
                0 <= x < cap && wrap_dist(st, x, cap) < wrap_dist(st, j, cap) implies !((
            #[trigger] post.entries@[x]) is Empty) by {
                assert(!(self.entries@[x] is Empty));
            }
        }
        assert(post.wf());
        assert(post.entries@[i].is_pair_with(k));
        post.lemma_found_slot(k, i);
        assert forall|k2: Seq<char>| #[trigger] post.has_key(k2) implies self.has_key(k2) by {
            let j = choose|j: int|
                0 <= j < post.entries@.len() && (#[trigger] post.entries@[j]).is_pair_with(k2);
            assert(self.entries@[j].is_pair_with(k2));
        }
        assert forall|k2: Seq<char>| #[trigger] self.has_key(k2) implies post.has_key(k2) by {
            let j = choose|j: int|
                0 <= j < self.entries@.len() && (#[trigger] self.entries@[j]).is_pair_with(k2);
            assert(post.entries@[j].is_pair_with(k2));
        }
        assert forall|k2: Seq<char>| #[trigger] post.has_key(k2) && k2 != k implies post@[k2]
            == self@[k2] by {
            let j = choose|j: int|
                0 <= j < post.entries@.len() && (#[trigger] post.entries@[j]).is_pair_with(k2);
            assert(j != i);
            assert(self.entries@[j].is_pair_with(k2));
            post.lemma_found_slot(k2, j);
            self.lemma_found_slot(k2, j);
        }
        assert(post@ =~= self@.insert(k, v));
    }

    /// Turning the slot that holds `k` into a tombstone preserves the
    /// invariant and removes the key from the view.
    proof fn lemma_remove_pair(self, post: Self, i: int, k: Seq<char>)
        requires
            self.wf(),
            0 <= i < self.entries@.len(),
            self.entries@[i].is_pair_with(k),
            post.capacity == self.capacity,
            post.entries@ == self.entries@.update(i, Entry::Tombstone),
            post.len == self.len - 1,
            post.tombstone_count == self.tombstone_count + 1,
        ensures
            post.wf(),
            post@ == self@.remove(k),
    {
        lemma_counts_update(self.entries@, i, Entry::Tombstone);
        let cap = self.capacity as int;
        assert forall|a: int, b: int|
            #![trigger post.entries@[a], post.entries@[b]]
            0 <= a < post.entries@.len() && 0 <= b < post.entries@.len() && a != b
                && post.entries@[a] is Pair && post.entries@[b] is Pair implies post.entries@[a].spec_key()
            != post.entries@[b].spec_key() by {
            assert(post.entries@[a] == self.entries@[a]);
            assert(post.entries@[b] == self.entries@[b]);
        }
        // the tombstone keeps every other pair's probe chain unbroken
        assert forall|j: int|
            0 <= j < post.entries@.len() && (#[trigger] post.entries@[j]) is Pair implies post.chain_ok(
            j,
        ) by {
            let st = post.slot_start(post.entries@[j].spec_key());
            assert(post.entries@[j] == self.entries@[j]);
            assert(self.chain_ok(j));
            assert forall|x: int|
                0 <= x < cap && wrap_dist(st, x, cap) < wrap_dist(st, j, cap) implies !((
            #[trigger] post.entries@[x]) is Empty) by {
                assert(!(self.entries@[x] is Empty));
            }
        }
        assert(post.wf());
        assert forall|k2: Seq<char>| #[trigger] post.has_key(k2) implies self.has_key(k2) && k2
            != k by {
            let j = choose|j: int|
                0 <= j < post.entries@.len() && (#[trigger] post.entries@[j]).is_pair_with(k2);
            assert(j != i);
            assert(self.entries@[j].is_pair_with(k2));
            if k2 == k {
                assert(self.entries@[i].is_pair_with(k));
            }
        }
        assert forall|k2: Seq<char>| #[trigger] self.has_key(k2) && k2 != k implies post.has_key(
            k2,
        ) by {
            let j = choose|j: int|
                0 <= j < self.entries@.len() && (#[trigger] self.entries@[j]).is_pair_with(k2);
            assert(j != i);
            assert(post.entries@[j].is_pair_with(k2));
        }
        assert forall|k2: Seq<char>| #[trigger] post.has_key(k2) implies post@[k2] == self@[k2] by {
            let j = choose|j: int|
                0 <= j < post.entries@.len() && (#[trigger] post.entries@[j]).is_pair_with(k2);
            assert(j != i);
            assert(self.entries@[j].is_pair_with(k2));
            post.lemma_found_slot(k2, j);
            self.lemma_found_slot(k2, j);
        }
        assert(post@ =~= self@.remove(k));
    }

    /// Probes for the key's slot and writes the pair: a fresh pair occupies
    /// the selected empty slot or reclaims the selected tombstone; an equal
    /// key has only its value replaced, with all counters unchanged.
    fn place(&mut self, key: String, value: V) -> (r: Option<V>)
        requires
            old(self).wf(),
            old(self).spec_capacity() > 0,
            2 * (old(self).spec_len() + old(self).spec_tombstones() + 1) <= old(
                self,
            ).spec_capacity(),
        ensures
            final(self).wf(),
            final(self)@ == old(self)@.insert(key@, value),
            r == (if old(self)@.contains_key(key@) {
                Some(old(self)@[key@])
            } else {
                None::<V>
            }),
            final(self).spec_capacity() == old(self).spec_capacity(),
            final(self).spec_len() == old(self).spec_len() + (if old(self)@.contains_key(key@) {
                0int
            } else {
                1int
            }),
            final(self).spec_tombstones() <= old(self).spec_tombstones(),
    {
        let ghost k = key@;
        let ghost v = value;
        let ghost pre = *old(self);
        let i = match self.lookup(key.as_str()) {
            Some(i) => i,
            None => {
                proof {
                    assert(false);
                }
                0
            },
        };
        let ghost ii = i as int;
        let mut current = Entry::Empty;
        core::mem::swap(&mut self.entries[i], &mut current);
        match current {
            Entry::Empty => {
                self.entries[i] = Entry::Pair { key, value };
                self.len = self.len + 1;
                proof {
                    assert(!pre@.contains_key(k));
                    assert(self.entries@ =~= pre.entries@.update(ii, self.entries@[ii]));
                    pre.lemma_place_fresh(*self, ii, k, v);
                }
                None
            },
            Entry::Tombstone => {
                proof {
                    lemma_counts_update(pre.entries@, ii, Entry::Empty);
                }
                self.entries[i] = Entry::Pair { key, value };
                self.len = self.len + 1;
                self.tombstone_count = self.tombstone_count - 1;
                proof {
                    assert(!pre@.contains_key(k));
                    assert(self.entries@ =~= pre.entries@.update(ii, self.entries@[ii]));
                    pre.lemma_place_fresh(*self, ii, k, v);
                }
                None
            },
            Entry::Pair { key: stored_key, value: old_value } => {
                self.entries[i] = Entry::Pair { key: stored_key, value };
                proof {
                    assert(pre.entries@[ii].is_pair_with(k));
                    pre.lemma_found_slot(k, ii);
                    assert(self.entries@ =~= pre.entries@.update(ii, self.entries@[ii]));
                    pre.lemma_place_overwrite(*self, ii, k, v);
                }
                Some(old_value)
            },
        }
    }

    /// Rebuilds the table at `new_capacity`: allocates a fresh all-empty
    /// array, resets both counters, and re-inserts every occupied pair, so
    /// tombstones never survive a rebuild. A zero target (permitted only for
    /// a table holding no pairs) deallocates the array entirely.
    fn resize(&mut self, new_capacity: usize)
        requires
            old(self).wf(),
            new_capacity == 0 ==> old(self).spec_len() == 0,
            new_capacity > 0 ==> 2 * (old(self).spec_len() + 1) <= new_capacity,
        ensures
            final(self).wf(),
            final(self)@ == old(self)@,
            final(self).spec_capacity() == new_capacity,
            final(self).spec_len() == old(self).spec_len(),
            final(self).spec_tombstones() == 0,
    {
        let ghost pre = *old(self);
        if new_capacity == 0 {
            proof {
                lemma_no_pairs(pre.entries@);
                assert forall|k2: Seq<char>| !(#[trigger] pre.has_key(k2)) by {
                    if pre.has_key(k2) {
                        let j = choose|j: int|
                            0 <= j < pre.entries@.len() && (#[trigger] pre.entries@[j]).is_pair_with(
                                k2,
                            );
                    }
                }
                assert(pre@ =~= Map::<Seq<char>, V>::empty());
            }
            *self = Self::new();
            return;
        }
        let mut fresh_entries: Vec<Entry<V>> = Vec::new();
        let mut j: usize = 0;
        while j < new_capacity
            invariant
                fresh_entries@.len() == j,
                j <= new_capacity,
                forall|x: int|
                    0 <= x < fresh_entries@.len() ==> (#[trigger] fresh_entries@[x]) is Empty,
            decreases new_capacity - j,
        {
            fresh_entries.push(Entry::Empty);
            j = j + 1;
        }
        let mut replaced = HashMap {
            capacity: new_capacity,
            len: 0,
            tombstone_count: 0,
            entries: fresh_entries,
        };
        core::mem::swap(self, &mut replaced);
        proof {
            lemma_counts_all_empty(self.entries@);
            assert forall|k2: Seq<char>| !(#[trigger] self.has_key(k2)) by {
                if self.has_key(k2) {
                    let j2 = choose|j2: int|
                        0 <= j2 < self.entries@.len() && (#[trigger] self.entries@[j2]).is_pair_with(
                            k2,
                        );
                }
            }
            assert(self.wf());
            assert(self@ =~= entries_map(Seq::<Entry<V>>::empty()));
        }
        let HashMap { entries: mut old_entries, .. } = replaced;
        let ghost old_seq = pre.entries@;
        let ghost total = count_pairs(old_seq);
        proof {
            assert(old_entries@ == old_seq);
            assert(old_seq.take(old_seq.len() as int) =~= old_seq);
            assert(old_seq.skip(old_seq.len() as int) =~= Seq::<Entry<V>>::empty());
        }
        while old_entries.len() > 0
            invariant
                self.wf(),
                self.spec_capacity() == new_capacity,
                0 < new_capacity,
                self.spec_tombstones() == 0,
                total == count_pairs(old_seq),
                2 * (total + 1) <= new_capacity,
                distinct_keys(old_seq),
                old_entries@.len() <= old_seq.len(),
                old_entries@ == old_seq.take(old_entries@.len() as int),
                self@ == entries_map(old_seq.skip(old_entries@.len() as int)),
                self.spec_len() == count_pairs(old_seq.skip(old_entries@.len() as int)),
            decreases old_entries@.len(),
        {
            let ghost m = old_entries@.len() as int;
            let e = match old_entries.pop() {
                Some(e) => e,
                None => {
                    proof {
                        assert(false);
                    }
                    Entry::Empty
                },
            };
            proof {
                assert(e == old_seq[m - 1]);
                assert(old_entries@ =~= old_seq.take(m - 1));
                assert(old_seq.skip(m - 1).drop_first() =~= old_seq.skip(m));
                assert(old_seq.skip(m - 1).first() == old_seq[m - 1]);
                lemma_count_pairs_split(old_seq, m - 1);
                lemma_count_pairs_split(old_seq, m);
            }
            match e {
                Entry::Pair { key, value } => {
                    let ghost gk = key@;
                    let ghost gv = value;
                    proof {
                        // the popped key occupies no slot of the remaining
                        // suffix, so this placement is fresh
                        assert forall|a: int, b: int|
                            #![trigger old_seq.skip(m)[a], old_seq.skip(m)[b]]
                            0 <= a < old_seq.skip(m).len() && 0 <= b < old_seq.skip(m).len() && a
                                != b && old_seq.skip(m)[a] is Pair && old_seq.skip(m)[b] is Pair implies old_seq.skip(
                            m,
                        )[a].spec_key() != old_seq.skip(m)[b].spec_key() by {
                            assert(old_seq.skip(m)[a] == old_seq[m + a]);
                            assert(old_seq.skip(m)[b] == old_seq[m + b]);
                        }
                        lemma_entries_map_agrees(old_seq.skip(m));
                        if self@.contains_key(gk) {
                            let w = choose|w: int|
                                0 <= w < old_seq.skip(m).len() && (#[trigger] old_seq.skip(
                                    m,
                                )[w]).is_pair_with(gk);
                            assert(old_seq[m + w].is_pair_with(gk));
                            assert(old_seq[m - 1].is_pair_with(gk));
                            assert(false);
                        }
                    }
                    proof {
                        assert(count_pairs(old_seq.skip(m - 1)) == 1 + count_pairs(
                            old_seq.skip(m),
                        ));
                        assert(count_pairs(old_seq.skip(m - 1)) <= total);
                        assert(2 * (self.spec_len() + self.spec_tombstones() + 1)
                            <= new_capacity);
                    }
                    self.place(key, value);
                    proof {
                        assert(entries_map(old_seq.skip(m - 1)) == entries_map(
                            old_seq.skip(m),
                        ).insert(gk, gv));
                        assert(self@ == entries_map(old_seq.skip(m - 1)));
                    }
                },
                _ => {
                    proof {
                        assert(entries_map(old_seq.skip(m - 1)) == entries_map(old_seq.skip(m)));
                        assert(count_pairs(old_seq.skip(m - 1)) == count_pairs(old_seq.skip(m)));
                    }
                },
            }
        }
        proof {
            assert(old_seq.skip(0) =~= old_seq);
            pre.lemma_view_matches_entries();
            assert(self@ == pre@);
        }
    }

    /// The abstract view agrees with the recursive map read off the slot
    /// sequence.
    proof fn lemma_view_matches_entries(self)
        requires
            distinct_keys(self.entries@),
        ensures
            self@ == entries_map(self.entries@),
    {
        let s = self.entries@;
        lemma_entries_map_agrees(s);
        assert forall|k2: Seq<char>| #[trigger]
            self.has_key(k2) implies entries_map(s).contains_key(k2) && entries_map(s)[k2]
            == self@[k2] by {
            let j2 = choose|j2: int| 0 <= j2 < s.len() && (#[trigger] s[j2]).is_pair_with(k2);
            self.lemma_found_slot(k2, j2);
            assert(s[j2] is Pair && s[j2].spec_key() == k2);
        }
        assert forall|k2: Seq<char>| #[trigger]
            entries_map(s).contains_key(k2) implies self.has_key(k2) by {
            let j2 = choose|j2: int| 0 <= j2 < s.len() && (#[trigger] s[j2]).is_pair_with(k2);
        }
        assert(self@ =~= entries_map(s));
    }

    /// Two tables with equal counters and equal slot sequences satisfy the
    /// same invariant and have the same view.
    proof fn lemma_same_entries(self, post: Self)
        requires
            self.wf(),
            post.capacity == self.capacity,
            post.len == self.len,
            post.tombstone_count == self.tombstone_count,
            post.entries@ == self.entries@,
        ensures
            post.wf(),
            post@ == self@,
    {
        let cap = post.capacity as int;
        assert forall|j: int|
            0 <= j < post.entries@.len() && (#[trigger] post.entries@[j]) is Pair implies post.chain_ok(
            j,
        ) by {
            assert(self.chain_ok(j));
            let st = post.slot_start(post.entries@[j].spec_key());
            assert forall|x: int|
                0 <= x < cap && wrap_dist(st, x, cap) < wrap_dist(st, j, cap) implies !((
            #[trigger] post.entries@[x]) is Empty) by {
                assert(!(self.entries@[x] is Empty));
            }
        }
        assert(post.wf());
        assert forall|k2: Seq<char>| #[trigger] post.has_key(k2) implies self.has_key(k2) by {
            let j = choose|j: int|
                0 <= j < post.entries@.len() && (#[trigger] post.entries@[j]).is_pair_with(k2);
            assert(self.entries@[j].is_pair_with(k2));
        }
        assert forall|k2: Seq<char>| #[trigger] self.has_key(k2) implies post.has_key(k2) by {
            let j = choose|j: int|
                0 <= j < self.entries@.len() && (#[trigger] self.entries@[j]).is_pair_with(k2);
            assert(post.entries@[j].is_pair_with(k2));
        }
        assert forall|k2: Seq<char>| #[trigger] post.has_key(k2) implies post@[k2] == self@[k2] by {
            let j = choose|j: int|
                0 <= j < post.entries@.len() && (#[trigger] post.entries@[j]).is_pair_with(k2);
            post.lemma_found_slot(k2, j);
            assert(self.entries@[j].is_pair_with(k2));
            self.lemma_found_slot(k2, j);
        }
        assert(post@ =~= self@);
    }

    /// Looks up `key`, returning a reference to its value when an occupied
    /// slot holds an equal key. Read-only: no counter changes, no resize.
    pub fn get(&self, key: &str) -> (r: Option<&V>)
        requires
            self.wf(),
        ensures
            match r {
                Some(v) => self@.contains_key(key@) && *v == self@[key@],
                None => !self@.contains_key(key@),
            },
    {
        let i = match self.lookup(key) {
            None => {
                return None;
            },
            Some(i) => i,
        };
        match &self.entries[i] {
            Entry::Pair { value, .. } => {
                proof {
                    assert(self.entries@[i as int] is Pair);
                    assert(self@.contains_key(key@));
                    let j = self.slot_for(key@);
                    assert(self.entries@[j].is_pair_with(key@));
                    assert(j == i as int);
                }
                Some(value)
            },
            _ => {
                None
            },
        }
    }
}

impl<V> HashMap<V> {
    /// Inserts the pair, returning the previous value when an equal key was
    /// already present. The table grows first — to the first allocation size
    /// when unallocated, else to double capacity — whenever the speculative
    /// load check, which counts the incoming pair, fails; an overwrite can
    /// therefore trigger a growth that a precise check would have skipped.
    ///
    /// The capacity of a real allocation cannot reach half the address
    /// space, which is what the precondition records; it keeps the doubling
    /// arithmetic in bounds.
    pub fn insert(&mut self, key: String, value: V) -> (r: Option<V>)
        requires
            old(self).wf(),
            old(self).spec_capacity() <= usize::MAX / 2,
        ensures
            final(self).wf(),
            final(self)@ == old(self)@.insert(key@, value),
            r == (if old(self)@.contains_key(key@) {
                Some(old(self)@[key@])
            } else {
                None::<V>
            }),
            final(self).spec_len() == old(self).spec_len() + (if old(self)@.contains_key(key@) {
                0int
            } else {
                1int
            }),
            final(self).spec_capacity() == (if old(self).spec_capacity() == 0 {
                FIRST_ALLOCATION_SIZE as int
            } else if 2 * (old(self).spec_len() + old(self).spec_tombstones() + 1) > old(
                self,
            ).spec_capacity() {
                2 * old(self).spec_capacity() as int
            } else {
                old(self).spec_capacity() as int
            }),
            final(self).spec_tombstones() <= old(self).spec_tombstones(),
            old(self).load_bounded() ==> final(self).load_bounded(),
    {
        let ghost pre = *old(self);
        if self.capacity == 0 {
            self.resize(FIRST_ALLOCATION_SIZE);
        } else {
            let used = self.len + self.tombstone_count + 1;
            proof {
                lemma_div_grow_check(self.capacity as int, used as int);
            }
            if self.capacity / used < INVERSE_MAX_LOAD_FACTOR {
                proof {
                    vstd::arithmetic::div_mod::lemma_fundamental_div_mod(usize::MAX as int, 2);
                }
                let doubled = self.capacity * 2;
                self.resize(doubled);
            }
        }
        let r = self.place(key, value);
        proof {
            if pre@.contains_key(key@) {
                let j = choose|j: int|
                    0 <= j < pre.entries@.len() && (#[trigger] pre.entries@[j]).is_pair_with(key@);
                lemma_counts_update(pre.entries@, j, Entry::Empty);
            }
            assert(self.spec_len() >= 1);
            if pre.load_bounded() {
                assert(self.load_bounded());
            }
        }
        r
    }

    /// Removes `key`'s pair if present, replacing its slot with a tombstone
    /// and returning the held value. The shrink policy then runs whether or
    /// not a pair was removed: a table left without pairs is deallocated,
    /// and one whose capacity exceeds eight times its length is rebuilt at
    /// half capacity, clearing all tombstones.
    pub fn remove(&mut self, key: &str) -> (r: Option<V>)
        requires
            old(self).wf(),
        ensures
            final(self).wf(),
            final(self)@ == old(self)@.remove(key@),
            r == (if old(self)@.contains_key(key@) {
                Some(old(self)@[key@])
            } else {
                None::<V>
            }),
            final(self).spec_len() == old(self).spec_len() - (if old(self)@.contains_key(key@) {
                1int
            } else {
                0int
            }),
            final(self).spec_len() == 0 ==> final(self).spec_capacity() == 0,
            final(self).spec_capacity() == ({
                let remaining = old(self).spec_len() as int - (if old(self)@.contains_key(key@) {
                    1int
                } else {
                    0int
                });
                if remaining == 0 {
                    0int
                } else if old(self).spec_capacity() as int / remaining > 8 {
                    old(self).spec_capacity() as int / 2
                } else {
                    old(self).spec_capacity() as int
                }
            }),
            final(self).spec_tombstones() == ({
                let remaining = old(self).spec_len() as int - (if old(self)@.contains_key(key@) {
                    1int
                } else {
                    0int
                });
                if remaining == 0 || old(self).spec_capacity() as int / remaining > 8 {
                    0int
                } else {
                    old(self).spec_tombstones() + (if old(self)@.contains_key(key@) {
                        1int
                    } else {
                        0int
                    })
                }
            }),
            old(self).load_bounded() ==> final(self).load_bounded(),
    {
        let ghost pre = *old(self);
        let r = match self.lookup(key) {
            None => None,
            Some(i) => {
                let ghost ii = i as int;
                let mut current = Entry::Tombstone;
                core::mem::swap(&mut self.entries[i], &mut current);
                match current {
                    Entry::Empty => {
                        self.entries[i] = Entry::Empty;
                        proof {
                            assert(!pre@.contains_key(key@));
                            assert(self.entries@ =~= pre.entries@);
                            pre.lemma_same_entries(*self);
                        }
                        None
                    },
                    Entry::Tombstone => {
                        proof {
                            assert(!pre@.contains_key(key@));
                            assert(self.entries@ =~= pre.entries@);
                            pre.lemma_same_entries(*self);
                        }
                        None
                    },
                    Entry::Pair { value, .. } => {
                        proof {
                            assert(pre.entries@[ii].is_pair_with(key@));
                            pre.lemma_found_slot(key@, ii);
                            lemma_counts_update(pre.entries@, ii, Entry::Tombstone);
                            lemma_counts_total(pre.entries@);
                        }
                        self.len = self.len - 1;
                        self.tombstone_count = self.tombstone_count + 1;
                        proof {
                            assert(self.entries@ =~= pre.entries@.update(ii, Entry::Tombstone));
                            pre.lemma_remove_pair(*self, ii, key@);
                        }
                        Some(value)
                    },
                }
            },
        };
        let ghost mid = *self;
        if self.len == 0 {
            self.resize(0);
        } else {
            proof {
                lemma_div_shrink_check(self.capacity as int, self.len as int);
                lemma_counts_total(self.entries@);
            }
            if self.capacity / self.len > INVERSE_MIN_LOAD_FACTOR {
                proof {
                    vstd::arithmetic::div_mod::lemma_fundamental_div_mod(self.capacity as int, 2);
                    assert(2 * (self.len + 1) <= self.capacity / 2);
                }
                let half = self.capacity / 2;
                self.resize(half);
            }
        }
        proof {
            if pre.load_bounded() {
                if self.spec_len() > 0 && mid.spec_capacity() as int / mid.spec_len() as int <= 8 {
                    lemma_counts_total(self.entries@);
                }
                assert(self.load_bounded());
            }
        }
        r
    }

    /// In every well-formed state the slots in use never exceed the
    /// capacity; an allocated table is moreover always at least half free,
    /// which is what guarantees that every probe terminates.
    pub proof fn lemma_load_factor_bound(self)
        requires
            self.wf(),
        ensures
            self.spec_len() + self.spec_tombstones() <= self.spec_capacity(),
            self.spec_capacity() > 0 ==> 2 * (self.spec_len() + self.spec_tombstones())
                <= self.spec_capacity(),
    {
        lemma_counts_total(self.entries@);
    }

    /// The length counter counts exactly the keys of the abstract map, and
    /// a table of length zero is the empty map.
    pub proof fn lemma_len_is_key_count(self)
        requires
            self.wf(),
        ensures
            self@.dom().finite(),
            self@.dom().len() == self.spec_len(),
            self.spec_len() == 0 ==> self@ =~= Map::<Seq<char>, V>::empty(),
    {
        self.lemma_view_matches_entries();
        lemma_entries_map_agrees(self.entries@);
        if self.spec_len() == 0 {
            vstd::set_lib::lemma_set_empty_equivalency_len(self@.dom());
            assert forall|k2: Seq<char>| !(#[trigger] self@.contains_key(k2)) by {
                if self@.contains_key(k2) {
                    assert(self@.dom().contains(k2));
                }
            }
            assert(self@ =~= Map::<Seq<char>, V>::empty());
        }
    }
}

/// The integer-division form of the growth check, as the code computes it,
/// coincides with the multiplication form the contracts state.
proof fn lemma_div_grow_check(cap: int, used: int)
    requires
        used >= 1,
        0 <= cap,
    ensures
        (cap / used < 2) <==> (cap < 2 * used),
{
    vstd::arithmetic::div_mod::lemma_fundamental_div_mod(cap, used);
    let q = cap / used;
    let rr = cap % used;
    if q < 2 {
        assert(cap < 2 * used) by (nonlinear_arith)
            requires
                cap == used * q + rr,
                0 <= rr < used,
                q < 2,
                0 <= cap,
                used >= 1,
        ;
    }
    if cap < 2 * used {
        assert(q < 2) by (nonlinear_arith)
            requires
                cap == used * q + rr,
                0 <= rr < used,
                cap < 2 * used,
                used >= 1,
        ;
    }
}

/// The integer-division form of the shrink check, as the code computes it,
/// coincides with the multiplication form the proofs use.
proof fn lemma_div_shrink_check(cap: int, l: int)
    requires
        l >= 1,
        0 <= cap,
    ensures
        (cap / l > 8) <==> (cap >= 9 * l),
{
    vstd::arithmetic::div_mod::lemma_fundamental_div_mod(cap, l);
    let q = cap / l;
    let rr = cap % l;
    if q > 8 {
        assert(cap >= 9 * l) by (nonlinear_arith)
            requires
                cap == l * q + rr,
                0 <= rr < l,
                q > 8,
                l >= 1,
        ;
    }
    if cap >= 9 * l {
        assert(q > 8) by (nonlinear_arith)
            requires
                cap == l * q + rr,
                0 <= rr < l,
                cap >= 9 * l,
                l >= 1,
        ;
    }
}

impl<V> View for HashMap<V> {
    type V = Map<Seq<char>, V>;

    /// The abstract state: the finite map from each stored key's character
    /// sequence to the value occupying its slot.
    closed spec fn view(&self) -> Map<Seq<char>, V> {
        Map::new(
            |k: Seq<char>| self.has_key(k),
            |k: Seq<char>| self.entries@[self.slot_for(k)].spec_value(),
        )
    }
}

impl<V> Default for HashMap<V> {
    /// Creates an empty table, exactly as `new` does.
    fn default() -> (r: Self)
        ensures
            r.wf(),
            r.load_bounded(),
            r@ == Map::<Seq<char>, V>::empty(),
            r.spec_capacity() == 0,
    {
        Self::new()
    }
}

} // verus!

