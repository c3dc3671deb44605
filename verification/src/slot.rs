//! The slot model of the table: a tagged entry type together with spec-level
//! counting functions over slot sequences and the lemmas that relate them.

use vstd::prelude::*;

verus! {

/// One slot of the backing array.
///
/// `Empty` marks a slot that has never held a pair since the last rebuild:
/// a probe that reaches it stops. `Tombstone` marks a slot whose pair was
/// removed: a probe must scan past it, so that pairs inserted beyond it stay
/// reachable. `Pair` holds a live key/value pair owned by the table.
#[derive(Debug)]
pub(crate) enum Entry<V> {
    Empty,
    Tombstone,
    Pair { key: String, value: V },
}

impl<V> Entry<V> {
    /// The key sequence held by a `Pair` slot.
    pub(crate) open spec fn spec_key(self) -> Seq<char>
        recommends
            self is Pair,
    {
        match self {
            Entry::Pair { key, .. } => key@,
            _ => Seq::empty(),
        }
    }

    /// The value held by a `Pair` slot.
    pub(crate) open spec fn spec_value(self) -> V
        recommends
            self is Pair,
    {
        match self {
            Entry::Pair { value, .. } => value,
            _ => vstd::pervasive::arbitrary(),
        }
    }

    /// The slot is occupied by exactly the key `k`.
    pub(crate) open spec fn is_pair_with(self, k: Seq<char>) -> bool {
        self is Pair && self.spec_key() == k
    }
}

/// How many slots of `s` are occupied pairs.
pub(crate) open spec fn count_pairs<V>(s: Seq<Entry<V>>) -> nat
    decreases s.len(),
{
    if s.len() == 0 {
        0
    } else {
        (if s.first() is Pair {
            1nat
        } else {
            0nat
        }) + count_pairs(s.drop_first())
    }
}

/// How many slots of `s` are tombstones.
pub(crate) open spec fn count_tombstones<V>(s: Seq<Entry<V>>) -> nat
    decreases s.len(),
{
    if s.len() == 0 {
        0
    } else {
        (if s.first() is Tombstone {
            1nat
        } else {
            0nat
        }) + count_tombstones(s.drop_first())
    }
}

/// How many slots of `s` are empty.
pub(crate) open spec fn count_empties<V>(s: Seq<Entry<V>>) -> nat
    decreases s.len(),
{
    if s.len() == 0 {
        0
    } else {
        (if s.first() is Empty {
            1nat
        } else {
            0nat
        }) + count_empties(s.drop_first())
    }
}

/// No two occupied slots of `s` hold the same key.
pub(crate) open spec fn distinct_keys<V>(s: Seq<Entry<V>>) -> bool {
    forall|i: int, j: int|
        #![trigger s[i], s[j]]
        0 <= i < s.len() && 0 <= j < s.len() && i != j && s[i] is Pair && s[j] is Pair
            ==> s[i].spec_key() != s[j].spec_key()
}

/// Every slot is exactly one of the three kinds, so the three counts
/// partition the sequence.
pub(crate) proof fn lemma_counts_total<V>(s: Seq<Entry<V>>)
    ensures
        count_pairs(s) + count_tombstones(s) + count_empties(s) == s.len(),
    decreases s.len(),
{
    if s.len() > 0 {
        lemma_counts_total(s.drop_first());
    }
}

/// Replacing the slot at `i` adjusts each count by the contribution of the
/// outgoing and incoming entries.
pub(crate) proof fn lemma_counts_update<V>(s: Seq<Entry<V>>, i: int, e: Entry<V>)
    requires
        0 <= i < s.len(),
    ensures
        count_pairs(s.update(i, e)) == count_pairs(s) - (if s[i] is Pair {
            1int
        } else {
            0int
        }) + (if e is Pair {
            1int
        } else {
            0int
        }),
        count_tombstones(s.update(i, e)) == count_tombstones(s) - (if s[i] is Tombstone {
            1int
        } else {
            0int
        }) + (if e is Tombstone {
            1int
        } else {
            0int
        }),
        count_empties(s.update(i, e)) == count_empties(s) - (if s[i] is Empty {
            1int
        } else {
            0int
        }) + (if e is Empty {
            1int
        } else {
            0int
        }),
    decreases s.len(),
{
    let s2 = s.update(i, e);
    if i == 0 {
        assert(s2.drop_first() =~= s.drop_first());
    } else {
        assert(s2.drop_first() =~= s.drop_first().update(i - 1, e));
        lemma_counts_update(s.drop_first(), i - 1, e);
    }
}

/// A sequence with a positive empty count has an empty slot.
pub(crate) proof fn lemma_empty_slot_exists<V>(s: Seq<Entry<V>>)
    requires
        count_empties(s) > 0,
    ensures
        exists|i: int| 0 <= i < s.len() && (#[trigger] s[i]) is Empty,
    decreases s.len(),
{
    if s.first() is Empty {
        assert(0 <= 0 < s.len() && s[0] is Empty);
    } else {
        lemma_empty_slot_exists(s.drop_first());
        let j = choose|j: int| 0 <= j < s.drop_first().len() && (#[trigger] s.drop_first()[j]) is Empty;
        assert(s[j + 1] is Empty);
    }
}

/// A sequence with a zero pair count has no occupied slot.
pub(crate) proof fn lemma_no_pairs<V>(s: Seq<Entry<V>>)
    requires
        count_pairs(s) == 0,
    ensures
        forall|i: int| 0 <= i < s.len() ==> !((#[trigger] s[i]) is Pair),
    decreases s.len(),
{
    if s.len() > 0 {
        lemma_no_pairs(s.drop_first());
        assert forall|i: int| 0 <= i < s.len() implies !((#[trigger] s[i]) is Pair) by {
            if i > 0 {
                assert(s[i] == s.drop_first()[i - 1]);
            }
        }
    }
}

/// A sequence of empty slots counts no pairs and no tombstones.
pub(crate) proof fn lemma_counts_all_empty<V>(s: Seq<Entry<V>>)
    requires
        forall|i: int| 0 <= i < s.len() ==> (#[trigger] s[i]) is Empty,
    ensures
        count_pairs(s) == 0,
        count_tombstones(s) == 0,
    decreases s.len(),
{
    if s.len() > 0 {
        assert forall|i: int| 0 <= i < s.drop_first().len() implies (#[trigger] s.drop_first()[i]) is Empty by {
            assert(s.drop_first()[i] == s[i + 1]);
        }
        lemma_counts_all_empty(s.drop_first());
    }
}

/// The pair count splits across any cut of the sequence.
pub(crate) proof fn lemma_count_pairs_split<V>(s: Seq<Entry<V>>, n: int)
    requires
        0 <= n <= s.len(),
    ensures
        count_pairs(s) == count_pairs(s.take(n)) + count_pairs(s.skip(n)),
    decreases n,
{
    if n == 0 {
        assert(s.take(0) =~= Seq::<Entry<V>>::empty());
        assert(s.skip(0) =~= s);
    } else {
        lemma_count_pairs_split(s.drop_first(), n - 1);
        assert(s.drop_first().take(n - 1) =~= s.take(n).drop_first());
        assert(s.drop_first().skip(n - 1) =~= s.skip(n));
        assert(s.take(n).first() == s.first());
    }
}

/// The map described by a slot sequence: each occupied slot contributes its
/// pair, an earlier slot overriding a later one with the same key.
pub(crate) open spec fn entries_map<V>(s: Seq<Entry<V>>) -> Map<Seq<char>, V>
    decreases s.len(),
{
    if s.len() == 0 {
        Map::empty()
    } else {
        let rest = entries_map(s.drop_first());
        if s.first() is Pair {
            rest.insert(s.first().spec_key(), s.first().spec_value())
        } else {
            rest
        }
    }
}

/// `entries_map` holds exactly the keys of the occupied slots; with distinct
/// keys it maps each to that slot's value, and its size is the pair count.
pub(crate) proof fn lemma_entries_map_agrees<V>(s: Seq<Entry<V>>)
    requires
        distinct_keys(s),
    ensures
        forall|k: Seq<char>| #[trigger]
            entries_map(s).contains_key(k) ==> exists|i: int|
                0 <= i < s.len() && (#[trigger] s[i]).is_pair_with(k),
        forall|i: int|
            0 <= i < s.len() && (#[trigger] s[i]) is Pair ==> entries_map(s).contains_key(
                s[i].spec_key(),
            ) && entries_map(s)[s[i].spec_key()] == s[i].spec_value(),
        entries_map(s).dom().finite(),
        entries_map(s).dom().len() == count_pairs(s),
    decreases s.len(),
{
    if s.len() == 0 {
    } else {
        let rest = s.drop_first();
        assert forall|i: int, j: int|
            #![trigger rest[i], rest[j]]
            0 <= i < rest.len() && 0 <= j < rest.len() && i != j && rest[i] is Pair
                && rest[j] is Pair implies rest[i].spec_key() != rest[j].spec_key() by {
            assert(rest[i] == s[i + 1]);
            assert(rest[j] == s[j + 1]);
        }
        lemma_entries_map_agrees(rest);
        if s.first() is Pair {
            let k0 = s.first().spec_key();
            // the first slot's key occupies no later slot
            assert(!entries_map(rest).contains_key(k0)) by {
                if entries_map(rest).contains_key(k0) {
                    let j = choose|j: int|
                        0 <= j < rest.len() && (#[trigger] rest[j]).is_pair_with(k0);
                    assert(s[j + 1].is_pair_with(k0));
                    assert(s[0].is_pair_with(k0));
                }
            }
            assert(entries_map(s).dom() =~= entries_map(rest).dom().insert(k0));
            vstd::set::axiom_set_insert_len(entries_map(rest).dom(), k0);
            assert forall|k: Seq<char>| #[trigger]
                entries_map(s).contains_key(k) implies exists|i: int|
                0 <= i < s.len() && (#[trigger] s[i]).is_pair_with(k) by {
                if k == k0 {
                    assert(s[0].is_pair_with(k));
                } else {
                    let j = choose|j: int|
                        0 <= j < rest.len() && (#[trigger] rest[j]).is_pair_with(k);
                    assert(s[j + 1].is_pair_with(k));
                }
            }
            assert forall|i: int|
                0 <= i < s.len() && (#[trigger] s[i]) is Pair implies entries_map(s).contains_key(
                s[i].spec_key(),
            ) && entries_map(s)[s[i].spec_key()] == s[i].spec_value() by {
                if i > 0 {
                    assert(rest[i - 1] == s[i]);
                    assert(s[i].spec_key() != k0);
                }
            }
        } else {
            assert forall|k: Seq<char>| #[trigger]
                entries_map(s).contains_key(k) implies exists|i: int|
                0 <= i < s.len() && (#[trigger] s[i]).is_pair_with(k) by {
                let j = choose|j: int| 0 <= j < rest.len() && (#[trigger] rest[j]).is_pair_with(k);
                assert(s[j + 1].is_pair_with(k));
            }
            assert forall|i: int|
                0 <= i < s.len() && (#[trigger] s[i]) is Pair implies entries_map(s).contains_key(
                s[i].spec_key(),
            ) && entries_map(s)[s[i].spec_key()] == s[i].spec_value() by {
                assert(i > 0);
                assert(rest[i - 1] == s[i]);
            }
        }
    }
}

} // verus!
