//! Laws of the abstract map view. Every operation's contract describes its
//! effect on the view `self@`, so these lemmas, stated over `Map` values,
//! are the algebra that callers compose those contracts with.

use vstd::prelude::*;

verus! {

/// Round trip: inserting a pair makes the key present with exactly that
/// value.
pub proof fn lemma_insert_round_trip<V>(m: Map<Seq<char>, V>, k: Seq<char>, v: V)
    ensures
        m.insert(k, v).contains_key(k),
        m.insert(k, v)[k] == v,
{
}

/// Operations on one key leave every other key untouched, so a stored pair
/// survives any sequence of inserts and removes of different keys.
pub proof fn lemma_other_keys_preserved<V>(
    m: Map<Seq<char>, V>,
    k: Seq<char>,
    k2: Seq<char>,
    v2: V,
)
    requires
        k2 != k,
    ensures
        m.insert(k2, v2).contains_key(k) == m.contains_key(k),
        m.contains_key(k) ==> m.insert(k2, v2)[k] == m[k],
        m.remove(k2).contains_key(k) == m.contains_key(k),
        m.contains_key(k) ==> m.remove(k2)[k] == m[k],
{
}

/// Overwrite: a second insert of the same key replaces the value, and adds
/// no key, so the map's domain (and hence the table's length) is unchanged.
pub proof fn lemma_overwrite<V>(m: Map<Seq<char>, V>, k: Seq<char>, v1: V, v2: V)
    ensures
        m.insert(k, v1)[k] == v1,
        m.insert(k, v1).insert(k, v2) =~= m.insert(k, v2),
        m.insert(k, v1).insert(k, v2).dom() =~= m.insert(k, v1).dom(),
        m.insert(k, v1).insert(k, v2)[k] == v2,
{
}

/// Removal masks the key: after a remove the key is absent, and a fresh
/// insert of the same key succeeds and is retrievable.
pub proof fn lemma_remove_masks<V>(m: Map<Seq<char>, V>, k: Seq<char>, v3: V)
    ensures
        !m.remove(k).contains_key(k),
        m.remove(k).insert(k, v3).contains_key(k),
        m.remove(k).insert(k, v3)[k] == v3,
{
}

/// Removing an absent key changes nothing in the abstract map.
pub proof fn lemma_remove_absent<V>(m: Map<Seq<char>, V>, k: Seq<char>)
    requires
        !m.contains_key(k),
    ensures
        m.remove(k) =~= m,
{
}

} // verus!
