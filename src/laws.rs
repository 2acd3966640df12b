use vstd::prelude::*;

verus! {

/// The mapping after inserting the first `k` pairs of `keys` and `vals`, in
/// order, into an empty table.
pub open spec fn inserted<K, V>(keys: Seq<K>, vals: Seq<V>, k: int) -> Map<K, V>
    decreases k,
{
    if k <= 0 {
        Map::empty()
    } else {
        inserted(keys, vals, k - 1).insert(keys[k - 1], vals[k - 1])
    }
}

/// Inserting distinct keys one at a time into an empty table: after each
/// insertion the size is the number of keys inserted so far, and the keys
/// present are exactly those.
pub proof fn lemma_distinct_inserts_size<K, V>(keys: Seq<K>, vals: Seq<V>, k: int)
    requires
        keys.no_duplicates(),
        keys.len() == vals.len(),
        0 <= k <= keys.len(),
    ensures
        inserted(keys, vals, k).dom().finite(),
        inserted(keys, vals, k).len() == k,
        inserted(keys, vals, k).dom() == keys.subrange(0, k).to_set(),
    decreases k,
{
    if k > 0 {
        lemma_distinct_inserts_size(keys, vals, k - 1);
        let prev = inserted(keys, vals, k - 1);
        if prev.dom().contains(keys[k - 1]) {
            let i = choose|i: int| 0 <= i < k - 1 && #[trigger] keys.subrange(0, k - 1)[i] == keys[k - 1];
            assert(keys[i] == keys[k - 1]);
        }
        assert(keys.subrange(0, k).to_set() =~= keys.subrange(0, k - 1).to_set().insert(
            keys[k - 1],
        )) by {
            assert(keys.subrange(0, k) =~= keys.subrange(0, k - 1).push(keys[k - 1]));
            keys.subrange(0, k - 1).lemma_push_to_set_commute(keys[k - 1]);
        }
    }
}

/// Inserting a key that is present changes its value and not the size.
pub proof fn lemma_reinsert_keeps_size<K, V>(m: Map<K, V>, k: K, v: V)
    requires
        m.dom().finite(),
        m.contains_key(k),
    ensures
        m.insert(k, v).len() == m.len(),
        m.insert(k, v)[k] == v,
{
    assert(m.insert(k, v).dom() =~= m.dom());
}

/// Deleting a present key removes it and lowers the size by one.
pub proof fn lemma_delete_present<K, V>(m: Map<K, V>, k: K)
    requires
        m.dom().finite(),
        m.contains_key(k),
    ensures
        !m.remove(k).contains_key(k),
        m.remove(k).len() + 1 == m.len(),
{
}

/// Deleting an absent key changes nothing.
pub proof fn lemma_delete_absent<K, V>(m: Map<K, V>, k: K)
    requires
        !m.contains_key(k),
    ensures
        m.remove(k) == m,
{
    assert(m.remove(k) =~= m);
}

/// An insertion keeps every key that was present.
pub proof fn lemma_insert_keeps_keys<K, V>(m: Map<K, V>, k: K, v: V, other: K)
    requires
        m.contains_key(other),
    ensures
        m.insert(k, v).contains_key(other),
{
}

} // verus!
