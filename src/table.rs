use vstd::prelude::*;
use bit_set::BitSet;
use crate::slots::{
    KVPair, probe, dist, nonvacant, count_nonvacant, lemma_count_zero,
    lemma_count_same, lemma_count_fill, lemma_vacant_exists, first_free,
};
use crate::tombstones::{
    members, new_tombstones, is_tombstone, add_tombstone, remove_tombstone, clear_tombstones,
};
use crate::traits::{HashableKey, HashValue, Hasher, HashTable, InsertError};

verus! {

/// Where the probe for `k` starts in an array of `n` slots.
pub open spec fn home<K: HashableKey, H: Hasher<K>>(k: K, n: int) -> int {
    (H::spec_hash(k) as int) % n
}

/// Every slot holding an entry agrees with the mapping `m`.
pub open spec fn entries_valid<K, V>(d: Seq<Option<KVPair<K, V>>>, m: Map<K, V>) -> bool {
    forall|i: int|
        0 <= i < d.len() && (#[trigger] d[i]) is Some ==> m.contains_key(d[i]->Some_0.key)
            && m[d[i]->Some_0.key] == d[i]->Some_0.value
}

/// Every key of `m` has a slot.
pub open spec fn keys_present<K, V>(d: Seq<Option<KVPair<K, V>>>, m: Map<K, V>) -> bool {
    forall|k: K|
        #[trigger] m.contains_key(k) ==> exists|i: int|
            0 <= i < d.len() && (#[trigger] d[i]) is Some && d[i]->Some_0.key == k
}

/// No key has two slots.
pub open spec fn keys_unique<K, V>(d: Seq<Option<KVPair<K, V>>>) -> bool {
    forall|i: int, j: int|
        0 <= i < d.len() && 0 <= j < d.len() && (#[trigger] d[i]) is Some && (#[trigger] d[j]) is Some
            && d[i]->Some_0.key == d[j]->Some_0.key ==> i == j
}

/// The entry in slot `i` is reached by linear probing from its home slot over
/// non-vacant slots only.
pub open spec fn reaches<K: HashableKey, V, H: Hasher<K>>(
    d: Seq<Option<KVPair<K, V>>>,
    t: Set<usize>,
    i: int,
) -> bool {
    let n = d.len() as int;
    let s = home::<K, H>(d[i]->Some_0.key, n);
    forall|j: int| 0 <= j < dist(s, i, n) ==> #[trigger] nonvacant(d, t, probe(s, j, n))
}

pub open spec fn chains_ok<K: HashableKey, V, H: Hasher<K>>(
    d: Seq<Option<KVPair<K, V>>>,
    t: Set<usize>,
) -> bool {
    forall|i: int| 0 <= i < d.len() && d[i] is Some ==> #[trigger] reaches::<K, V, H>(d, t, i)
}

/// Tombstoned slots lie in the array and hold no entry.
pub open spec fn tombstones_empty<K, V>(d: Seq<Option<KVPair<K, V>>>, t: Set<usize>) -> bool {
    forall|i: usize| #[trigger] t.contains(i) ==> i < d.len() && d[i as int] is None
}

/// Chains stay intact when no slot becomes vacant and no entry changes its
/// key, except at `p`, whose chain is given.
pub proof fn lemma_chains_preserved<K: HashableKey, V, H: Hasher<K>>(
    d1: Seq<Option<KVPair<K, V>>>,
    t1: Set<usize>,
    d2: Seq<Option<KVPair<K, V>>>,
    t2: Set<usize>,
    p: int,
)
    requires
        chains_ok::<K, V, H>(d1, t1),
        d1.len() == d2.len(),
        forall|x: int| 0 <= x < d1.len() && #[trigger] nonvacant(d1, t1, x) ==> nonvacant(d2, t2, x),
        forall|i: int|
            0 <= i < d1.len() && i != p && (#[trigger] d2[i]) is Some ==> d1[i] is Some
                && d1[i]->Some_0.key == d2[i]->Some_0.key,
        0 <= p < d1.len() && d2[p] is Some ==> reaches::<K, V, H>(d2, t2, p),
    ensures
        chains_ok::<K, V, H>(d2, t2),
{
    let n = d1.len() as int;
    assert forall|i: int| 0 <= i < n && d2[i] is Some implies #[trigger] reaches::<K, V, H>(
        d2,
        t2,
        i,
    ) by {
        if i != p {
            assert(reaches::<K, V, H>(d1, t1, i));
            let s = home::<K, H>(d1[i]->Some_0.key, n);
            assert forall|j: int| 0 <= j < dist(s, i, n) implies #[trigger] nonvacant(
                d2,
                t2,
                probe(s, j, n),
            ) by {
                assert(nonvacant(d1, t1, probe(s, j, n)));
            }
        }
    }
}

/// An open-addressing hash table with linear probing; deleted entries leave
/// tombstones until the slot array grows.
#[verifier::reject_recursive_types(K)]
pub struct SimpleHashTable<K: HashableKey, V: HashValue, H: Hasher<K>> {
    data: Vec<Option<KVPair<K, V>>>,
    deleted: BitSet,
    slots_used: usize,
    deleted_slots: usize,
    contents: Ghost<Map<K, V>>,
    ph_1: core::marker::PhantomData<H>,
}

impl<K: HashableKey, V: HashValue, H: Hasher<K>> SimpleHashTable<K, V, H> {
    pub closed spec fn inv(&self) -> bool {
        let d = self.data@;
        let t = members(self.deleted);
        let n = d.len() as int;
        &&& self.slots_used + self.deleted_slots <= n
        &&& count_nonvacant(d, t, n) <= self.slots_used + self.deleted_slots
        &&& tombstones_empty(d, t)
        &&& self.contents@.dom().finite()
        &&& self.contents@.len() == self.slots_used
        &&& entries_valid(d, self.contents@)
        &&& keys_present(d, self.contents@)
        &&& keys_unique(d)
        &&& chains_ok::<K, V, H>(d, t)
    }

    /// Moves every live entry into a fresh array of `next_capacity` vacant
    /// slots, re-probing from its home slot there; tombstones are dropped.
    fn simple_resizer(&mut self, next_capacity: usize)
        requires
            old(self).inv(),
            next_capacity > old(self).data@.len(),
        ensures
            final(self).inv(),
            final(self).contents@ == old(self).contents@,
            final(self).data@.len() == next_capacity,
            final(self).slots_used == old(self).slots_used,
            final(self).deleted_slots == 0,
    {
        let ghost od = self.data@;
        let ghost on = od.len() as int;
        let ghost m = self.contents@;
        let ghost e = Set::<usize>::empty();
        let mut nd: Vec<Option<KVPair<K, V>>> = Vec::with_capacity(next_capacity);
        let mut c: usize = 0;
        while c < next_capacity
            invariant
                nd@.len() == c,
                c <= next_capacity,
                forall|i: int| 0 <= i < c ==> nd@[i] is None,
            decreases next_capacity - c,
        {
            nd.push(None);
            c = c + 1;
        }
        let ghost mut placed = Set::<K>::empty();
        proof {
            lemma_count_zero(nd@, e, next_capacity as int);
        }
        while self.data.len() > 0
            invariant
                self.data@ == od.subrange(0, self.data@.len() as int),
                self.data@.len() <= on,
                on == od.len(),
                on < next_capacity,
                e == Set::<usize>::empty(),
                self.contents@ == m,
                self.slots_used == old(self).slots_used,
                self.deleted_slots == old(self).deleted_slots,
                self.deleted == old(self).deleted,
                m.dom().finite(),
                m.len() == self.slots_used,
                self.slots_used <= on,
                entries_valid(od, m),
                keys_present(od, m),
                keys_unique(od),
                nd@.len() == next_capacity,
                entries_valid(nd@, m),
                keys_unique(nd@),
                chains_ok::<K, V, H>(nd@, e),
                placed.finite(),
                placed.subset_of(m.dom()),
                count_nonvacant(nd@, e, next_capacity as int) == placed.len(),
                forall|i: int|
                    0 <= i < nd@.len() && (#[trigger] nd@[i]) is Some ==> placed.contains(
                        nd@[i]->Some_0.key,
                    ),
                forall|k: K|
                    #[trigger] placed.contains(k) ==> exists|j: int|
                        self.data@.len() <= j < on && (#[trigger] od[j]) is Some
                            && od[j]->Some_0.key == k,
                forall|j: int|
                    self.data@.len() <= j < on && (#[trigger] od[j]) is Some ==> exists|i: int|
                        0 <= i < nd@.len() && (#[trigger] nd@[i]) is Some && nd@[i]->Some_0.key
                            == od[j]->Some_0.key,
            decreases self.data@.len(),
        {
            let ghost j0 = self.data@.len() - 1;
            let entry = match self.data.pop() {
                Some(x) => x,
                None => None,
            };
            assert(entry == od[j0]);
            if let Some(kv) = entry {
                let ghost k = kv.key;
                let ghost nd0 = nd@;
                proof {
                    assert(od[j0] is Some);
                    if placed.contains(k) {
                        let j = choose|j: int|
                            j0 + 1 <= j < on && (#[trigger] od[j]) is Some && od[j]->Some_0.key == k;
                        assert(false);
                    }
                    vstd::set_lib::lemma_len_subset(placed.insert(k), m.dom());
                    lemma_vacant_exists(nd@, e, next_capacity as int);
                }
                let h = H::hash(&kv.key) % next_capacity;
                let p = first_free(&nd, h);
                nd.set(p, Some(kv));
                proof {
                    let nd1 = nd@;
                    let n = next_capacity as int;
                    placed = placed.insert(k);
                    assert(!e.contains(p));
                    lemma_count_fill(nd0, e, nd1, e, p as int, n);
                    assert forall|i: int|
                        0 <= i < n && (#[trigger] nd1[i]) is Some implies placed.contains(
                        nd1[i]->Some_0.key,
                    ) by {
                        if i != p {
                            assert(nd0[i] is Some);
                        }
                    }
                    assert forall|i: int, j: int|
                        0 <= i < n && 0 <= j < n && (#[trigger] nd1[i]) is Some && (#[trigger] nd1[j]) is Some
                            && nd1[i]->Some_0.key == nd1[j]->Some_0.key implies i == j by {
                        if i != p {
                            assert(nd0[i] is Some);
                        }
                        if j != p {
                            assert(nd0[j] is Some);
                        }
                    }
                    assert forall|kk: K| #[trigger] placed.contains(kk) implies exists|j: int|
                        self.data@.len() <= j < on && (#[trigger] od[j]) is Some
                            && od[j]->Some_0.key == kk by {
                        if kk == k {
                            assert(od[j0] is Some);
                        }
                    }
                    assert forall|j: int|
                        self.data@.len() <= j < on && (#[trigger] od[j]) is Some implies exists|i: int|
                        0 <= i < n && (#[trigger] nd1[i]) is Some && nd1[i]->Some_0.key
                            == od[j]->Some_0.key by {
                        if j == j0 {
                            assert(nd1[p as int] is Some);
                        } else {
                            let i = choose|i: int|
                                0 <= i < n && (#[trigger] nd0[i]) is Some && nd0[i]->Some_0.key
                                    == od[j]->Some_0.key;
                            assert(nd1[i] == nd0[i]);
                        }
                    }
                    assert forall|jj: int| 0 <= jj < dist(h as int, p as int, n) implies #[trigger] nonvacant(
                        nd1,
                        e,
                        probe(h as int, jj, n),
                    ) by {
                        assert(nd0[probe(h as int, jj, n)] is Some);
                    }
                    assert(reaches::<K, V, H>(nd1, e, p as int));
                    lemma_chains_preserved::<K, V, H>(nd0, e, nd1, e, p as int);
                }
            }
        }
        clear_tombstones(&mut self.deleted);
        self.data = nd;
        self.deleted_slots = 0;
        proof {
            vstd::set_lib::lemma_len_subset(placed, m.dom());
            let d = self.data@;
            assert forall|k: K| #[trigger] m.contains_key(k) implies exists|i: int|
                0 <= i < d.len() && (#[trigger] d[i]) is Some && d[i]->Some_0.key == k by {
                let j = choose|j: int| 0 <= j < od.len() && (#[trigger] od[j]) is Some && od[j]->Some_0.key == k;
            }
        }
    }

    /// Live entries and tombstones together never outnumber the slots.
    pub proof fn lemma_load_bounded(&self)
        requires
            self.well_formed(),
        ensures
            self.contents().len() + self.spec_wasted() <= self.spec_capacity(),
    {
    }

    /// The slot holding `key`, found by linear probing from its home slot.
    fn get_pos(&self, key: &K) -> (r: Option<usize>)
        requires
            self.inv(),
        ensures
            match r {
                Some(p) => p < self.data@.len() && self.data@[p as int] is Some
                    && self.data@[p as int]->Some_0.key == *key,
                None => !self.contents@.contains_key(*key),
            },
    {
        let n = self.data.len();
        if n == 0 {
            return None;
        }
        let ghost d = self.data@;
        let ghost t = members(self.deleted);
        let s = H::hash(key) % n;
        // The scan is bounded by the array length; as only
        // `slots_used + deleted_slots` slots are non-vacant, it meets a vacant
        // slot within that many steps unless the array is full.
        let mut i: usize = 0;
        let mut pos: usize = s;
        while i < n
            invariant
                self.inv(),
                d == self.data@,
                t == members(self.deleted),
                n == d.len(),
                s == home::<K, H>(*key, n as int),
                i <= n,
                pos == probe(s as int, i as int, n as int),
                forall|j: int|
                    0 <= j < i ==> !(d[#[trigger] probe(s as int, j, n as int)] is Some
                        && d[probe(s as int, j, n as int)]->Some_0.key == *key),
            decreases n - i,
        {
            match &self.data[pos] {
                None => {
                    if !is_tombstone(&self.deleted, pos) {
                        proof {
                            if self.contents@.contains_key(*key) {
                                let q = choose|q: int|
                                    0 <= q < d.len() && (#[trigger] d[q]) is Some
                                        && d[q]->Some_0.key == *key;
                                let k = dist(s as int, q, n as int);
                                assert(probe(s as int, k, n as int) == q);
                                assert(reaches::<K, V, H>(d, t, q));
                                if k > i {
                                    assert(nonvacant(d, t, probe(s as int, i as int, n as int)));
                                }
                            }
                        }
                        return None;
                    }
                },
                Some(kv) => {
                    if key.key_eq(&kv.key) {
                        return Some(pos);
                    }
                },
            }
            i = i + 1;
            pos = if pos + 1 == n {
                0
            } else {
                pos + 1
            };
        }
        proof {
            if self.contents@.contains_key(*key) {
                let q = choose|q: int|
                    0 <= q < d.len() && (#[trigger] d[q]) is Some && d[q]->Some_0.key == *key;
                let k = dist(s as int, q, n as int);
                assert(probe(s as int, k, n as int) == q);
            }
        }
        None
    }
}

impl<K: HashableKey, V: HashValue, H: Hasher<K>> HashTable<K, V> for SimpleHashTable<K, V, H> {
    closed spec fn contents(&self) -> Map<K, V> {
        self.contents@
    }

    closed spec fn well_formed(&self) -> bool {
        self.inv()
    }

    closed spec fn spec_capacity(&self) -> nat {
        self.data@.len()
    }

    closed spec fn spec_wasted(&self) -> nat {
        self.deleted_slots as nat
    }

    fn insert(&mut self, key: K, value: V) -> (r: Result<(), InsertError>) {
        match self.get_pos(&key) {
            Some(p) => {
                let ghost d0 = self.data@;
                let ghost t = members(self.deleted);
                let ghost m1 = self.contents@.insert(key, value);
                self.data.set(p, Some(KVPair { key, value }));
                self.contents = Ghost(m1);
                proof {
                    let d1 = self.data@;
                    let n = d1.len() as int;
                    lemma_count_same(d0, t, d1, t, n);
                    assert forall|i: int| 0 <= i < n && (#[trigger] d1[i]) is Some implies m1.contains_key(
                        d1[i]->Some_0.key,
                    ) && m1[d1[i]->Some_0.key] == d1[i]->Some_0.value by {
                        if i != p {
                            assert(d0[i] is Some);
                            assert(d0[p as int] is Some);
                        }
                    }
                    assert forall|k: K| #[trigger] m1.contains_key(k) implies exists|i: int|
                        0 <= i < n && (#[trigger] d1[i]) is Some && d1[i]->Some_0.key == k by {
                        if k == d1[p as int]->Some_0.key {
                            assert(d1[p as int] is Some);
                        } else {
                            let i = choose|i: int|
                                0 <= i < n && (#[trigger] d0[i]) is Some && d0[i]->Some_0.key == k;
                            assert(d1[i] == d0[i]);
                        }
                    }
                    assert forall|i: int, j: int|
                        0 <= i < n && 0 <= j < n && (#[trigger] d1[i]) is Some && (#[trigger] d1[j]) is Some
                            && d1[i]->Some_0.key == d1[j]->Some_0.key implies i == j by {
                        assert(d0[i] is Some);
                        assert(d0[j] is Some);
                    }
                    lemma_chains_preserved::<K, V, H>(d0, t, d1, t, -1);
                }
                return Ok(());
            },
            None => {},
        }
        let cap = self.data.len();
        if self.slots_used + self.deleted_slots >= cap {
            if cap > (usize::MAX - 1) / 2 {
                return Err(InsertError::CapacityOverflow);
            }
            self.simple_resizer(cap * 2 + 1);
        }
        let n = self.data.len();
        let ghost d0 = self.data@;
        let ghost t0 = members(self.deleted);
        let ghost m0 = self.contents@;
        proof {
            lemma_vacant_exists(d0, t0, n as int);
        }
        let s = H::hash(&key) % n;
        let p = first_free(&self.data, s);
        let was_tombstone = is_tombstone(&self.deleted, p);
        if was_tombstone {
            remove_tombstone(&mut self.deleted, p);
        }
        let ghost t1 = members(self.deleted);
        let ghost m1 = m0.insert(key, value);
        self.data.set(p, Some(KVPair { key, value }));
        self.slots_used = self.slots_used + 1;
        self.contents = Ghost(m1);
        proof {
            let d1 = self.data@;
            let nn = n as int;
            if was_tombstone {
                lemma_count_same(d0, t0, d1, t1, nn);
            } else {
                lemma_count_fill(d0, t0, d1, t1, p as int, nn);
            }
            assert forall|i: int| 0 <= i < nn && (#[trigger] d1[i]) is Some implies m1.contains_key(
                d1[i]->Some_0.key,
            ) && m1[d1[i]->Some_0.key] == d1[i]->Some_0.value by {
                if i != p {
                    assert(d0[i] is Some);
                }
            }
            assert forall|k: K| #[trigger] m1.contains_key(k) implies exists|i: int|
                0 <= i < nn && (#[trigger] d1[i]) is Some && d1[i]->Some_0.key == k by {
                if k == key {
                    assert(d1[p as int] is Some);
                } else {
                    assert(m0.contains_key(k));
                    let i = choose|i: int|
                        0 <= i < nn && (#[trigger] d0[i]) is Some && d0[i]->Some_0.key == k;
                    assert(d1[i] == d0[i]);
                }
            }
            assert forall|i: int, j: int|
                0 <= i < nn && 0 <= j < nn && (#[trigger] d1[i]) is Some && (#[trigger] d1[j]) is Some
                    && d1[i]->Some_0.key == d1[j]->Some_0.key implies i == j by {
                if i != p {
                    assert(d0[i] is Some);
                }
                if j != p {
                    assert(d0[j] is Some);
                }
            }
            assert forall|jj: int| 0 <= jj < dist(s as int, p as int, nn) implies #[trigger] nonvacant(
                d1,
                t1,
                probe(s as int, jj, nn),
            ) by {
                assert(d0[probe(s as int, jj, nn)] is Some);
            }
            assert(reaches::<K, V, H>(d1, t1, p as int));
            lemma_chains_preserved::<K, V, H>(d0, t0, d1, t1, p as int);
        }
        Ok(())
    }

    fn has(&self, key: &K) -> (r: bool) {
        match self.get_pos(key) {
            Some(_) => true,
            None => false,
        }
    }

    fn get(&self, key: &K) -> (r: Option<V>) {
        match self.get_pos(key) {
            Some(p) => match &self.data[p] {
                Some(kv) => Some(kv.value.clone_value()),
                None => None,
            },
            None => None,
        }
    }

    fn delete(&mut self, key: &K) {
        match self.get_pos(key) {
            Some(p) => {
                let ghost d0 = self.data@;
                let ghost t0 = members(self.deleted);
                let ghost m0 = self.contents@;
                let ghost m1 = m0.remove(*key);
                let n = self.data.len();
                proof {
                    assert(d0[p as int] is Some);
                    assert(m0.dom().contains(*key));
                    assert(m0.dom().remove(*key).len() + 1 == m0.dom().len());
                    assert(m1.dom() =~= m0.dom().remove(*key));
                }
                add_tombstone(&mut self.deleted, p);
                self.data.set(p, None);
                self.slots_used = self.slots_used - 1;
                self.deleted_slots = self.deleted_slots + 1;
                self.contents = Ghost(m1);
                proof {
                    let d1 = self.data@;
                    let t1 = members(self.deleted);
                    let n = d1.len() as int;
                    lemma_count_same(d0, t0, d1, t1, n);
                    assert forall|i: int| 0 <= i < n && (#[trigger] d1[i]) is Some implies m1.contains_key(
                        d1[i]->Some_0.key,
                    ) && m1[d1[i]->Some_0.key] == d1[i]->Some_0.value by {
                        assert(d0[i] is Some);
                        assert(d0[p as int] is Some);
                    }
                    assert forall|k: K| #[trigger] m1.contains_key(k) implies exists|i: int|
                        0 <= i < n && (#[trigger] d1[i]) is Some && d1[i]->Some_0.key == k by {
                        assert(m0.contains_key(k));
                        let i = choose|i: int|
                            0 <= i < n && (#[trigger] d0[i]) is Some && d0[i]->Some_0.key == k;
                        assert(d1[i] == d0[i]);
                    }
                    assert forall|i: int, j: int|
                        0 <= i < n && 0 <= j < n && (#[trigger] d1[i]) is Some && (#[trigger] d1[j]) is Some
                            && d1[i]->Some_0.key == d1[j]->Some_0.key implies i == j by {
                        assert(d0[i] is Some);
                        assert(d0[j] is Some);
                    }
                    lemma_chains_preserved::<K, V, H>(d0, t0, d1, t1, p as int);
                }
            },
            None => {},
        }
    }

    fn size(&self) -> (r: usize) {
        self.slots_used
    }

    fn capacity(&self) -> (r: usize) {
        self.data.len()
    }

    fn wasted_capacity(&self) -> (r: usize) {
        self.deleted_slots
    }
}

/// A table with `capacity` vacant slots.
pub fn create_simple_hash_table<K: HashableKey, V: HashValue, H: Hasher<K>>(capacity: usize) -> (r:
    SimpleHashTable<K, V, H>)
    ensures
        r.well_formed(),
        r.contents() == Map::<K, V>::empty(),
        r.spec_capacity() == capacity,
        r.spec_wasted() == 0,
{
    let mut data: Vec<Option<KVPair<K, V>>> = Vec::with_capacity(capacity);
    let mut c: usize = 0;
    while c < capacity
        invariant
            data@.len() == c,
            c <= capacity,
            forall|i: int| 0 <= i < c ==> data@[i] is None,
        decreases capacity - c,
    {
        data.push(None);
        c = c + 1;
    }
    let deleted = new_tombstones(capacity);
    proof {
        lemma_count_zero(data@, members(deleted), capacity as int);
    }
    SimpleHashTable {
        data,
        deleted,
        slots_used: 0,
        deleted_slots: 0,
        contents: Ghost(Map::empty()),
        ph_1: core::marker::PhantomData,
    }
}

} // verus!
