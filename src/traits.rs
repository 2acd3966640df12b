use vstd::prelude::*;

verus! {

/// A key that the table can store: it decides equality with another key.
pub trait HashableKey: Sized {
    fn key_eq(&self, other: &Self) -> (r: bool)
        ensures
            r == (*self == *other),
    ;
}

/// A value that the table can store: reads hand out copies.
pub trait HashValue: Sized {
    fn clone_value(&self) -> (r: Self)
        ensures
            r == *self,
    ;
}

/// A hash strategy for keys of type `K`: a deterministic function of the key.
pub trait Hasher<K: HashableKey> {
    spec fn spec_hash(key: K) -> usize;

    fn hash(key: &K) -> (r: usize)
        ensures
            r == Self::spec_hash(*key),
    ;
}

/// Why an insertion could not be carried out: the slot array would have to
/// grow beyond what `usize` can count. The table is left as it was.
#[derive(Debug, PartialEq, Eq, Structural)]
pub enum InsertError {
    CapacityOverflow,
}

/// A mapping from keys to values, with capacity introspection.
pub trait HashTable<K: HashableKey, V: HashValue>: Sized {
    /// The mapping that the table holds.
    spec fn contents(&self) -> Map<K, V>;

    /// The table's internal invariant.
    spec fn well_formed(&self) -> bool;

    /// The length of the slot array.
    spec fn spec_capacity(&self) -> nat;

    /// The tombstone count: it grows by one with each deletion and is reset
    /// when the slot array grows.
    spec fn spec_wasted(&self) -> nat;

    /// Maps `key` to `value`. A key already present keeps its slot and gets the
    /// new value. A new key first makes the slot array grow from `c` to
    /// `2 * c + 1` slots when live entries and tombstones fill it.
    fn insert(&mut self, key: K, value: V) -> (r: Result<(), InsertError>)
        requires
            old(self).well_formed(),
        ensures
            final(self).well_formed(),
            r is Err <==> (!old(self).contents().contains_key(key)
                && old(self).contents().len() + old(self).spec_wasted() >= old(self).spec_capacity()
                && 2 * old(self).spec_capacity() + 1 > usize::MAX),
            r is Ok ==> final(self).contents() == old(self).contents().insert(key, value),
            r is Err ==> final(self).contents() == old(self).contents(),
            r is Err ==> final(self).spec_capacity() == old(self).spec_capacity(),
            r is Err ==> final(self).spec_wasted() == old(self).spec_wasted(),
            old(self).contents().contains_key(key)
                || old(self).contents().len() + old(self).spec_wasted() < old(self).spec_capacity()
                ==> final(self).spec_capacity() == old(self).spec_capacity()
                && final(self).spec_wasted() == old(self).spec_wasted(),
            r is Ok && !old(self).contents().contains_key(key)
                && old(self).contents().len() + old(self).spec_wasted() >= old(self).spec_capacity()
                ==> final(self).spec_capacity() == 2 * old(self).spec_capacity() + 1
                && final(self).spec_wasted() == 0,
            final(self).spec_capacity() >= old(self).spec_capacity(),
    ;

    /// Whether `key` is present.
    fn has(&self, key: &K) -> (r: bool)
        requires
            self.well_formed(),
        ensures
            r == self.contents().contains_key(*key),
    ;

    /// A copy of the value of `key`, if present.
    fn get(&self, key: &K) -> (r: Option<V>)
        requires
            self.well_formed(),
        ensures
            r == if self.contents().contains_key(*key) {
                Some(self.contents()[*key])
            } else {
                None::<V>
            },
    ;

    /// Removes `key`, leaving a tombstone in its slot; nothing happens when it
    /// is absent.
    fn delete(&mut self, key: &K)
        requires
            old(self).well_formed(),
        ensures
            final(self).well_formed(),
            final(self).contents() == old(self).contents().remove(*key),
            final(self).spec_capacity() == old(self).spec_capacity(),
            final(self).spec_wasted() == if old(self).contents().contains_key(*key) {
                old(self).spec_wasted() + 1
            } else {
                old(self).spec_wasted()
            },
    ;

    /// The number of live entries.
    fn size(&self) -> (r: usize)
        requires
            self.well_formed(),
        ensures
            r == self.contents().len(),
    ;

    /// The length of the slot array.
    fn capacity(&self) -> (r: usize)
        requires
            self.well_formed(),
        ensures
            r == self.spec_capacity(),
    ;

    /// The number of tombstones counted since the slot array last grew.
    fn wasted_capacity(&self) -> (r: usize)
        requires
            self.well_formed(),
        ensures
            r == self.spec_wasted(),
    ;
}

} // verus!
