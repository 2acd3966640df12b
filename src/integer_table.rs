use vstd::prelude::*;
use crate::table::{SimpleHashTable, create_simple_hash_table};
use crate::traits::{HashableKey, HashValue, Hasher, HashTable};

verus! {

impl HashableKey for i64 {
    fn key_eq(&self, other: &i64) -> (r: bool) {
        *self == *other
    }
}

impl HashValue for i64 {
    fn clone_value(&self) -> (r: i64) {
        *self
    }
}

/// Hashes an `i64` to its bits read as a `usize`.
pub struct SimpleHasher;

impl Hasher<i64> for SimpleHasher {
    open spec fn spec_hash(key: i64) -> usize {
        key as usize
    }

    fn hash(key: &i64) -> (r: usize) {
        *key as usize
    }
}

pub type IntegerToIntegerHT = SimpleHashTable<i64, i64, SimpleHasher>;

/// An empty `i64` to `i64` table with 32 slots.
pub fn create_integer_to_integer_ht() -> (r: IntegerToIntegerHT)
    ensures
        r.well_formed(),
        r.contents() == Map::<i64, i64>::empty(),
        r.spec_capacity() == 32,
        r.spec_wasted() == 0,
{
    create_simple_hash_table(32)
}

} // verus!
