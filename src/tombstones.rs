use vstd::prelude::*;
use bit_set::BitSet;

verus! {

#[verifier::external_type_specification]
#[verifier::external_body]
#[verifier::reject_recursive_types(B)]
pub struct ExBitSet<B>(bit_set::BitSet<B>);

/// The indices that a bit set holds.
pub uninterp spec fn members(s: BitSet) -> Set<usize>;

/// Relies on bit_set::BitSet::with_capacity: a new set holds no index.
#[verifier::external_body]
pub(crate) fn new_tombstones(nbits: usize) -> (r: BitSet)
    ensures
        members(r) == Set::<usize>::empty(),
{
    BitSet::with_capacity(nbits)
}

/// Relies on bit_set::BitSet::contains: membership of one index.
#[verifier::external_body]
pub(crate) fn is_tombstone(s: &BitSet, i: usize) -> (r: bool)
    ensures
        r == members(*s).contains(i),
{
    s.contains(i)
}

/// Relies on bit_set::BitSet::insert: the index joins the set, which grows as
/// needed (the growth panics only where `i + 1` overflows).
#[verifier::external_body]
pub(crate) fn add_tombstone(s: &mut BitSet, i: usize)
    requires
        i < usize::MAX,
    ensures
        members(*final(s)) == members(*old(s)).insert(i),
{
    s.insert(i);
}

/// Relies on bit_set::BitSet::remove: the index leaves the set.
#[verifier::external_body]
pub(crate) fn remove_tombstone(s: &mut BitSet, i: usize)
    ensures
        members(*final(s)) == members(*old(s)).remove(i),
{
    s.remove(i);
}

/// Relies on bit_set::BitSet::clear: every bit is reset, so no index stays.
#[verifier::external_body]
pub(crate) fn clear_tombstones(s: &mut BitSet)
    ensures
        members(*final(s)) == Set::<usize>::empty(),
{
    s.clear();
}

} // verus!
