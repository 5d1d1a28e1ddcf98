//! The tile sets of the engine are `bit_set::BitSet`s. Their contents are
//! named by `set_items`, and each method the library uses has a wrapper that
//! states what it does to them.
use vstd::prelude::*;

use bit_set::BitSet;

verus! {

#[verifier::external_type_specification]
#[verifier::external_body]
#[verifier::reject_recursive_types(B)]
pub struct ExBitSet<B>(bit_set::BitSet<B>);

/// The indices that a bit set holds.
pub uninterp spec fn set_items(s: BitSet) -> Set<usize>;

/// Relies on `BitSet::with_capacity`: a set with no contents.
#[verifier::external_body]
pub(crate) fn empty_set(capacity: usize) -> (r: BitSet)
    ensures
        set_items(r) == Set::<usize>::empty(),
{
    BitSet::with_capacity(capacity)
}

/// Relies on `BitSet::insert`: adds `value`, and answers whether it was absent.
#[verifier::external_body]
pub(crate) fn set_insert(s: &mut BitSet, value: usize) -> (r: bool)
    ensures
        set_items(*final(s)) == set_items(*old(s)).insert(value),
        r == !set_items(*old(s)).contains(value),
{
    s.insert(value)
}

/// Relies on `BitSet::remove`: takes `value` out, and answers whether it was present.
#[verifier::external_body]
pub(crate) fn set_remove(s: &mut BitSet, value: usize) -> (r: bool)
    ensures
        set_items(*final(s)) == set_items(*old(s)).remove(value),
        r == set_items(*old(s)).contains(value),
{
    s.remove(value)
}

/// Relies on `BitSet::contains`.
#[verifier::external_body]
pub(crate) fn set_contains(s: &BitSet, value: usize) -> (r: bool)
    ensures
        r == set_items(*s).contains(value),
{
    s.contains(value)
}

/// Relies on `BitSet::len`: the number of members.
#[verifier::external_body]
pub(crate) fn set_len(s: &BitSet) -> (r: usize)
    ensures
        r == set_items(*s).len(),
{
    s.len()
}

/// Relies on `BitSet::clear`: no members are left.
#[verifier::external_body]
pub(crate) fn set_clear(s: &mut BitSet)
    ensures
        set_items(*final(s)) == Set::<usize>::empty(),
{
    s.clear()
}

/// Relies on `BitSet::clone`: an independent set with the same members.
#[verifier::external_body]
pub(crate) fn set_clone(s: &BitSet) -> (r: BitSet)
    ensures
        set_items(r) == set_items(*s),
{
    s.clone()
}

/// Relies on `BitSet::iter`, which walks the members in ascending order.
#[verifier::external_body]
pub(crate) fn set_members(s: &BitSet) -> (r: Vec<usize>)
    ensures
        r@.to_set() == set_items(*s),
        forall|i: int, j: int| 0 <= i < j < r@.len() ==> r@[i] < r@[j],
{
    s.iter().collect()
}

} // verus!
