use vstd::prelude::*;
use dogs::data_structures::sparse_set::SparseSet;

verus! {

#[verifier::external_type_specification]
#[verifier::external_body]
pub struct ExSparseSet(SparseSet);

/// The elements of a sparse set, in the order of its dense array.
pub uninterp spec fn sparse_members(s: SparseSet) -> Seq<usize>;

/// The bound that a sparse set was made with: every element lies below it.
pub uninterp spec fn sparse_capacity(s: SparseSet) -> nat;

/// Relies on SparseSet::new: an empty set for the elements below `nb_max`.
pub assume_specification[ SparseSet::new ](nb_max: usize) -> (s: SparseSet)
    ensures
        sparse_members(s) == Seq::<usize>::empty(),
        sparse_capacity(s) == nb_max,
;

/// Relies on SparseSet::len: the number of elements.
pub assume_specification[ SparseSet::len ](s: &SparseSet) -> (r: usize)
    ensures
        r == sparse_members(*s).len(),
;

/// Relies on SparseSet::nth: the element at position `i` of the dense array.
pub assume_specification[ SparseSet::nth ](s: &SparseSet, i: usize) -> (r: usize)
    requires
        i < sparse_members(*s).len(),
    ensures
        r == sparse_members(*s)[i as int],
;

/// Relies on SparseSet::contains: membership, read through the sparse array.
pub assume_specification[ SparseSet::contains ](s: &SparseSet, e: usize) -> (r: bool)
    requires
        e < sparse_capacity(*s),
    ensures
        r == sparse_members(*s).contains(e),
;

/// Relies on SparseSet::insert: a new element goes to the end of the dense array.
pub assume_specification[ SparseSet::insert ](s: &mut SparseSet, e: usize)
    requires
        e < sparse_capacity(*old(s)),
        !sparse_members(*old(s)).contains(e),
    ensures
        sparse_members(*final(s)) == sparse_members(*old(s)).push(e),
        sparse_capacity(*final(s)) == sparse_capacity(*old(s)),
;

/// Relies on SparseSet::remove: the last element of the dense array takes the place of `e`.
pub assume_specification[ SparseSet::remove ](s: &mut SparseSet, e: usize)
    requires
        e < sparse_capacity(*old(s)),
        sparse_members(*old(s)).contains(e),
    ensures
        exists|i: int|
            0 <= i < sparse_members(*old(s)).len() && sparse_members(*old(s))[i] == e
                && sparse_members(*final(s)) == sparse_members(*old(s)).update(
                i,
                sparse_members(*old(s)).last(),
            ).drop_last(),
        sparse_capacity(*final(s)) == sparse_capacity(*old(s)),
;

} // verus!
