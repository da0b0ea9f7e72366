use vstd::prelude::*;
use bit_set::BitSet;

verus! {

/// A set of vertices packed in machine words. The bitset of `bit_set` stays
/// hidden in a private field: its declaration carries a trait bound of another
/// crate, which cannot be declared here.
#[verifier::external_body]
pub struct VertexSet {
    bits: BitSet,
}

/// The vertices that a bitset holds.
pub uninterp spec fn bits_of(s: VertexSet) -> Set<usize>;

impl VertexSet {
    /// Relies on BitSet::with_capacity: a new set holds no element.
    #[verifier::external_body]
    pub fn with_capacity(n: usize) -> (s: VertexSet)
        ensures
            bits_of(s) == Set::<usize>::empty(),
    {
        VertexSet { bits: BitSet::with_capacity(n) }
    }

    /// Relies on BitSet::contains: membership of `v`.
    #[verifier::external_body]
    pub fn contains(&self, v: usize) -> (b: bool)
        ensures
            b == bits_of(*self).contains(v),
    {
        self.bits.contains(v)
    }

    /// Relies on BitSet::insert: `v` is added, the set grows when needed.
    #[verifier::external_body]
    pub fn insert(&mut self, v: usize)
        requires
            v < usize::MAX,
        ensures
            bits_of(*final(self)) == bits_of(*old(self)).insert(v),
    {
        self.bits.insert(v);
    }

    /// Relies on BitSet::remove: `v` is taken out.
    #[verifier::external_body]
    pub fn remove(&mut self, v: usize)
        ensures
            bits_of(*final(self)) == bits_of(*old(self)).remove(v),
    {
        self.bits.remove(v);
    }

    /// Relies on BitSet::iter: every element once.
    #[verifier::external_body]
    pub fn elements(&self) -> (r: Vec<usize>)
        ensures
            r@.to_set() == bits_of(*self),
            r@.no_duplicates(),
    {
        self.bits.iter().collect()
    }
}

} // verus!
