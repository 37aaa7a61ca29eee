//! Neighbor result lists, stored in a `smallvec::SmallVec` so that the up to
//! eight handles of a query live inline, without a heap allocation.
//!
//! The storage type is outside code, so [`NeighborList`] is opaque to the
//! verifier: [`neighbor_list_items`] names the sequence of elements a list
//! holds, each trusted method below relates one `SmallVec` operation to that
//! name, and the public methods are proved from those contracts.

use vstd::prelude::*;
use smallvec::SmallVec;

verus! {

/// The handles a query found, in the order they were found.
#[verifier::external_body]
pub struct NeighborList {
    items: SmallVec<[usize; 8]>,
}

/// The elements a [`NeighborList`] holds, in storage order.
pub uninterp spec fn neighbor_list_items(v: NeighborList) -> Seq<usize>;

impl NeighborList {
    /// Relies on `smallvec::SmallVec::new`: the new vector is empty.
    #[verifier::external_body]
    pub(crate) fn new() -> (r: NeighborList)
        ensures
            neighbor_list_items(r) == Seq::<usize>::empty(),
    {
        NeighborList { items: SmallVec::new() }
    }

    /// Relies on `smallvec::SmallVec::push`: appends one element at the back.
    #[verifier::external_body]
    pub(crate) fn push(&mut self, value: usize)
        ensures
            neighbor_list_items(*final(self)) == neighbor_list_items(*old(self)).push(value),
    {
        self.items.push(value)
    }

    /// Relies on `smallvec::SmallVec::len`: the number of stored elements.
    #[verifier::external_body]
    fn len_impl(&self) -> (r: usize)
        ensures
            r == neighbor_list_items(*self).len(),
    {
        self.items.len()
    }

    /// Relies on `smallvec::SmallVec`'s slice indexing (through `Deref`).
    #[verifier::external_body]
    fn get_impl(&self, i: usize) -> (r: usize)
        requires
            i < neighbor_list_items(*self).len(),
        ensures
            r == neighbor_list_items(*self)[i as int],
    {
        self.items[i]
    }

    /// How many neighbor handles the list holds.
    pub fn len(&self) -> (r: usize)
        ensures
            r == neighbor_list_items(*self).len(),
    {
        self.len_impl()
    }

    /// The `i`-th neighbor handle, in storage order.
    pub fn get(&self, i: usize) -> (r: usize)
        requires
            i < neighbor_list_items(*self).len(),
        ensures
            r == neighbor_list_items(*self)[i as int],
    {
        self.get_impl(i)
    }
}

} // verus!
