//! The record of what was freed.
//!
//! To free a node is to drop it. `Freed::free` takes a node for good, keeps it
//! nowhere and calls nothing that could, so the node is dropped there; and a node
//! is entered in the record there and nowhere else. A node that is in the record
//! has been dropped, and since nodes are not copied, once for each time that it
//! is in it.

use vstd::prelude::*;

verus! {

/// What was freed so far, in the order in which it was freed. The record is ghost
/// state.
pub struct Freed<N> {
    nodes: Ghost<Seq<N>>,
}

impl<N> View for Freed<N> {
    type V = Seq<N>;

    closed spec fn view(&self) -> Seq<N> {
        self.nodes@
    }
}

impl<N> Freed<N> {
    pub(crate) fn new() -> (r: Self)
        ensures
            r@ == Seq::<N>::empty(),
    {
        Freed { nodes: Ghost(Seq::empty()) }
    }

    /// Frees a node.
    pub(crate) fn free(&mut self, node: N)
        ensures
            final(self)@ == old(self)@.push(node),
        opens_invariants none
    {
        proof {
            self.nodes@ = self.nodes@.push(node);
        }
    }
}

} // verus!
