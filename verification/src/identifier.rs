//! Identifiers: variable-length paths of numeric labels that address
//! positions in the allocation tree, one label per depth, root first.

use vstd::prelude::*;

verus! {

/// A tree position: the sequence of labels on the path from the root.
#[derive(Debug, PartialEq, Eq)]
pub struct Identifier {
    path: Vec<u64>,
}

impl View for Identifier {
    type V = Seq<u64>;

    closed spec fn view(&self) -> Seq<u64> {
        self.path@
    }
}

impl Identifier {
    /// An identifier made of the given labels.
    pub fn new(labels: &[u64]) -> (r: Identifier)
        ensures
            r@ == labels@,
    {
        Identifier { path: vstd::slice::slice_to_vec(labels) }
    }

    /// The number of tree depths this identifier addresses.
    pub fn len(&self) -> (r: usize)
        ensures
            r == self@.len(),
    {
        self.path.len()
    }

    /// The label at the given depth.
    pub fn at(&self, depth: usize) -> (r: u64)
        requires
            depth < self@.len(),
        ensures
            r == self@[depth as int],
    {
        self.path[depth]
    }

    /// Extend this identifier by one more level.
    pub fn push(&mut self, label: u64)
        ensures
            final(self)@ == old(self)@.push(label),
    {
        self.path.push(label);
    }
}

impl Clone for Identifier {
    /// A copy addressing the same position.
    fn clone(&self) -> (r: Self)
        ensures
            r@ == self@,
    {
        Identifier { path: vstd::slice::slice_to_vec(self.path.as_slice()) }
    }
}

} // verus!
