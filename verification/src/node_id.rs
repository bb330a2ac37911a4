//! Monotonically increasing identifiers handed to every AST node at
//! construction time. One generator is owned by one parse session, so ids
//! are unique for the lifetime of a single parse.

use vstd::prelude::*;

verus! {

/// Opaque handle on a node: a non-negative integer, totally ordered by
/// creation order and never reused within one parse.
#[derive(Copy, Clone, Debug)]
pub struct NodeId(usize);

impl NodeId {
    /// The integer this id wraps.
    pub closed spec fn spec_id(self) -> int {
        self.0 as int
    }

    pub fn from_usize(id: usize) -> (r: Self)
        ensures
            r.spec_id() == id,
    {
        Self(id)
    }

    pub fn as_usize(self) -> (r: usize)
        ensures
            r == self.spec_id(),
    {
        self.0
    }
}

/// Source of fresh node ids, starting at zero and counting up by one.
pub struct NodeIdGenerator {
    next_id: usize,
}

impl NodeIdGenerator {
    /// The id the generator will hand out next.
    pub closed spec fn spec_next(self) -> int {
        self.next_id as int
    }

    pub fn new() -> (r: Self)
        ensures
            r.spec_next() == 0,
    {
        Self { next_id: 0 }
    }

    pub fn next_id(&mut self) -> (r: NodeId)
        requires
            old(self).spec_next() < usize::MAX,
        ensures
            r.spec_id() == old(self).spec_next(),
            final(self).spec_next() == old(self).spec_next() + 1,
    {
        let id = self.next_id;
        self.next_id += 1;
        NodeId(id)
    }
}

} // verus!
