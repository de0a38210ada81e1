//! Node and edge handles.

use vstd::prelude::*;

verus! {

/// Handle of a node: its position in the node array.
#[derive(Clone, Copy, Debug, PartialEq, Eq, Structural, Hash, PartialOrd, Ord)]
pub struct NodeId(pub u32);

/// Handle of an edge: its position in the edge array.
#[derive(Clone, Copy, Debug, PartialEq, Eq, Structural, Hash, PartialOrd, Ord)]
pub struct EdgeId(pub u32);

impl View for NodeId {
    type V = int;

    open spec fn view(&self) -> int {
        self.0 as int
    }
}

impl View for EdgeId {
    type V = int;

    open spec fn view(&self) -> int {
        self.0 as int
    }
}

impl NodeId {
    /// The handle for position `x`, reduced to the 32-bit index width.
    pub fn new(x: usize) -> (r: Self)
        ensures
            r@ == (x as u32) as int,
    {
        NodeId(x as u32)
    }

    /// The position this handle stands for.
    pub fn index(self) -> (r: usize)
        ensures
            r as int == self@,
    {
        self.0 as usize
    }

    /// The handle that never names a node.
    pub fn end() -> (r: Self)
        ensures
            r@ == u32::MAX as int,
    {
        NodeId(u32::MAX)
    }

}

impl EdgeId {
    /// The handle for position `x`, reduced to the 32-bit index width.
    pub fn new(x: usize) -> (r: Self)
        ensures
            r@ == (x as u32) as int,
    {
        EdgeId(x as u32)
    }

    /// The position this handle stands for.
    pub fn index(self) -> (r: usize)
        ensures
            r as int == self@,
    {
        self.0 as usize
    }

    /// The handle that never names an edge.
    pub fn end() -> (r: Self)
        ensures
            r@ == u32::MAX as int,
    {
        EdgeId(u32::MAX)
    }

}

} // verus!
