//! Dense identifiers of nodes and edges within one level of the hierarchy,
//! and the external identifiers that the base level carries.

use vstd::prelude::*;
use vstd::std_specs::convert::FromSpecImpl;

verus! {

/// Index of a node in the node array of one level.
#[derive(Debug, Clone, Copy, Hash, PartialEq, Eq, PartialOrd, Ord, Structural)]
pub struct NodeId(pub u32);

/// Index of an edge record in the edge array of one level.
#[derive(Debug, Clone, Copy, Hash, PartialEq, Eq, PartialOrd, Ord, Structural)]
pub struct EdgeId(pub u32);

/// External identifier of a junction of the road network.
#[derive(Debug, Clone, Copy, Hash, PartialEq, Eq, PartialOrd, Ord, Structural)]
pub struct JunctionId(pub u32);

/// External identifier of a road section of the road network.
#[derive(Debug, Clone, Copy, Hash, PartialEq, Eq, PartialOrd, Ord, Structural)]
pub struct RoadId(pub u32);

impl JunctionId {
    /// The identifier as an index.
    pub fn num(&self) -> (r: usize)
        ensures
            r == self.0,
    {
        self.0 as usize
    }
}

impl RoadId {
    /// The identifier as an index.
    pub fn num(&self) -> (r: usize)
        ensures
            r == self.0,
    {
        self.0 as usize
    }
}

impl From<u32> for NodeId {
    fn from(id: u32) -> (r: Self) {
        NodeId(id)
    }
}

impl FromSpecImpl<u32> for NodeId {
    open spec fn obeys_from_spec() -> bool {
        true
    }

    open spec fn from_spec(id: u32) -> Self {
        NodeId(id)
    }
}

impl From<usize> for NodeId {
    /// Keeps the low 32 bits of `id`.
    fn from(id: usize) -> (r: Self) {
        NodeId(#[verifier::truncate] (id as u32))
    }
}

impl FromSpecImpl<usize> for NodeId {
    open spec fn obeys_from_spec() -> bool {
        true
    }

    open spec fn from_spec(id: usize) -> Self {
        NodeId(id as u32)
    }
}

impl std::ops::Deref for NodeId {
    type Target = u32;

    fn deref(&self) -> (r: &u32)
        ensures
            *r == self.0,
    {
        &self.0
    }
}

impl From<u32> for EdgeId {
    fn from(id: u32) -> (r: Self) {
        EdgeId(id)
    }
}

impl FromSpecImpl<u32> for EdgeId {
    open spec fn obeys_from_spec() -> bool {
        true
    }

    open spec fn from_spec(id: u32) -> Self {
        EdgeId(id)
    }
}

impl From<usize> for EdgeId {
    /// Keeps the low 32 bits of `id`.
    fn from(id: usize) -> (r: Self) {
        EdgeId(#[verifier::truncate] (id as u32))
    }
}

impl FromSpecImpl<usize> for EdgeId {
    open spec fn obeys_from_spec() -> bool {
        true
    }

    open spec fn from_spec(id: usize) -> Self {
        EdgeId(id as u32)
    }
}

impl std::ops::Deref for EdgeId {
    type Target = u32;

    fn deref(&self) -> (r: &u32)
        ensures
            *r == self.0,
    {
        &self.0
    }
}

impl From<usize> for JunctionId {
    /// Keeps the low 32 bits of `id`.
    fn from(id: usize) -> (r: Self) {
        JunctionId(#[verifier::truncate] (id as u32))
    }
}

impl FromSpecImpl<usize> for JunctionId {
    open spec fn obeys_from_spec() -> bool {
        true
    }

    open spec fn from_spec(id: usize) -> Self {
        JunctionId(id as u32)
    }
}

impl From<usize> for RoadId {
    /// Keeps the low 32 bits of `id`.
    fn from(id: usize) -> (r: Self) {
        RoadId(#[verifier::truncate] (id as u32))
    }
}

impl FromSpecImpl<usize> for RoadId {
    open spec fn obeys_from_spec() -> bool {
        true
    }

    open spec fn from_spec(id: usize) -> Self {
        RoadId(id as u32)
    }
}

} // verus!
