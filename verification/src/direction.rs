//! Direction tags of edge records and of searches.

use vstd::prelude::*;

verus! {

/// How the edge record stored at a node may be traversed from that node.
///
/// The declaration order is the order in which the records of one node are
/// stored: outgoing first, then bidirectional, then incoming.
#[derive(Debug, Clone, Copy, PartialEq, Eq, PartialOrd, Ord, Hash, Structural)]
pub enum EdgeDirection {
    Forward,
    Both,
    Backward,
}

impl EdgeDirection {
    /// Position of the tag in the storage order.
    pub open spec fn rank(self) -> int {
        match self {
            EdgeDirection::Forward => 0,
            EdgeDirection::Both => 1,
            EdgeDirection::Backward => 2,
        }
    }

    /// The tag seen from the other endpoint.
    pub open spec fn reversed(self) -> EdgeDirection {
        match self {
            EdgeDirection::Forward => EdgeDirection::Backward,
            EdgeDirection::Both => EdgeDirection::Both,
            EdgeDirection::Backward => EdgeDirection::Forward,
        }
    }

    /// Whether a record with this tag is traversed by a search that runs in
    /// direction `search`.
    pub open spec fn admits(self, search: EdgeDirection) -> bool {
        self == search || self == EdgeDirection::Both
    }

    /// Position of the tag in the storage order.
    pub fn order(self) -> (r: u8)
        ensures
            r == self.rank(),
    {
        match self {
            EdgeDirection::Forward => 0,
            EdgeDirection::Both => 1,
            EdgeDirection::Backward => 2,
        }
    }

    /// The tag seen from the other endpoint: forward and backward swap,
    /// bidirectional stays.
    pub fn neg(self) -> (r: EdgeDirection)
        ensures
            r == self.reversed(),
    {
        match self {
            EdgeDirection::Forward => EdgeDirection::Backward,
            EdgeDirection::Both => EdgeDirection::Both,
            EdgeDirection::Backward => EdgeDirection::Forward,
        }
    }

    /// Whether a record with this tag is traversed by a search that runs in
    /// direction `search`.
    pub fn matches_search(self, search: EdgeDirection) -> (r: bool)
        ensures
            r == self.admits(search),
    {
        self == search || self == EdgeDirection::Both
    }
}

/// Reversing a tag twice gives the tag back.
pub proof fn lemma_reverse_involutive(d: EdgeDirection)
    ensures
        d.reversed().reversed() == d,
{
}

/// Marker of a search along outgoing edges.
#[derive(Debug, Clone, Copy, PartialEq, Eq)]
pub struct Forward;

/// Marker of a search along incoming edges.
#[derive(Debug, Clone, Copy, PartialEq, Eq)]
pub struct Backward;

impl Forward {
    /// The direction tag of this marker.
    pub fn direction() -> (r: EdgeDirection)
        ensures
            r == EdgeDirection::Forward,
    {
        EdgeDirection::Forward
    }
}

impl Backward {
    /// The direction tag of this marker.
    pub fn direction() -> (r: EdgeDirection)
        ensures
            r == EdgeDirection::Backward,
    {
        EdgeDirection::Backward
    }
}

} // verus!
