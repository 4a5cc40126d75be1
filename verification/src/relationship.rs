//! The kind of an edge.

use vstd::prelude::*;

verus! {

/// How an edge relates the two nodes it joins.
#[derive(Clone, Copy, Debug, PartialEq, Eq, Structural, Hash)]
pub enum Relationship {
    /// The edge points from one node, its source, to another, its
    /// destination: it is an ordered pair of nodes, and is consulted from
    /// its source only.
    Directed,
    /// The edge has no direction: it is an unordered pair of nodes, and is
    /// consulted from either of them.
    Undirected,
}

impl Relationship {
    /// Whether this is [`Relationship::Directed`].
    pub fn is_directed(&self) -> (r: bool)
        ensures
            r == (*self == Relationship::Directed),
    {
        match self {
            Relationship::Directed => true,
            Relationship::Undirected => false,
        }
    }

    /// Whether this is [`Relationship::Undirected`].
    pub fn is_undirected(&self) -> (r: bool)
        ensures
            r == (*self == Relationship::Undirected),
    {
        match self {
            Relationship::Directed => false,
            Relationship::Undirected => true,
        }
    }
}

} // verus!
