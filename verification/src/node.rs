//! Nodes: an identifier and what the caller stored under it.

use crate::id::ID;
use vstd::prelude::*;

verus! {

/// A node of a graph.
///
/// `id` names the node; `data` is the caller's payload, which the graph
/// never looks into.
#[derive(Clone, Debug)]
pub struct Node<N> {
    pub id: ID,
    pub data: N,
}

impl<N> Node<N> {
    /// The node named `id` that holds `data`.
    pub fn new(id: ID, data: N) -> (r: Self)
        ensures
            r == (Node { id, data }),
    {
        Node { id, data }
    }

    /// The identifier that names the node.
    pub fn id(&self) -> (r: &ID)
        ensures
            *r == self.id,
    {
        &self.id
    }

    /// The payload of the node.
    pub fn data(&self) -> (r: &N)
        ensures
            *r == self.data,
    {
        &self.data
    }
}

} // verus!
