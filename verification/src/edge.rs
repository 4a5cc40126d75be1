//! Edges: an identifier, the two nodes joined, the kind of relation, and
//! what the caller stored on the edge.

use crate::id::ID;
use crate::relationship::Relationship;
use vstd::prelude::*;

verus! {

/// An edge of a graph.
#[derive(Clone, Debug)]
pub struct Edge<E> {
    /// The identifier that names the edge.
    pub id: ID,
    /// The node from which the edge originates.
    pub src: ID,
    /// The node to which the edge leads.
    pub dest: ID,
    /// Whether the edge is directed.
    pub relation: Relationship,
    /// The caller's payload, for instance the tags of a link between two
    /// files. The graph never looks into it.
    pub data: E,
}

impl<E> Edge<E> {
    /// The edge named `id` that leads from `src` to `dest`.
    pub fn new(id: ID, src: ID, dest: ID, relation: Relationship, data: E) -> (r: Self)
        ensures
            r == (Edge { id, src, dest, relation, data }),
    {
        Edge { id, src, dest, relation, data }
    }

    /// The same edge seen from its other end: source and destination are
    /// exchanged, identifier and relation are kept, and the payload is
    /// `data`.
    pub open spec fn mirrored(self, data: E) -> Edge<E> {
        Edge { id: self.id, src: self.dest, dest: self.src, relation: self.relation, data }
    }

    /// The identifier that names the edge.
    pub fn id(&self) -> (r: &ID)
        ensures
            *r == self.id,
    {
        &self.id
    }

    /// The two nodes that the edge joins, source first, and its relation.
    pub fn vertices(&self) -> (r: (&ID, &ID, Relationship))
        ensures
            *r.0 == self.src,
            *r.1 == self.dest,
            r.2 == self.relation,
    {
        (self.src(), self.dest(), self.relation)
    }

    /// The node from which the edge originates.
    pub fn src(&self) -> (r: &ID)
        ensures
            *r == self.src,
    {
        &self.src
    }

    /// The node to which the edge leads.
    pub fn dest(&self) -> (r: &ID)
        ensures
            *r == self.dest,
    {
        &self.dest
    }

    /// Whether the edge is directed.
    pub fn relation(&self) -> (r: Relationship)
        ensures
            r == self.relation,
    {
        self.relation
    }

    /// The payload of the edge.
    pub fn data(&self) -> (r: &E)
        ensures
            *r == self.data,
    {
        &self.data
    }
}

} // verus!
