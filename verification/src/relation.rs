//! Connecting and disconnecting, apart from the container that does it.

use crate::error::GraphError;
use vstd::prelude::*;

verus! {

/// A collection whose members, named by identifiers of type `I`, can be
/// connected to one another and disconnected again.
///
/// Between two members there is at most one connection made by `connect`:
/// connecting what is connected already changes nothing.
pub trait Relation<I> {
    /// What a connection holds.
    type Data;

    /// The collection is in a state in which it can be used.
    spec fn usable(&self) -> bool;

    /// No identifier is left to name a further connection.
    spec fn full(&self) -> bool;

    /// `id` names a member.
    spec fn member(&self, id: I) -> bool;

    /// `src` is connected to `dest`.
    spec fn connected(&self, src: I, dest: I) -> bool;

    /// Connects `src` to `dest` and returns the identifier of the
    /// connection, which is the existing one where the two are connected
    /// already. Fails with `NodeNotFound`, and connects nothing, exactly
    /// where one of the two is no member. The members stay as they are.
    ///
    /// An identifier must be left only where a new connection is made.
    fn connect(&mut self, src: I, dest: I, data: Self::Data) -> (r: Result<I, GraphError>)
        requires
            old(self).usable(),
            old(self).member(src) && old(self).member(dest) && !old(self).connected(src, dest)
                ==> !old(self).full(),
        ensures
            final(self).usable(),
            r is Ok <==> old(self).member(src) && old(self).member(dest),
            r is Ok ==> final(self).connected(src, dest),
            r matches Err(e) ==> e == GraphError::NodeNotFound,
            r is Err || old(self).connected(src, dest) ==> forall|a: I, b: I| #[trigger]
                final(self).connected(a, b) == old(self).connected(a, b),
            forall|id: I| #[trigger] final(self).member(id) == old(self).member(id),
    ;

    /// Removes a connection from `src` to `dest`. Fails with
    /// `EdgeNotFound`, and removes nothing, exactly where `src` is not
    /// connected to `dest`. The members stay as they are.
    fn disconnect(&mut self, src: I, dest: I) -> (r: Result<(), GraphError>)
        requires
            old(self).usable(),
        ensures
            final(self).usable(),
            r is Ok <==> old(self).connected(src, dest),
            r matches Err(e) ==> e == GraphError::EdgeNotFound,
            r is Err ==> forall|a: I, b: I| #[trigger]
                final(self).connected(a, b) == old(self).connected(a, b),
            forall|id: I| #[trigger] final(self).member(id) == old(self).member(id),
    ;
}

} // verus!
