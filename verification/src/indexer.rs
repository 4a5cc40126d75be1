//! What a walk over a directory tree stores in the nodes of a graph.

use vstd::prelude::*;

verus! {

/// The kind of an entry of a directory tree.
#[derive(Clone, Debug)]
pub enum FileType {
    File,
    Directory,
}

/// An entry of a directory tree.
#[derive(Clone, Debug)]
pub struct File {}

} // verus!
