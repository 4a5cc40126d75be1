//! The graph: nodes under their identifiers, and for each node the edges
//! that leave it.
//!
//! What a graph holds is its view, a [`GraphView`]; every operation is
//! specified as the function of that name on views. The nodes and the
//! adjacency entries are kept in hash tables keyed by the number that an
//! identifier carries; each graph owns the generator that mints its
//! identifiers.

use crate::adjacency::{find_edge_named, find_edge_to, remove_edges_to, without_dest};
use crate::edge::Edge;
use crate::error::GraphError;
use crate::id::{id_generator, Generator, ID};
use crate::laws::{
    law_directed_edge_touches_source_only, law_removed_node_leaves_no_edge,
    law_undirected_edge_is_two_way, law_undirected_graph_is_symmetric,
};
use crate::model::GraphView;
use crate::node::Node;
use crate::relation::Relation;
use crate::relationship::Relationship;
use std::collections::HashMap;
use vstd::prelude::*;
use vstd::std_specs::hash::{group_hash_axioms, spec_keys_iter};
use vstd::std_specs::iter::IteratorSpec;

verus! {

broadcast use group_hash_axioms;

/// A graph whose nodes hold an `N` each and whose edges hold an `E` each.
pub struct Graph<N, E> {
    nodes: HashMap<usize, Node<N>>,
    adjacency_list: HashMap<usize, Vec<Edge<E>>>,
    id_generator: Generator,
    root: Option<ID>,
    relation: Relationship,
}

impl<N, E> View for Graph<N, E> {
    type V = GraphView<N, E>;

    closed spec fn view(&self) -> GraphView<N, E> {
        GraphView {
            nodes: Map::new(
                |id: ID| self.nodes@.contains_key(id.id),
                |id: ID| self.nodes@[id.id],
            ),
            adjacency: Map::new(
                |id: ID| self.adjacency_list@.contains_key(id.id),
                |id: ID| self.adjacency_list@[id.id]@,
            ),
            root: self.root,
            relation: self.relation,
            next: self.id_generator@,
        }
    }
}

impl<N, E> Graph<N, E> {
    /// The graph is well formed: what it holds is a valid graph.
    pub open spec fn wf(&self) -> bool {
        self@.valid()
    }

    /// No identifier is left to name a further node or edge.
    pub open spec fn exhausted(&self) -> bool {
        self@.next >= usize::MAX
    }

    /// An empty graph with a generator of its own, which has minted nothing
    /// yet. Its edges will have the relation `relation`.
    pub fn new(relation: Relationship) -> (g: Self)
        ensures
            g.wf(),
            g@ == GraphView::<N, E>::empty(relation, 0),
    {
        Self::with_generator(relation, id_generator())
    }

    /// An empty graph that mints its identifiers from `id_generator`.
    pub fn with_generator(relation: Relationship, id_generator: Generator) -> (g: Self)
        ensures
            g.wf(),
            g@ == GraphView::<N, E>::empty(relation, id_generator@),
    {
        let g = Graph {
            nodes: HashMap::new(),
            adjacency_list: HashMap::new(),
            id_generator,
            root: None,
            relation,
        };
        proof {
            g.id_generator.lemma_view_bounded();
            assert(g@.nodes =~= Map::<ID, Node<N>>::empty());
            assert(g@.adjacency =~= Map::<ID, Seq<Edge<E>>>::empty());
            GraphView::<N, E>::lemma_empty_valid(relation, id_generator@);
        }
        g
    }

    /// Whether the graph has run out of identifiers.
    pub fn is_exhausted(&self) -> (r: bool)
        ensures
            r == self.exhausted(),
    {
        self.id_generator.is_exhausted()
    }

    /// The relation of the graph's edges.
    pub fn relation(&self) -> (r: Relationship)
        ensures
            r == self@.relation,
    {
        self.relation
    }

    /// The root of the graph, if one was chosen.
    pub fn root(&self) -> (r: Option<ID>)
        ensures
            r == self@.root,
    {
        self.root
    }

    /// Whether the graph holds a node named `id`.
    pub fn has_node(&self, id: &ID) -> (r: bool)
        ensures
            r == self@.has_node(*id),
    {
        self.nodes.contains_key(&id.id)
    }

    /// Mints the next identifier of the graph.
    fn next_id(&mut self) -> (r: ID)
        requires
            !old(self).exhausted(),
        ensures
            r == old(self)@.fresh(),
            final(self)@ == (GraphView { next: old(self)@.next + 1, ..old(self)@ }),
    {
        let id = self.id_generator.mint();
        id
    }

    /// Adds a node that holds `data`, and returns the identifier minted for
    /// it. No edge leaves the new node.
    pub fn add_node(&mut self, data: N) -> (r: ID)
        requires
            old(self).wf(),
            !old(self).exhausted(),
        ensures
            final(self).wf(),
            r == old(self)@.fresh(),
            !old(self)@.has_node(r),
            final(self)@ == old(self)@.add_node(data),
            final(self)@.has_node(r),
    {
        let id = self.next_id();
        self.nodes.insert(id.id, Node::new(id, data));
        self.adjacency_list.insert(id.id, Vec::new());
        proof {
            let after = old(self)@.add_node(data);
            assert(self@.nodes =~= after.nodes);
            assert(self@.adjacency =~= after.adjacency);
            old(self)@.lemma_add_node_valid(data);
        }
        id
    }

    /// Whether some edge leaves `src` and leads to `dest`. There is none
    /// where `src` is no node.
    pub fn has_edge(&self, src: &ID, dest: &ID) -> (r: bool)
        ensures
            r == self@.has_edge(*src, *dest),
    {
        match self.adjacency_list.get(&src.id) {
            Some(edges) => find_edge_to(edges, dest).is_some(),
            None => false,
        }
    }

    /// The node named `id`.
    pub fn node(&self, id: &ID) -> (r: Option<&Node<N>>)
        ensures
            r is Some <==> self@.has_node(*id),
            r matches Some(node) ==> *node == self@.nodes[*id],
    {
        self.nodes.get(&id.id)
    }

    /// The edges that leave the node `src`, in the order in which they were
    /// added.
    pub fn edges(&self, src: &ID) -> (r: Option<&Vec<Edge<E>>>)
        ensures
            r is Some <==> self@.adjacency.contains_key(*src),
            r matches Some(edges) ==> edges@ == self@.adjacency[*src],
    {
        self.adjacency_list.get(&src.id)
    }

    /// The identifiers of the nodes, each once, in no particular order.
    pub fn node_ids(&self) -> (r: Vec<ID>)
        ensures
            r@.no_duplicates(),
            forall|id: ID| r@.contains(id) <==> self@.has_node(id),
    {
        let keys = keys_of(&self.nodes);
        let mut ids: Vec<ID> = Vec::new();
        let mut i: usize = 0;
        while i < keys.len()
            invariant
                i <= keys.len(),
                ids@.len() == i,
                forall|j: int| 0 <= j < i ==> (#[trigger] ids@[j]).id == keys@[j],
            decreases keys.len() - i,
        {
            ids.push(ID::from(keys[i]));
            i = i + 1;
        }
        proof {
            assert forall|id: ID| ids@.contains(id) <==> self@.has_node(id) by {
                if ids@.contains(id) {
                    let j = choose|j: int| 0 <= j < ids@.len() && ids@[j] == id;
                    assert(keys@[j] == id.id);
                    assert(keys@.contains(id.id));
                }
                if self@.has_node(id) {
                    assert(keys@.contains(id.id));
                    let j = choose|j: int| 0 <= j < keys@.len() && keys@[j] == id.id;
                    assert(ids@[j] == id);
                }
            }
        }
        ids
    }

    /// Makes the node `id` the root of the graph.
    pub fn set_root(&mut self, id: ID) -> (r: Result<(), GraphError>)
        requires
            old(self).wf(),
        ensures
            final(self).wf(),
            old(self)@.has_node(id) ==> r == Ok::<(), GraphError>(())
                && final(self)@ == old(self)@.with_root(id),
            !old(self)@.has_node(id) ==> r == Err::<(), GraphError>(GraphError::NodeNotFound)
                && final(self)@ == old(self)@,
    {
        if !self.has_node(&id) {
            return Err(GraphError::NodeNotFound);
        }
        self.root = Some(id);
        proof {
            old(self)@.lemma_with_root_valid(id);
        }
        Ok(())
    }

    /// Adds `edge` behind the edges that leave its source.
    fn push_edge(&mut self, edge: Edge<E>)
        ensures
            final(self)@ == old(self)@.with_edge(edge),
    {
        let edges = self.adjacency_list.entry(edge.src.id).or_insert(Vec::new());
        edges.push(edge);
        proof {
            let after = old(self)@.with_edge(edge);
            assert(self@.adjacency =~= after.adjacency);
            assert(self@.nodes =~= after.nodes);
        }
    }

    /// The identifier of the first edge from `src` to `dest`.
    fn first_edge_id(&self, src: &ID, dest: &ID) -> (r: Option<ID>)
        ensures
            r is Some <==> self@.has_edge(*src, *dest),
            r matches Some(id) ==> id == self@.first_edge(*src, *dest).id,
    {
        match self.adjacency_list.get(&src.id) {
            Some(edges) => match find_edge_to(edges, dest) {
                Some(at) => Some(edges[at].id),
                None => None,
            },
            None => None,
        }
    }

    /// Removes the edge named `id` from those that leave `src`, if there is
    /// one.
    fn remove_edge_named(&mut self, src: &ID, id: &ID)
        ensures
            final(self)@ == old(self)@.without_edge_named(*src, *id),
    {
        let found = match self.adjacency_list.get(&src.id) {
            Some(edges) => find_edge_named(edges, id),
            None => None,
        };
        if let Some(at) = found {
            let edges = self.adjacency_list.entry(src.id).or_insert(Vec::new());
            edges.remove(at);
            proof {
                let after = old(self)@.without_edge_named(*src, *id);
                assert(self@.adjacency =~= after.adjacency);
                assert(self@.nodes =~= after.nodes);
            }
        }
    }

    /// Removes the first edge from `src` to `dest`. Where that edge is
    /// undirected and no loop, its mirror among the edges that leave `dest`
    /// is removed too. Fails with `EdgeNotFound`, and changes nothing, where
    /// no edge leads from `src` to `dest`.
    pub fn remove_edge(&mut self, src: &ID, dest: &ID) -> (r: Result<(), GraphError>)
        requires
            old(self).wf(),
        ensures
            final(self).wf(),
            old(self)@.removes_edge(*src, *dest, final(self)@, r),
    {
        let found = match self.adjacency_list.get(&src.id) {
            Some(edges) => find_edge_to(edges, dest),
            None => None,
        };
        match found {
            None => Err(GraphError::EdgeNotFound),
            Some(at) => {
                let edges = self.adjacency_list.entry(src.id).or_insert(Vec::new());
                let edge = edges.remove(at);
                proof {
                    let before = old(self)@;
                    let cut = GraphView {
                        adjacency: before.adjacency.insert(
                            *src,
                            before.edges_from(*src).remove(at as int),
                        ),
                        ..before
                    };
                    assert(self@.adjacency =~= cut.adjacency);
                    assert(self@.nodes =~= cut.nodes);
                    assert(self@ == cut);
                    assert(edge == before.first_edge(*src, *dest));
                    before.lemma_remove_edge_valid(*src, *dest);
                }
                if edge.relation.is_undirected() && src.id != dest.id {
                    self.remove_edge_named(dest, &edge.id);
                }
                Ok(())
            },
        }
    }

    /// Removes the node `id`, the edges that leave it, and every edge
    /// elsewhere that leads to it. Fails with `NodeNotFound`, and changes
    /// nothing, where `id` is no node.
    pub fn remove_node(&mut self, id: &ID) -> (r: Result<(), GraphError>)
        requires
            old(self).wf(),
        ensures
            final(self).wf(),
            old(self)@.removes_node(*id, final(self)@, r),
            r is Ok <==> old(self)@.has_node(*id),
            r is Ok ==> !final(self)@.has_node(*id),
            r is Ok ==> forall|src: ID| !#[trigger] final(self)@.has_edge(src, *id),
    {
        if !self.has_node(id) {
            return Err(GraphError::NodeNotFound);
        }
        self.nodes.remove(&id.id);
        self.adjacency_list.remove(&id.id);
        let keys = keys_of(&self.adjacency_list);
        let ghost lists = self.adjacency_list@;
        let mut i: usize = 0;
        while i < keys.len()
            invariant
                i <= keys.len(),
                keys@.no_duplicates(),
                forall|k: usize| keys@.contains(k) <==> lists.contains_key(k),
                self.nodes@ == old(self).nodes@.remove(id.id),
                self.root == old(self).root,
                self.relation == old(self).relation,
                self.id_generator == old(self).id_generator,
                self.adjacency_list@.dom() == lists.dom(),
                forall|j: int|
                    0 <= j < i ==> (#[trigger] self.adjacency_list@[keys@[j]])@ == without_dest(
                        lists[keys@[j]]@,
                        *id,
                    ),
                forall|j: int|
                    i <= j < keys.len() ==> #[trigger] self.adjacency_list@[keys@[j]]
                        == lists[keys@[j]],
            decreases keys.len() - i,
        {
            let key = keys[i];
            assert(keys@.contains(key));
            let ghost earlier = self.adjacency_list@;
            let edges = self.adjacency_list.entry(key).or_insert(Vec::new());
            remove_edges_to(edges, id);
            proof {
                assert(self.adjacency_list@.dom() =~= lists.dom());
                assert forall|j: int| 0 <= j < i + 1 implies (#[trigger] self.adjacency_list@[keys@[j]])@
                    == without_dest(lists[keys@[j]]@, *id) by {
                    if j < i {
                        assert(keys@[j] != key);
                        assert(self.adjacency_list@[keys@[j]] == earlier[keys@[j]]);
                    }
                }
                assert forall|j: int| i + 1 <= j < keys.len() implies #[trigger] self.adjacency_list@[keys@[j]]
                    == lists[keys@[j]] by {
                    assert(keys@[j] != key);
                    assert(self.adjacency_list@[keys@[j]] == earlier[keys@[j]]);
                }
            }
            i = i + 1;
        }
        if self.root == Some(*id) {
            self.root = None;
        }
        proof {
            let after = old(self)@.remove_node(*id);
            assert(self@.nodes =~= after.nodes);
            assert(self@.adjacency =~= after.adjacency) by {
                assert forall|k: ID| self@.adjacency.contains_key(k) implies #[trigger] self@.adjacency[k]
                    == after.adjacency[k] by {
                    assert(keys@.contains(k.id));
                    let j = choose|j: int| 0 <= j < keys@.len() && keys@[j] == k.id;
                    assert(self.adjacency_list@[keys@[j]]@ == without_dest(lists[keys@[j]]@, *id));
                }
            }
            old(self)@.lemma_remove_node_valid(*id);
            assert forall|src: ID| !#[trigger] after.has_edge(src, *id) by {
                law_removed_node_leaves_no_edge(old(self)@, src, *id);
            }
        }
        Ok(())
    }
}

impl<N, E: Clone> Graph<N, E> {
    /// Adds an edge from `src` to `dest` that holds `data`, with the graph's
    /// relation, behind the edges that leave `src`, and returns the
    /// identifier minted for it. In an undirected graph the edge is also
    /// added, mirrored and holding a clone of `data`, behind the edges that
    /// leave `dest`, unless it is a loop. Fails with `NodeNotFound`, and
    /// changes nothing, where `src` or `dest` is no node.
    ///
    /// An identifier must be left only where both are nodes.
    pub fn add_edge(&mut self, src: ID, dest: ID, data: E) -> (r: Result<ID, GraphError>)
        requires
            old(self).wf(),
            old(self)@.has_node(src) && old(self)@.has_node(dest) ==> !old(self).exhausted(),
        ensures
            final(self).wf(),
            old(self)@.adds_edge(src, dest, data, final(self)@, r),
            r is Ok <==> old(self)@.has_node(src) && old(self)@.has_node(dest),
            r is Ok ==> final(self)@.has_edge(src, dest),
            r is Ok && old(self)@.relation == Relationship::Undirected
                ==> final(self)@.has_edge(dest, src),
            r is Ok && old(self)@.relation == Relationship::Directed && src != dest
                ==> final(self)@.has_edge(dest, src) == old(self)@.has_edge(dest, src),
            r is Err ==> final(self)@ == old(self)@,
            forall|id: ID| #[trigger] final(self)@.has_node(id) == old(self)@.has_node(id),
    {
        if !self.has_node(&src) || !self.has_node(&dest) {
            return Err(GraphError::NodeNotFound);
        }
        let id = self.next_id();
        let relation = self.relation;
        if relation.is_undirected() && src.id != dest.id {
            let twin = data.clone();
            let edge = Edge::new(id, src, dest, relation, data);
            self.push_edge(edge);
            self.push_edge(Edge::new(id, dest, src, relation, twin));
            proof {
                assert(self@ == old(self)@.add_edge(src, dest, data, twin));
                old(self)@.lemma_add_edge_valid(src, dest, data, twin);
                old(self)@.lemma_add_edge_has_edge(src, dest, data, twin);
                law_undirected_edge_is_two_way(old(self)@, src, dest, data, twin);
            }
        } else {
            let edge = Edge::new(id, src, dest, relation, data);
            self.push_edge(edge);
            proof {
                assert(self@ == old(self)@.add_edge(src, dest, data, data));
                old(self)@.lemma_add_edge_valid(src, dest, data, data);
                old(self)@.lemma_add_edge_has_edge(src, dest, data, data);
                if relation == Relationship::Undirected {
                    law_undirected_edge_is_two_way(old(self)@, src, dest, data, data);
                } else if src != dest {
                    law_directed_edge_touches_source_only(old(self)@, src, dest, data, data, dest);
                }
            }
        }
        Ok(id)
    }
}

impl<N, E: Clone> Relation<ID> for Graph<N, E> {
    type Data = E;

    open spec fn usable(&self) -> bool {
        self.wf()
    }

    open spec fn full(&self) -> bool {
        self.exhausted()
    }

    open spec fn member(&self, id: ID) -> bool {
        self@.has_node(id)
    }

    open spec fn connected(&self, src: ID, dest: ID) -> bool {
        self@.has_edge(src, dest)
    }

    /// Connects `src` to `dest`. Where an edge leads from `src` to `dest`
    /// already, nothing changes and the identifier of the first such edge is
    /// returned; otherwise an edge that holds `data` is added as `add_edge`
    /// does. Fails with `NodeNotFound`, and changes nothing, where `src` or
    /// `dest` is no node.
    fn connect(&mut self, src: ID, dest: ID, data: E) -> (r: Result<ID, GraphError>)
        ensures
            old(self)@.connects(src, dest, data, final(self)@, r),
            r is Ok && old(self)@.relation == Relationship::Undirected
                ==> final(self)@.has_edge(dest, src),
    {
        proof {
            if self@.has_edge(src, dest) {
                self@.lemma_edge_joins_nodes(src, dest);
                if self@.relation == Relationship::Undirected {
                    law_undirected_graph_is_symmetric(self@, src, dest);
                }
            }
        }
        match self.first_edge_id(&src, &dest) {
            Some(id) => Ok(id),
            None => self.add_edge(src, dest, data),
        }
    }

    /// Disconnects `src` from `dest`: removes the first edge from the one to
    /// the other, as `remove_edge` does. Fails with `EdgeNotFound`, and
    /// changes nothing, where there is no such edge.
    fn disconnect(&mut self, src: ID, dest: ID) -> (r: Result<(), GraphError>)
        ensures
            old(self)@.removes_edge(src, dest, final(self)@, r),
    {
        self.remove_edge(&src, &dest)
    }
}

/// The numbers under which `map` holds an entry, each of them once.
fn keys_of<V>(map: &HashMap<usize, V>) -> (keys: Vec<usize>)
    ensures
        keys@.no_duplicates(),
        forall|k: usize| keys@.contains(k) <==> map@.contains_key(k),
{
    let mut keys: Vec<usize> = Vec::new();
    for k in it: map.keys()
        invariant
            keys@.len() == it.index(),
            forall|i: int| 0 <= i < keys@.len() ==> keys@[i] == *#[trigger] it.seq()[i],
            it.seq() == spec_keys_iter(map).remaining(),
    {
        keys.push(*k);
    }
    proof {
        let all = spec_keys_iter(map).remaining();
        assert(keys@ =~= all.unref());
        assert forall|k: usize| keys@.contains(k) <==> map@.contains_key(k) by {
            assert(all.unref().to_set().contains(k) <==> map@.dom().contains(k));
        }
    }
    keys
}

} // verus!
