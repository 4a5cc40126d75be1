//! The graph as a mathematical value.
//!
//! A [`GraphView`] is what a graph holds, without the hash tables and
//! vectors that hold it: a map from identifiers to nodes, a map from
//! identifiers to the edges that leave each node, the root, the relation of
//! the graph's edges, and the number of the next identifier. Each operation
//! of the graph is a function on such values. The contracts of
//! [`crate::graph::Graph`] say that the executable operations compute these
//! functions. This module also shows that each of them keeps a graph valid.

use crate::adjacency::{
    count_to, first_named, first_to, holds_named, leads_to, lemma_first_named, lemma_first_to,
    lemma_without_dest, lemma_without_dest_names_differ, names_differ, without_dest,
};
use crate::edge::Edge;
use crate::error::GraphError;
use crate::id::ID;
use crate::node::Node;
use crate::relationship::Relationship;
use vstd::prelude::*;

verus! {

/// What a graph holds.
#[verifier::ext_equal]
pub struct GraphView<N, E> {
    /// The nodes, each under its identifier.
    pub nodes: Map<ID, Node<N>>,
    /// For each node, the edges that leave it, in the order in which they
    /// were added.
    pub adjacency: Map<ID, Seq<Edge<E>>>,
    /// The distinguished node, if one was chosen.
    pub root: Option<ID>,
    /// The relation of every edge of the graph.
    pub relation: Relationship,
    /// The number that the next minted identifier will carry.
    pub next: nat,
}

impl<N, E> GraphView<N, E> {
    /// The graph without nodes or edges, whose first identifier will carry
    /// `next`.
    pub open spec fn empty(relation: Relationship, next: nat) -> Self {
        GraphView { nodes: Map::empty(), adjacency: Map::empty(), root: None, relation, next }
    }

    /// The graph is linked up: the nodes are finitely many and each is
    /// stored under its own identifier; exactly the nodes have an adjacency
    /// entry; every edge is stored under its source, leads to a node of the
    /// graph, and has the graph's relation; the root, if set, is a node; and
    /// every identifier in the graph was minted before `next`, which fits in
    /// a machine word.
    pub open spec fn linked(self) -> bool {
        &&& self.nodes.dom().finite()
        &&& self.next <= usize::MAX
        &&& self.adjacency.dom() == self.nodes.dom()
        &&& forall|id: ID| #[trigger]
            self.nodes.contains_key(id) ==> self.nodes[id].id == id && id@ < self.next
        &&& forall|src: ID, i: int|
            self.adjacency.contains_key(src) && 0 <= i < self.adjacency[src].len() ==> {
                let e = #[trigger] self.adjacency[src][i];
                &&& e.src == src
                &&& self.nodes.contains_key(e.dest)
                &&& e.relation == self.relation
                &&& e.id@ < self.next
            }
        &&& self.root matches Some(r) ==> self.nodes.contains_key(r)
    }

    /// An edge stands at place `i` among those that leave `src`.
    pub open spec fn has_place(self, src: ID, i: int) -> bool {
        self.adjacency.contains_key(src) && 0 <= i < self.adjacency[src].len()
    }

    /// Every identifier names one thing: no edge is named like a node, no
    /// two edges that leave the same node have the same name, and two edges
    /// that leave different nodes have the same name only where the graph is
    /// undirected and each leads to the node that the other leaves, that is,
    /// where they are one edge and its mirror.
    pub open spec fn named_apart(self) -> bool {
        &&& forall|src: ID, i: int|
            self.has_place(src, i) ==> !self.nodes.contains_key(
                (#[trigger] self.adjacency[src][i]).id,
            )
        &&& forall|src: ID, i: int, j: int|
            self.has_place(src, i) && self.has_place(src, j) && i != j
                ==> (#[trigger] self.adjacency[src][i]).id != (#[trigger] self.adjacency[src][j]).id
        &&& forall|a: ID, i: int, b: ID, j: int|
            self.has_place(a, i) && self.has_place(b, j) && a != b
                && (#[trigger] self.adjacency[a][i]).id == (#[trigger] self.adjacency[b][j]).id ==> {
                &&& self.relation == Relationship::Undirected
                &&& self.adjacency[a][i].dest == b
                &&& self.adjacency[b][j].dest == a
            }
    }

    /// In an undirected graph every edge that is no loop has its mirror:
    /// among the edges that leave its destination, one has its name.
    pub open spec fn paired(self) -> bool {
        forall|src: ID, i: int|
            self.has_place(src, i) && self.relation == Relationship::Undirected
                && (#[trigger] self.adjacency[src][i]).dest != src ==> holds_named(
                self.edges_from(self.adjacency[src][i].dest),
                self.adjacency[src][i].id,
            )
    }

    /// What holds of every graph: it is linked up, its identifiers name one
    /// thing each, and in an undirected graph every edge has its mirror.
    pub open spec fn valid(self) -> bool {
        &&& self.linked()
        &&& self.named_apart()
        &&& self.paired()
    }

    /// The graph holds a node named `id`.
    pub open spec fn has_node(self, id: ID) -> bool {
        self.nodes.contains_key(id)
    }

    /// The edges that leave `src`; none where `src` is no node.
    pub open spec fn edges_from(self, src: ID) -> Seq<Edge<E>> {
        if self.adjacency.contains_key(src) {
            self.adjacency[src]
        } else {
            Seq::empty()
        }
    }

    /// Some edge leaves `src` and leads to `dest`.
    pub open spec fn has_edge(self, src: ID, dest: ID) -> bool {
        leads_to(self.edges_from(src), dest)
    }

    /// The first edge that leaves `src` and leads to `dest`.
    pub open spec fn first_edge(self, src: ID, dest: ID) -> Edge<E>
        recommends
            self.has_edge(src, dest),
    {
        self.edges_from(src)[first_to(self.edges_from(src), dest)]
    }

    /// How many edges leave `src` and lead to `dest`.
    pub open spec fn edge_count(self, src: ID, dest: ID) -> nat {
        count_to(self.edges_from(src), dest)
    }

    /// The identifier that the graph mints next.
    pub open spec fn fresh(self) -> ID {
        ID { id: self.next as usize }
    }

    /// An edge from `src` to `dest` is stored twice, once under each end.
    pub open spec fn mirrors(self, src: ID, dest: ID) -> bool {
        self.relation == Relationship::Undirected && src != dest
    }

    /// The graph with one more node, which holds `data` and is named by the
    /// next identifier; no edge leaves it.
    pub open spec fn add_node(self, data: N) -> Self {
        let id = self.fresh();
        GraphView {
            nodes: self.nodes.insert(id, Node { id, data }),
            adjacency: self.adjacency.insert(id, Seq::empty()),
            next: self.next + 1,
            ..self
        }
    }

    /// The graph with `edge` added behind the edges that leave `edge.src`.
    pub open spec fn with_edge(self, edge: Edge<E>) -> Self {
        GraphView {
            adjacency: self.adjacency.insert(edge.src, self.edges_from(edge.src).push(edge)),
            ..self
        }
    }

    /// The graph with one more edge from `src` to `dest`, which holds `data`
    /// and is named by the next identifier. In an undirected graph the edge
    /// is also added, mirrored and holding `twin`, behind the edges that
    /// leave `dest`, unless it is a loop.
    pub open spec fn add_edge(self, src: ID, dest: ID, data: E, twin: E) -> Self {
        let edge = Edge { id: self.fresh(), src, dest, relation: self.relation, data };
        let one = self.with_edge(edge);
        let both = if self.mirrors(src, dest) {
            one.with_edge(edge.mirrored(twin))
        } else {
            one
        };
        GraphView { next: self.next + 1, ..both }
    }

    /// The graph without the node `id`: its adjacency entry is gone, and so
    /// is every edge elsewhere that led to it. If it was the root, the graph
    /// has no root.
    pub open spec fn remove_node(self, id: ID) -> Self {
        GraphView {
            nodes: self.nodes.remove(id),
            adjacency: self.adjacency.remove(id).map_values(
                |edges: Seq<Edge<E>>| without_dest(edges, id),
            ),
            root: if self.root == Some(id) {
                None
            } else {
                self.root
            },
            ..self
        }
    }

    /// The graph without the edge named `id` among those that leave `src`;
    /// the graph itself where there is none.
    pub open spec fn without_edge_named(self, src: ID, id: ID) -> Self {
        let edges = self.edges_from(src);
        let at = first_named(edges, id);
        if at < edges.len() {
            GraphView { adjacency: self.adjacency.insert(src, edges.remove(at)), ..self }
        } else {
            self
        }
    }

    /// The graph without the first edge from `src` to `dest`; where that
    /// edge is undirected and no loop, its mirror among the edges that leave
    /// `dest` is gone too.
    pub open spec fn remove_edge(self, src: ID, dest: ID) -> Self
        recommends
            self.has_edge(src, dest),
    {
        let edges = self.edges_from(src);
        let edge = self.first_edge(src, dest);
        let cut = GraphView {
            adjacency: self.adjacency.insert(src, edges.remove(first_to(edges, dest))),
            ..self
        };
        if edge.relation == Relationship::Undirected && src != dest {
            cut.without_edge_named(dest, edge.id)
        } else {
            cut
        }
    }

    /// The graph with `id` as its root.
    pub open spec fn with_root(self, id: ID) -> Self {
        GraphView { root: Some(id), ..self }
    }

    /// What adding an edge from `src` to `dest` that holds `data` makes of
    /// the graph `self`: where both are nodes, `after` is the graph with the
    /// edge added and `result` is its identifier; where one is missing,
    /// `after` is `self` and `result` is `NodeNotFound`. The payload of a
    /// mirrored edge is a clone of `data`.
    pub open spec fn adds_edge(
        self,
        src: ID,
        dest: ID,
        data: E,
        after: Self,
        result: Result<ID, GraphError>,
    ) -> bool where E: Clone {
        if self.has_node(src) && self.has_node(dest) {
            &&& result == Ok::<ID, GraphError>(self.fresh())
            &&& exists|twin: E|
                (self.mirrors(src, dest) ==> cloned(data, twin)) && after == #[trigger] self.add_edge(
                    src,
                    dest,
                    data,
                    twin,
                )
        } else {
            &&& result == Err::<ID, GraphError>(GraphError::NodeNotFound)
            &&& after == self
        }
    }

    /// What connecting `src` to `dest` makes of the graph `self`: where an
    /// edge from `src` to `dest` is there already, `after` is `self` and
    /// `result` is the identifier of the first such edge; otherwise the
    /// edge is added as by `adds_edge`.
    pub open spec fn connects(
        self,
        src: ID,
        dest: ID,
        data: E,
        after: Self,
        result: Result<ID, GraphError>,
    ) -> bool where E: Clone {
        if self.has_edge(src, dest) {
            &&& result == Ok::<ID, GraphError>(self.first_edge(src, dest).id)
            &&& after == self
        } else {
            self.adds_edge(src, dest, data, after, result)
        }
    }

    /// What removing the first edge from `src` to `dest` makes of the graph
    /// `self`: where there is such an edge, `after` is the graph without it
    /// and `result` is `Ok`; where there is none, `after` is `self` and
    /// `result` is `EdgeNotFound`.
    pub open spec fn removes_edge(
        self,
        src: ID,
        dest: ID,
        after: Self,
        result: Result<(), GraphError>,
    ) -> bool {
        if self.has_edge(src, dest) {
            &&& result == Ok::<(), GraphError>(())
            &&& after == self.remove_edge(src, dest)
        } else {
            &&& result == Err::<(), GraphError>(GraphError::EdgeNotFound)
            &&& after == self
        }
    }

    /// What removing the node `id` makes of the graph `self`: where it is a
    /// node, `after` is the graph without it and `result` is `Ok`; where it
    /// is none, `after` is `self` and `result` is `NodeNotFound`.
    pub open spec fn removes_node(self, id: ID, after: Self, result: Result<(), GraphError>) -> bool {
        if self.has_node(id) {
            &&& result == Ok::<(), GraphError>(())
            &&& after == self.remove_node(id)
        } else {
            &&& result == Err::<(), GraphError>(GraphError::NodeNotFound)
            &&& after == self
        }
    }
}


/// Every edge of `edges.remove(at)` is an edge of `edges`.
proof fn lemma_remove_keeps<E>(edges: Seq<Edge<E>>, at: int)
    requires
        0 <= at < edges.len(),
    ensures
        edges.remove(at).len() == edges.len() - 1,
        forall|i: int|
            0 <= i < edges.remove(at).len() ==> #[trigger] edges.remove(at)[i] == edges[if i
                < at {
                i
            } else {
                i + 1
            }],
{
}

impl<N, E> GraphView<N, E> {
    /// Adding a node keeps a graph linked up, as long as an identifier is
    /// left to name it.
    pub proof fn lemma_add_node_linked(self, data: N)
        requires
            self.linked(),
            self.next < usize::MAX,
        ensures
            self.add_node(data).linked(),
    {
        let after = self.add_node(data);
        let id = self.fresh();
        assert(!self.nodes.contains_key(id));
        assert(after.adjacency.dom() =~= after.nodes.dom());
    }

    /// Adding `edge` behind the edges that leave its source keeps a graph
    /// linked up, where the edge joins two nodes, has the graph's relation and
    /// an identifier minted before `next`.
    pub proof fn lemma_with_edge_linked(self, edge: Edge<E>)
        requires
            self.linked(),
            self.has_node(edge.src),
            self.has_node(edge.dest),
            edge.relation == self.relation,
            edge.id@ < self.next,
        ensures
            self.with_edge(edge).linked(),
    {
        let after = self.with_edge(edge);
        assert(after.adjacency.dom() =~= after.nodes.dom());
        assert forall|src: ID, i: int|
            after.adjacency.contains_key(src) && 0 <= i < after.adjacency[src].len() implies {
            let e = #[trigger] after.adjacency[src][i];
            &&& e.src == src
            &&& after.nodes.contains_key(e.dest)
            &&& e.relation == after.relation
            &&& e.id@ < after.next
        } by {
            if src == edge.src {
                if i < self.adjacency[src].len() {
                    assert(after.adjacency[src][i] == self.adjacency[src][i]);
                }
            } else {
                assert(after.adjacency[src][i] == self.adjacency[src][i]);
            }
        }
    }

    /// Adding an edge between two nodes keeps a graph linked up, as long as
    /// an identifier is left to name it.
    pub proof fn lemma_add_edge_linked(self, src: ID, dest: ID, data: E, twin: E)
        requires
            self.linked(),
            self.next < usize::MAX,
            self.has_node(src),
            self.has_node(dest),
        ensures
            self.add_edge(src, dest, data, twin).linked(),
    {
        let wider = GraphView { next: self.next + 1, ..self };
        assert(wider.linked()) by {
            assert forall|s: ID, i: int|
                wider.adjacency.contains_key(s) && 0 <= i < wider.adjacency[s].len() implies {
                let e = #[trigger] wider.adjacency[s][i];
                &&& e.src == s
                &&& wider.nodes.contains_key(e.dest)
                &&& e.relation == wider.relation
                &&& e.id@ < wider.next
            } by {
                assert(self.adjacency[s][i].id@ < self.next);
            }
        }
        let edge = Edge { id: self.fresh(), src, dest, relation: self.relation, data };
        wider.lemma_with_edge_linked(edge);
        let one = wider.with_edge(edge);
        if self.mirrors(src, dest) {
            one.lemma_with_edge_linked(edge.mirrored(twin));
            assert(self.add_edge(src, dest, data, twin) == one.with_edge(edge.mirrored(twin)));
        } else {
            assert(self.add_edge(src, dest, data, twin) == one);
        }
    }

    /// Removing a node keeps a graph linked up.
    pub proof fn lemma_remove_node_linked(self, id: ID)
        requires
            self.linked(),
        ensures
            self.remove_node(id).linked(),
    {
        let after = self.remove_node(id);
        assert(after.adjacency.dom() =~= after.nodes.dom());
        assert forall|src: ID, i: int|
            after.adjacency.contains_key(src) && 0 <= i < after.adjacency[src].len() implies {
            let e = #[trigger] after.adjacency[src][i];
            &&& e.src == src
            &&& after.nodes.contains_key(e.dest)
            &&& e.relation == after.relation
            &&& e.id@ < after.next
        } by {
            let before = self.adjacency[src];
            lemma_without_dest(before, id);
            let e = after.adjacency[src][i];
            assert(e == without_dest(before, id)[i]);
            assert(before.contains(e));
            let j = choose|j: int| 0 <= j < before.len() && before[j] == e;
            assert(self.adjacency[src][j] == e);
        }
    }

    /// Removing the edge named `id` from those that leave `src` keeps a
    /// graph linked up.
    pub proof fn lemma_without_edge_named_linked(self, src: ID, id: ID)
        requires
            self.linked(),
        ensures
            self.without_edge_named(src, id).linked(),
    {
        let after = self.without_edge_named(src, id);
        let edges = self.edges_from(src);
        let at = first_named(edges, id);
        lemma_first_named(edges, id);
        if at < edges.len() {
            lemma_remove_keeps(edges, at);
            assert(self.adjacency.contains_key(src));
            assert(after.adjacency.dom() =~= after.nodes.dom());
            assert forall|s: ID, i: int|
                after.adjacency.contains_key(s) && 0 <= i < after.adjacency[s].len() implies {
                let e = #[trigger] after.adjacency[s][i];
                &&& e.src == s
                &&& after.nodes.contains_key(e.dest)
                &&& e.relation == after.relation
                &&& e.id@ < after.next
            } by {
                if s == src {
                    let k = if i < at {
                        i
                    } else {
                        i + 1
                    };
                    assert(after.adjacency[s][i] == self.adjacency[s][k]);
                } else {
                    assert(after.adjacency[s][i] == self.adjacency[s][i]);
                }
            }
        }
    }

    /// Removing an edge keeps a graph linked up.
    pub proof fn lemma_remove_edge_linked(self, src: ID, dest: ID)
        requires
            self.linked(),
            self.has_edge(src, dest),
        ensures
            self.remove_edge(src, dest).linked(),
    {
        let edges = self.edges_from(src);
        let at = first_to(edges, dest);
        lemma_first_to(edges, dest);
        lemma_remove_keeps(edges, at);
        let cut = GraphView { adjacency: self.adjacency.insert(src, edges.remove(at)), ..self };
        assert(self.adjacency.contains_key(src));
        assert(cut.linked()) by {
            assert(cut.adjacency.dom() =~= cut.nodes.dom());
            assert forall|s: ID, i: int|
                cut.adjacency.contains_key(s) && 0 <= i < cut.adjacency[s].len() implies {
                let e = #[trigger] cut.adjacency[s][i];
                &&& e.src == s
                &&& cut.nodes.contains_key(e.dest)
                &&& e.relation == cut.relation
                &&& e.id@ < cut.next
            } by {
                if s == src {
                    let k = if i < at {
                        i
                    } else {
                        i + 1
                    };
                    assert(cut.adjacency[s][i] == self.adjacency[s][k]);
                } else {
                    assert(cut.adjacency[s][i] == self.adjacency[s][i]);
                }
            }
        }
        cut.lemma_without_edge_named_linked(dest, self.first_edge(src, dest).id);
    }

    /// After an edge from `src` to `dest` is added, an edge leads from
    /// `src` to `dest`.
    pub proof fn lemma_add_edge_has_edge(self, src: ID, dest: ID, data: E, twin: E)
        ensures
            self.add_edge(src, dest, data, twin).has_edge(src, dest),
    {
        let after = self.add_edge(src, dest, data, twin);
        let edge = Edge { id: self.fresh(), src, dest, relation: self.relation, data };
        let edges = self.edges_from(src);
        assert(after.edges_from(src) == edges.push(edge));
        assert(after.edges_from(src)[edges.len() as int].dest == dest);
    }

    /// In a graph that is linked up an edge joins two nodes.
    pub proof fn lemma_edge_joins_nodes(self, src: ID, dest: ID)
        requires
            self.linked(),
            self.has_edge(src, dest),
        ensures
            self.has_node(src),
            self.has_node(dest),
    {
        let edges = self.edges_from(src);
        let i = choose|i: int| 0 <= i < edges.len() && (#[trigger] edges[i]).dest == dest;
        assert(self.adjacency.contains_key(src));
        assert(self.nodes.dom().contains(src));
        assert(self.nodes.contains_key(self.adjacency[src][i].dest));
    }
}


impl<N, E> GraphView<N, E> {
    /// The empty graph is valid.
    pub proof fn lemma_empty_valid(relation: Relationship, next: nat)
        requires
            next <= usize::MAX,
        ensures
            Self::empty(relation, next).valid(),
    {
    }

    /// Adding a node keeps a graph valid, as long as an identifier is left
    /// to name it.
    pub proof fn lemma_add_node_valid(self, data: N)
        requires
            self.valid(),
            self.next < usize::MAX,
        ensures
            self.add_node(data).valid(),
    {
        self.lemma_add_node_linked(data);
        let after = self.add_node(data);
        let id = self.fresh();
        assert(!self.adjacency.contains_key(id));
        assert forall|src: ID, i: int| after.has_place(src, i) implies self.has_place(src, i)
            && #[trigger] after.adjacency[src][i] == self.adjacency[src][i] by {}
        assert(after.named_apart());
        assert forall|src: ID, i: int|
            after.has_place(src, i) && after.relation == Relationship::Undirected
                && (#[trigger] after.adjacency[src][i]).dest != src implies holds_named(
            after.edges_from(after.adjacency[src][i].dest),
            after.adjacency[src][i].id,
        ) by {
            let e = self.adjacency[src][i];
            assert(self.nodes.contains_key(e.dest));
            assert(after.edges_from(e.dest) == self.edges_from(e.dest));
        }
    }

    /// The edges that leave each node after an edge was added between two
    /// nodes.
    proof fn lemma_add_edge_lists(self, src: ID, dest: ID, data: E, twin: E)
        requires
            self.adjacency.contains_key(src),
            self.adjacency.contains_key(dest),
        ensures
            ({
                let after = self.add_edge(src, dest, data, twin);
                let edge = Edge { id: self.fresh(), src, dest, relation: self.relation, data };
                &&& after.nodes == self.nodes
                &&& after.relation == self.relation
                &&& after.adjacency.dom() == self.adjacency.dom()
                &&& after.adjacency[src] == self.adjacency[src].push(edge)
                &&& self.mirrors(src, dest) ==> after.adjacency[dest] == self.adjacency[dest].push(
                    edge.mirrored(twin),
                )
                &&& forall|s: ID|
                    s != src && !(self.mirrors(src, dest) && s == dest)
                        ==> #[trigger] after.adjacency[s] == self.adjacency[s]
            }),
    {
        let after = self.add_edge(src, dest, data, twin);
        assert(after.adjacency.dom() =~= self.adjacency.dom());
    }

    /// Adding an edge between two nodes keeps a graph valid, as long as an
    /// identifier is left to name it.
    pub proof fn lemma_add_edge_valid(self, src: ID, dest: ID, data: E, twin: E)
        requires
            self.valid(),
            self.next < usize::MAX,
            self.has_node(src),
            self.has_node(dest),
        ensures
            self.add_edge(src, dest, data, twin).valid(),
    {
        self.lemma_add_edge_linked(src, dest, data, twin);
        self.lemma_add_edge_named_apart(src, dest, data, twin);
        self.lemma_add_edge_paired(src, dest, data, twin);
    }

    /// Adding an edge between two nodes leaves every identifier naming one
    /// thing.
    proof fn lemma_add_edge_named_apart(self, src: ID, dest: ID, data: E, twin: E)
        requires
            self.valid(),
            self.next < usize::MAX,
            self.has_node(src),
            self.has_node(dest),
        ensures
            self.add_edge(src, dest, data, twin).named_apart(),
    {
        let after = self.add_edge(src, dest, data, twin);
        let edge = Edge { id: self.fresh(), src, dest, relation: self.relation, data };
        let mirror = edge.mirrored(twin);
        let at_src = self.adjacency[src].len() as int;
        let at_dest = self.adjacency[dest].len() as int;
        assert(self.adjacency.dom().contains(src) && self.adjacency.dom().contains(dest));
        self.lemma_add_edge_lists(src, dest, data, twin);
        // every edge of the new graph is an old edge in its old place, or
        // one of the two new ones
        assert forall|s: ID, i: int| after.has_place(s, i) implies {
            let e = #[trigger] after.adjacency[s][i];
            ||| self.has_place(s, i) && e == self.adjacency[s][i] && e.id@ < self.next
            ||| s == src && i == at_src && e == edge
            ||| self.mirrors(src, dest) && s == dest && i == at_dest && e == mirror
        } by {
            if s == src {
            } else if self.mirrors(src, dest) && s == dest {
            } else {
                assert(after.adjacency[s] == self.adjacency[s]);
            }
        }
        assert forall|s: ID, i: int| after.has_place(s, i) implies !after.nodes.contains_key(
            (#[trigger] after.adjacency[s][i]).id,
        ) by {
            let e = after.adjacency[s][i];
            if self.nodes.contains_key(e.id) {
                assert(e.id@ < self.next);
            }
        }
        assert forall|s: ID, i: int, j: int|
            after.has_place(s, i) && after.has_place(s, j) && i != j implies (#[trigger] after.adjacency[s][i]).id
            != (#[trigger] after.adjacency[s][j]).id by {}
        assert forall|a: ID, i: int, b: ID, j: int|
            after.has_place(a, i) && after.has_place(b, j) && a != b
                && (#[trigger] after.adjacency[a][i]).id == (#[trigger] after.adjacency[b][j]).id implies {
            &&& after.relation == Relationship::Undirected
            &&& after.adjacency[a][i].dest == b
            &&& after.adjacency[b][j].dest == a
        } by {}
    }

    /// After an edge is added between two nodes, every edge of an
    /// undirected graph has its mirror.
    proof fn lemma_add_edge_paired(self, src: ID, dest: ID, data: E, twin: E)
        requires
            self.valid(),
            self.next < usize::MAX,
            self.has_node(src),
            self.has_node(dest),
        ensures
            self.add_edge(src, dest, data, twin).paired(),
    {
        let after = self.add_edge(src, dest, data, twin);
        let edge = Edge { id: self.fresh(), src, dest, relation: self.relation, data };
        let mirror = edge.mirrored(twin);
        let at_src = self.adjacency[src].len() as int;
        let at_dest = self.adjacency[dest].len() as int;
        assert(self.adjacency.dom().contains(src) && self.adjacency.dom().contains(dest));
        self.lemma_add_edge_lists(src, dest, data, twin);
        assert forall|s: ID, i: int|
            after.has_place(s, i) && after.relation == Relationship::Undirected
                && (#[trigger] after.adjacency[s][i]).dest != s implies holds_named(
            after.edges_from(after.adjacency[s][i].dest),
            after.adjacency[s][i].id,
        ) by {
            let e = after.adjacency[s][i];
            if s == src && i == at_src {
                assert(e == edge);
                assert(after.adjacency[dest][at_dest] == mirror);
            } else if self.mirrors(src, dest) && s == dest && i == at_dest {
                assert(e == mirror);
                assert(after.adjacency[src][at_src] == edge);
            } else {
                if s != src && !(self.mirrors(src, dest) && s == dest) {
                    assert(after.adjacency[s] == self.adjacency[s]);
                }
                assert(self.has_place(s, i) && e == self.adjacency[s][i]);
                let t = e.dest;
                assert(self.nodes.contains_key(t));
                assert(self.adjacency.dom().contains(t));
                let old_back = self.edges_from(t);
                let j = choose|j: int| 0 <= j < old_back.len() && (#[trigger] old_back[j]).id == e.id;
                if t != src && !(self.mirrors(src, dest) && t == dest) {
                    assert(after.adjacency[t] == self.adjacency[t]);
                }
                assert(after.edges_from(t)[j] == old_back[j]);
            }
        }
    }

    /// The edges that leave each node after a node was removed.
    proof fn lemma_remove_node_lists(self, id: ID)
        ensures
            ({
                let after = self.remove_node(id);
                &&& after.nodes == self.nodes.remove(id)
                &&& after.relation == self.relation
                &&& forall|s: ID|
                    #![trigger after.adjacency.contains_key(s)]
                    #![trigger after.adjacency[s]]
                    {
                        &&& after.adjacency.contains_key(s) == (self.adjacency.contains_key(s) && s
                            != id)
                        &&& after.adjacency.contains_key(s) ==> after.adjacency[s] == without_dest(
                            self.adjacency[s],
                            id,
                        )
                    }
            }),
    {
    }

    /// Removing a node keeps a graph valid.
    pub proof fn lemma_remove_node_valid(self, id: ID)
        requires
            self.valid(),
        ensures
            self.remove_node(id).valid(),
    {
        self.lemma_remove_node_linked(id);
        self.lemma_remove_node_named_apart(id);
        self.lemma_remove_node_paired(id);
    }

    /// After a node was removed, every edge of the graph is one that was
    /// there before, among the edges that leave the same node, and leads to
    /// another node than the one removed.
    proof fn lemma_remove_node_places(self, id: ID)
        ensures
            forall|s: ID, i: int|
                self.remove_node(id).has_place(s, i) ==> s != id && (
                #[trigger] self.remove_node(id).adjacency[s][i]).dest != id && exists|k: int|
                    self.has_place(s, k) && #[trigger] self.adjacency[s][k] == self.remove_node(
                        id,
                    ).adjacency[s][i],
    {
        let after = self.remove_node(id);
        self.lemma_remove_node_lists(id);
        assert forall|s: ID, i: int| after.has_place(s, i) implies s != id && (
        #[trigger] after.adjacency[s][i]).dest != id && exists|k: int|
            self.has_place(s, k) && #[trigger] self.adjacency[s][k] == after.adjacency[s][i] by {
            let before = self.adjacency[s];
            lemma_without_dest(before, id);
            let e = after.adjacency[s][i];
            assert(e == without_dest(before, id)[i]);
            assert(before.contains(e));
            let k = choose|k: int| 0 <= k < before.len() && before[k] == e;
            assert(self.has_place(s, k) && self.adjacency[s][k] == e);
        }
    }

    /// Removing a node leaves every identifier naming one thing.
    proof fn lemma_remove_node_named_apart(self, id: ID)
        requires
            self.valid(),
        ensures
            self.remove_node(id).named_apart(),
    {
        let after = self.remove_node(id);
        self.lemma_remove_node_lists(id);
        self.lemma_remove_node_places(id);
        assert forall|s: ID, i: int| after.has_place(s, i) implies !after.nodes.contains_key(
            (#[trigger] after.adjacency[s][i]).id,
        ) by {
            let k = choose|k: int|
                self.has_place(s, k) && #[trigger] self.adjacency[s][k] == after.adjacency[s][i];
        }
        assert forall|s: ID, i: int, j: int|
            after.has_place(s, i) && after.has_place(s, j) && i != j implies (#[trigger] after.adjacency[s][i]).id
            != (#[trigger] after.adjacency[s][j]).id by {
            let before = self.adjacency[s];
            assert(names_differ(before)) by {
                assert forall|p: int, q: int|
                    0 <= p < before.len() && 0 <= q < before.len() && p != q implies (#[trigger] before[p]).id
                    != (#[trigger] before[q]).id by {
                    assert(self.has_place(s, p) && self.has_place(s, q));
                    assert(self.adjacency[s][p].id != self.adjacency[s][q].id);
                }
            }
            lemma_without_dest_names_differ(before, id);
        }
        assert forall|a: ID, i: int, b: ID, j: int|
            after.has_place(a, i) && after.has_place(b, j) && a != b
                && (#[trigger] after.adjacency[a][i]).id == (#[trigger] after.adjacency[b][j]).id implies {
            &&& after.relation == Relationship::Undirected
            &&& after.adjacency[a][i].dest == b
            &&& after.adjacency[b][j].dest == a
        } by {
            let k = choose|k: int|
                self.has_place(a, k) && #[trigger] self.adjacency[a][k] == after.adjacency[a][i];
            let m = choose|m: int|
                self.has_place(b, m) && #[trigger] self.adjacency[b][m] == after.adjacency[b][j];
            assert(self.adjacency[a][k].id == self.adjacency[b][m].id);
        }
    }

    /// After a node is removed, every edge that is left in an undirected
    /// graph has its mirror.
    proof fn lemma_remove_node_paired(self, id: ID)
        requires
            self.valid(),
        ensures
            self.remove_node(id).paired(),
    {
        let after = self.remove_node(id);
        self.lemma_remove_node_lists(id);
        self.lemma_remove_node_places(id);
        assert forall|s: ID, i: int|
            after.has_place(s, i) && after.relation == Relationship::Undirected
                && (#[trigger] after.adjacency[s][i]).dest != s implies holds_named(
            after.edges_from(after.adjacency[s][i].dest),
            after.adjacency[s][i].id,
        ) by {
            let e = after.adjacency[s][i];
            let t = e.dest;
            let k = choose|k: int| self.has_place(s, k) && #[trigger] self.adjacency[s][k] == e;
            // the mirror was there before
            assert(self.nodes.contains_key(self.adjacency[s][k].dest));
            assert(self.adjacency.dom().contains(t));
            let back = self.edges_from(t);
            assert(holds_named(back, self.adjacency[s][k].id));
            let m = choose|m: int| 0 <= m < back.len() && (#[trigger] back[m]).id == e.id;
            // it leads back to `s`, so it was not struck out
            assert(self.has_place(t, m));
            assert(self.adjacency[s][k].id == self.adjacency[t][m].id);
            assert(self.adjacency[t][m].dest == s);
            lemma_without_dest(back, id);
            assert(back[m].dest != id);
            assert(without_dest(back, id).contains(back[m]));
            let kept = without_dest(back, id);
            let n = choose|n: int| 0 <= n < kept.len() && kept[n] == back[m];
            assert(after.adjacency.contains_key(t));
            assert(after.edges_from(t)[n].id == e.id);
        }
    }

    /// Removing an edge keeps a graph valid.
    pub proof fn lemma_remove_edge_valid(self, src: ID, dest: ID)
        requires
            self.valid(),
            self.has_edge(src, dest),
        ensures
            self.remove_edge(src, dest).valid(),
    {
        self.lemma_remove_edge_linked(src, dest);
        self.lemma_remove_edge_places(src, dest);
        self.lemma_remove_edge_named_apart(src, dest);
        self.lemma_remove_edge_paired(src, dest);
    }

    /// The place of the mirror of the first edge from `src` to `dest`.
    pub open spec fn mirror_place(self, src: ID, dest: ID) -> int {
        first_named(self.edges_from(dest), self.first_edge(src, dest).id)
    }

    /// The edge removed by `remove_edge` has a mirror exactly where the
    /// graph is undirected and the edge is no loop.
    pub open spec fn mirror_goes(self, src: ID, dest: ID) -> bool {
        self.first_edge(src, dest).relation == Relationship::Undirected && src != dest
    }

    /// After an edge was removed, every edge of the graph is one that was
    /// there before: in its old place where that lies before the place of
    /// the removed edge or of its mirror, and one place further on
    /// otherwise.
    proof fn lemma_remove_edge_places(self, src: ID, dest: ID)
        requires
            self.valid(),
            self.has_edge(src, dest),
        ensures
            ({
                let after = self.remove_edge(src, dest);
                let at = first_to(self.edges_from(src), dest);
                let back = self.mirror_place(src, dest);
                &&& after.nodes == self.nodes
                &&& after.relation == self.relation
                &&& after.adjacency.dom() == self.adjacency.dom()
                &&& self.has_place(src, at)
                &&& self.adjacency[src][at].dest == dest
                &&& self.mirror_goes(src, dest) ==> self.has_place(dest, back)
                    && self.adjacency[dest][back].id == self.adjacency[src][at].id
                &&& forall|s: ID, i: int|
                    after.has_place(s, i) ==> {
                        let k = if s == src && i >= at {
                            i + 1
                        } else if self.mirror_goes(src, dest) && s == dest && i >= back {
                            i + 1
                        } else {
                            i
                        };
                        self.has_place(s, k) && #[trigger] after.adjacency[s][i]
                            == self.adjacency[s][k]
                    }
                &&& forall|s: ID, k: int|
                    self.has_place(s, k) && !(s == src && k == at) && !(self.mirror_goes(src, dest)
                        && s == dest && k == back) ==> {
                        let i = if s == src && k > at {
                            k - 1
                        } else if self.mirror_goes(src, dest) && s == dest && k > back {
                            k - 1
                        } else {
                            k
                        };
                        after.has_place(s, i) && after.adjacency[s][i]
                            == #[trigger] self.adjacency[s][k]
                    }
            }),
    {
        let after = self.remove_edge(src, dest);
        let edges = self.edges_from(src);
        let at = first_to(edges, dest);
        lemma_first_to(edges, dest);
        lemma_remove_keeps(edges, at);
        assert(self.adjacency.contains_key(src));
        let edge = self.first_edge(src, dest);
        let cut = GraphView { adjacency: self.adjacency.insert(src, edges.remove(at)), ..self };
        assert(cut.adjacency.dom() =~= self.adjacency.dom());
        if self.mirror_goes(src, dest) {
            let back_edges = self.edges_from(dest);
            let back = first_named(back_edges, edge.id);
            lemma_first_named(back_edges, edge.id);
            assert(self.has_place(src, at));
            assert(self.adjacency[src][at].relation == self.relation);
            assert(holds_named(self.edges_from(self.adjacency[src][at].dest), edge.id));
            assert(self.nodes.contains_key(self.adjacency[src][at].dest));
            assert(self.adjacency.dom().contains(dest));
            assert(cut.edges_from(dest) == back_edges);
            lemma_remove_keeps(back_edges, back);
            assert(after.adjacency =~= cut.adjacency.insert(dest, back_edges.remove(back)));
            assert(after.adjacency.dom() =~= self.adjacency.dom());
        } else {
            assert(after == cut);
        }
    }

    /// Removing an edge leaves every identifier naming one thing.
    proof fn lemma_remove_edge_named_apart(self, src: ID, dest: ID)
        requires
            self.valid(),
            self.has_edge(src, dest),
        ensures
            self.remove_edge(src, dest).named_apart(),
    {
        let after = self.remove_edge(src, dest);
        self.lemma_remove_edge_places(src, dest);
        assert forall|s: ID, i: int| after.has_place(s, i) implies !after.nodes.contains_key(
            (#[trigger] after.adjacency[s][i]).id,
        ) by {}
        assert forall|s: ID, i: int, j: int|
            after.has_place(s, i) && after.has_place(s, j) && i != j implies (#[trigger] after.adjacency[s][i]).id
            != (#[trigger] after.adjacency[s][j]).id by {}
        assert forall|a: ID, i: int, b: ID, j: int|
            after.has_place(a, i) && after.has_place(b, j) && a != b
                && (#[trigger] after.adjacency[a][i]).id == (#[trigger] after.adjacency[b][j]).id implies {
            &&& after.relation == Relationship::Undirected
            &&& after.adjacency[a][i].dest == b
            &&& after.adjacency[b][j].dest == a
        } by {}
    }

    /// After an edge is removed, and its mirror with it, every edge that is
    /// left in an undirected graph has its mirror.
    proof fn lemma_remove_edge_paired(self, src: ID, dest: ID)
        requires
            self.valid(),
            self.has_edge(src, dest),
        ensures
            self.remove_edge(src, dest).paired(),
    {
        let after = self.remove_edge(src, dest);
        let at = first_to(self.edges_from(src), dest);
        let back = self.mirror_place(src, dest);
        self.lemma_remove_edge_places(src, dest);
        assert forall|s: ID, i: int|
            after.has_place(s, i) && after.relation == Relationship::Undirected
                && (#[trigger] after.adjacency[s][i]).dest != s implies holds_named(
            after.edges_from(after.adjacency[s][i].dest),
            after.adjacency[s][i].id,
        ) by {
            let e = after.adjacency[s][i];
            let t = e.dest;
            let k = if s == src && i >= at {
                i + 1
            } else if self.mirror_goes(src, dest) && s == dest && i >= back {
                i + 1
            } else {
                i
            };
            assert(self.has_place(s, k) && self.adjacency[s][k] == e);
            assert(self.nodes.contains_key(self.adjacency[s][k].dest));
            assert(self.adjacency.dom().contains(t));
            let old_back = self.edges_from(t);
            assert(holds_named(old_back, self.adjacency[s][k].id));
            let m = choose|m: int| 0 <= m < old_back.len() && (#[trigger] old_back[m]).id == e.id;
            assert(self.has_place(t, m));
            assert(self.adjacency[s][k].id == self.adjacency[t][m].id);
            assert(self.adjacency[t][m].dest == s);
            // the mirror of `e` is neither the removed edge nor its mirror
            if t == src && m == at {
                assert(self.adjacency[src][at].relation == self.relation);
                assert(self.mirror_goes(src, dest));
                assert(s == dest);
                assert(self.adjacency[dest][k].id == self.adjacency[dest][back].id);
                assert(k == back);
            }
            if self.mirror_goes(src, dest) && t == dest && m == back {
                assert(self.adjacency[dest][back].id == self.adjacency[src][at].id);
                assert(self.adjacency[dest][back].dest == src);
                assert(s == src);
                assert(self.adjacency[src][k].id == self.adjacency[src][at].id);
                assert(k == at);
            }
            let n = if t == src && m > at {
                m - 1
            } else if self.mirror_goes(src, dest) && t == dest && m > back {
                m - 1
            } else {
                m
            };
            assert(after.has_place(t, n) && after.adjacency[t][n] == self.adjacency[t][m]);
            assert(after.edges_from(t)[n].id == e.id);
        }
    }

    /// Choosing a node as the root keeps a graph valid.
    pub proof fn lemma_with_root_valid(self, id: ID)
        requires
            self.valid(),
            self.has_node(id),
        ensures
            self.with_root(id).valid(),
    {
        let after = self.with_root(id);
        assert forall|s: ID, i: int| after.has_place(s, i) implies self.has_place(s, i)
            && #[trigger] after.adjacency[s][i] == self.adjacency[s][i] by {}
        assert(after.named_apart());
        assert forall|s: ID, i: int|
            after.has_place(s, i) && after.relation == Relationship::Undirected
                && (#[trigger] after.adjacency[s][i]).dest != s implies holds_named(
            after.edges_from(after.adjacency[s][i].dest),
            after.adjacency[s][i].id,
        ) by {
            assert(after.edges_from(self.adjacency[s][i].dest) == self.edges_from(
                self.adjacency[s][i].dest,
            ));
        }
    }
}

} // verus!
