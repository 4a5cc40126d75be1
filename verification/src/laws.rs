//! What holds of the operations of a graph, whatever graph they start from.
//!
//! Each law is stated of the functions on [`GraphView`] by which the
//! contracts of [`crate::graph::Graph`] specify the executable operations.

use crate::adjacency::{
    holds_named, lemma_count_to_positive, lemma_count_to_push, lemma_first_to_push,
    lemma_without_dest, lemma_without_dest_keeps_others,
};
use crate::edge::Edge;
use crate::error::GraphError;
use crate::id::ID;
use crate::model::GraphView;
use crate::relationship::Relationship;
use vstd::prelude::*;

verus! {

/// A node that was added is a node of the graph, under the identifier that
/// adding it returned; and what were nodes before still are.
pub proof fn law_added_node_is_member<N, E>(g: GraphView<N, E>, data: N)
    ensures
        g.add_node(data).has_node(g.fresh()),
        forall|id: ID| g.has_node(id) ==> #[trigger] g.add_node(data).has_node(id),
{
}

/// In a directed graph, an edge added from `a` to `b` leads from `a` to `b`
/// and not back: where the two are different nodes and no edge led from `b`
/// to `a` before, none does after.
pub proof fn law_directed_edge_is_one_way<N, E>(
    g: GraphView<N, E>,
    a: ID,
    b: ID,
    data: E,
    twin: E,
)
    requires
        g.relation == Relationship::Directed,
        a != b,
        !g.has_edge(b, a),
    ensures
        g.add_edge(a, b, data, twin).has_edge(a, b),
        !g.add_edge(a, b, data, twin).has_edge(b, a),
{
    g.lemma_add_edge_has_edge(a, b, data, twin);
    let after = g.add_edge(a, b, data, twin);
    assert(after.edges_from(b) == g.edges_from(b));
}

/// In a directed graph, adding an edge from `a` changes nothing about the
/// edges that leave any other node.
pub proof fn law_directed_edge_touches_source_only<N, E>(
    g: GraphView<N, E>,
    a: ID,
    b: ID,
    data: E,
    twin: E,
    other: ID,
)
    requires
        g.relation == Relationship::Directed,
        other != a,
    ensures
        g.add_edge(a, b, data, twin).edges_from(other) == g.edges_from(other),
{
}

/// In an undirected graph, an edge added between `a` and `b` leads from `a`
/// to `b` and from `b` to `a`.
pub proof fn law_undirected_edge_is_two_way<N, E>(
    g: GraphView<N, E>,
    a: ID,
    b: ID,
    data: E,
    twin: E,
)
    requires
        g.relation == Relationship::Undirected,
    ensures
        g.add_edge(a, b, data, twin).has_edge(a, b),
        g.add_edge(a, b, data, twin).has_edge(b, a),
{
    g.lemma_add_edge_has_edge(a, b, data, twin);
    if a != b {
        let edge = Edge { id: g.fresh(), src: a, dest: b, relation: g.relation, data };
        let one = g.with_edge(edge);
        let after = g.add_edge(a, b, data, twin);
        let back = one.edges_from(b);
        assert(after.edges_from(b) == back.push(edge.mirrored(twin)));
        assert(after.edges_from(b)[back.len() as int].dest == a);
    }
}

/// In a valid undirected graph an edge leads from `a` to `b` exactly where
/// one leads from `b` to `a`.
pub proof fn law_undirected_graph_is_symmetric<N, E>(g: GraphView<N, E>, a: ID, b: ID)
    requires
        g.valid(),
        g.relation == Relationship::Undirected,
    ensures
        g.has_edge(a, b) == g.has_edge(b, a),
{
    if g.has_edge(a, b) {
        lemma_mirror_leads_back(g, a, b);
    }
    if g.has_edge(b, a) {
        lemma_mirror_leads_back(g, b, a);
    }
}

/// In a valid undirected graph, where an edge leads from `a` to `b`, its
/// mirror leads from `b` to `a`.
proof fn lemma_mirror_leads_back<N, E>(g: GraphView<N, E>, a: ID, b: ID)
    requires
        g.valid(),
        g.relation == Relationship::Undirected,
        g.has_edge(a, b),
    ensures
        g.has_edge(b, a),
{
    if a != b {
        let edges = g.edges_from(a);
        let i = choose|i: int| 0 <= i < edges.len() && (#[trigger] edges[i]).dest == b;
        assert(g.has_place(a, i));
        assert(g.nodes.contains_key(g.adjacency[a][i].dest));
        assert(g.adjacency.dom().contains(b));
        let back = g.edges_from(b);
        assert(holds_named(back, g.adjacency[a][i].id));
        let j = choose|j: int| 0 <= j < back.len() && (#[trigger] back[j]).id == edges[i].id;
        assert(g.has_place(b, j));
        assert(g.adjacency[a][i].id == g.adjacency[b][j].id);
        assert(back[j].dest == a);
    }
}

/// In a valid graph no identifier names both a node and an edge, and the
/// edges that leave one node are told apart by their identifiers.
pub proof fn law_identifiers_name_one_thing<N, E>(g: GraphView<N, E>, src: ID, i: int, j: int)
    requires
        g.valid(),
        g.has_place(src, i),
        g.has_place(src, j),
    ensures
        !g.has_node(g.adjacency[src][i].id),
        i != j ==> g.adjacency[src][i].id != g.adjacency[src][j].id,
{
}

/// After a node is removed it is no node of the graph, and no edge leads to
/// it from anywhere.
pub proof fn law_removed_node_leaves_no_edge<N, E>(g: GraphView<N, E>, a: ID, b: ID)
    ensures
        !g.remove_node(b).has_node(b),
        !g.remove_node(b).has_edge(a, b),
{
    let after = g.remove_node(b);
    if after.adjacency.contains_key(a) {
        lemma_without_dest(g.adjacency[a], b);
    }
}

/// Removing a node leaves the other nodes in place, and changes nothing
/// about which of them an edge leads to from a node that is left.
pub proof fn law_removed_node_spares_the_rest<N, E>(g: GraphView<N, E>, a: ID, c: ID, b: ID)
    requires
        a != b,
        c != b,
    ensures
        g.remove_node(b).has_node(a) == g.has_node(a),
        g.remove_node(b).has_edge(a, c) == g.has_edge(a, c),
{
    if g.adjacency.contains_key(a) {
        lemma_without_dest_keeps_others(g.adjacency[a], b, c);
    }
}

/// Connecting twice is connecting once: the second of two calls of `connect`
/// with the same two nodes changes nothing and returns what the first
/// returned, whatever payloads the calls are given.
pub proof fn law_connect_is_idempotent<N, E: Clone>(
    g: GraphView<N, E>,
    a: ID,
    b: ID,
    d1: E,
    d2: E,
    g1: GraphView<N, E>,
    r1: Result<ID, GraphError>,
    g2: GraphView<N, E>,
    r2: Result<ID, GraphError>,
)
    requires
        g.connects(a, b, d1, g1, r1),
        g1.connects(a, b, d2, g2, r2),
    ensures
        g2 == g1,
        r2 == r1,
{
    if !g.has_edge(a, b) && g.has_node(a) && g.has_node(b) {
        let twin = choose|twin: E|
            (g.mirrors(a, b) ==> cloned(d1, twin)) && g1 == #[trigger] g.add_edge(a, b, d1, twin);
        lemma_connect_adds_first(g, a, b, d1, twin);
    }
}

/// Where two nodes are not yet connected, two calls of `connect` leave
/// exactly one edge from the one to the other, and both return its
/// identifier.
pub proof fn law_connect_makes_one_edge<N, E: Clone>(
    g: GraphView<N, E>,
    a: ID,
    b: ID,
    d1: E,
    d2: E,
    g1: GraphView<N, E>,
    r1: Result<ID, GraphError>,
    g2: GraphView<N, E>,
    r2: Result<ID, GraphError>,
)
    requires
        g.has_node(a),
        g.has_node(b),
        !g.has_edge(a, b),
        g.connects(a, b, d1, g1, r1),
        g1.connects(a, b, d2, g2, r2),
    ensures
        g2.edge_count(a, b) == 1,
        r1 == Ok::<ID, GraphError>(g2.first_edge(a, b).id),
        r2 == r1,
{
    let twin = choose|twin: E|
        (g.mirrors(a, b) ==> cloned(d1, twin)) && g1 == #[trigger] g.add_edge(a, b, d1, twin);
    lemma_connect_adds_first(g, a, b, d1, twin);
}

/// Where no edge led from `a` to `b`, the edge that `add_edge` adds is the
/// first and the only one that does.
proof fn lemma_connect_adds_first<N, E>(g: GraphView<N, E>, a: ID, b: ID, data: E, twin: E)
    requires
        !g.has_edge(a, b),
    ensures
        g.add_edge(a, b, data, twin).has_edge(a, b),
        g.add_edge(a, b, data, twin).first_edge(a, b).id == g.fresh(),
        g.add_edge(a, b, data, twin).edge_count(a, b) == 1,
{
    let after = g.add_edge(a, b, data, twin);
    let edge = Edge { id: g.fresh(), src: a, dest: b, relation: g.relation, data };
    let edges = g.edges_from(a);
    assert(after.edges_from(a) == edges.push(edge));
    lemma_first_to_push(edges, edge, b);
    lemma_count_to_push(edges, edge, b);
    lemma_count_to_positive(edges, b);
}

} // verus!
