use graph::{id_generator, Generator, Graph, GraphError, Relation, Relationship, ID};

fn directed() -> Graph<&'static str, &'static str> {
    Graph::new(Relationship::Directed)
}

fn undirected() -> Graph<&'static str, &'static str> {
    Graph::new(Relationship::Undirected)
}

fn ids_of(g: &Graph<&'static str, &'static str>, src: ID) -> Vec<(usize, usize, usize)> {
    g.edges(&src)
        .expect("the node has an adjacency entry")
        .iter()
        .map(|e| (e.id.get(), e.src.get(), e.dest.get()))
        .collect()
}

#[test]
fn scenario_mint_then_build() {
    let mut generator = id_generator();
    assert_eq!(generator.mint().get(), 0);
    assert_eq!(generator.mint().get(), 1);
    assert_eq!(generator.mint().get(), 2);

    let mut g: Graph<&str, &str> = Graph::with_generator(Relationship::Directed, generator);
    let root = g.add_node("root");
    assert_eq!(root.get(), 3);
    assert!(g.has_node(&ID::from(3_usize)));

    let r = g.connect(ID::from(3_usize), ID::from(4_usize), "label");
    assert_eq!(r, Err(GraphError::NodeNotFound));
    assert!(!g.has_edge(&ID::from(3_usize), &ID::from(4_usize)));
}

#[test]
fn new_graph_is_empty() {
    let g = directed();
    assert_eq!(g.relation(), Relationship::Directed);
    assert_eq!(g.root(), None);
    assert!(g.node_ids().is_empty());
    assert!(!g.has_node(&ID::from(0_usize)));
    assert!(!g.has_edge(&ID::from(0_usize), &ID::from(0_usize)));
    assert!(!g.is_exhausted());
    assert!(g.node(&ID::from(0_usize)).is_none());
    assert!(g.edges(&ID::from(0_usize)).is_none());
}

#[test]
fn added_node_is_member() {
    let mut g = directed();
    let a = g.add_node("a");
    let b = g.add_node("b");
    assert_eq!(a.get(), 0);
    assert_eq!(b.get(), 1);
    assert!(g.has_node(&a));
    assert!(g.has_node(&b));
    assert!(!g.has_node(&ID::from(2_usize)));
    assert_eq!(g.node(&a).unwrap().data, "a");
    assert_eq!(g.node(&b).unwrap().id, b);
    assert!(g.edges(&a).unwrap().is_empty());
    let mut ids: Vec<usize> = g.node_ids().iter().map(|id| id.get()).collect();
    ids.sort();
    assert_eq!(ids, vec![0, 1]);
}

#[test]
fn each_graph_mints_its_own_identifiers() {
    let mut g = directed();
    let mut h = directed();
    assert_eq!(g.add_node("x").get(), 0);
    assert_eq!(g.add_node("y").get(), 1);
    assert_eq!(h.add_node("z").get(), 0);
}

#[test]
fn directed_edge_is_one_way() {
    let mut g = directed();
    let a = g.add_node("a");
    let b = g.add_node("b");
    let e = g.add_edge(a, b, "ab");
    assert_eq!(e, Ok(ID::from(2_usize)));
    assert!(g.has_edge(&a, &b));
    assert!(!g.has_edge(&b, &a));
    assert_eq!(ids_of(&g, a), vec![(2, 0, 1)]);
    assert!(ids_of(&g, b).is_empty());
    let stored = &g.edges(&a).unwrap()[0];
    assert_eq!(stored.relation, Relationship::Directed);
    assert_eq!(stored.data, "ab");
}

#[test]
fn undirected_edge_is_two_way() {
    let mut g = undirected();
    let a = g.add_node("a");
    let b = g.add_node("b");
    let e = g.add_edge(a, b, "ab");
    assert_eq!(e, Ok(ID::from(2_usize)));
    assert!(g.has_edge(&a, &b));
    assert!(g.has_edge(&b, &a));
    assert_eq!(ids_of(&g, a), vec![(2, 0, 1)]);
    assert_eq!(ids_of(&g, b), vec![(2, 1, 0)]);
    let mirror = &g.edges(&b).unwrap()[0];
    assert_eq!(mirror.relation, Relationship::Undirected);
    assert_eq!(mirror.data, "ab");
    // one identifier was minted for the pair
    assert_eq!(g.add_node("c").get(), 3);
}

#[test]
fn undirected_loop_is_stored_once() {
    let mut g = undirected();
    let a = g.add_node("a");
    assert_eq!(g.add_edge(a, a, "aa"), Ok(ID::from(1_usize)));
    assert!(g.has_edge(&a, &a));
    assert_eq!(ids_of(&g, a), vec![(1, 0, 0)]);
    assert_eq!(g.remove_edge(&a, &a), Ok(()));
    assert!(!g.has_edge(&a, &a));
    assert!(ids_of(&g, a).is_empty());
}

#[test]
fn add_edge_allows_parallel_edges_in_order() {
    let mut g = directed();
    let a = g.add_node("a");
    let b = g.add_node("b");
    let c = g.add_node("c");
    assert_eq!(g.add_edge(a, b, "first"), Ok(ID::from(3_usize)));
    assert_eq!(g.add_edge(a, c, "second"), Ok(ID::from(4_usize)));
    assert_eq!(g.add_edge(a, b, "third"), Ok(ID::from(5_usize)));
    assert_eq!(ids_of(&g, a), vec![(3, 0, 1), (4, 0, 2), (5, 0, 1)]);
}

#[test]
fn add_edge_to_missing_node_fails_and_changes_nothing() {
    let mut g = directed();
    let a = g.add_node("a");
    let missing = ID::from(77_usize);
    assert_eq!(g.add_edge(a, missing, "x"), Err(GraphError::NodeNotFound));
    assert_eq!(g.add_edge(missing, a, "x"), Err(GraphError::NodeNotFound));
    assert_eq!(g.add_edge(missing, missing, "x"), Err(GraphError::NodeNotFound));
    assert!(!g.has_edge(&a, &missing));
    assert!(!g.has_edge(&missing, &a));
    assert!(!g.has_node(&missing));
    assert!(g.edges(&missing).is_none());
    assert!(g.edges(&a).unwrap().is_empty());
    assert_eq!(g.node_ids(), vec![a]);
    // no identifier was used up by the failures
    assert_eq!(g.add_node("b").get(), 1);
}

#[test]
fn has_edge_is_false_for_unknown_source() {
    let mut g = directed();
    let a = g.add_node("a");
    assert!(!g.has_edge(&ID::from(9_usize), &a));
}

#[test]
fn remove_node_cascades() {
    let mut g = directed();
    let a = g.add_node("a");
    let b = g.add_node("b");
    let c = g.add_node("c");
    g.add_edge(a, b, "ab").unwrap();
    g.add_edge(a, c, "ac").unwrap();
    g.add_edge(a, b, "ab again").unwrap();
    g.add_edge(b, c, "bc").unwrap();
    g.add_edge(c, b, "cb").unwrap();

    assert_eq!(g.remove_node(&b), Ok(()));
    assert!(!g.has_node(&b));
    assert!(!g.has_edge(&a, &b));
    assert!(!g.has_edge(&c, &b));
    assert!(!g.has_edge(&b, &c));
    assert!(g.edges(&b).is_none());
    // what did not touch the removed node is kept, in order
    assert!(g.has_node(&a));
    assert!(g.has_node(&c));
    assert!(g.has_edge(&a, &c));
    assert_eq!(ids_of(&g, a), vec![(4, 0, 2)]);
    assert!(ids_of(&g, c).is_empty());
}

#[test]
fn remove_node_in_undirected_graph_removes_both_records() {
    let mut g = undirected();
    let a = g.add_node("a");
    let b = g.add_node("b");
    g.add_edge(a, b, "ab").unwrap();
    assert_eq!(g.remove_node(&b), Ok(()));
    assert!(!g.has_edge(&a, &b));
    assert!(!g.has_edge(&b, &a));
    assert!(ids_of(&g, a).is_empty());
}

#[test]
fn remove_missing_node_fails_and_changes_nothing() {
    let mut g = directed();
    let a = g.add_node("a");
    let b = g.add_node("b");
    g.add_edge(a, b, "ab").unwrap();
    assert_eq!(g.remove_node(&ID::from(5_usize)), Err(GraphError::NodeNotFound));
    assert!(g.has_node(&a));
    assert!(g.has_node(&b));
    assert!(g.has_edge(&a, &b));
    // removing twice fails the second time
    assert_eq!(g.remove_node(&b), Ok(()));
    assert_eq!(g.remove_node(&b), Err(GraphError::NodeNotFound));
}

#[test]
fn removed_identifier_is_not_minted_again() {
    let mut g = directed();
    let a = g.add_node("a");
    g.remove_node(&a).unwrap();
    let b = g.add_node("b");
    assert_eq!(b.get(), 1);
    assert!(!g.has_node(&a));
}

#[test]
fn remove_edge_takes_the_first_match() {
    let mut g = directed();
    let a = g.add_node("a");
    let b = g.add_node("b");
    let c = g.add_node("c");
    g.add_edge(a, c, "ac").unwrap();
    g.add_edge(a, b, "one").unwrap();
    g.add_edge(a, b, "two").unwrap();
    assert_eq!(g.remove_edge(&a, &b), Ok(()));
    assert_eq!(ids_of(&g, a), vec![(3, 0, 2), (5, 0, 1)]);
    assert!(g.has_edge(&a, &b));
    assert_eq!(g.remove_edge(&a, &b), Ok(()));
    assert!(!g.has_edge(&a, &b));
    assert_eq!(g.remove_edge(&a, &b), Err(GraphError::EdgeNotFound));
    assert_eq!(ids_of(&g, a), vec![(3, 0, 2)]);
}

#[test]
fn remove_edge_removes_the_mirror_with_the_same_identifier() {
    let mut g = undirected();
    let a = g.add_node("a");
    let b = g.add_node("b");
    g.add_edge(a, b, "one").unwrap();
    g.add_edge(b, a, "two").unwrap();
    assert_eq!(ids_of(&g, a), vec![(2, 0, 1), (3, 0, 1)]);
    assert_eq!(ids_of(&g, b), vec![(2, 1, 0), (3, 1, 0)]);
    // from `b`, the first edge to `a` is the mirror of edge 2
    assert_eq!(g.remove_edge(&b, &a), Ok(()));
    assert_eq!(ids_of(&g, a), vec![(3, 0, 1)]);
    assert_eq!(ids_of(&g, b), vec![(3, 1, 0)]);
    assert_eq!(g.remove_edge(&a, &b), Ok(()));
    assert!(ids_of(&g, a).is_empty());
    assert!(ids_of(&g, b).is_empty());
    assert_eq!(g.remove_edge(&a, &b), Err(GraphError::EdgeNotFound));
}

#[test]
fn remove_edge_fails_where_there_is_none() {
    let mut g = directed();
    let a = g.add_node("a");
    let b = g.add_node("b");
    g.add_edge(a, b, "ab").unwrap();
    assert_eq!(g.remove_edge(&b, &a), Err(GraphError::EdgeNotFound));
    assert_eq!(g.remove_edge(&ID::from(8_usize), &a), Err(GraphError::EdgeNotFound));
    assert_eq!(g.remove_edge(&a, &ID::from(8_usize)), Err(GraphError::EdgeNotFound));
    assert!(g.has_edge(&a, &b));
}

#[test]
fn connect_is_idempotent() {
    let mut g = directed();
    let a = g.add_node("a");
    let b = g.add_node("b");
    let first = g.connect(a, b, "d1");
    let second = g.connect(a, b, "d2");
    assert_eq!(first, Ok(ID::from(2_usize)));
    assert_eq!(second, first);
    assert_eq!(ids_of(&g, a), vec![(2, 0, 1)]);
    assert_eq!(g.edges(&a).unwrap()[0].data, "d1");
    // the second call minted nothing
    assert_eq!(g.add_node("c").get(), 3);
}

#[test]
fn connect_returns_the_first_of_parallel_edges() {
    let mut g = directed();
    let a = g.add_node("a");
    let b = g.add_node("b");
    g.add_edge(a, b, "one").unwrap();
    g.add_edge(a, b, "two").unwrap();
    assert_eq!(g.connect(a, b, "three"), Ok(ID::from(2_usize)));
    assert_eq!(ids_of(&g, a).len(), 2);
}

#[test]
fn connect_in_undirected_graph_sees_the_mirror() {
    let mut g = undirected();
    let a = g.add_node("a");
    let b = g.add_node("b");
    assert_eq!(g.connect(a, b, "ab"), Ok(ID::from(2_usize)));
    assert_eq!(g.connect(b, a, "ba"), Ok(ID::from(2_usize)));
    assert_eq!(ids_of(&g, a), vec![(2, 0, 1)]);
    assert_eq!(ids_of(&g, b), vec![(2, 1, 0)]);
}

#[test]
fn connect_to_missing_node_fails() {
    let mut g = directed();
    let a = g.add_node("a");
    let missing = ID::from(4_usize);
    assert_eq!(g.connect(a, missing, "x"), Err(GraphError::NodeNotFound));
    assert_eq!(g.connect(missing, a, "x"), Err(GraphError::NodeNotFound));
    assert!(!g.has_edge(&a, &missing));
    assert!(g.edges(&a).unwrap().is_empty());
}

#[test]
fn disconnect_removes_or_fails() {
    let mut g = directed();
    let a = g.add_node("a");
    let b = g.add_node("b");
    assert_eq!(g.disconnect(a, b), Err(GraphError::EdgeNotFound));
    g.connect(a, b, "ab").unwrap();
    assert_eq!(g.disconnect(a, b), Ok(()));
    assert!(!g.has_edge(&a, &b));
    assert_eq!(g.disconnect(a, b), Err(GraphError::EdgeNotFound));
    // connecting again makes a new edge with a new identifier
    assert_eq!(g.connect(a, b, "again"), Ok(ID::from(3_usize)));
}

#[test]
fn root_is_a_node_or_nothing() {
    let mut g = directed();
    let a = g.add_node("a");
    let b = g.add_node("b");
    assert_eq!(g.set_root(ID::from(9_usize)), Err(GraphError::NodeNotFound));
    assert_eq!(g.root(), None);
    assert_eq!(g.set_root(a), Ok(()));
    assert_eq!(g.root(), Some(a));
    g.remove_node(&b).unwrap();
    assert_eq!(g.root(), Some(a));
    g.remove_node(&a).unwrap();
    assert_eq!(g.root(), None);
}

#[test]
fn payloads_need_not_be_copied_for_nodes() {
    let mut g: Graph<String, String> = Graph::new(Relationship::Undirected);
    let a = g.add_node(String::from("left"));
    let b = g.add_node(String::from("right"));
    g.add_edge(a, b, String::from("joined")).unwrap();
    assert_eq!(g.node(&a).unwrap().data(), "left");
    assert_eq!(g.edges(&a).unwrap()[0].data(), "joined");
    assert_eq!(g.edges(&b).unwrap()[0].data(), "joined");
}

fn link_both_ways<R: Relation<ID>>(
    relation: &mut R,
    a: ID,
    b: ID,
    there: R::Data,
    back: R::Data,
) -> (Result<ID, GraphError>, Result<ID, GraphError>) {
    (relation.connect(a, b, there), relation.connect(b, a, back))
}

#[test]
fn relation_is_usable_without_naming_the_graph() {
    let mut g = directed();
    let a = g.add_node("a");
    let b = g.add_node("b");
    let (there, back) = link_both_ways(&mut g, a, b, "ab", "ba");
    assert_eq!(there, Ok(ID::from(2_usize)));
    assert_eq!(back, Ok(ID::from(3_usize)));
    assert!(g.has_edge(&a, &b));
    assert!(g.has_edge(&b, &a));
    assert_eq!(Relation::disconnect(&mut g, a, b), Ok(()));
    assert!(!g.has_edge(&a, &b));
    assert!(g.has_edge(&b, &a));
}

#[test]
fn undirected_graph_stays_symmetric() {
    let mut g = undirected();
    let ids: Vec<ID> = ["a", "b", "c", "d"].iter().map(|name| g.add_node(*name)).collect();
    g.add_edge(ids[0], ids[1], "ab").unwrap();
    g.add_edge(ids[1], ids[2], "bc").unwrap();
    g.add_edge(ids[2], ids[0], "ca").unwrap();
    g.add_edge(ids[0], ids[1], "ab again").unwrap();
    g.add_edge(ids[3], ids[3], "dd").unwrap();
    g.connect(ids[3], ids[0], "da").unwrap();
    g.remove_edge(&ids[1], &ids[0]).unwrap();
    g.remove_node(&ids[2]).unwrap();
    for x in g.node_ids() {
        for y in g.node_ids() {
            assert_eq!(g.has_edge(&x, &y), g.has_edge(&y, &x));
        }
    }
    assert!(g.has_edge(&ids[0], &ids[1]));
    assert!(g.has_edge(&ids[0], &ids[3]));
    assert!(g.has_edge(&ids[3], &ids[3]));
    assert!(!g.has_edge(&ids[1], &ids[3]));
}

#[test]
fn every_identifier_names_one_thing() {
    let mut g = undirected();
    let a = g.add_node("a");
    let b = g.add_node("b");
    let c = g.add_node("c");
    g.add_edge(a, b, "ab").unwrap();
    g.add_edge(b, c, "bc").unwrap();
    g.add_edge(a, b, "ab again").unwrap();
    g.add_edge(c, c, "cc").unwrap();
    let nodes = g.node_ids();
    for src in &nodes {
        let edges = g.edges(src).unwrap();
        for (i, e) in edges.iter().enumerate() {
            // no edge is named like a node
            assert!(!nodes.contains(&e.id));
            // the edges that leave one node have different names
            for f in &edges[i + 1..] {
                assert_ne!(e.id, f.id);
            }
            // an edge shares its name with its mirror only
            for other in &nodes {
                if other != src {
                    for f in g.edges(other).unwrap() {
                        if f.id == e.id {
                            assert_eq!(f.dest, *src);
                            assert_eq!(e.dest, *other);
                        }
                    }
                }
            }
        }
    }
}

#[test]
fn stored_edges_point_at_nodes_of_the_graph() {
    let mut g = directed();
    let a = g.add_node("a");
    let b = g.add_node("b");
    let c = g.add_node("c");
    g.add_edge(a, b, "ab").unwrap();
    g.add_edge(b, c, "bc").unwrap();
    g.add_edge(c, a, "ca").unwrap();
    g.remove_node(&a).unwrap();
    for src in g.node_ids() {
        for e in g.edges(&src).unwrap() {
            assert_eq!(e.src, src);
            assert!(g.has_node(&e.dest));
            assert_eq!(e.relation, g.relation());
        }
    }
}

#[test]
fn exhausted_graph_still_answers_and_refuses() {
    let almost = Generator::starting_at(usize::MAX - 2);
    let mut g: Graph<&str, &str> = Graph::with_generator(Relationship::Directed, almost);
    let a = g.add_node("a");
    let b = g.add_node("b");
    assert_eq!(a.get(), usize::MAX - 2);
    assert_eq!(b.get(), usize::MAX - 1);
    assert!(g.is_exhausted());
    // nothing is minted where a node is missing or nothing is to be added
    let missing = ID::from(0_usize);
    assert_eq!(g.add_edge(a, missing, "x"), Err(GraphError::NodeNotFound));
    assert_eq!(g.connect(missing, b, "x"), Err(GraphError::NodeNotFound));
    assert_eq!(g.disconnect(a, b), Err(GraphError::EdgeNotFound));
    assert!(g.has_node(&a));
    assert_eq!(g.remove_node(&b), Ok(()));
    assert!(g.is_exhausted());
}
