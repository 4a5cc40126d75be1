use graph::indexer::{File, FileType};
use graph::{Edge, Node, Relationship, ID};

#[derive(Clone, Debug, PartialEq, Eq, Hash)]
pub struct Person {
    name: String,
}

#[test]
fn test_edge() {
    let person = Person {
        name: "Jane Doe".into(),
    };

    let edge = Edge::<Person>::new(
        ID::from(0_usize),
        ID::from(1_usize),
        ID::from(2_usize),
        Relationship::Directed,
        person.clone(),
    );
    assert_eq!(edge.src(), &ID::from(1));
    assert_eq!(edge.dest(), &ID::from(2));
    assert_eq!(edge.data(), &person);
}

#[test]
fn edge_accessors_return_the_stored_fields() {
    let edge = Edge::new(
        ID::from(10_usize),
        ID::from(11_usize),
        ID::from(12_usize),
        Relationship::Undirected,
        "tag",
    );
    assert_eq!(edge.id().get(), 10);
    assert_eq!(edge.src().get(), 11);
    assert_eq!(edge.dest().get(), 12);
    assert_eq!(edge.relation(), Relationship::Undirected);
    assert_eq!(*edge.data(), "tag");
    let (src, dest, relation) = edge.vertices();
    assert_eq!(src.get(), 11);
    assert_eq!(dest.get(), 12);
    assert_eq!(relation, Relationship::Undirected);
    assert_eq!(edge.id, ID::from(10));
}

#[test]
fn edge_clone_keeps_every_field() {
    let edge = Edge::new(
        ID::from(1_usize),
        ID::from(2_usize),
        ID::from(3_usize),
        Relationship::Directed,
        String::from("payload"),
    );
    let copy = edge.clone();
    assert_eq!(copy.id, edge.id);
    assert_eq!(copy.src, edge.src);
    assert_eq!(copy.dest, edge.dest);
    assert_eq!(copy.relation, edge.relation);
    assert_eq!(copy.data, edge.data);
}

#[test]
fn node_accessors_return_the_stored_fields() {
    let node = Node::new(ID::from(4_usize), String::from("root"));
    assert_eq!(node.id(), &ID::from(4));
    assert_eq!(node.data(), "root");
    assert_eq!(node.id.get(), 4);
}

#[test]
fn relationship_tells_its_kind() {
    assert!(Relationship::Directed.is_directed());
    assert!(!Relationship::Directed.is_undirected());
    assert!(Relationship::Undirected.is_undirected());
    assert!(!Relationship::Undirected.is_directed());
    assert_ne!(Relationship::Directed, Relationship::Undirected);
}

#[test]
fn file_kinds_are_node_payloads() {
    let node = Node::new(ID::from(0_usize), FileType::Directory);
    assert!(matches!(node.data(), FileType::Directory));
    let other = Node::new(ID::from(1_usize), FileType::File);
    assert!(matches!(other.data(), FileType::File));
    let file = File {};
    println!("{:?}", file.clone());
}
