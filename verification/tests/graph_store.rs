use graph::types::Direction;
use graph::{EdgeData, Graph, NodeContents, NodeData, Relation};
use std::path::PathBuf;

fn folder(name: &str) -> NodeData {
    NodeData {
        contents: NodeContents::Folder {
            display_name: name.to_string(),
            path: PathBuf::from(name),
        },
    }
}

fn file(name: &str) -> NodeData {
    NodeData {
        contents: NodeContents::File { display_name: name.to_string(), path: PathBuf::from(name) },
    }
}

fn item(name: &str) -> NodeData {
    NodeData { contents: NodeContents::Item { display_name: name.to_string(), moniker: None } }
}

fn parent_of(from: usize, to: usize) -> EdgeData {
    EdgeData { from, to, relation: Relation::IsParentOf }
}

fn display_name(node: &NodeData) -> &str {
    match &node.contents {
        NodeContents::Folder { display_name, .. } => display_name,
        NodeContents::File { display_name, .. } => display_name,
        NodeContents::Item { display_name, .. } => display_name,
    }
}

/// root -> x -> foo, and root -> foo.
fn sample() -> Graph {
    let mut graph = Graph::default();
    graph.add_node(folder("root"));
    graph.add_node(file("root/x"));
    graph.add_node(item("foo"));
    graph.add_edge(parent_of(0, 1));
    graph.add_edge(parent_of(1, 2));
    graph.add_edge(parent_of(0, 2));
    graph
}

#[test]
fn default_store_is_empty() {
    let graph = Graph::default();
    assert_eq!(graph.nodes().count(), 0);
    assert_eq!(graph.edges().count(), 0);
    assert!(graph.node_data(0).is_none());
    assert!(graph.edge_data(0).is_none());
    assert!(graph.is_well_formed());
}

#[test]
fn node_ids_count_up_from_zero() {
    let mut graph = Graph::default();
    assert_eq!(graph.add_node(folder("a")), 0);
    assert_eq!(graph.add_node(file("b")), 1);
    assert_eq!(graph.add_node(item("c")), 2);
    assert_eq!(graph.nodes().collect::<Vec<_>>(), vec![0, 1, 2]);
}

#[test]
fn edge_ids_count_up_from_zero() {
    let mut graph = Graph::default();
    graph.add_node(folder("a"));
    graph.add_node(file("b"));
    assert_eq!(graph.add_edge(parent_of(0, 1)), 0);
    assert_eq!(graph.add_edge(parent_of(1, 0)), 1);
    assert_eq!(graph.add_edge(parent_of(0, 1)), 2);
    assert_eq!(graph.edges().collect::<Vec<_>>(), vec![0, 1, 2]);
}

#[test]
fn lookup_returns_what_was_stored() {
    let graph = sample();
    assert_eq!(display_name(graph.node_data(0).unwrap()), "root");
    assert_eq!(display_name(graph.node_data(1).unwrap()), "root/x");
    assert_eq!(display_name(graph.node_data(2).unwrap()), "foo");
    assert!(matches!(graph.node_data(0).unwrap().contents, NodeContents::Folder { .. }));
    assert!(matches!(graph.node_data(1).unwrap().contents, NodeContents::File { .. }));
    assert!(matches!(
        graph.node_data(2).unwrap().contents,
        NodeContents::Item { moniker: None, .. }
    ));
    let edge = graph.edge_data(1).unwrap();
    assert_eq!((edge.from, edge.to, edge.relation), (1, 2, Relation::IsParentOf));
}

#[test]
fn lookup_of_unknown_id_is_none() {
    let mut graph = sample();
    assert!(graph.node_data(3).is_none());
    assert!(graph.node(3usize).is_none());
    assert!(graph.node_data_mut(3).is_none());
    assert!(graph.node_mut(usize::MAX).is_none());
    assert!(graph.edge_data(3).is_none());
    assert!(graph.edge(3usize).is_none());
    assert!(graph.edge_data_mut(3).is_none());
    assert!(graph.edge_mut(usize::MAX).is_none());
    assert!(graph.node_outgoing_edges(3).is_none());
    assert!(graph.node_incoming_edges(3).is_none());
    assert!(graph.node_neighbors(3).is_none());
    assert!(graph.node_children(3).is_none());
}

#[test]
fn lookup_takes_what_converts_into_an_id() {
    let graph = sample();
    assert_eq!(display_name(graph.node(1u8).unwrap()), "root/x");
    assert_eq!(display_name(graph.node(2u16).unwrap()), "foo");
    assert_eq!(display_name(graph.node(0usize).unwrap()), "root");
    assert_eq!(graph.edge(2u8).unwrap().to, 2);
    assert_eq!(graph.edge(0usize).unwrap().to, 1);
}

#[test]
fn adjacency_lists_hold_edges_in_order_of_insertion() {
    let graph = sample();
    assert_eq!(graph.node_outgoing_edges(0), Some(&[0usize, 2][..]));
    assert_eq!(graph.node_outgoing_edges(1), Some(&[1usize][..]));
    assert_eq!(graph.node_outgoing_edges(2), Some(&[][..]));
    assert_eq!(graph.node_incoming_edges(0), Some(&[][..]));
    assert_eq!(graph.node_incoming_edges(1), Some(&[0usize][..]));
    assert_eq!(graph.node_incoming_edges(2), Some(&[1usize, 2][..]));
}

#[test]
fn every_edge_stands_once_in_each_index() {
    let graph = sample();
    for edge_id in graph.edges() {
        let edge = graph.edge_data(edge_id).unwrap();
        let mut in_outgoing = 0;
        let mut in_incoming = 0;
        for node_id in graph.nodes() {
            let outgoing = graph.node_outgoing_edges(node_id).unwrap();
            let incoming = graph.node_incoming_edges(node_id).unwrap();
            let here_out = outgoing.iter().filter(|&&e| e == edge_id).count();
            let here_in = incoming.iter().filter(|&&e| e == edge_id).count();
            assert_eq!(here_out, if node_id == edge.from { 1 } else { 0 });
            assert_eq!(here_in, if node_id == edge.to { 1 } else { 0 });
            in_outgoing += here_out;
            in_incoming += here_in;
        }
        assert_eq!((in_outgoing, in_incoming), (1, 1));
    }
}

#[test]
fn neighbors_are_the_targets_of_outgoing_edges() {
    let graph = sample();
    assert_eq!(graph.node_neighbors(0), Some(vec![1, 2]));
    assert_eq!(graph.node_neighbors(1), Some(vec![2]));
    assert_eq!(graph.node_neighbors(2), Some(vec![]));
}

#[test]
fn neighbors_list_a_target_once_per_edge() {
    let mut graph = Graph::default();
    graph.add_node(folder("a"));
    graph.add_node(folder("b"));
    graph.add_edge(parent_of(0, 1));
    graph.add_edge(parent_of(0, 1));
    graph.add_edge(parent_of(0, 0));
    assert_eq!(graph.node_neighbors(0), Some(vec![1, 1, 0]));
    assert_eq!(graph.node_children(0), Some(vec![1, 1, 0]));
    assert_eq!(graph.node_incoming_edges(0), Some(&[2usize][..]));
}

#[test]
fn children_follow_parent_edges() {
    let graph = sample();
    assert_eq!(graph.node_children(0), Some(vec![1, 2]));
    assert_eq!(graph.node_children(1), Some(vec![2]));
    assert_eq!(graph.node_children(2), Some(vec![]));
}

#[test]
fn node_mut_replaces_the_payload() {
    let mut graph = sample();
    *graph.node_data_mut(1).unwrap() = item("renamed");
    assert_eq!(display_name(graph.node_data(1).unwrap()), "renamed");
    if let NodeContents::Item { moniker, .. } = &mut graph.node_mut(2usize).unwrap().contents {
        *moniker = Some("m".to_string());
    }
    assert!(matches!(
        &graph.node_data(2).unwrap().contents,
        NodeContents::Item { moniker: Some(m), .. } if m == "m"
    ));
    assert_eq!(display_name(graph.node_data(0).unwrap()), "root");
    assert_eq!(graph.node_neighbors(0), Some(vec![1, 2]));
    assert!(graph.is_well_formed());
}

#[test]
fn edge_mut_that_keeps_endpoints_keeps_the_invariant() {
    let mut graph = sample();
    graph.edge_data_mut(0).unwrap().relation = Relation::IsParentOf;
    graph.edge_mut(1u8).unwrap().relation = Relation::IsParentOf;
    assert!(graph.is_well_formed());
    assert!(graph.endpoints_are_nodes());
}

#[test]
fn edge_mut_rewrites_the_record_and_not_the_lists() {
    let mut graph = sample();
    graph.edge_data_mut(0).unwrap().to = 2;
    assert_eq!(graph.edge_data(0).unwrap().to, 2);
    assert_eq!(graph.node_incoming_edges(1), Some(&[0usize][..]));
    assert_eq!(graph.node_neighbors(0), Some(vec![2, 2]));
    assert!(graph.endpoints_are_nodes());
    assert!(!graph.is_well_formed());
}

#[test]
fn edge_mut_to_an_unknown_node_breaks_integrity() {
    let mut graph = sample();
    graph.edge_mut(2usize).unwrap().from = 9;
    assert!(!graph.endpoints_are_nodes());
    assert!(!graph.is_well_formed());
}

#[test]
fn stores_filled_by_insertion_are_well_formed() {
    let mut graph = Graph::default();
    for k in 0..20 {
        let id = graph.add_node(folder("n"));
        assert_eq!(id, k);
        if k > 0 {
            graph.add_edge(parent_of((k - 1) / 2, k));
            graph.add_edge(parent_of(k, 0));
        }
        assert!(graph.is_well_formed());
    }
    assert_eq!(graph.edges().count(), 38);
    assert_eq!(graph.node_children(0).unwrap(), vec![1, 2]);
    assert_eq!(graph.node_incoming_edges(0).unwrap().len(), 19);
}

#[test]
fn an_edge_sees_its_endpoint_by_direction() {
    let edge = parent_of(3, 8);
    assert_eq!(edge.end(Direction::Outgoing), 3);
    assert_eq!(edge.end(Direction::Incoming), 8);
}
