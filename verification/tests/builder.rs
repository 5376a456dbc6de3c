use graph::Graph;
use std::collections::HashSet;

#[test]
fn macro_empty() {
    let graph: Graph<i32> = Graph::from_edges(vec![]);
    assert_eq!(graph.nodes().len(), 0);
}

#[test]
fn macro_one_edge() {
    let graph = Graph::from_edges(vec![(0, 1)]);
    assert_eq!(graph.nodes().len(), 2);
    assert_eq!(graph.edges().len(), 1);
}

#[test]
fn macro_two_edges() {
    let graph = Graph::from_edges(vec![(0, 1), (1, 0)]);
    assert_eq!(graph.nodes().len(), 2);
    assert_eq!(graph.edges().len(), 2);
}

#[test]
fn macro_many_edges() {
    let graph = Graph::from_edges(vec![
        (0, 1),
        (0, 3),
        (1, 0),
        (1, 2),
        (1, 3),
        (2, 0),
        (3, 0),
        (3, 2),
    ]);
    assert_eq!(graph.nodes().len(), 4);
    assert_eq!(graph.edges().len(), 8);

    let one = graph.find_node(&1).unwrap();
    let mut successor_values = HashSet::new();
    for n in graph.successors(one).into_vec() {
        successor_values.insert(*graph.node_value(n));
    }
    let mut expected = HashSet::new();
    expected.insert(0);
    expected.insert(2);
    expected.insert(3);
    assert_eq!(successor_values, expected);
}

#[test]
fn duplicate_pairs_make_one_node() {
    let graph = Graph::from_edges(vec![(1, 1), (1, 1), (1, 1), (1, 1), (1, 1)]);
    assert_eq!(graph.nodes().len(), 1);
    assert_eq!(graph.edges().len(), 5);
    let only = graph.find_node(&1).unwrap();
    assert_eq!(graph.successors(only).into_vec(), [only, only, only, only, only]);
}

#[test]
fn edges_join_the_nodes_holding_the_pair_values() {
    let graph = Graph::from_edges(vec![(1, 2), (3, 1), (1, 3)]);
    assert_eq!(graph.nodes().len(), 3);
    let one = graph.find_node(&1).unwrap();
    let two = graph.find_node(&2).unwrap();
    let three = graph.find_node(&3).unwrap();
    assert_eq!(graph.successors(one).into_vec(), [three, two]);
    assert_eq!(graph.successors(three).into_vec(), [one]);
    assert_eq!(graph.successors(two).into_vec(), []);
}
