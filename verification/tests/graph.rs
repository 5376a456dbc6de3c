use graph::Graph;

#[test]
fn find_node_empty() {
    let graph = Graph::new();
    assert_eq!(graph.find_node(&1), None);
}

#[test]
fn find_node_singleton() {
    let mut graph = Graph::new();
    let node = graph.add_node(1);
    assert_eq!(graph.find_node(&1), Some(node));
    assert_eq!(graph.find_node(&2), None);
}

#[test]
fn find_node_many() {
    let mut graph = Graph::new();
    let one = graph.add_node(1);
    let two = graph.add_node(2);
    assert_eq!(graph.find_node(&1), Some(one));
    assert_eq!(graph.find_node(&2), Some(two));
    assert_eq!(graph.find_node(&3), None);
}

#[test]
fn test_add_multiple_nodes() {
    let mut graph = Graph::new();
    for _ in 0..5 {
        graph.find_node(&1).unwrap_or_else(|| graph.add_node(1));
    }
    assert!(graph.find_node(&1).is_some());
    assert_eq!(graph.nodes().len(), 1);
}
