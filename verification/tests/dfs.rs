use graph::Graph;

fn dfs_values<T>(g: &Graph<T>, start: T) -> Vec<T>
where
    T: Copy + PartialEq,
{
    let mut out: Vec<T> = Vec::new();
    let mut it = g.dfs(g.find_node(&start).unwrap());
    while let Some(n) = it.next() {
        out.push(*g.node_value(n));
    }
    out
}

#[test]
fn dfs_one_node() {
    let mut graph = Graph::new();
    let node = graph.add_node(1);
    let mut it = graph.dfs(node);
    let mut seen = Vec::new();
    while let Some(n) = it.next() {
        seen.push(n);
    }
    assert_eq!(seen, [node]);
}

#[test]
fn dfs_two_nodes() {
    let graph = Graph::from_edges(vec![(1, 2), (2, 1)]);
    assert_eq!(dfs_values(&graph, 1), [1, 2]);
}

#[test]
fn dfs_shallow_graph() {
    let graph = Graph::from_edges(vec![(1, 2), (1, 3), (1, 4)]);
    assert_eq!(dfs_values(&graph, 1), [1, 2, 3, 4]);
}

#[test]
fn dfs_deep_graph() {
    let graph = Graph::from_edges(vec![(1, 2), (2, 3), (3, 4)]);
    assert_eq!(dfs_values(&graph, 1), [1, 2, 3, 4]);
}

#[test]
fn dfs_is_depth_first() {
    let graph = Graph::from_edges(vec![
        ('A', 'B'),
        ('A', 'C'),
        ('A', 'E'),
        ('B', 'A'),
        ('B', 'D'),
        ('B', 'F'),
        ('C', 'A'),
        ('C', 'G'),
        ('D', 'B'),
        ('E', 'A'),
        ('E', 'F'),
        ('F', 'B'),
        ('F', 'E'),
        ('G', 'C'),
    ]);
    assert_eq!(dfs_values(&graph, 'A'), ['A', 'B', 'D', 'F', 'E', 'C', 'G']);
}
