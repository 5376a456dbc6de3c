use graph::Graph;
use graph::NodeIndex;

fn drain_dfs<T>(g: &Graph<T>, start: NodeIndex) -> Vec<NodeIndex> {
    let mut out = Vec::new();
    let mut it = g.dfs(start);
    while let Some(n) = it.next() {
        out.push(n);
    }
    out
}

fn drain_bfs<T>(g: &Graph<T>, start: NodeIndex) -> Vec<Vec<NodeIndex>> {
    let mut out = Vec::new();
    let mut it = g.bfs(start);
    while let Some(level) = it.next() {
        out.push(level);
    }
    out
}

#[test]
fn index_stability_across_growth() {
    let mut g = Graph::new();
    let a = g.add_node(10);
    let b = g.add_node(20);
    g.add_edge(a, b);
    let a_successors_before: Vec<NodeIndex> = g.successors(a).into_vec();
    let c = g.add_node(30);
    g.add_edge(b, c);
    g.add_edge(c, a);
    assert_eq!(*g.node_value(a), 10);
    assert_eq!(*g.node_value(b), 20);
    assert_eq!(*g.node_value(c), 30);
    assert_eq!(g.successors(a).into_vec(), a_successors_before);
}

#[test]
fn successor_count_matches_edges_added() {
    let mut g = Graph::new();
    let a = g.add_node('a');
    let b = g.add_node('b');
    let c = g.add_node('c');
    g.add_edge(a, b);
    g.add_edge(a, c);
    g.add_edge(a, b);
    g.add_edge(b, c);
    assert_eq!(g.successors(a).into_vec().len(), 3);
    assert_eq!(g.successors(b).into_vec().len(), 1);
    assert_eq!(g.successors(c).into_vec().len(), 0);
}

#[test]
fn successor_order_is_reverse_insertion() {
    let mut g = Graph::new();
    let n = g.add_node(0);
    let t1 = g.add_node(1);
    let t2 = g.add_node(2);
    let t3 = g.add_node(3);
    g.add_edge(n, t1);
    g.add_edge(n, t2);
    g.add_edge(n, t3);
    assert_eq!(g.successors(n).into_vec(), [t3, t2, t1]);
}

#[test]
fn bfs_visits_once_with_cycle() {
    let g = Graph::from_edges(vec![('A', 'B'), ('B', 'A')]);
    let a = g.find_node(&'A').unwrap();
    let b = g.find_node(&'B').unwrap();
    let levels = drain_bfs(&g, a);
    assert_eq!(levels, [vec![a], vec![b]]);
}

#[test]
fn dfs_visits_once_with_cycle() {
    let g = Graph::from_edges(vec![('A', 'B'), ('B', 'A')]);
    let a = g.find_node(&'A').unwrap();
    let b = g.find_node(&'B').unwrap();
    assert_eq!(drain_dfs(&g, a), [a, b]);
}

#[test]
fn find_or_add_node_is_idempotent() {
    let mut g = Graph::new();
    let first = g.find_or_add_node(7);
    for _ in 0..4 {
        assert_eq!(g.find_or_add_node(7), first);
    }
    assert_eq!(g.nodes().len(), 1);
    assert_eq!(g.edges().len(), 0);
}

#[test]
fn single_node_traversals() {
    let mut g = Graph::new();
    let only = g.add_node(5);
    assert_eq!(drain_bfs(&g, only), [vec![only]]);
    assert_eq!(drain_dfs(&g, only), [only]);
}

#[test]
fn size_hint_bounds_items_produced() {
    let graphs = vec![
        Graph::from_edges(vec![(1, 2)]),
        Graph::from_edges(vec![(1, 2), (2, 3), (3, 1)]),
        Graph::from_edges(vec![(1, 2), (1, 3), (1, 4), (4, 1), (2, 4)]),
    ];
    for g in &graphs {
        let start = g.find_node(&1).unwrap();
        let bfs_upper = g.bfs(start).size_hint().1.unwrap();
        assert!(bfs_upper >= drain_bfs(g, start).len());
        let dfs_upper = g.dfs(start).size_hint().1.unwrap();
        assert!(dfs_upper >= drain_dfs(g, start).len());
    }
}

#[test]
fn successors_size_hint_shape() {
    let mut g = Graph::new();
    let a = g.add_node(1);
    let b = g.add_node(2);
    g.add_edge(a, b);
    assert_eq!(g.successors(a).size_hint(), (0, Some(1)));
}

#[test]
fn node_value_mut_rewrites_one_value() {
    let mut g = Graph::new();
    let a = g.add_node(1);
    let b = g.add_node(2);
    g.add_edge(a, b);
    *g.node_value_mut(a) = 9;
    assert_eq!(*g.node_value(a), 9);
    assert_eq!(*g.node_value(b), 2);
    assert_eq!(g.successors(a).into_vec(), [b]);
}

#[test]
fn nodes_and_edges_enumerate_in_insertion_order() {
    let mut g = Graph::new();
    let a = g.add_node('x');
    let b = g.add_node('y');
    let e = g.add_edge(a, b);
    let nodes = g.nodes();
    assert_eq!(nodes.len(), 2);
    assert_eq!(nodes[0].0, a);
    assert_eq!(*nodes[0].1, 'x');
    assert_eq!(nodes[1].0, b);
    assert_eq!(*nodes[1].1, 'y');
    let edges = g.edges();
    assert_eq!(edges, [e]);
}

#[test]
fn new_node_has_no_successors() {
    let mut g = Graph::new();
    let a = g.add_node(0);
    assert_eq!(g.successors(a).into_vec(), []);
    let mut it = g.successors(a);
    assert_eq!(it.next(), None);
}
