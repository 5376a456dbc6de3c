use graph::Graph;
use std::collections::HashSet;

fn bfs_values<T>(g: &Graph<T>, start: T) -> Vec<HashSet<T>>
where
    T: Copy + std::hash::Hash + Eq,
{
    let mut out: Vec<HashSet<T>> = Vec::new();
    let mut it = g.bfs(g.find_node(&start).unwrap());
    while let Some(level) = it.next() {
        let mut set = HashSet::new();
        for n in level {
            set.insert(*g.node_value(n));
        }
        out.push(set);
    }
    out
}

fn set_of<T: Copy + std::hash::Hash + Eq>(xs: &[T]) -> HashSet<T> {
    let mut s = HashSet::new();
    for x in xs {
        s.insert(*x);
    }
    s
}

#[test]
fn bfs_one_node() {
    let mut graph = Graph::new();
    graph.add_node(1);
    assert_eq!(bfs_values(&graph, 1), [set_of(&[1])]);
}

#[test]
fn bfs_two_nodes() {
    let graph = Graph::from_edges(vec![(1, 2), (2, 1)]);
    assert_eq!(bfs_values(&graph, 1), [set_of(&[1]), set_of(&[2])]);
    assert_eq!(bfs_values(&graph, 2), [set_of(&[2]), set_of(&[1])]);
}

#[test]
fn bfs_deep_graph() {
    let graph = Graph::from_edges(vec![(1, 2), (2, 3), (3, 4)]);
    assert_eq!(
        bfs_values(&graph, 1),
        [set_of(&[1]), set_of(&[2]), set_of(&[3]), set_of(&[4])]
    );
}

#[test]
fn bfs_shallow_graph() {
    let graph = Graph::from_edges(vec![(1, 2), (1, 3), (1, 4)]);
    assert_eq!(bfs_values(&graph, 1), [set_of(&[1]), set_of(&[2, 3, 4])]);
}

#[test]
fn bfs_is_breadth_first() {
    let graph = Graph::from_edges(vec![
        ('A', 'B'),
        ('A', 'C'),
        ('A', 'E'),
        ('B', 'A'),
        ('B', 'D'),
        ('B', 'F'),
        ('C', 'A'),
        ('C', 'G'),
        ('D', 'B'),
        ('E', 'A'),
        ('E', 'F'),
        ('F', 'B'),
        ('F', 'E'),
        ('G', 'C'),
    ]);
    assert_eq!(
        bfs_values(&graph, 'A'),
        [
            set_of(&['A']),
            set_of(&['B', 'C', 'E']),
            set_of(&['D', 'F', 'G'])
        ]
    );
}
