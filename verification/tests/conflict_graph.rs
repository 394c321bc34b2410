use binpack::coloring::greedy_coloring;
use binpack::conflict_graph::ConflictGraph;

#[test]
fn edges_are_undirected_and_self_loops_ignored() {
    let mut g = ConflictGraph::new();
    g.add_conflict(1usize, 2usize);
    g.add_conflict(2, 1);
    g.add_conflict(5, 5);
    assert_eq!(g.adjacency.len(), 2);
    assert_eq!(g.degree(&1), 1);
    assert_eq!(g.degree(&2), 1);
    assert_eq!(g.degree(&5), 0);
    let mut n = g.neighbors(&1);
    n.sort();
    assert_eq!(n, vec![2]);
    assert!(g.neighbors(&9).is_empty());
}

#[test]
fn add_node_keeps_existing_edges() {
    let mut g = ConflictGraph::new();
    g.add_conflict(0usize, 1usize);
    g.add_node(0);
    g.add_node(3);
    assert_eq!(g.degree(&0), 1);
    assert_eq!(g.degree(&3), 0);
    assert_eq!(g.adjacency.len(), 3);
}

#[test]
fn coloring_separates_neighbors() {
    // A triangle 0-1-2 plus a pendant 3 on 2 and an isolated 4.
    let mut g = ConflictGraph::new();
    for (a, b) in [(0usize, 1usize), (1, 2), (0, 2), (2, 3)] {
        g.add_conflict(a, b);
    }
    g.add_node(4);
    let colors = greedy_coloring(&g);
    assert_eq!(colors.len(), 5);
    for (a, b) in [(0usize, 1usize), (1, 2), (0, 2), (2, 3)] {
        assert_ne!(colors[&a], colors[&b]);
    }
    // Welsh-Powell order: 2 (degree 3), then 0, 1 (degree 2), 3 (degree 1), 4.
    assert_eq!(colors[&2], 0);
    assert_eq!(colors[&0], 1);
    assert_eq!(colors[&1], 2);
    assert_eq!(colors[&3], 1);
    assert_eq!(colors[&4], 0);
}

#[test]
fn coloring_of_an_empty_graph_is_empty() {
    let g: ConflictGraph<usize> = ConflictGraph::new();
    assert!(greedy_coloring(&g).is_empty());
}

#[test]
fn coloring_is_reproducible() {
    let mut g1 = ConflictGraph::new();
    let mut g2 = ConflictGraph::new();
    let edges = [(0usize, 3usize), (3, 4), (4, 0), (1, 2), (2, 5), (5, 6)];
    for &(a, b) in edges.iter() {
        g1.add_conflict(a, b);
    }
    for &(a, b) in edges.iter().rev() {
        g2.add_conflict(b, a);
    }
    assert_eq!(greedy_coloring(&g1), greedy_coloring(&g2));
}
