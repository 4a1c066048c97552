use retworkx_core::components::{
    bfs_order, bfs_undirected, component_lists, connected_components, number_connected_components, NodeSet,
};
use retworkx_core::graph::Graph;

fn from_edges(directed: bool, edges: &[(usize, usize)]) -> Graph {
    let mut g = Graph::new(directed);
    for &(a, b) in edges {
        while g.node_bound() <= a.max(b) {
            g.add_node();
        }
        g.add_edge(a, b);
    }
    g
}

fn set(v: &[usize]) -> NodeSet {
    NodeSet::from_nodes(&v.to_vec())
}

const TWO_CYCLES: [(usize, usize); 8] = [(0, 1), (1, 2), (2, 3), (3, 0), (4, 5), (5, 6), (6, 7), (7, 4)];

#[test]
fn test_number_connected() {
    let graph = from_edges(true, &[(0, 1), (1, 2), (3, 4)]);
    assert_eq!(number_connected_components(&graph), 2);
}

#[test]
fn test_number_node_holes() {
    let mut graph = from_edges(true, &[(0, 1), (1, 2)]);
    graph.remove_node(1);
    assert_eq!(number_connected_components(&graph), 2);
}

#[test]
fn test_connected_components() {
    let graph = from_edges(true, &TWO_CYCLES);
    let components = connected_components(&graph);
    let exp1 = set(&[0, 1, 3, 2]);
    let exp2 = set(&[7, 5, 4, 6]);
    let expected = vec![exp1, exp2];
    assert_eq!(expected, components);
}

#[test]
fn test_bfs_undirected() {
    let graph = from_edges(true, &TWO_CYCLES);
    let mut discovered = vec![false; graph.node_bound()];
    let component = bfs_undirected(&graph, 3, &mut discovered);
    let expected = set(&[0, 1, 3, 2]);
    assert_eq!(expected, component);
}

#[test]
fn two_cycles_count_and_sets() {
    let graph = from_edges(false, &TWO_CYCLES);
    let components = connected_components(&graph);
    assert_eq!(number_connected_components(&graph), 2);
    assert_eq!(components.len(), 2);
    assert_eq!(components[0], set(&[0, 1, 2, 3]));
    assert_eq!(components[1], set(&[4, 5, 6, 7]));
}

#[test]
fn removed_interior_node_splits_path() {
    let mut graph = from_edges(false, &[(0, 1), (1, 2)]);
    assert_eq!(number_connected_components(&graph), 1);
    graph.remove_node(1);
    assert!(!graph.contains_node(1));
    assert_eq!(graph.node_bound(), 3);
    assert_eq!(graph.node_count(), 2);
    let components = connected_components(&graph);
    assert_eq!(components, vec![set(&[0]), set(&[2])]);
    assert_eq!(component_lists(&graph), vec![vec![0], vec![2]]);
    assert_eq!(number_connected_components(&graph), 2);
}

#[test]
fn count_matches_list_length() {
    let graph = from_edges(true, &[(5, 0), (2, 3), (6, 6), (7, 1), (1, 5)]);
    let components = connected_components(&graph);
    assert_eq!(number_connected_components(&graph), components.len());
    assert_eq!(components.len(), 4);
}

#[test]
fn every_node_in_exactly_one_component() {
    let mut graph = from_edges(true, &[(0, 4), (3, 1), (2, 2), (5, 6), (6, 3)]);
    graph.remove_node(2);
    let components = component_lists(&graph);
    for v in 0..graph.node_bound() {
        let hits = components.iter().filter(|c| c.contains(&v)).count();
        assert_eq!(hits, if graph.contains_node(v) { 1 } else { 0 });
    }
    let firsts: Vec<usize> = components.iter().map(|c| c[0]).collect();
    assert_eq!(firsts, vec![0, 1]);
    assert_eq!(set(&components[1]), set(&[1, 3, 5, 6]));
    let sets = connected_components(&graph);
    assert_eq!(sets, vec![set(&[0, 4]), set(&[1, 3, 5, 6])]);
}

#[test]
fn edge_direction_is_ignored() {
    let graph = from_edges(true, &[(1, 0), (2, 1)]);
    let components = connected_components(&graph);
    assert_eq!(components, vec![set(&[0, 1, 2])]);
}

#[test]
fn empty_graph_has_no_components() {
    let graph = Graph::new(false);
    assert_eq!(number_connected_components(&graph), 0);
    assert!(connected_components(&graph).is_empty());
}

#[test]
fn bfs_skips_discovered_nodes() {
    let graph = from_edges(false, &[(0, 1), (1, 2), (2, 3)]);
    let mut discovered = vec![false, false, true, false];
    let component = bfs_order(&graph, 0, &mut discovered);
    assert_eq!(component, vec![0, 1]);
    assert_eq!(discovered, vec![true, true, true, false]);
}

#[test]
fn node_identifiers_skip_holes() {
    let mut graph = from_edges(false, &[(0, 1), (1, 2), (2, 3)]);
    graph.remove_node(2);
    assert_eq!(graph.node_identifiers(), vec![0, 1, 3]);
    assert!(graph.is_directed() == false);
}

#[test]
fn bfs_order_is_breadth_first() {
    let graph = from_edges(false, &[(0, 1), (0, 2), (1, 3), (2, 4), (3, 5)]);
    let mut discovered = vec![false; 6];
    assert_eq!(bfs_order(&graph, 0, &mut discovered), vec![0, 1, 2, 3, 4, 5]);
}

#[test]
fn bfs_undirected_marks_start() {
    let graph = from_edges(true, &[(0, 1)]);
    let mut discovered = vec![false; 2];
    let component = bfs_undirected(&graph, 1, &mut discovered);
    assert_eq!(component, set(&[0, 1]));
    assert_eq!(discovered, vec![true, true]);
}

#[test]
fn node_set_ignores_order_and_repeats() {
    assert_eq!(set(&[1, 1, 2]), set(&[2, 1]));
    assert_ne!(set(&[1, 2]), set(&[1]));
    assert_ne!(set(&[3]), set(&[]));
}
