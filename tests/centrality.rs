use retworkx_core::centrality::{rescale_factor, shortest_path_for_centrality};
use retworkx_core::graph::Graph;

fn build(directed: bool, n: usize, edges: &[(usize, usize)]) -> Graph {
    let mut g = Graph::new(directed);
    for _ in 0..n {
        g.add_node();
    }
    for &(a, b) in edges {
        g.add_edge(a, b);
    }
    g
}

fn factor(n: usize, normalized: bool, directed: bool, endpoints: bool) -> (u128, u128) {
    let s = rescale_factor(n, normalized, directed, endpoints);
    (s.numerator, s.denominator)
}

#[test]
fn rescale_table_normalized_endpoints() {
    assert_eq!(factor(0, true, false, true), (1, 1));
    assert_eq!(factor(1, true, true, true), (1, 1));
    assert_eq!(factor(2, true, false, true), (1, 2));
    assert_eq!(factor(3, true, true, true), (1, 6));
    assert_eq!(factor(10, true, false, true), (1, 90));
}

#[test]
fn rescale_table_normalized_without_endpoints() {
    assert_eq!(factor(0, true, false, false), (1, 1));
    assert_eq!(factor(1, true, true, false), (1, 1));
    assert_eq!(factor(2, true, false, false), (1, 1));
    assert_eq!(factor(3, true, true, false), (1, 2));
    assert_eq!(factor(10, true, false, false), (1, 72));
}

#[test]
fn rescale_table_unnormalized() {
    for n in [0usize, 1, 2, 3, 10] {
        assert_eq!(factor(n, false, false, true), (1, 2));
        assert_eq!(factor(n, false, false, false), (1, 2));
        assert_eq!(factor(n, false, true, true), (1, 1));
        assert_eq!(factor(n, false, true, false), (1, 1));
    }
}

#[test]
fn rescale_twice_is_once_only_for_unit_factor() {
    for n in [0usize, 1, 2, 3, 10] {
        for flags in 0..8 {
            let s = rescale_factor(n, flags & 1 != 0, flags & 2 != 0, flags & 4 != 0);
            let once = 7.0 * s.numerator as f64 / s.denominator as f64;
            let twice = once * s.numerator as f64 / s.denominator as f64;
            assert_eq!(once == twice, s.is_identity());
        }
    }
}

#[test]
fn rescale_largest_count() {
    let n = usize::MAX as u128;
    assert_eq!(factor(usize::MAX, true, true, true), (1, n * (n - 1)));
}

#[test]
fn star_paths_pass_through_center() {
    // center 0, leaves 1..=4
    let g = build(false, 5, &[(0, 1), (0, 2), (0, 3), (0, 4)]);
    let r = shortest_path_for_centrality(&g, 1);
    assert_eq!(*r.order.last().unwrap(), 1);
    assert_eq!(r.order.len(), 5);
    assert_eq!(r.distance[1], Some(0));
    assert_eq!(r.distance[0], Some(1));
    for leaf in 2..=4 {
        assert_eq!(r.distance[leaf], Some(2));
        assert_eq!(r.predecessors[leaf], vec![0]);
    }
    assert_eq!(r.predecessors[0], vec![1]);
    assert!(r.predecessors[1].is_empty());
}

#[test]
fn diamond_has_two_predecessors() {
    let g = build(true, 4, &[(0, 1), (0, 2), (1, 3), (2, 3)]);
    let r = shortest_path_for_centrality(&g, 0);
    assert_eq!(r.order[0], 3);
    assert_eq!(r.order[3], 0);
    assert_eq!(r.distance, vec![Some(0), Some(1), Some(1), Some(2)]);
    let mut p = r.predecessors[3].clone();
    p.sort();
    assert_eq!(p, vec![1, 2]);
}

#[test]
fn directed_edges_are_followed_forward_only() {
    let g = build(true, 3, &[(1, 0), (1, 2)]);
    let r = shortest_path_for_centrality(&g, 0);
    assert_eq!(r.order, vec![0]);
    assert_eq!(r.distance, vec![Some(0), None, None]);
}

#[test]
fn removed_nodes_are_not_reached() {
    let mut g = build(false, 3, &[(0, 1), (1, 2), (0, 2)]);
    g.remove_node(2);
    let r = shortest_path_for_centrality(&g, 0);
    assert_eq!(r.order, vec![1, 0]);
    assert_eq!(r.distance[2], None);
}

#[test]
fn order_is_farthest_first() {
    let g = build(false, 5, &[(0, 1), (1, 2), (2, 3), (3, 4)]);
    let r = shortest_path_for_centrality(&g, 2);
    let d: Vec<usize> = r.order.iter().map(|&v| r.distance[v].unwrap()).collect();
    assert_eq!(d, vec![2, 2, 1, 1, 0]);
}

#[test]
fn parallel_edges_repeat_predecessors() {
    let g = build(true, 3, &[(0, 1), (0, 1), (1, 2)]);
    let r = shortest_path_for_centrality(&g, 0);
    assert_eq!(r.predecessors[1], vec![0, 0]);
    assert_eq!(r.predecessors[2], vec![1]);
    assert_eq!(r.order, vec![2, 1, 0]);
}
