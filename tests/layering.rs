use supply_layout::graph::{Edge, Graph, LayoutError};
use supply_layout::order::order_nodes_within_layers;
use supply_layout::rank::assign_layers;

fn graph(n: usize, edges: &[(usize, usize)]) -> Graph {
    let mut g = Graph::new(n);
    for &(s, t) in edges {
        g.add_edge(s, t);
    }
    g
}

fn sorted(v: &[usize]) -> Vec<usize> {
    let mut w = v.to_vec();
    w.sort();
    w
}

#[test]
fn diamond_ranks_and_layers() {
    // A=0, B=1, C=2, D=3
    let g = graph(4, &[(0, 1), (0, 2), (1, 3), (2, 3)]);
    let ranks = assign_layers(&g).unwrap();
    assert_eq!(ranks, vec![0, 1, 1, 2]);
    let layers = order_nodes_within_layers(&g, &ranks).unwrap();
    assert_eq!(layers, vec![vec![0], vec![1, 2], vec![3]]);
    assert_eq!(layers[2].len(), 1);
}

#[test]
fn disjoint_chains_rank_independently() {
    // A=0 -> B=1, C=2 -> D=3
    let g = graph(4, &[(0, 1), (2, 3)]);
    let ranks = assign_layers(&g).unwrap();
    assert_eq!(ranks, vec![0, 1, 0, 1]);
    let layers = order_nodes_within_layers(&g, &ranks).unwrap();
    assert_eq!(layers, vec![vec![0, 2], vec![1, 3]]);
}

#[test]
fn every_edge_climbs_a_rank() {
    let edges = [(0, 3), (1, 3), (3, 4), (2, 4), (0, 4), (4, 5), (1, 5)];
    let g = graph(6, &edges);
    let ranks = assign_layers(&g).unwrap();
    for &(s, t) in &edges {
        assert!(ranks[t] > ranks[s]);
    }
    assert_eq!(ranks, vec![0, 0, 0, 1, 2, 3]);
}

#[test]
fn longest_path_wins_over_short_cut() {
    // 0 -> 1 -> 2 -> 3 and a short cut 0 -> 3
    let g = graph(4, &[(0, 3), (0, 1), (1, 2), (2, 3)]);
    assert_eq!(assign_layers(&g).unwrap(), vec![0, 1, 2, 3]);
}

#[test]
fn lowest_rank_is_zero() {
    let g = graph(5, &[(4, 3), (3, 2), (2, 1), (1, 0)]);
    let ranks = assign_layers(&g).unwrap();
    assert_eq!(*ranks.iter().min().unwrap(), 0);
    assert_eq!(ranks, vec![4, 3, 2, 1, 0]);
}

#[test]
fn empty_graph_has_no_ranks() {
    let g = graph(0, &[]);
    assert_eq!(assign_layers(&g).unwrap(), Vec::<usize>::new());
    assert_eq!(order_nodes_within_layers(&g, &vec![]).unwrap(), Vec::<Vec<usize>>::new());
}

#[test]
fn isolated_nodes_share_rank_zero() {
    let g = graph(3, &[]);
    let ranks = assign_layers(&g).unwrap();
    assert_eq!(ranks, vec![0, 0, 0]);
    assert_eq!(order_nodes_within_layers(&g, &ranks).unwrap(), vec![vec![0, 1, 2]]);
}

#[test]
fn cycle_is_detected() {
    let g = graph(3, &[(0, 1), (1, 2), (2, 0)]);
    assert_eq!(assign_layers(&g), Err(LayoutError::CycleDetected));
}

#[test]
fn self_loop_is_a_cycle() {
    let g = graph(2, &[(0, 1), (1, 1)]);
    assert_eq!(assign_layers(&g), Err(LayoutError::CycleDetected));
}

#[test]
fn dangling_edge_is_rejected() {
    let g = Graph { node_count: 2, edges: vec![Edge { source: 0, target: 2 }] };
    assert_eq!(assign_layers(&g), Err(LayoutError::DanglingEdgeReference));
}

#[test]
fn dangling_edge_wins_over_cycle() {
    let g = graph(2, &[(0, 1), (1, 0), (5, 0)]);
    assert_eq!(assign_layers(&g), Err(LayoutError::DanglingEdgeReference));
}

#[test]
fn barycenter_uncrosses_two_edges() {
    // 0 -> 3 and 1 -> 2 cross when layer 1 reads [2, 3]
    let g = graph(4, &[(0, 3), (1, 2)]);
    let ranks = assign_layers(&g).unwrap();
    assert_eq!(ranks, vec![0, 0, 1, 1]);
    assert_eq!(order_nodes_within_layers(&g, &ranks).unwrap(), vec![vec![0, 1], vec![3, 2]]);
}

#[test]
fn bottom_up_pass_reorders_upper_layer() {
    // layer 0 is [0, 1, 2], layer 1 is [3, 4]
    let g = graph(5, &[(0, 3), (2, 3), (1, 4)]);
    let ranks = assign_layers(&g).unwrap();
    assert_eq!(ranks, vec![0, 0, 0, 1, 1]);
    // going down, 3 reads (0 + 2) / 2 and 4 reads 1: a tie, order kept;
    // going up, 0 and 2 read 0 (child 3) and 1 reads 1 (child 4)
    assert_eq!(order_nodes_within_layers(&g, &ranks).unwrap(), vec![vec![0, 2, 1], vec![3, 4]]);
}

#[test]
fn ordering_keeps_nodes_of_each_rank() {
    let edges = [(0, 5), (1, 4), (2, 3), (3, 6), (4, 6), (5, 7), (1, 7), (0, 3)];
    let g = graph(8, &edges);
    let ranks = assign_layers(&g).unwrap();
    let layers = order_nodes_within_layers(&g, &ranks).unwrap();
    let max = *ranks.iter().max().unwrap();
    assert_eq!(layers.len(), max + 1);
    for (r, layer) in layers.iter().enumerate() {
        let expected: Vec<usize> = (0..8).filter(|&v| ranks[v] == r).collect();
        assert_eq!(sorted(layer), expected);
    }
}

#[test]
fn layering_twice_gives_the_same_result() {
    let edges = [(0, 5), (1, 4), (2, 3), (3, 6), (4, 6), (5, 7), (1, 7), (0, 3), (2, 7)];
    let g = graph(8, &edges);
    let r1 = assign_layers(&g).unwrap();
    let l1 = order_nodes_within_layers(&g, &r1).unwrap();
    let r2 = assign_layers(&g).unwrap();
    let l2 = order_nodes_within_layers(&g, &r2).unwrap();
    assert_eq!(r1, r2);
    assert_eq!(l1, l2);
}

#[test]
fn parallel_edges_each_count() {
    // node 4 has parents 0 (twice) and 2; node 3 has parent 1
    let g = graph(5, &[(0, 4), (0, 4), (2, 4), (1, 3)]);
    let ranks = assign_layers(&g).unwrap();
    assert_eq!(ranks, vec![0, 0, 0, 1, 1]);
    // barycenters going down: 3 -> 1/1, 4 -> (0 + 0 + 2)/3 = 2/3
    let layers = order_nodes_within_layers(&g, &ranks).unwrap();
    assert_eq!(layers[1], vec![4, 3]);
}

#[test]
fn only_the_adjacent_rank_counts() {
    // 0 -> 4 and 1 -> 5 skip a rank and do not count
    let g = graph(6, &[(0, 2), (1, 3), (3, 4), (0, 4), (2, 5), (1, 5)]);
    let ranks = assign_layers(&g).unwrap();
    assert_eq!(ranks, vec![0, 0, 1, 1, 2, 2]);
    let layers = order_nodes_within_layers(&g, &ranks).unwrap();
    // going down, 4 reads its parent 3 at index 1 and 5 its parent 2 at 0
    assert_eq!(layers, vec![vec![0, 1], vec![2, 3], vec![5, 4]]);
}

#[test]
fn ordering_rejects_dangling_edge() {
    let g = Graph { node_count: 2, edges: vec![Edge { source: 3, target: 1 }] };
    assert_eq!(order_nodes_within_layers(&g, &vec![0, 1]), Err(LayoutError::DanglingEdgeReference));
}
