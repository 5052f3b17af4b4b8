use supply_layout::coords::{assign_coordinates, LayoutConfig, Orientation, Point};
use supply_layout::graph::Graph;
use supply_layout::layout::layered_dag_layout;
use supply_layout::order::order_nodes_within_layers;
use supply_layout::rank::assign_layers;
use supply_layout::route::{calculate_node_border_intersection, curvature_permille, route_edge, NodeBox};

fn config(orientation: Orientation) -> LayoutConfig {
    LayoutConfig {
        node_width: 180,
        node_height: 60,
        horizontal_spacing: 180,
        vertical_spacing: 150,
        orientation,
        curvature_enabled: true,
    }
}

fn p(x: i64, y: i64) -> Point {
    Point { x, y }
}

fn graph(n: usize, edges: &[(usize, usize)]) -> Graph {
    let mut g = Graph::new(n);
    for &(s, t) in edges {
        g.add_edge(s, t);
    }
    g
}

#[test]
fn diamond_coordinates_left_right() {
    let g = graph(4, &[(0, 1), (0, 2), (1, 3), (2, 3)]);
    let ranks = assign_layers(&g).unwrap();
    let layers = order_nodes_within_layers(&g, &ranks).unwrap();
    let c = assign_coordinates(&layers, 4, config(Orientation::LeftRight));
    // rank step 180 + 150, within step 180 + 180
    assert_eq!(c, vec![p(0, 0), p(330, -180), p(330, 180), p(660, 0)]);
}

#[test]
fn diamond_coordinates_top_down() {
    let g = graph(4, &[(0, 1), (0, 2), (1, 3), (2, 3)]);
    let ranks = assign_layers(&g).unwrap();
    let layers = order_nodes_within_layers(&g, &ranks).unwrap();
    let c = assign_coordinates(&layers, 4, config(Orientation::TopDown));
    // rank step 60 + 150, within step 180 + 180
    assert_eq!(c, vec![p(0, 0), p(-180, 210), p(180, 210), p(0, 420)]);
}

#[test]
fn two_node_layer_left_right() {
    // A=0 -> B=1, C=2 -> D=3
    let layers = vec![vec![0, 2], vec![1, 3]];
    let c = assign_coordinates(&layers, 4, config(Orientation::LeftRight));
    assert_eq!(c, vec![p(0, -180), p(330, -180), p(0, 180), p(330, 180)]);
    assert_eq!(c[2].y - c[0].y, 360);
}

#[test]
fn full_layout_rejects_dangling_edge() {
    let g = Graph { node_count: 2, edges: vec![supply_layout::graph::Edge { source: 0, target: 7 }] };
    assert_eq!(
        layered_dag_layout(&g, config(Orientation::TopDown)).err(),
        Some(supply_layout::graph::LayoutError::DanglingEdgeReference)
    );
}

#[test]
fn layer_neighbours_one_step_apart() {
    let layers = vec![vec![0, 1, 2, 3, 4]];
    let c = assign_coordinates(&layers, 5, config(Orientation::TopDown));
    for i in 0..4 {
        assert_eq!(c[i + 1].x - c[i].x, 360);
        assert_eq!(c[i].y, 0);
    }
    assert_eq!(c[2].x, 0);
    assert_eq!(c[0].x, -720);
}

#[test]
fn odd_step_rounds_down() {
    let cfg = LayoutConfig {
        node_width: 3,
        node_height: 1,
        horizontal_spacing: 0,
        vertical_spacing: 0,
        orientation: Orientation::TopDown,
        curvature_enabled: false,
    };
    let c = assign_coordinates(&vec![vec![1, 0]], 2, cfg);
    // centers at -1.5 and 1.5, rounded down
    assert_eq!(c, vec![p(1, 0), p(-2, 0)]);
}

#[test]
fn two_chains_share_centred_ranks() {
    // A=0 -> B=1, C=2 -> D=3, plus a lone node E=4 on rank 0
    let g = graph(5, &[(0, 1), (2, 3)]);
    let ranks = assign_layers(&g).unwrap();
    assert_eq!(ranks, vec![0, 1, 0, 1, 0]);
    let layers = order_nodes_within_layers(&g, &ranks).unwrap();
    assert_eq!(layers, vec![vec![0, 2, 4], vec![1, 3]]);
    let c = assign_coordinates(&layers, 5, config(Orientation::LeftRight));
    // rank 0 holds three nodes centred on 0, rank 1 two
    assert_eq!(c[0], p(0, -360));
    assert_eq!(c[2], p(0, 0));
    assert_eq!(c[4], p(0, 360));
    assert_eq!(c[1], p(330, -180));
    assert_eq!(c[3], p(330, 180));
    assert_ne!(c[0], c[2]);
}

#[test]
fn default_route_has_three_points() {
    let path = route_edge(p(0, 0), p(300, 400), true);
    assert_eq!(path.points, vec![p(0, 0), p(150, 200), p(300, 400)]);
    assert_eq!(path.curvature_permille, 500);
}

#[test]
fn straight_route_has_two_points() {
    let path = route_edge(p(10, 20), p(70, 100), false);
    assert_eq!(path.points, vec![p(10, 20), p(70, 100)]);
    assert_eq!(path.curvature_permille, 200);
}

#[test]
fn midpoint_rounds_down() {
    let path = route_edge(p(-3, 5), p(0, 0), true);
    assert_eq!(path.points[1], p(-2, 2));
}

#[test]
fn curvature_is_distance_over_500() {
    assert_eq!(curvature_permille(p(0, 0), p(60, 80)), 200);
    assert_eq!(curvature_permille(p(0, 0), p(150, 0)), 300);
    assert_eq!(curvature_permille(p(5, 5), p(5, 205)), 400);
    assert_eq!(curvature_permille(p(0, 0), p(1, 1)), 100);
    assert_eq!(curvature_permille(p(0, 0), p(3000, -4000)), 500);
    assert_eq!(curvature_permille(p(i64::MIN, 0), p(i64::MAX, 0)), 500);
    // a distance of sqrt(2) * 100 is 282.8 thousandths
    assert_eq!(curvature_permille(p(0, 0), p(100, 100)), 282);
}

#[test]
fn curvature_stays_in_range() {
    for d in 1..400i64 {
        let c = curvature_permille(p(0, 0), p(d, d / 2));
        assert!((100..=500).contains(&c));
    }
}

#[test]
fn coincident_points_have_no_curvature() {
    let path = route_edge(p(7, 7), p(7, 7), true);
    assert_eq!(path.curvature_permille, 0);
    assert_eq!(path.points.len(), 3);
}

fn unit_box() -> NodeBox {
    // left -50, right 50, top -25, bottom 25
    NodeBox { center: p(0, 0), width: 100, height: 50 }
}

#[test]
fn clip_leaving_right() {
    assert_eq!(calculate_node_border_intersection(unit_box(), p(0, 0), p(200, 0)), p(50, 0));
}

#[test]
fn clip_leaving_top() {
    assert_eq!(calculate_node_border_intersection(unit_box(), p(0, 0), p(0, -100)), p(0, -25));
}

#[test]
fn clip_leaving_through_bottom_before_right() {
    assert_eq!(calculate_node_border_intersection(unit_box(), p(0, 0), p(100, 100)), p(25, 25));
}

#[test]
fn clip_entering_from_left() {
    assert_eq!(calculate_node_border_intersection(unit_box(), p(-200, 0), p(0, 0)), p(-50, 0));
}

#[test]
fn clip_rounds_down_along_side() {
    // meets x = 50 at y = 50 * 7 / 60 = 5.83
    assert_eq!(calculate_node_border_intersection(unit_box(), p(0, 0), p(60, 7)), p(50, 5));
    assert_eq!(calculate_node_border_intersection(unit_box(), p(0, 0), p(60, -7)), p(50, -6));
}

#[test]
fn clip_corner_prefers_vertical_side() {
    assert_eq!(calculate_node_border_intersection(unit_box(), p(0, 0), p(100, 50)), p(50, 25));
}

#[test]
fn clip_zero_length_falls_back_to_center() {
    let b = NodeBox { center: p(10, 20), width: 100, height: 50 };
    assert_eq!(calculate_node_border_intersection(b, p(3, 3), p(3, 3)), p(10, 20));
}

#[test]
fn clip_missing_segment_falls_back_to_center() {
    let b = NodeBox { center: p(10, 20), width: 100, height: 50 };
    assert_eq!(calculate_node_border_intersection(b, p(500, 500), p(600, 700)), p(10, 20));
}

#[test]
fn clip_point_lies_on_a_side() {
    let b = unit_box();
    for &(x, y) in &[(300, 17), (-90, 400), (-1000, -3), (33, -77), (51, 26)] {
        let q = calculate_node_border_intersection(b, p(1, 2), p(x, y));
        let on_vertical = (q.x == -50 || q.x == 50) && (-25..=25).contains(&q.y);
        let on_horizontal = (q.y == -25 || q.y == 25) && (-50..=50).contains(&q.x);
        assert!(on_vertical || on_horizontal, "{:?}", q);
    }
}

#[test]
fn full_layout_of_diamond() {
    let g = graph(4, &[(0, 1), (0, 2), (1, 3), (2, 3)]);
    let layout = layered_dag_layout(&g, config(Orientation::LeftRight)).unwrap();
    assert_eq!(layout.ranks, vec![0, 1, 1, 2]);
    assert_eq!(layout.layers, vec![vec![0], vec![1, 2], vec![3]]);
    assert_eq!(layout.positions, vec![p(0, 0), p(330, -180), p(330, 180), p(660, 0)]);
    assert_eq!(layout.edge_paths.len(), 4);
    assert_eq!(layout.edge_paths[0].points, vec![p(0, 0), p(165, -90), p(330, -180)]);
    // 330 by 180 is about 376 units long
    assert_eq!(layout.edge_paths[0].curvature_permille, 500);
    assert_eq!(layout.edge_paths[3].points, vec![p(330, 180), p(495, 90), p(660, 0)]);
}

#[test]
fn full_layout_reports_cycle() {
    let g = graph(2, &[(0, 1), (1, 0)]);
    assert!(layered_dag_layout(&g, config(Orientation::TopDown)).is_err());
}
