use vstd::prelude::*;
use crate::coords::{LayoutConfig, Point, assign_coordinates, node_xy, rank_step, within_step, fits_coordinates};
use crate::graph::{Graph, LayoutError, is_acyclic};
use crate::order::{order_nodes_within_layers, ordered_layers, rows, lemma_rank_limit_bound, places_each_node_once};
use crate::rank::{assign_layers, is_longest_path_ranking, lemma_longest_path_ranking_unique};
use crate::route::{EdgePath, COORD_LIMIT, route_edge, midpoint, edge_curvature};

verus! {

/// The result of a layout: each node's rank, the ordered layers, each node's
/// coordinates, and one routed path per edge, in edge order.
#[derive(Clone, Debug)]
pub struct Layout {
    pub ranks: Vec<usize>,
    pub layers: Vec<Vec<usize>>,
    pub positions: Vec<Point>,
    pub edge_paths: Vec<EdgePath>,
}

/// The layout's coordinates stay within the range that edge routing
/// accepts: `node_count` steps of either kind fit in it.
pub open spec fn layout_fits(g: Graph, c: LayoutConfig) -> bool {
    &&& g.node_count * rank_step(c) <= COORD_LIMIT
    &&& g.node_count * within_step(c) <= COORD_LIMIT
}

/// The path of edge `k` as `route_edge` builds it between the two node
/// positions.
pub open spec fn routed_between(path: EdgePath, source: Point, target: Point, curved: bool) -> bool {
    &&& curved ==> path.points@.len() == 3 && path.points@[0] == source && path.points@[2] == target
        && (path.points@[1].x as int, path.points@[1].y as int) == midpoint(source, target)
    &&& !curved ==> path.points@ == seq![source, target]
    &&& edge_curvature(source, target, path.curvature_permille as int)
}

/// Running the layering twice on one graph gives the same ranks and the same
/// layer orders: the longest-path ranks are unique, and the ordering is a
/// function of the graph and the ranks.
pub proof fn lemma_layering_is_reproducible(
    g: Graph,
    r1: Seq<usize>,
    r2: Seq<usize>,
    l1: Seq<Seq<usize>>,
    l2: Seq<Seq<usize>>,
)
    requires
        is_longest_path_ranking(g, r1),
        is_longest_path_ranking(g, r2),
        l1 == ordered_layers(g, r1),
        l2 == ordered_layers(g, r2),
    ensures
        r1 == r2,
        l1 == l2,
{
    lemma_longest_path_ranking_unique(g, r1, r2);
}

/// Lays out a DAG: ranks by longest path, orders each layer by the two-pass
/// barycenter heuristic, places the nodes, and routes every edge between its
/// ends' positions. Fails, with nothing else computed, on an edge to a
/// missing node or on a cycle.
pub fn layered_dag_layout(g: &Graph, c: LayoutConfig) -> (res: Result<Layout, LayoutError>)
    requires
        g.node_count <= u32::MAX,
        g.edges@.len() <= u32::MAX,
        layout_fits(*g, c),
    ensures
        res matches Err(LayoutError::DanglingEdgeReference) <==> !g.endpoints_valid(),
        res matches Err(LayoutError::CycleDetected) <==> g.endpoints_valid() && !is_acyclic(*g),
        res matches Ok(l) ==> {
            &&& is_longest_path_ranking(*g, l.ranks@)
            &&& rows(l.layers@) == ordered_layers(*g, l.ranks@)
            &&& places_each_node_once(rows(l.layers@), g.node_count as int)
            &&& forall|v: int|
                0 <= v < g.node_count ==> #[trigger] l.ranks@[v] < l.layers@.len()
                    && l.layers@[l.ranks@[v] as int]@.contains(v as usize)
            &&& l.positions@.len() == g.node_count
            &&& forall|r: int, i: int|
                0 <= r < l.layers@.len() && 0 <= i < l.layers@[r]@.len() ==> {
                    let p = #[trigger] l.positions@[l.layers@[r]@[i] as int];
                    (p.x as int, p.y as int) == node_xy(c, r, i, l.layers@[r]@.len() as int)
                }
            &&& l.edge_paths@.len() == g.edges@.len()
            &&& forall|k: int|
                0 <= k < g.edges@.len() ==> routed_between(
                    #[trigger] l.edge_paths@[k],
                    l.positions@[g.source_of(k)],
                    l.positions@[g.target_of(k)],
                    c.curvature_enabled,
                )
        },
{
    let ranks = match assign_layers(g) {
        Ok(r) => r,
        Err(e) => return Err(e),
    };
    let layers = match order_nodes_within_layers(g, &ranks) {
        Ok(l) => l,
        Err(e) => return Err(e),
    };
    let ghost rs = rows(layers@);
    proof {
        assert(rs == layers@.map_values(|l: Vec<usize>| l@));
        let (n, a, w) = (g.node_count as int, rank_step(c), within_step(c));
        assert(rs.len() <= n) by {
            lemma_rank_limit_bound(ranks@, n);
        }
        assert(rs.len() * a <= n * a) by (nonlinear_arith)
            requires
                rs.len() <= n,
                a >= 0,
        ;
        assert forall|r: int| 0 <= r < rs.len() implies #[trigger] rs[r].len() * w <= i64::MAX by {
            assert(rs[r].len() * w <= n * w) by (nonlinear_arith)
                requires
                    rs[r].len() <= n,
                    w >= 0,
            ;
        }
        assert(fits_coordinates(rs, c));
    }
    let positions = assign_coordinates(&layers, g.node_count, c);
    let mut edge_paths: Vec<EdgePath> = Vec::new();
    let mut k: usize = 0;
    while k < g.edges.len()
        invariant
            g.endpoints_valid(),
            k <= g.edges@.len(),
            positions@.len() == g.node_count,
            edge_paths@.len() == k,
            forall|j: int|
                0 <= j < k ==> routed_between(
                    #[trigger] edge_paths@[j],
                    positions@[g.source_of(j)],
                    positions@[g.target_of(j)],
                    c.curvature_enabled,
                ),
        decreases g.edges@.len() - k,
    {
        let e = g.edges[k];
        assert(g.source_of(k as int) < g.node_count && g.target_of(k as int) < g.node_count);
        let path = route_edge(positions[e.source], positions[e.target], c.curvature_enabled);
        edge_paths.push(path);
        k = k + 1;
    }
    proof {
        assert forall|v: int| 0 <= v < g.node_count implies #[trigger] ranks@[v] < layers@.len()
            && layers@[ranks@[v] as int]@.contains(v as usize) by {
            assert(rs[ranks@[v] as int] == layers@[ranks@[v] as int]@);
        }
    }
    Ok(Layout { ranks, layers, positions, edge_paths })
}

} // verus!
