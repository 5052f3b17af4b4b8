use vstd::prelude::*;
use vstd::arithmetic::div_mod::lemma_fundamental_div_mod_converse;
use crate::order::places_each_node_once;

verus! {

/// Which axis the ranks advance along.
#[derive(Clone, Copy, Debug, PartialEq, Eq, Structural)]
pub enum Orientation {
    /// Ranks go down the y axis; a layer spreads along x.
    TopDown,
    /// Ranks go along the x axis; a layer spreads along y.
    LeftRight,
}

/// Sizes and spacing of a layout, in layout units.
#[derive(Clone, Copy, Debug, PartialEq, Eq, Structural)]
pub struct LayoutConfig {
    pub node_width: u32,
    pub node_height: u32,
    /// Gap between neighbouring nodes of one layer.
    pub horizontal_spacing: u32,
    /// Gap between consecutive layers.
    pub vertical_spacing: u32,
    pub orientation: Orientation,
    /// Whether edges get a control point between their ends.
    pub curvature_enabled: bool,
}

/// A point of the layout plane.
#[derive(Clone, Copy, Debug, PartialEq, Eq, Structural)]
pub struct Point {
    pub x: i64,
    pub y: i64,
}

/// Distance from one layer to the next: the node size along the rank axis
/// plus the gap between layers.
pub open spec fn rank_step(c: LayoutConfig) -> int {
    match c.orientation {
        Orientation::TopDown => c.node_height + c.vertical_spacing,
        Orientation::LeftRight => c.node_width + c.vertical_spacing,
    }
}

/// Distance between neighbours of one layer: the node width plus the gap
/// within a layer, in either orientation.
pub open spec fn within_step(c: LayoutConfig) -> int {
    c.node_width + c.horizontal_spacing
}

/// Center of entry `i` of a layer of `k` entries `step` apart, the layer
/// centred on 0, rounded down to a whole unit.
pub open spec fn centered_offset(i: int, k: int, step: int) -> int {
    ((2 * i - (k - 1)) * step) / 2
}

/// The coordinates of entry `i` of layer `r`, which holds `k` entries.
pub open spec fn node_xy(c: LayoutConfig, r: int, i: int, k: int) -> (int, int) {
    let along = r * rank_step(c);
    let across = centered_offset(i, k, within_step(c));
    match c.orientation {
        Orientation::TopDown => (across, along),
        Orientation::LeftRight => (along, across),
    }
}

/// The coordinate that places a node within its layer.
pub open spec fn across_of(c: LayoutConfig, xy: (int, int)) -> int {
    match c.orientation {
        Orientation::TopDown => xy.0,
        Orientation::LeftRight => xy.1,
    }
}

/// The coordinates fit in `i64`.
pub open spec fn fits_coordinates(layers: Seq<Seq<usize>>, c: LayoutConfig) -> bool {
    &&& layers.len() * rank_step(c) <= i64::MAX
    &&& forall|r: int| 0 <= r < layers.len() ==> #[trigger] layers[r].len() * within_step(c) <= i64::MAX
}

/// Neighbours within a layer stand exactly one node size plus one gap apart.
pub proof fn lemma_layer_neighbors_one_step_apart(c: LayoutConfig, r: int, i: int, k: int)
    ensures
        across_of(c, node_xy(c, r, i + 1, k)) - across_of(c, node_xy(c, r, i, k)) == within_step(c),
{
    let s = within_step(c);
    let a = (2 * i - (k - 1)) * s;
    let b = (2 * (i + 1) - (k - 1)) * s;
    assert(b == a + 2 * s) by (nonlinear_arith)
        requires
            a == (2 * i - (k - 1)) * s,
            b == (2 * (i + 1) - (k - 1)) * s,
    ;
    let q = a / 2;
    let rem = a % 2;
    lemma_fundamental_div_mod_converse(a, 2, q, rem);
    assert(a == 2 * q + rem) by {
        vstd::arithmetic::div_mod::lemma_fundamental_div_mod(a, 2);
    }
    assert(0 <= rem < 2) by {
        vstd::arithmetic::div_mod::lemma_mod_bound(a, 2);
    }
    lemma_fundamental_div_mod_converse(b, 2, q + s, rem);
}

/// `i * step - ((k - 1) * step + 1) / 2`, the centred offset computed on
/// non-negative values.
proof fn lemma_centered_offset(i: int, k: int, step: int)
    requires
        0 <= i < k,
        step >= 0,
    ensures
        centered_offset(i, k, step) == i * step - ((k - 1) * step + 1) / 2,
{
    let b = (k - 1) * step;
    let q = (b + 1) / 2;
    let rem = (b + 1) % 2;
    vstd::arithmetic::div_mod::lemma_fundamental_div_mod(b + 1, 2);
    vstd::arithmetic::div_mod::lemma_mod_bound(b + 1, 2);
    let x = (2 * i - (k - 1)) * step;
    assert(x == 2 * (i * step) - b) by (nonlinear_arith)
        requires
            x == (2 * i - (k - 1)) * step,
            b == (k - 1) * step,
    ;
    assert(x == 2 * (i * step - q) + (1 - rem));
    lemma_fundamental_div_mod_converse(x, 2, i * step - q, 1 - rem);
}

/// The coordinates of entry `i` of layer `r` of `k` entries.
fn place(c: LayoutConfig, r: usize, i: usize, k: usize) -> (p: Point)
    requires
        i < k,
        (r + 1) * rank_step(c) <= i64::MAX,
        k * within_step(c) <= i64::MAX,
    ensures
        (p.x as int, p.y as int) == node_xy(c, r as int, i as int, k as int),
{
    let (along_step, across_step): (u128, u128) = match c.orientation {
        Orientation::TopDown => (
            c.node_height as u128 + c.vertical_spacing as u128,
            c.node_width as u128 + c.horizontal_spacing as u128,
        ),
        Orientation::LeftRight => (
            c.node_width as u128 + c.vertical_spacing as u128,
            c.node_width as u128 + c.horizontal_spacing as u128,
        ),
    };
    assert(along_step == rank_step(c) && across_step == within_step(c));
    let ghost (ri, ii, ki, rs, ws) = (r as int, i as int, k as int, along_step as int, across_step as int);
    assert(ri * rs <= (ri + 1) * rs) by (nonlinear_arith)
        requires
            rs >= 0,
    ;
    assert(ii * ws <= ki * ws) by (nonlinear_arith)
        requires
            ii < ki,
            ws >= 0,
    ;
    assert((ki - 1) * ws <= ki * ws) by (nonlinear_arith)
        requires
            ki >= 1,
            ws >= 0,
    ;
    assert((ki - 1) * ws >= 0) by (nonlinear_arith)
        requires
            ki >= 1,
            ws >= 0,
    ;
    let along = (r as u128) * along_step;
    let first = (i as u128) * across_step;
    let half = ((k - 1) as u128 * across_step + 1) / 2;
    let across = first as i128 - half as i128;
    proof {
        lemma_centered_offset(ii, ki, ws);
    }
    match c.orientation {
        Orientation::TopDown => Point { x: across as i64, y: along as i64 },
        Orientation::LeftRight => Point { x: along as i64, y: across as i64 },
    }
}

/// Gives every node its coordinates: layer `r` sits at `r` rank steps along
/// the rank axis, and its `k` nodes are spread one node size plus one gap
/// apart across it, centred on 0. The result is indexed by node id.
pub fn assign_coordinates(layers: &Vec<Vec<usize>>, node_count: usize, c: LayoutConfig) -> (coords: Vec<
    Point,
>)
    requires
        places_each_node_once(layers@.map_values(|l: Vec<usize>| l@), node_count as int),
        fits_coordinates(layers@.map_values(|l: Vec<usize>| l@), c),
    ensures
        coords@.len() == node_count,
        forall|r: int, i: int|
            0 <= r < layers@.len() && 0 <= i < layers@[r]@.len() ==> {
                let p = #[trigger] coords@[layers@[r]@[i] as int];
                (p.x as int, p.y as int) == node_xy(c, r, i, layers@[r]@.len() as int)
            },
{
    let ghost rs = layers@.map_values(|l: Vec<usize>| l@);
    let mut coords: Vec<Point> = Vec::new();
    let mut v: usize = 0;
    while v < node_count
        invariant
            v <= node_count,
            coords@.len() == v,
        decreases node_count - v,
    {
        coords.push(Point { x: 0, y: 0 });
        v = v + 1;
    }
    let count = layers.len();
    let mut r: usize = 0;
    while r < count
        invariant
            count == layers@.len(),
            rs == layers@.map_values(|l: Vec<usize>| l@),
            places_each_node_once(rs, node_count as int),
            fits_coordinates(rs, c),
            r <= count,
            coords@.len() == node_count,
            forall|q: int, i: int|
                0 <= q < r && 0 <= i < rs[q].len() ==> {
                    let p = #[trigger] coords@[rs[q][i] as int];
                    (p.x as int, p.y as int) == node_xy(c, q, i, rs[q].len() as int)
                },
        decreases count - r,
    {
        let layer = &layers[r];
        let k = layer.len();
        assert(layer@ == rs[r as int]);
        assert((r + 1) * rank_step(c) <= count * rank_step(c)) by (nonlinear_arith)
            requires
                r + 1 <= count,
                rank_step(c) >= 0,
        ;
        let mut i: usize = 0;
        while i < k
            invariant
                count == layers@.len(),
                rs == layers@.map_values(|l: Vec<usize>| l@),
                places_each_node_once(rs, node_count as int),
                fits_coordinates(rs, c),
                r < count,
                layer@ == rs[r as int],
                k == layer@.len(),
                (r + 1) * rank_step(c) <= i64::MAX,
                i <= k,
                coords@.len() == node_count,
                forall|q: int, j: int|
                    (0 <= q < r && 0 <= j < rs[q].len()) || (q == r && 0 <= j < i) ==> {
                        let p = #[trigger] coords@[rs[q][j] as int];
                        (p.x as int, p.y as int) == node_xy(c, q, j, rs[q].len() as int)
                    },
            decreases k - i,
        {
            let p = place(c, r, i, k);
            let v = layer[i];
            assert(rs[r as int][i as int] < node_count);
            coords.set(v, p);
            proof {
                assert forall|q: int, j: int|
                    (0 <= q < r && 0 <= j < rs[q].len()) || (q == r && 0 <= j < i + 1) implies {
                        let p = #[trigger] coords@[rs[q][j] as int];
                        (p.x as int, p.y as int) == node_xy(c, q, j, rs[q].len() as int)
                    } by {
                    if !(q == r && j == i) {
                        assert(rs[q][j] != rs[r as int][i as int]);
                    }
                }
            }
            i = i + 1;
        }
        r = r + 1;
    }
    proof {
        assert forall|q: int, i: int|
            0 <= q < layers@.len() && 0 <= i < layers@[q]@.len() implies {
                let p = #[trigger] coords@[layers@[q]@[i] as int];
                (p.x as int, p.y as int) == node_xy(c, q, i, layers@[q]@.len() as int)
            } by {
            assert(rs[q] == layers@[q]@);
        }
    }
    coords
}

} // verus!
