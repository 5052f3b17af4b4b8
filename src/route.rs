use vstd::prelude::*;
use vstd::arithmetic::div_mod::{lemma_fundamental_div_mod, lemma_fundamental_div_mod_converse, lemma_mod_bound};
use crate::coords::Point;

verus! {

/// The largest coordinate magnitude that the edge computations accept, so
/// that their exact products fit in 128 bits.
pub const COORD_LIMIT: i64 = 1152921504606846976;

/// A node's bounding box: its center and its size. An odd size puts the
/// extra unit on the right or bottom side.
#[derive(Clone, Copy, Debug, PartialEq, Eq, Structural)]
pub struct NodeBox {
    pub center: Point,
    pub width: u32,
    pub height: u32,
}

/// A routed edge: its points from source to target, and how strongly the
/// renderer should bow it, in thousandths.
#[derive(Clone, Debug)]
pub struct EdgePath {
    pub points: Vec<Point>,
    pub curvature_permille: u32,
}

pub open spec fn in_limits(p: Point) -> bool {
    -COORD_LIMIT <= p.x <= COORD_LIMIT && -COORD_LIMIT <= p.y <= COORD_LIMIT
}

/// The point halfway between `a` and `b`, rounded down.
pub open spec fn midpoint(a: Point, b: Point) -> (int, int) {
    ((a.x + b.x) / 2, (a.y + b.y) / 2)
}

/// Four times the squared distance between `a` and `b`: the squared length
/// measured in half units.
pub open spec fn quad_distance(a: Point, b: Point) -> int {
    4 * ((b.x - a.x) * (b.x - a.x) + (b.y - a.y) * (b.y - a.y))
}

/// `c` is the distance over 500, in thousandths, held to `[100, 500]`: with
/// `x` four times the squared distance, `c` is the floor of the square root
/// of `x`, clamped.
pub open spec fn is_clamped_curvature(c: int, x: int) -> bool {
    &&& 100 <= c <= 500
    &&& (c == 100 <==> x < 101 * 101)
    &&& (c == 500 <==> x >= 500 * 500)
    &&& (100 < c < 500 ==> c * c <= x < (c + 1) * (c + 1))
}

/// The curvature factor of an edge, in thousandths: 0 for coincident
/// endpoints, else the distance over 500 held to `[0.1, 0.5]`.
pub open spec fn edge_curvature(source: Point, target: Point, c: int) -> bool {
    if source == target {
        c == 0
    } else {
        is_clamped_curvature(c, quad_distance(source, target))
    }
}

pub open spec fn box_left(b: NodeBox) -> int {
    b.center.x - b.width / 2
}

pub open spec fn box_right(b: NodeBox) -> int {
    box_left(b) + b.width
}

pub open spec fn box_top(b: NodeBox) -> int {
    b.center.y - b.height / 2
}

pub open spec fn box_bottom(b: NodeBox) -> int {
    box_top(b) + b.height
}

/// The line of side `s`: 0 left, 1 right, 2 top, 3 bottom. Sides 0 and 1 are
/// vertical, sides 2 and 3 horizontal.
pub open spec fn side_value(b: NodeBox, s: int) -> int {
    if s == 0 {
        box_left(b)
    } else if s == 1 {
        box_right(b)
    } else if s == 2 {
        box_top(b)
    } else {
        box_bottom(b)
    }
}

/// The coordinate of `p` across side `s`'s line, and the one along it.
pub open spec fn across_coord(p: Point, s: int) -> int {
    if s < 2 {
        p.x as int
    } else {
        p.y as int
    }
}

pub open spec fn along_coord(p: Point, s: int) -> int {
    if s < 2 {
        p.y as int
    } else {
        p.x as int
    }
}

/// The extent of side `s` along its own line.
pub open spec fn span_low(b: NodeBox, s: int) -> int {
    if s < 2 {
        box_top(b)
    } else {
        box_left(b)
    }
}

pub open spec fn span_high(b: NodeBox, s: int) -> int {
    if s < 2 {
        box_bottom(b)
    } else {
        box_right(b)
    }
}

/// The segment from `p1` to `p2` meets the line of side `s` at parameter
/// `t_num / t_den`, with `t_den > 0` when the segment is not parallel to it.
pub open spec fn t_num(b: NodeBox, p1: Point, p2: Point, s: int) -> int {
    if across_coord(p2, s) > across_coord(p1, s) {
        side_value(b, s) - across_coord(p1, s)
    } else {
        across_coord(p1, s) - side_value(b, s)
    }
}

pub open spec fn t_den(p1: Point, p2: Point, s: int) -> int {
    if across_coord(p2, s) > across_coord(p1, s) {
        across_coord(p2, s) - across_coord(p1, s)
    } else {
        across_coord(p1, s) - across_coord(p2, s)
    }
}

/// How far the segment moves along side `s`'s line from start to end.
pub open spec fn along_delta(p1: Point, p2: Point, s: int) -> int {
    along_coord(p2, s) - along_coord(p1, s)
}

/// The segment meets side `s` itself: not parallel to it, at a parameter in
/// `[0, 1]`, and within the side's extent.
pub open spec fn crosses(b: NodeBox, p1: Point, p2: Point, s: int) -> bool {
    let tn = t_num(b, p1, p2, s);
    let td = t_den(p1, p2, s);
    let hit = tn * along_delta(p1, p2, s);
    &&& td != 0
    &&& 0 <= tn <= td
    &&& (span_low(b, s) - along_coord(p1, s)) * td <= hit
    &&& hit <= (span_high(b, s) - along_coord(p1, s)) * td
}

/// Where the segment meets side `s`'s line, the coordinate along it rounded
/// down.
pub open spec fn crossing_point(b: NodeBox, p1: Point, p2: Point, s: int) -> (int, int) {
    let other = along_coord(p1, s) + (t_num(b, p1, p2, s) * along_delta(p1, p2, s)) / t_den(
        p1,
        p2,
        s,
    );
    if s < 2 {
        (side_value(b, s), other)
    } else {
        (other, side_value(b, s))
    }
}

/// The segment meets side `s` at a strictly smaller parameter than side `q`.
pub open spec fn earlier(b: NodeBox, p1: Point, p2: Point, s: int, q: int) -> bool {
    t_num(b, p1, p2, s) * t_den(p1, p2, q) < t_num(b, p1, p2, q) * t_den(p1, p2, s)
}

/// Among the first `k` sides, in the order left, right, top, bottom, the
/// first of those met at the smallest parameter.
pub open spec fn chosen_side(b: NodeBox, p1: Point, p2: Point, k: int) -> Option<int>
    decreases k,
{
    if k <= 0 {
        None
    } else {
        let best = chosen_side(b, p1, p2, k - 1);
        let s = k - 1;
        if crosses(b, p1, p2, s) && (best is None || earlier(b, p1, p2, s, best->0)) {
            Some(s)
        } else {
            best
        }
    }
}

/// Where the segment from `p1` to `p2` meets the border of `b` closest to
/// `p1`, or the center of `b` when it meets no side.
pub open spec fn border_point(b: NodeBox, p1: Point, p2: Point) -> (int, int) {
    match chosen_side(b, p1, p2, 4) {
        None => (b.center.x as int, b.center.y as int),
        Some(s) => crossing_point(b, p1, p2, s),
    }
}

proof fn lemma_product_bound(x: int, y: int)
    requires
        -0x4000_0000_0000_0000 <= x <= 0x4000_0000_0000_0000,
        -0x4000_0000_0000_0000 <= y <= 0x4000_0000_0000_0000,
    ensures
        -0x1000_0000_0000_0000_0000_0000_0000_0000 <= x * y <= 0x1000_0000_0000_0000_0000_0000_0000_0000,
{
    assert(-0x4000_0000_0000_0000 * 0x4000_0000_0000_0000 <= x * y <= 0x4000_0000_0000_0000 * 0x4000_0000_0000_0000) by (nonlinear_arith)
        requires
            -0x4000_0000_0000_0000 <= x <= 0x4000_0000_0000_0000,
            -0x4000_0000_0000_0000 <= y <= 0x4000_0000_0000_0000,
    ;
}

/// Where the segment meets side `s`, with its parameter, if it does.
fn side_crossing(b: NodeBox, p1: Point, p2: Point, s: u8) -> (res: Option<(i128, i128, Point)>)
    requires
        s < 4,
        in_limits(b.center),
        in_limits(p1),
        in_limits(p2),
    ensures
        res is Some <==> crosses(b, p1, p2, s as int),
        res matches Some(r) ==> r.0 == t_num(b, p1, p2, s as int) && r.1 == t_den(p1, p2, s as int)
            && (r.2.x as int, r.2.y as int) == crossing_point(b, p1, p2, s as int),
        res matches Some(r) ==> -0x4000_0000_0000_0000 <= r.0 <= 0x4000_0000_0000_0000
            && 0 < r.1 <= 0x4000_0000_0000_0000,
{
    let left = b.center.x as i128 - (b.width / 2) as i128;
    let top = b.center.y as i128 - (b.height / 2) as i128;
    let (line, lo, hi, a1, a2, l1, l2) = if s == 0 {
        (left, top, top + b.height as i128, p1.x as i128, p2.x as i128, p1.y as i128, p2.y as i128)
    } else if s == 1 {
        (left + b.width as i128, top, top + b.height as i128, p1.x as i128, p2.x as i128, p1.y as i128, p2.y as i128)
    } else if s == 2 {
        (top, left, left + b.width as i128, p1.y as i128, p2.y as i128, p1.x as i128, p2.x as i128)
    } else {
        (top + b.height as i128, left, left + b.width as i128, p1.y as i128, p2.y as i128, p1.x as i128, p2.x as i128)
    };
    assert(line == side_value(b, s as int));
    assert(lo == span_low(b, s as int) && hi == span_high(b, s as int));
    assert(a1 == across_coord(p1, s as int) && a2 == across_coord(p2, s as int));
    assert(l1 == along_coord(p1, s as int) && l2 == along_coord(p2, s as int));
    if a1 == a2 {
        return None;
    }
    let (tn, td) = if a2 > a1 {
        (line - a1, a2 - a1)
    } else {
        (a1 - line, a1 - a2)
    };
    if tn < 0 || tn > td {
        return None;
    }
    let dl = l2 - l1;
    proof {
        lemma_product_bound(tn as int, dl as int);
        lemma_product_bound((lo - l1) as int, td as int);
        lemma_product_bound((hi - l1) as int, td as int);
    }
    let hit = tn * dl;
    if hit < (lo - l1) * td || hit > (hi - l1) * td {
        return None;
    }
    let q = floor_div(hit, td);
    proof {
        lemma_fundamental_div_mod(hit as int, td as int);
        lemma_mod_bound(hit as int, td as int);
        assert((lo - l1) * td <= td * q + (hit as int) % (td as int));
        assert(lo - l1 - 1 < q) by (nonlinear_arith)
            requires
                (lo - l1) * td <= td * q + (hit as int) % (td as int),
                (hit as int) % (td as int) < td,
                td > 0,
        ;
        assert(q <= hi - l1) by (nonlinear_arith)
            requires
                td * q + (hit as int) % (td as int) <= (hi - l1) * td,
                (hit as int) % (td as int) >= 0,
                td > 0,
        ;
    }
    let other = l1 + q;
    let pt = if s < 2 {
        Point { x: line as i64, y: other as i64 }
    } else {
        Point { x: other as i64, y: line as i64 }
    };
    Some((tn, td, pt))
}

/// Clips the segment from `from` to `to` at the border of `b`: of the points
/// where it meets the left, right, top and bottom sides (in that order), the
/// one closest to `from`; the center of `b` when it meets none, which covers
/// a segment of zero length.
pub fn calculate_node_border_intersection(b: NodeBox, from: Point, to: Point) -> (p: Point)
    requires
        in_limits(b.center),
        in_limits(from),
        in_limits(to),
    ensures
        (p.x as int, p.y as int) == border_point(b, from, to),
{
    let mut best: Option<(u8, i128, i128, Point)> = None;
    let mut s: u8 = 0;
    while s < 4
        invariant
            s <= 4,
            in_limits(b.center),
            in_limits(from),
            in_limits(to),
            chosen_side(b, from, to, s as int) == match best {
                None => None::<int>,
                Some(c) => Some(c.0 as int),
            },
            best matches Some(c) ==> c.0 < s && c.1 == t_num(b, from, to, c.0 as int) && c.2 == t_den(
                from,
                to,
                c.0 as int,
            ) && (c.3.x as int, c.3.y as int) == crossing_point(b, from, to, c.0 as int)
                && -0x4000_0000_0000_0000 <= c.1 <= 0x4000_0000_0000_0000 && 0 < c.2
                <= 0x4000_0000_0000_0000,
        decreases 4 - s,
    {
        match side_crossing(b, from, to, s) {
            Some((tn, td, pt)) => {
                let better = match best {
                    None => true,
                    Some((_, btn, btd, _)) => {
                        proof {
                            lemma_product_bound(tn as int, btd as int);
                            lemma_product_bound(btn as int, td as int);
                        }
                        tn * btd < btn * td
                    },
                };
                if better {
                    best = Some((s, tn, td, pt));
                }
            },
            None => {},
        }
        s = s + 1;
    }
    match best {
        None => b.center,
        Some((_, _, _, pt)) => pt,
    }
}

/// `p` lies strictly inside the box.
pub open spec fn strictly_inside(b: NodeBox, p: Point) -> bool {
    box_left(b) < p.x < box_right(b) && box_top(b) < p.y < box_bottom(b)
}

/// `p` lies outside the closed box.
pub open spec fn outside(b: NodeBox, p: Point) -> bool {
    p.x < box_left(b) || p.x > box_right(b) || p.y < box_top(b) || p.y > box_bottom(b)
}

/// `q` lies on one of the four sides of the box, within that side's extent.
pub open spec fn on_border(b: NodeBox, q: (int, int)) -> bool {
    ||| (q.0 == box_left(b) || q.0 == box_right(b)) && box_top(b) <= q.1 <= box_bottom(b)
    ||| (q.1 == box_top(b) || q.1 == box_bottom(b)) && box_left(b) <= q.0 <= box_right(b)
}

proof fn lemma_chosen_side_crosses(b: NodeBox, p1: Point, p2: Point, k: int)
    requires
        chosen_side(b, p1, p2, k) is Some,
    ensures
        0 <= chosen_side(b, p1, p2, k)->0 < k,
        crosses(b, p1, p2, chosen_side(b, p1, p2, k)->0),
    decreases k,
{
    if k > 0 && chosen_side(b, p1, p2, k) == chosen_side(b, p1, p2, k - 1) {
        lemma_chosen_side_crosses(b, p1, p2, k - 1);
    }
}

proof fn lemma_chosen_side_found(b: NodeBox, p1: Point, p2: Point, s: int, k: int)
    requires
        0 <= s < k,
        crosses(b, p1, p2, s),
    ensures
        chosen_side(b, p1, p2, k) is Some,
    decreases k,
{
    if s < k - 1 {
        lemma_chosen_side_found(b, p1, p2, s, k - 1);
    }
}

/// Leaving through the line `a = line` while moving up in `a`: the segment
/// meets that side, or the side across which it left first.
proof fn lemma_exit(a1: int, a2: int, line: int, alo: int, l1: int, l2: int, lo: int, hi: int)
    requires
        alo < a1 < line < a2,
        lo < l1 < hi,
    ensures
        ({
            let (tn, td, dl) = (line - a1, a2 - a1, l2 - l1);
            ||| (lo - l1) * td <= tn * dl && tn * dl <= (hi - l1) * td
            ||| dl < 0 && l1 - lo <= -dl && (alo - a1) * (-dl) <= (l1 - lo) * td && (l1 - lo) * td
                <= (line - a1) * (-dl)
            ||| dl > 0 && hi - l1 <= dl && (alo - a1) * dl <= (hi - l1) * td && (hi - l1) * td
                <= (line - a1) * dl
        }),
{
    let (tn, td, dl) = (line - a1, a2 - a1, l2 - l1);
    if tn * dl < (lo - l1) * td {
        assert(dl < 0 && l1 - lo <= -dl && (alo - a1) * (-dl) <= (l1 - lo) * td && (l1 - lo) * td
            <= (line - a1) * (-dl)) by (nonlinear_arith)
            requires
                tn * dl < (lo - l1) * td,
                tn == line - a1,
                td == a2 - a1,
                dl == l2 - l1,
                alo < a1 < line < a2,
                lo < l1 < hi,
        ;
    } else if tn * dl > (hi - l1) * td {
        assert(dl > 0 && hi - l1 <= dl && (alo - a1) * dl <= (hi - l1) * td && (hi - l1) * td
            <= (line - a1) * dl) by (nonlinear_arith)
            requires
                tn * dl > (hi - l1) * td,
                tn == line - a1,
                td == a2 - a1,
                dl == l2 - l1,
                alo < a1 < line < a2,
                lo < l1 < hi,
        ;
    }
}

/// Entering through the line `a = line` while moving up in `a`: the segment
/// meets that side, or the side across which it entered last.
proof fn lemma_entry(a1: int, a2: int, line: int, ahi: int, l1: int, l2: int, lo: int, hi: int)
    requires
        a1 < line < a2 < ahi,
        lo < l2 < hi,
    ensures
        ({
            let (tn, td, dl) = (line - a1, a2 - a1, l2 - l1);
            ||| (lo - l1) * td <= tn * dl && tn * dl <= (hi - l1) * td
            ||| dl > 0 && 0 <= lo - l1 <= dl && (line - a1) * dl <= (lo - l1) * td && (lo - l1) * td
                <= (ahi - a1) * dl
            ||| dl < 0 && 0 <= l1 - hi <= -dl && (line - a1) * (-dl) <= (l1 - hi) * td && (l1 - hi)
                * td <= (ahi - a1) * (-dl)
        }),
{
    let (tn, td, dl) = (line - a1, a2 - a1, l2 - l1);
    if tn * dl < (lo - l1) * td {
        assert(l1 < lo) by (nonlinear_arith)
            requires
                tn * dl < (lo - l1) * td,
                tn == line - a1,
                td == a2 - a1,
                dl == l2 - l1,
                a1 < line < a2,
                lo < l2,
        ;
        assert(dl > 0 && 0 <= lo - l1 <= dl && (line - a1) * dl <= (lo - l1) * td && (lo - l1) * td
            <= (ahi - a1) * dl) by (nonlinear_arith)
            requires
                tn * dl < (lo - l1) * td,
                tn == line - a1,
                td == a2 - a1,
                dl == l2 - l1,
                a1 < line < a2 < ahi,
                l1 < lo < l2,
        ;
    } else if tn * dl > (hi - l1) * td {
        assert(l1 > hi) by (nonlinear_arith)
            requires
                tn * dl > (hi - l1) * td,
                tn == line - a1,
                td == a2 - a1,
                dl == l2 - l1,
                a1 < line < a2,
                l2 < hi,
        ;
        assert(dl < 0 && 0 <= l1 - hi <= -dl && (line - a1) * (-dl) <= (l1 - hi) * td && (l1 - hi)
            * td <= (ahi - a1) * (-dl)) by (nonlinear_arith)
            requires
                tn * dl > (hi - l1) * td,
                tn == line - a1,
                td == a2 - a1,
                dl == l2 - l1,
                a1 < line < a2 < ahi,
                l2 < hi < l1,
        ;
    }
}

/// Leaving through the line `a = line` while moving down in `a`.
proof fn lemma_exit_down(a1: int, a2: int, line: int, ahi: int, l1: int, l2: int, lo: int, hi: int)
    requires
        a2 < line < a1 < ahi,
        lo < l1 < hi,
    ensures
        ({
            let (tn, td, dl) = (a1 - line, a1 - a2, l2 - l1);
            ||| (lo - l1) * td <= tn * dl && tn * dl <= (hi - l1) * td
            ||| dl < 0 && l1 - lo <= -dl && (line - a1) * (-dl) <= (l1 - lo) * (a2 - a1) && (l1 - lo)
                * (a2 - a1) <= (ahi - a1) * (-dl)
            ||| dl > 0 && hi - l1 <= dl && (line - a1) * dl <= (hi - l1) * (a2 - a1) && (hi - l1) * (
            a2 - a1) <= (ahi - a1) * dl
        }),
{
    let (tn, td, dl) = (a1 - line, a1 - a2, l2 - l1);
    if tn * dl < (lo - l1) * td {
        assert(dl < 0 && l1 - lo <= -dl && (line - a1) * (-dl) <= (l1 - lo) * (a2 - a1) && (l1 - lo)
            * (a2 - a1) <= (ahi - a1) * (-dl)) by (nonlinear_arith)
            requires
                tn * dl < (lo - l1) * td,
                tn == a1 - line,
                td == a1 - a2,
                dl == l2 - l1,
                a2 < line < a1 < ahi,
                lo < l1 < hi,
        ;
    } else if tn * dl > (hi - l1) * td {
        assert(dl > 0 && hi - l1 <= dl && (line - a1) * dl <= (hi - l1) * (a2 - a1) && (hi - l1) * (
        a2 - a1) <= (ahi - a1) * dl) by (nonlinear_arith)
            requires
                tn * dl > (hi - l1) * td,
                tn == a1 - line,
                td == a1 - a2,
                dl == l2 - l1,
                a2 < line < a1 < ahi,
                lo < l1 < hi,
        ;
    }
}

/// Entering through the line `a = line` while moving down in `a`.
proof fn lemma_entry_down(a1: int, a2: int, line: int, alo: int, l1: int, l2: int, lo: int, hi: int)
    requires
        alo < a2 < line < a1,
        lo < l2 < hi,
    ensures
        ({
            let (tn, td, dl) = (a1 - line, a1 - a2, l2 - l1);
            ||| (lo - l1) * td <= tn * dl && tn * dl <= (hi - l1) * td
            ||| dl > 0 && 0 <= lo - l1 <= dl && (alo - a1) * dl <= (lo - l1) * (a2 - a1) && (lo - l1)
                * (a2 - a1) <= (line - a1) * dl
            ||| dl < 0 && 0 <= l1 - hi <= -dl && (alo - a1) * (-dl) <= (l1 - hi) * (a2 - a1) && (l1
                - hi) * (a2 - a1) <= (line - a1) * (-dl)
        }),
{
    let (tn, td, dl) = (a1 - line, a1 - a2, l2 - l1);
    if tn * dl < (lo - l1) * td {
        assert(l1 < lo) by (nonlinear_arith)
            requires
                tn * dl < (lo - l1) * td,
                tn == a1 - line,
                td == a1 - a2,
                dl == l2 - l1,
                a2 < line < a1,
                lo < l2,
        ;
        assert(dl > 0 && 0 <= lo - l1 <= dl && (alo - a1) * dl <= (lo - l1) * (a2 - a1) && (lo - l1)
            * (a2 - a1) <= (line - a1) * dl) by (nonlinear_arith)
            requires
                tn * dl < (lo - l1) * td,
                tn == a1 - line,
                td == a1 - a2,
                dl == l2 - l1,
                alo < a2 < line < a1,
                l1 < lo < l2,
        ;
    } else if tn * dl > (hi - l1) * td {
        assert(l1 > hi) by (nonlinear_arith)
            requires
                tn * dl > (hi - l1) * td,
                tn == a1 - line,
                td == a1 - a2,
                dl == l2 - l1,
                a2 < line < a1,
                l2 < hi,
        ;
        assert(dl < 0 && 0 <= l1 - hi <= -dl && (alo - a1) * (-dl) <= (l1 - hi) * (a2 - a1) && (l1
            - hi) * (a2 - a1) <= (line - a1) * (-dl)) by (nonlinear_arith)
            requires
                tn * dl > (hi - l1) * td,
                tn == a1 - line,
                td == a1 - a2,
                dl == l2 - l1,
                alo < a2 < line < a1,
                l2 < hi < l1,
        ;
    }
}

proof fn lemma_crossing_on_side(b: NodeBox, p1: Point, p2: Point, s: int)
    requires
        0 <= s < 4,
        crosses(b, p1, p2, s),
    ensures
        on_border(b, crossing_point(b, p1, p2, s)),
{
    let tn = t_num(b, p1, p2, s);
    let td = t_den(p1, p2, s);
    let hit = tn * along_delta(p1, p2, s);
    let a = along_coord(p1, s);
    let (lo, hi) = (span_low(b, s), span_high(b, s));
    let q = hit / td;
    lemma_fundamental_div_mod(hit, td);
    lemma_mod_bound(hit, td);
    assert(lo - a <= q) by (nonlinear_arith)
        requires
            (lo - a) * td <= hit,
            hit == td * q + hit % td,
            hit % td < td,
            td > 0,
    ;
    assert(q <= hi - a) by (nonlinear_arith)
        requires
            hit <= (hi - a) * td,
            hit == td * q + hit % td,
            hit % td >= 0,
            td > 0,
    ;
}

/// A segment between a point strictly inside a box and a point outside it,
/// in either direction, is clipped to a point on one of the box's four sides,
/// within that side's extent.
pub proof fn lemma_border_point_on_side(b: NodeBox, p1: Point, p2: Point)
    requires
        (strictly_inside(b, p1) && outside(b, p2)) || (outside(b, p1) && strictly_inside(b, p2)),
    ensures
        on_border(b, border_point(b, p1, p2)),
{
    let (l, r, t, d) = (box_left(b), box_right(b), box_top(b), box_bottom(b));
    let (x1, y1, x2, y2) = (p1.x as int, p1.y as int, p2.x as int, p2.y as int);
    if strictly_inside(b, p1) {
        if x2 > r {
            lemma_exit(x1, x2, r, l, y1, y2, t, d);
            assert(crosses(b, p1, p2, 1) || crosses(b, p1, p2, 2) || crosses(b, p1, p2, 3));
        } else if x2 < l {
            lemma_exit_down(x1, x2, l, r, y1, y2, t, d);
            assert(crosses(b, p1, p2, 0) || crosses(b, p1, p2, 2) || crosses(b, p1, p2, 3));
        } else if y2 < t {
            lemma_exit_down(y1, y2, t, d, x1, x2, l, r);
            assert(crosses(b, p1, p2, 2) || crosses(b, p1, p2, 0) || crosses(b, p1, p2, 1));
        } else {
            lemma_exit(y1, y2, d, t, x1, x2, l, r);
            assert(crosses(b, p1, p2, 3) || crosses(b, p1, p2, 0) || crosses(b, p1, p2, 1));
        }
    } else {
        if x1 < l {
            lemma_entry(x1, x2, l, r, y1, y2, t, d);
            assert(crosses(b, p1, p2, 0) || crosses(b, p1, p2, 2) || crosses(b, p1, p2, 3));
        } else if x1 > r {
            lemma_entry_down(x1, x2, r, l, y1, y2, t, d);
            assert(crosses(b, p1, p2, 1) || crosses(b, p1, p2, 2) || crosses(b, p1, p2, 3));
        } else if y1 < t {
            lemma_entry(y1, y2, t, d, x1, x2, l, r);
            assert(crosses(b, p1, p2, 2) || crosses(b, p1, p2, 0) || crosses(b, p1, p2, 1));
        } else {
            lemma_entry_down(y1, y2, d, t, x1, x2, l, r);
            assert(crosses(b, p1, p2, 3) || crosses(b, p1, p2, 0) || crosses(b, p1, p2, 1));
        }
    }
    let s = choose|s: int| 0 <= s < 4 && crosses(b, p1, p2, s);
    lemma_chosen_side_found(b, p1, p2, s, 4);
    lemma_chosen_side_crosses(b, p1, p2, 4);
    lemma_crossing_on_side(b, p1, p2, chosen_side(b, p1, p2, 4)->0);
}

/// Floor of `a / 2`.
fn half_floor(a: i128) -> (r: i128)
    requires
        -0x4000_0000_0000_0000_0000_0000_0000_0000 < a < 0x4000_0000_0000_0000_0000_0000_0000_0000,
    ensures
        r == a / 2,
{
    floor_div(a, 2)
}

/// Floor of `a / d` for a positive `d`.
fn floor_div(a: i128, d: i128) -> (r: i128)
    requires
        d > 0,
        -0x4000_0000_0000_0000_0000_0000_0000_0000 < a < 0x4000_0000_0000_0000_0000_0000_0000_0000,
        d < 0x4000_0000_0000_0000_0000_0000_0000_0000,
    ensures
        r == a / d,
{
    if a >= 0 {
        let q = (a as u128) / (d as u128);
        proof {
            lemma_fundamental_div_mod(a as int, d as int);
            lemma_mod_bound(a as int, d as int);
            assert(q == (a as int) / (d as int));
        }
        q as i128
    } else {
        let m = (-a) as u128;
        let q = (m + (d as u128) - 1) / (d as u128);
        proof {
            let (ai, di, mi) = (a as int, d as int, m as int);
            lemma_fundamental_div_mod(mi + di - 1, di);
            lemma_mod_bound(mi + di - 1, di);
            let qi = (mi + di - 1) / di;
            let ri = (mi + di - 1) % di;
            assert(mi + di - 1 == di * qi + ri);
            assert(mi == -ai);
            assert(ai == di * (-qi) + (di - 1 - ri)) by (nonlinear_arith)
                requires
                    mi + di - 1 == di * qi + ri,
                    mi == -ai,
            ;
            lemma_fundamental_div_mod_converse(ai, di, -qi, di - 1 - ri);
            assert(q == qi);
            assert(qi >= 0) by (nonlinear_arith)
                requires
                    mi + di - 1 == di * qi + ri,
                    0 <= ri < di,
                    mi > 0,
            ;
            assert(qi <= mi) by (nonlinear_arith)
                requires
                    mi + di - 1 == di * qi + ri,
                    0 <= ri < di,
                    mi > 0,
                    di > 0,
            ;
        }
        -(q as i128)
    }
}

/// The integer square root of `x`, capped at 500.
fn capped_sqrt(x: u64) -> (r: u64)
    ensures
        r <= 500,
        r * r <= x,
        r < 500 ==> x < (r + 1) * (r + 1),
{
    let mut r: u64 = 0;
    while r < 500
        invariant
            r <= 500,
            r * r <= x,
        decreases 500 - r,
    {
        assert((r + 1) * (r + 1) <= 501 * 501) by (nonlinear_arith)
            requires
                r < 500,
        ;
        if (r + 1) * (r + 1) > x {
            return r;
        }
        r = r + 1;
    }
    r
}

/// The curvature factor, in thousandths, of an edge from `source` to
/// `target`: 0 when they coincide, else the distance over 500 held to
/// `[0.1, 0.5]`.
pub fn curvature_permille(source: Point, target: Point) -> (c: u32)
    ensures
        edge_curvature(source, target, c as int),
{
    if source == target {
        return 0;
    }
    let dx = target.x as i128 - source.x as i128;
    let dy = target.y as i128 - source.y as i128;
    let ghost x = quad_distance(source, target);
    if dx > 250 || dx < -250 || dy > 250 || dy < -250 {
        proof {
            let (a, b) = (dx as int, dy as int);
            assert(a * a >= 251 * 251 || b * b >= 251 * 251) by (nonlinear_arith)
                requires
                    a > 250 || a < -250 || b > 250 || b < -250,
            ;
            assert(a * a >= 0 && b * b >= 0) by (nonlinear_arith);
            assert(x == 4 * (a * a + b * b));
        }
        return 500;
    }
    assert(0 <= dx * dx <= 62500 && 0 <= dy * dy <= 62500) by (nonlinear_arith)
        requires
            -250 <= dx <= 250,
            -250 <= dy <= 250,
    ;
    let sq = 4 * ((dx * dx) as u64 + (dy * dy) as u64);
    assert(sq == x);
    let r = capped_sqrt(sq);
    proof {
        let ri = r as int;
        if ri <= 100 {
            assert(sq < 101 * 101) by (nonlinear_arith)
                requires
                    0 <= ri <= 100,
                    ri < 500 ==> sq < (ri + 1) * (ri + 1),
            ;
        }
        if ri > 100 {
            assert(sq >= 101 * 101) by (nonlinear_arith)
                requires
                    ri > 100,
                    ri * ri <= sq,
            ;
        }
        if ri < 500 {
            assert(sq < 500 * 500) by (nonlinear_arith)
                requires
                    0 <= ri < 500,
                    sq < (ri + 1) * (ri + 1),
            ;
        }
    }
    if r < 100 {
        100
    } else {
        r as u32
    }
}

/// The default route of an edge between two node centers: through the
/// midpoint as a single control point when curved, straight otherwise, with
/// the curvature factor of `curvature_permille`.
pub fn route_edge(source: Point, target: Point, curved: bool) -> (path: EdgePath)
    ensures
        curved ==> path.points@.len() == 3 && path.points@[0] == source && path.points@[2]
            == target && (path.points@[1].x as int, path.points@[1].y as int) == midpoint(
            source,
            target,
        ),
        !curved ==> path.points@ == seq![source, target],
        edge_curvature(source, target, path.curvature_permille as int),
{
    let c = curvature_permille(source, target);
    let mut points: Vec<Point> = Vec::new();
    points.push(source);
    if curved {
        let mx = half_floor(source.x as i128 + target.x as i128);
        let my = half_floor(source.y as i128 + target.y as i128);
        proof {
            let (sx, tx, sy, ty) = (source.x as int, target.x as int, source.y as int, target.y as int);
            lemma_fundamental_div_mod(sx + tx, 2);
            lemma_mod_bound(sx + tx, 2);
            lemma_fundamental_div_mod(sy + ty, 2);
            lemma_mod_bound(sy + ty, 2);
        }
        points.push(Point { x: mx as i64, y: my as i64 });
    }
    points.push(target);
    EdgePath { points, curvature_permille: c }
}

} // verus!
