use vstd::prelude::*;
use crate::barycenter::{Barycenter, sort_by_barycenter, stable_order, is_permutation};
use crate::graph::{Graph, LayoutError, edges_in_range};

verus! {

/// The nodes among `0..len` whose rank is `r`, in increasing id order.
pub open spec fn nodes_with_rank(ranks: Seq<usize>, r: int, len: int) -> Seq<usize>
    decreases len,
{
    if len <= 0 {
        Seq::empty()
    } else if ranks[len - 1] == r {
        nodes_with_rank(ranks, r, len - 1).push((len - 1) as usize)
    } else {
        nodes_with_rank(ranks, r, len - 1)
    }
}

/// One more than the largest of the first `len` ranks (0 when `len` is 0).
pub open spec fn rank_limit(ranks: Seq<usize>, len: int) -> int
    decreases len,
{
    if len <= 0 {
        0
    } else {
        let prev = rank_limit(ranks, len - 1);
        if ranks[len - 1] + 1 > prev {
            ranks[len - 1] + 1
        } else {
            prev
        }
    }
}

/// The layers before any reordering: one per rank from 0 to the largest,
/// each holding its nodes in increasing id order.
pub open spec fn initial_layers(ranks: Seq<usize>) -> Seq<Seq<usize>> {
    Seq::new(
        rank_limit(ranks, ranks.len() as int) as nat,
        |r: int| nodes_with_rank(ranks, r, ranks.len() as int),
    )
}

/// The rows of a table of layers.
pub open spec fn rows(layers: Seq<Vec<usize>>) -> Seq<Seq<usize>> {
    layers.map_values(|l: Vec<usize>| l@)
}

/// Where node `v` stands in `layer`.
pub open spec fn position_in(layer: Seq<usize>, v: int) -> int {
    choose|i: int| 0 <= i < layer.len() && layer[i] == v
}

/// Every node's position within its own layer.
pub open spec fn positions_of(ranks: Seq<usize>, layers: Seq<Seq<usize>>) -> Seq<int> {
    Seq::new(ranks.len(), |u: int| position_in(layers[ranks[u] as int], u))
}

/// Edge `k` joins `w` to a neighbour in the adjacent rank that the pass has
/// already visited: a predecessor one rank lower going down, a successor one
/// rank higher going up.
pub open spec fn is_neighbor_edge(g: Graph, ranks: Seq<usize>, w: int, k: int, down: bool) -> bool {
    if down {
        g.target_of(k) == w && ranks[g.source_of(k)] + 1 == ranks[w]
    } else {
        g.source_of(k) == w && ranks[g.target_of(k)] == ranks[w] + 1
    }
}

/// The far end of edge `k` in a pass.
pub open spec fn neighbor_of(g: Graph, k: int, down: bool) -> int {
    if down {
        g.source_of(k)
    } else {
        g.target_of(k)
    }
}

/// How many of the first `k` edges join `w` to a neighbour.
pub open spec fn neighbor_count(g: Graph, ranks: Seq<usize>, w: int, down: bool, k: int) -> int
    decreases k,
{
    if k <= 0 {
        0
    } else {
        neighbor_count(g, ranks, w, down, k - 1) + if is_neighbor_edge(g, ranks, w, k - 1, down) {
            1int
        } else {
            0int
        }
    }
}

/// The sum of the neighbours' positions over the first `k` edges.
pub open spec fn neighbor_position_sum(
    g: Graph,
    ranks: Seq<usize>,
    pos: Seq<int>,
    w: int,
    down: bool,
    k: int,
) -> int
    decreases k,
{
    if k <= 0 {
        0
    } else {
        neighbor_position_sum(g, ranks, pos, w, down, k - 1) + if is_neighbor_edge(
            g,
            ranks,
            w,
            k - 1,
            down,
        ) {
            pos[neighbor_of(g, k - 1, down)]
        } else {
            0int
        }
    }
}

/// The barycenter of node `w`, standing at index `i` of its layer: the
/// average position of its neighbours, or its own index when it has none.
pub open spec fn barycenter_of(
    g: Graph,
    ranks: Seq<usize>,
    pos: Seq<int>,
    w: int,
    i: int,
    down: bool,
) -> Barycenter {
    let c = neighbor_count(g, ranks, w, down, g.edge_count());
    if c == 0 {
        Barycenter { sum: i as u64, count: 1 }
    } else {
        Barycenter {
            sum: neighbor_position_sum(g, ranks, pos, w, down, g.edge_count()) as u64,
            count: c as u64,
        }
    }
}

/// Layer `r` after one reordering step: sorted by barycenter, stably, with
/// neighbour positions read from `layers` as they stand; a layer of 0 or 1
/// nodes is left alone.
pub open spec fn reorder_layer(
    g: Graph,
    ranks: Seq<usize>,
    layers: Seq<Seq<usize>>,
    r: int,
    down: bool,
) -> Seq<Seq<usize>> {
    let layer = layers[r];
    if layer.len() <= 1 {
        layers
    } else {
        let pos = positions_of(ranks, layers);
        let keys = Seq::new(layer.len(), |i: int| barycenter_of(g, ranks, pos, layer[i] as int, i, down));
        let order = stable_order(keys, layer.len());
        layers.update(r, order.map_values(|j: int| layer[j]))
    }
}

/// The layers after the first `steps` ranks of a pass were reordered: ranks
/// in ascending order going down, in descending order going up.
pub open spec fn sweep(
    g: Graph,
    ranks: Seq<usize>,
    layers: Seq<Seq<usize>>,
    down: bool,
    steps: nat,
) -> Seq<Seq<usize>>
    decreases steps,
{
    if steps == 0 {
        layers
    } else {
        let prev = sweep(g, ranks, layers, down, (steps - 1) as nat);
        let r = if down {
            steps - 1
        } else {
            layers.len() - steps
        };
        reorder_layer(g, ranks, prev, r, down)
    }
}

/// The layers after one top-down pass and one bottom-up pass.
pub open spec fn ordered_layers(g: Graph, ranks: Seq<usize>) -> Seq<Seq<usize>> {
    let start = initial_layers(ranks);
    let top_down = sweep(g, ranks, start, true, start.len());
    sweep(g, ranks, top_down, false, start.len())
}

/// Node `v` stands somewhere in `layers`.
pub open spec fn appears_in(layers: Seq<Seq<usize>>, v: int) -> bool {
    exists|r: int, i: int| 0 <= r < layers.len() && 0 <= i < layers[r].len() && #[trigger] layers[r][i] == v
}

/// Every entry of `layers` is a node below `n`, every such node appears,
/// and no node appears twice.
pub open spec fn places_each_node_once(layers: Seq<Seq<usize>>, n: int) -> bool {
    &&& forall|r: int, i: int|
        0 <= r < layers.len() && 0 <= i < layers[r].len() ==> #[trigger] layers[r][i] < n
    &&& forall|v: int| 0 <= v < n ==> #[trigger] appears_in(layers, v)
    &&& forall|r: int, i: int, q: int, j: int|
        0 <= r < layers.len() && 0 <= i < layers[r].len() && 0 <= q < layers.len() && 0 <= j
            < layers[q].len() && #[trigger] layers[r][i] == #[trigger] layers[q][j] ==> r == q && i
            == j
}

/// `layers` and `pos` agree: each node stands in the layer of its rank at
/// its recorded position, and each entry of a layer is a node of that rank
/// whose recorded position is that entry.
pub open spec fn consistent(n: int, ranks: Seq<usize>, layers: Seq<Seq<usize>>, pos: Seq<usize>) -> bool {
    &&& ranks.len() == n
    &&& pos.len() == n
    &&& forall|v: int|
        0 <= v < n ==> #[trigger] ranks[v] < layers.len() && pos[v] < layers[ranks[v] as int].len()
            && layers[ranks[v] as int][pos[v] as int] == v
    &&& forall|r: int| 0 <= r < layers.len() ==> #[trigger] layers[r].len() <= n
    &&& forall|r: int, i: int|
        0 <= r < layers.len() && 0 <= i < layers[r].len() ==> #[trigger] layers[r][i] < n
            && ranks[layers[r][i] as int] == r && pos[layers[r][i] as int] == i
}

proof fn lemma_positions_agree(n: int, ranks: Seq<usize>, layers: Seq<Seq<usize>>, pos: Seq<usize>)
    requires
        consistent(n, ranks, layers, pos),
    ensures
        positions_of(ranks, layers) == pos.map_values(|p: usize| p as int),
{
    let ps = positions_of(ranks, layers);
    assert forall|u: int| 0 <= u < n implies ps[u] == pos[u] as int by {
        let l = layers[ranks[u] as int];
        assert(l[pos[u] as int] == u);
        let c = position_in(l, u);
        assert(0 <= c < l.len() && l[c] == u);
        assert(layers[ranks[u] as int][c] == u);
    }
    assert(ps =~= pos.map_values(|p: usize| p as int));
}

proof fn lemma_rank_limit(ranks: Seq<usize>, len: int)
    requires
        0 <= len <= ranks.len(),
    ensures
        forall|v: int| 0 <= v < len ==> ranks[v] < rank_limit(ranks, len),
        len > 0 ==> exists|v: int| 0 <= v < len && rank_limit(ranks, len) == ranks[v] + 1,
        rank_limit(ranks, len) >= 0,
    decreases len,
{
    if len > 0 {
        lemma_rank_limit(ranks, len - 1);
        if ranks[len - 1] + 1 <= rank_limit(ranks, len - 1) {
            let v = choose|v: int| 0 <= v < len - 1 && rank_limit(ranks, len - 1) == ranks[v] + 1;
            assert(0 <= v < len && rank_limit(ranks, len) == ranks[v] + 1);
        } else {
            assert(rank_limit(ranks, len) == ranks[len - 1] + 1);
        }
    }
}

/// With every rank below `n`, so is the number of layers.
pub proof fn lemma_rank_limit_bound(ranks: Seq<usize>, n: int)
    requires
        ranks.len() == n,
        forall|v: int| 0 <= v < n ==> #[trigger] ranks[v] < n,
    ensures
        rank_limit(ranks, n) <= n,
{
    lemma_rank_limit(ranks, n);
    if n > 0 {
        let v = choose|v: int| 0 <= v < n && rank_limit(ranks, n) == ranks[v] + 1;
        assert(ranks[v] < n);
    }
}

proof fn lemma_nodes_with_rank(ranks: Seq<usize>, r: int, len: int)
    requires
        0 <= len <= ranks.len(),
        ranks.len() <= usize::MAX,
    ensures
        forall|i: int|
            0 <= i < nodes_with_rank(ranks, r, len).len() ==> #[trigger] nodes_with_rank(
                ranks,
                r,
                len,
            )[i] < len && ranks[nodes_with_rank(ranks, r, len)[i] as int] == r,
        forall|i: int, j: int|
            0 <= i < j < nodes_with_rank(ranks, r, len).len() ==> nodes_with_rank(ranks, r, len)[i]
                < nodes_with_rank(ranks, r, len)[j],
        nodes_with_rank(ranks, r, len).len() <= len,
    decreases len,
{
    if len > 0 {
        lemma_nodes_with_rank(ranks, r, len - 1);
        let prev = nodes_with_rank(ranks, r, len - 1);
        let cur = nodes_with_rank(ranks, r, len);
        if ranks[len - 1] == r {
            assert(cur == prev.push((len - 1) as usize));
            assert forall|i: int| 0 <= i < cur.len() implies #[trigger] cur[i] < len && ranks[cur[i] as int] == r by {
                if i < prev.len() {
                    assert(cur[i] == prev[i]);
                }
            }
            assert forall|i: int, j: int| 0 <= i < j < cur.len() implies cur[i] < cur[j] by {
                assert(cur[i] == prev[i]);
                if j < prev.len() {
                    assert(cur[j] == prev[j]);
                }
            }
        } else {
            assert(cur == prev);
        }
    }
}

/// The largest rank plus one.
fn rank_limit_exec(ranks: &Vec<usize>, n: usize) -> (lim: usize)
    requires
        ranks@.len() == n,
        forall|v: int| 0 <= v < n ==> #[trigger] ranks@[v] < n,
    ensures
        lim == rank_limit(ranks@, n as int),
        lim <= n,
{
    let mut lim: usize = 0;
    let mut v: usize = 0;
    while v < n
        invariant
            v <= n,
            ranks@.len() == n,
            forall|u: int| 0 <= u < n ==> #[trigger] ranks@[u] < n,
            lim == rank_limit(ranks@, v as int),
            lim <= n,
        decreases n - v,
    {
        if ranks[v] + 1 > lim {
            lim = ranks[v] + 1;
        }
        v = v + 1;
    }
    lim
}

/// Groups the nodes by rank, each layer in increasing id order, and records
/// each node's position in its layer.
fn group_by_rank(ranks: &Vec<usize>, n: usize) -> (res: (Vec<Vec<usize>>, Vec<usize>))
    requires
        ranks@.len() == n,
        forall|v: int| 0 <= v < n ==> #[trigger] ranks@[v] < n,
    ensures
        rows(res.0@) == initial_layers(ranks@),
        consistent(n as int, ranks@, rows(res.0@), res.1@),
{
    let lim = rank_limit_exec(ranks, n);
    proof {
        lemma_rank_limit(ranks@, n as int);
    }
    let mut pos: Vec<usize> = Vec::new();
    let mut v: usize = 0;
    while v < n
        invariant
            v <= n,
            pos@.len() == v,
        decreases n - v,
    {
        pos.push(0);
        v = v + 1;
    }
    let mut layers: Vec<Vec<usize>> = Vec::new();
    let mut r: usize = 0;
    while r < lim
        invariant
            r <= lim,
            lim == rank_limit(ranks@, n as int),
            ranks@.len() == n,
            pos@.len() == n,
            forall|u: int| 0 <= u < n ==> #[trigger] ranks@[u] < lim,
            layers@.len() == r,
            forall|q: int| 0 <= q < r ==> #[trigger] layers@[q]@ == nodes_with_rank(ranks@, q, n as int),
            forall|u: int|
                0 <= u < n && #[trigger] ranks@[u] < r ==> pos@[u] < layers@[ranks@[u] as int]@.len()
                    && layers@[ranks@[u] as int]@[pos@[u] as int] == u,
            forall|q: int, i: int|
                0 <= q < r && 0 <= i < layers@[q]@.len() ==> pos@[#[trigger] layers@[q]@[i] as int] == i,
        decreases lim - r,
    {
        let mut row: Vec<usize> = Vec::new();
        let mut u: usize = 0;
        while u < n
            invariant
                u <= n,
                r < lim,
                ranks@.len() == n,
                pos@.len() == n,
                layers@.len() == r,
                row@ == nodes_with_rank(ranks@, r as int, u as int),
                forall|q: int| 0 <= q < r ==> #[trigger] layers@[q]@ == nodes_with_rank(ranks@, q, n as int),
                forall|w: int|
                    0 <= w < n && #[trigger] ranks@[w] < r ==> pos@[w] < layers@[ranks@[w] as int]@.len()
                        && layers@[ranks@[w] as int]@[pos@[w] as int] == w,
                forall|w: int|
                    0 <= w < u && #[trigger] ranks@[w] == r ==> pos@[w] < row@.len()
                        && row@[pos@[w] as int] == w,
                forall|q: int, i: int|
                    0 <= q < r && 0 <= i < layers@[q]@.len() ==> pos@[#[trigger] layers@[q]@[i] as int] == i,
                forall|i: int| 0 <= i < row@.len() ==> pos@[#[trigger] row@[i] as int] == i,
            decreases n - u,
        {
            proof {
                lemma_nodes_with_rank(ranks@, r as int, u as int);
                assert forall|q: int| 0 <= q < r implies #[trigger] layers@[q]@ == nodes_with_rank(ranks@, q, n as int) by {}
            }
            if ranks[u] == r {
                let ghost old_pos = pos@;
                pos.set(u, row.len());
                row.push(u);
                proof {
                    assert forall|q: int, i: int|
                        0 <= q < r && 0 <= i < layers@[q]@.len() implies pos@[#[trigger] layers@[q]@[i] as int] == i by {
                        lemma_nodes_with_rank(ranks@, q, n as int);
                        assert(ranks@[layers@[q]@[i] as int] == q);
                    }
                    assert forall|i: int| 0 <= i < row@.len() implies pos@[#[trigger] row@[i] as int] == i by {
                        if i < row@.len() - 1 {
                            assert(row@[i] < u);
                        }
                    }
                }
            }
            u = u + 1;
        }
        proof {
            lemma_nodes_with_rank(ranks@, r as int, n as int);
        }
        layers.push(row);
        r = r + 1;
    }
    proof {
        let rs = rows(layers@);
        assert(rs =~= initial_layers(ranks@));
        assert forall|q: int| 0 <= q < rs.len() implies #[trigger] rs[q].len() <= n by {
            lemma_nodes_with_rank(ranks@, q, n as int);
        }
        assert forall|q: int, i: int|
            0 <= q < rs.len() && 0 <= i < rs[q].len() implies #[trigger] rs[q][i] < n
                && ranks@[rs[q][i] as int] == q && pos@[rs[q][i] as int] == i by {
            lemma_nodes_with_rank(ranks@, q, n as int);
        }
    }
    (layers, pos)
}

/// The barycenter of node `w` at index `i` of its layer, with the
/// neighbours' positions read from `pos`.
fn node_barycenter(g: &Graph, ranks: &Vec<usize>, pos: &Vec<usize>, w: usize, i: usize, down: bool) -> (b:
    Barycenter)
    requires
        g.endpoints_valid(),
        ranks@.len() == g.node_count,
        pos@.len() == g.node_count,
        forall|v: int| 0 <= v < g.node_count ==> #[trigger] pos@[v] < g.node_count,
        w < g.node_count,
        i < g.node_count,
        g.node_count <= u32::MAX,
        g.edges@.len() <= u32::MAX,
    ensures
        b == barycenter_of(*g, ranks@, pos@.map_values(|p: usize| p as int), w as int, i as int, down),
        b.count > 0,
{
    let ghost pi = pos@.map_values(|p: usize| p as int);
    let n = g.node_count;
    let m = g.edges.len();
    let mut sum: u64 = 0;
    let mut count: u64 = 0;
    let mut k: usize = 0;
    while k < m
        invariant
            g.endpoints_valid(),
            n == g.node_count,
            m == g.edge_count(),
            ranks@.len() == n,
            pos@.len() == n,
            pi == pos@.map_values(|p: usize| p as int),
            forall|v: int| 0 <= v < n ==> #[trigger] pos@[v] < n,
            w < n,
            n <= u32::MAX,
            m <= u32::MAX,
            k <= m,
            sum as int == neighbor_position_sum(*g, ranks@, pi, w as int, down, k as int),
            count as int == neighbor_count(*g, ranks@, w as int, down, k as int),
            count <= k,
            sum <= k * n,
        decreases m - k,
    {
        let e = g.edges[k];
        assert(g.source_of(k as int) < n && g.target_of(k as int) < n);
        let hit = if down {
            e.target == w && ranks[e.source] < ranks[w] && ranks[w] - ranks[e.source] == 1
        } else {
            e.source == w && ranks[e.target] > ranks[w] && ranks[e.target] - ranks[w] == 1
        };
        assert(hit == is_neighbor_edge(*g, ranks@, w as int, k as int, down));
        if hit {
            let u = if down {
                e.source
            } else {
                e.target
            };
            assert(pi[u as int] == pos@[u as int] as int);
            assert((k + 1) * n <= 0xffff_ffffu64 * 0xffff_ffffu64) by (nonlinear_arith)
                requires
                    k < m,
                    m <= 0xffff_ffff,
                    n <= 0xffff_ffff,
            ;
            assert(k * n + n == (k + 1) * n) by (nonlinear_arith);
            sum = sum + pos[u] as u64;
            count = count + 1;
        }
        assert(sum <= (k + 1) * n) by (nonlinear_arith)
            requires
                sum <= k * n + n,
        ;
        k = k + 1;
    }
    if count == 0 {
        Barycenter { sum: i as u64, count: 1 }
    } else {
        Barycenter { sum, count }
    }
}

/// Reorders layer `r` by barycenter, reading the other layers' positions as
/// they stand, and records the new positions.
fn reorder_rank(
    g: &Graph,
    ranks: &Vec<usize>,
    layers: &mut Vec<Vec<usize>>,
    pos: &mut Vec<usize>,
    r: usize,
    down: bool,
)
    requires
        g.endpoints_valid(),
        g.node_count <= u32::MAX,
        g.edges@.len() <= u32::MAX,
        consistent(g.node_count as int, ranks@, rows(old(layers)@), old(pos)@),
        r < old(layers)@.len(),
    ensures
        rows(final(layers)@) == reorder_layer(*g, ranks@, rows(old(layers)@), r as int, down),
        consistent(g.node_count as int, ranks@, rows(final(layers)@), final(pos)@),
{
    let n = g.node_count;
    let ghost old_rows = rows(layers@);
    let ghost old_pos = pos@;
    let layer = layers[r].clone();
    assert(layer@ == old_rows[r as int]);
    let len = layer.len();
    if len <= 1 {
        return;
    }
    proof {
        lemma_positions_agree(n as int, ranks@, old_rows, pos@);
        assert forall|v: int| 0 <= v < n implies #[trigger] pos@[v] < n by {
            let q = ranks@[v] as int;
            assert(old_rows[q][pos@[v] as int] == v);
            assert(pos@[old_rows[q][pos@[v] as int] as int] == pos@[v]);
            assert(pos@[v] < old_rows[q].len());
        }
    }
    let ghost pi = positions_of(ranks@, old_rows);
    let mut keys: Vec<Barycenter> = Vec::new();
    let mut i: usize = 0;
    while i < len
        invariant
            g.endpoints_valid(),
            g.node_count <= u32::MAX,
            g.edges@.len() <= u32::MAX,
            n == g.node_count,
            consistent(n as int, ranks@, old_rows, pos@),
            forall|v: int| 0 <= v < n ==> #[trigger] pos@[v] < n,
            pi == pos@.map_values(|p: usize| p as int),
            layer@ == old_rows[r as int],
            r < old_rows.len(),
            len == layer@.len(),
            len <= n,
            i <= len,
            keys@.len() == i,
            forall|j: int| 0 <= j < i ==> #[trigger] keys@[j] == barycenter_of(*g, ranks@, pi, layer@[j] as int, j, down),
            forall|j: int| 0 <= j < i ==> #[trigger] keys@[j].count > 0,
        decreases len - i,
    {
        assert(layer@[i as int] < n);
        let b = node_barycenter(g, ranks, pos, layer[i], i, down);
        keys.push(b);
        i = i + 1;
    }
    let ghost keyseq = Seq::new(len as nat, |j: int| barycenter_of(*g, ranks@, pi, layer@[j] as int, j, down));
    assert(keys@ =~= keyseq);
    let perm = sort_by_barycenter(&keys);
    let ghost order = perm@.map_values(|t: usize| t as int);
    let mut new_layer: Vec<usize> = Vec::new();
    let mut t: usize = 0;
    while t < len
        invariant
            t <= len,
            len == layer@.len(),
            is_permutation(order, len as int),
            order == perm@.map_values(|t: usize| t as int),
            new_layer@.len() == t,
            forall|q: int| 0 <= q < t ==> #[trigger] new_layer@[q] == layer@[order[q]],
        decreases len - t,
    {
        assert(order[t as int] == perm@[t as int] as int);
        new_layer.push(layer[perm[t]]);
        t = t + 1;
    }
    assert(new_layer@ =~= order.map_values(|j: int| layer@[j]));
    proof {
        assert forall|a: int, b: int| 0 <= a < b < len implies new_layer@[a] != new_layer@[b] by {
            assert(order[a] != order[b]);
            assert(pos@[layer@[order[a]] as int] == order[a]);
            assert(pos@[layer@[order[b]] as int] == order[b]);
        }
    }
    let mut t: usize = 0;
    while t < len
        invariant
            t <= len,
            len == new_layer@.len(),
            n == g.node_count,
            pos@.len() == n,
            forall|q: int| 0 <= q < len ==> #[trigger] new_layer@[q] < n && ranks@[new_layer@[q] as int] == r,
            forall|a: int, b: int| 0 <= a < b < len ==> new_layer@[a] != new_layer@[b],
            forall|q: int| 0 <= q < t ==> pos@[#[trigger] new_layer@[q] as int] == q,
            forall|v: int| 0 <= v < n && ranks@[v] != r ==> #[trigger] pos@[v] == old_pos[v],
        decreases len - t,
    {
        proof {
            assert forall|q: int| 0 <= q < len implies #[trigger] new_layer@[q] < n && ranks@[new_layer@[q] as int] == r by {}
        }
        pos.set(new_layer[t], t);
        proof {
            assert forall|q: int| 0 <= q < t + 1 implies pos@[#[trigger] new_layer@[q] as int] == q by {
                if q < t {
                    assert(new_layer@[q] != new_layer@[t as int]);
                }
            }
        }
        t = t + 1;
    }
    layers.set(r, new_layer);
    proof {
        let nr = rows(layers@);
        assert(nr =~= old_rows.update(r as int, order.map_values(|j: int| layer@[j])));
        assert forall|v: int| 0 <= v < n implies #[trigger] ranks@[v] < nr.len() && pos@[v] < nr[ranks@[v] as int].len()
            && nr[ranks@[v] as int][pos@[v] as int] == v by {
            if ranks@[v] != r {
            } else {
                let p0 = old_pos[v] as int;
                assert(layer@[p0] == v);
                assert(order.contains(p0));
                let q = choose|q: int| 0 <= q < order.len() && order[q] == p0;
                assert(new_layer@[q] == v);
                assert(pos@[new_layer@[q] as int] == q);
            }
        }
        assert forall|q: int| 0 <= q < nr.len() implies #[trigger] nr[q].len() <= n by {
            if q != r {
                assert(nr[q] == old_rows[q]);
            }
        }
        assert forall|q: int, i: int| 0 <= q < nr.len() && 0 <= i < nr[q].len() implies #[trigger] nr[q][i] < n
            && ranks@[nr[q][i] as int] == q && pos@[nr[q][i] as int] == i by {
            if q != r {
                assert(nr[q] == old_rows[q]);
                assert(old_rows[q][i] < n && ranks@[old_rows[q][i] as int] == q);
            }
        }
    }
}

/// In a table that agrees with some positions, layer `r` holds each node of
/// rank `r` once and nothing else.
proof fn lemma_layer_counts(n: int, ranks: Seq<usize>, layers: Seq<Seq<usize>>, pos: Seq<usize>, r: int)
    requires
        consistent(n, ranks, layers, pos),
        0 <= r < layers.len(),
    ensures
        forall|x: usize| #[trigger] layers[r].to_multiset().count(x) == if (x as int) < n && ranks[x as int] == r {
            1nat
        } else {
            0nat
        },
{
    broadcast use vstd::seq_lib::group_to_multiset_ensures;

    let l = layers[r];
    assert forall|i: int, j: int| 0 <= i < l.len() && 0 <= j < l.len() && i != j implies l[i] != l[j] by {
        assert(pos[l[i] as int] == i);
        assert(pos[l[j] as int] == j);
    }
    assert(l.no_duplicates());
    l.lemma_multiset_has_no_duplicates();
    assert forall|x: usize| #[trigger] l.to_multiset().count(x) == if (x as int) < n && ranks[x as int] == r {
        1nat
    } else {
        0nat
    } by {
        if (x as int) < n && ranks[x as int] == r {
            assert(l[pos[x as int] as int] == x);
            assert(l.contains(x));
        } else if l.contains(x) {
            let i = choose|i: int| 0 <= i < l.len() && l[i] == x;
            assert(l[i] < n && ranks[l[i] as int] == r);
        }
    }
}

/// `layers` is the result of ordering the graph's layers: the layers after
/// both passes, one per rank from 0 to the largest, each holding exactly the
/// nodes of its rank once.
pub open spec fn is_layer_ordering(g: Graph, ranks: Seq<usize>, layers: Seq<Seq<usize>>) -> bool {
    &&& layers == ordered_layers(g, ranks)
    &&& layers.len() == initial_layers(ranks).len()
    &&& places_each_node_once(layers, g.node_count as int)
    &&& forall|v: int|
        0 <= v < g.node_count ==> #[trigger] ranks[v] < layers.len() && layers[ranks[v] as int].contains(
            v as usize,
        )
    &&& forall|r: int| 0 <= r < layers.len() ==> (#[trigger] layers[r]).len() <= g.node_count
    &&& forall|r: int|
        0 <= r < layers.len() ==> (#[trigger] layers[r]).to_multiset() == initial_layers(
            ranks,
        )[r].to_multiset()
}

/// Orders the nodes within each layer to reduce edge crossings: the nodes are
/// grouped by rank in increasing id order, then one top-down pass and one
/// bottom-up pass sort each layer of two or more nodes, stably, by the
/// barycenter of its neighbours in the adjacent rank already visited (one
/// rank lower going down, one rank higher going up). Each layer keeps exactly
/// the nodes of its rank. Fails on an edge to a missing node.
pub fn order_nodes_within_layers(g: &Graph, ranks: &Vec<usize>) -> (res: Result<
    Vec<Vec<usize>>,
    LayoutError,
>)
    requires
        ranks@.len() == g.node_count,
        forall|v: int| 0 <= v < g.node_count ==> #[trigger] ranks@[v] < g.node_count,
        g.node_count <= u32::MAX,
        g.edges@.len() <= u32::MAX,
    ensures
        res is Err <==> !g.endpoints_valid(),
        res matches Err(e) ==> e == LayoutError::DanglingEdgeReference,
        res matches Ok(layers) ==> is_layer_ordering(*g, ranks@, rows(layers@)),
{
    if !edges_in_range(g) {
        return Err(LayoutError::DanglingEdgeReference);
    }
    Ok(sweep_layers(g, ranks))
}

/// The two passes on a graph whose edges all join nodes of it.
fn sweep_layers(g: &Graph, ranks: &Vec<usize>) -> (layers: Vec<Vec<usize>>)
    requires
        g.endpoints_valid(),
        ranks@.len() == g.node_count,
        forall|v: int| 0 <= v < g.node_count ==> #[trigger] ranks@[v] < g.node_count,
        g.node_count <= u32::MAX,
        g.edges@.len() <= u32::MAX,
    ensures
        is_layer_ordering(*g, ranks@, rows(layers@)),
{
    let n = g.node_count;
    let (mut layers, mut pos) = group_by_rank(ranks, n);
    let ghost start = rows(layers@);
    let ghost start_pos = pos@;
    let count = layers.len();
    let mut s: usize = 0;
    while s < count
        invariant
            g.endpoints_valid(),
            n == g.node_count,
            n <= u32::MAX,
            g.edges@.len() <= u32::MAX,
            count == start.len(),
            s <= count,
            rows(layers@) == sweep(*g, ranks@, start, true, s as nat),
            layers@.len() == count,
            consistent(n as int, ranks@, rows(layers@), pos@),
        decreases count - s,
    {
        reorder_rank(g, ranks, &mut layers, &mut pos, s, true);
        s = s + 1;
    }
    let ghost mid = rows(layers@);
    let mut s: usize = 0;
    while s < count
        invariant
            g.endpoints_valid(),
            n == g.node_count,
            n <= u32::MAX,
            g.edges@.len() <= u32::MAX,
            count == mid.len(),
            s <= count,
            rows(layers@) == sweep(*g, ranks@, mid, false, s as nat),
            layers@.len() == count,
            consistent(n as int, ranks@, rows(layers@), pos@),
        decreases count - s,
    {
        reorder_rank(g, ranks, &mut layers, &mut pos, count - 1 - s, false);
        s = s + 1;
    }
    proof {
        let fin = rows(layers@);
        assert forall|v: int| 0 <= v < n implies #[trigger] appears_in(fin, v) by {
            assert(fin[ranks@[v] as int][pos@[v] as int] == v);
        }
        assert(places_each_node_once(fin, n as int));
        assert forall|r: int| 0 <= r < fin.len() implies (#[trigger] fin[r]).len() <= n by {}
        assert forall|v: int| 0 <= v < n implies #[trigger] ranks@[v] < fin.len() && fin[ranks@[v] as int].contains(
            v as usize,
        ) by {
            assert(fin[ranks@[v] as int][pos@[v] as int] == v);
        }
        assert forall|r: int| 0 <= r < fin.len() implies (#[trigger] fin[r]).to_multiset()
            == initial_layers(ranks@)[r].to_multiset() by {
            lemma_layer_counts(n as int, ranks@, fin, pos@, r);
            lemma_layer_counts(n as int, ranks@, start, start_pos, r);
            assert(fin[r].to_multiset() =~= start[r].to_multiset());
        }
    }
    layers
}

} // verus!
