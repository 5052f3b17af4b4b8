use vstd::prelude::*;
use crate::graph::{Graph, LayoutError, edges_in_range, is_acyclic, is_topological_numbering};

verus! {

/// `r` is the longest-path layering of `g`: one rank per node, every edge
/// climbs by at least one rank, and a node sits at rank 0 or exactly one rank
/// above one of its predecessors.
pub open spec fn is_longest_path_ranking(g: Graph, r: Seq<usize>) -> bool {
    &&& g.endpoints_valid()
    &&& r.len() == g.node_count
    &&& forall|k: int|
        0 <= k < g.edge_count() ==> r[#[trigger] g.source_of(k)] < r[g.target_of(k)]
    &&& forall|v: int|
        0 <= v < g.node_count ==> #[trigger] r[v] == 0 || exists|k: int|
            0 <= k < g.edge_count() && g.target_of(k) == v && #[trigger] r[g.source_of(k)] + 1
                == r[v]
}

/// The smallest rank is 0 (or there are no ranks at all).
pub open spec fn starts_at_zero(r: Seq<usize>) -> bool {
    r.len() > 0 ==> exists|v: int| 0 <= v < r.len() && r[v] == 0
}

/// Number of `true` entries.
pub open spec fn count_true(s: Seq<bool>) -> nat
    decreases s.len(),
{
    if s.len() == 0 {
        0
    } else {
        count_true(s.drop_last()) + if s.last() { 1nat } else { 0nat }
    }
}

proof fn lemma_count_true_bound(s: Seq<bool>)
    ensures
        count_true(s) <= s.len(),
    decreases s.len(),
{
    if s.len() > 0 {
        lemma_count_true_bound(s.drop_last());
    }
}

proof fn lemma_count_true_all(s: Seq<bool>)
    requires
        count_true(s) == s.len(),
    ensures
        forall|i: int| 0 <= i < s.len() ==> s[i],
    decreases s.len(),
{
    if s.len() > 0 {
        lemma_count_true_bound(s.drop_last());
        lemma_count_true_all(s.drop_last());
        assert forall|i: int| 0 <= i < s.len() implies s[i] by {
            if i < s.len() - 1 {
                assert(s.drop_last()[i] == s[i]);
            }
        }
    }
}

proof fn lemma_count_true_set(s: Seq<bool>, i: int)
    requires
        0 <= i < s.len(),
        !s[i],
    ensures
        count_true(s.update(i, true)) == count_true(s) + 1,
    decreases s.len(),
{
    if i == s.len() - 1 {
        assert(s.update(i, true).drop_last() =~= s.drop_last());
    } else {
        assert(s.update(i, true).drop_last() =~= s.drop_last().update(i, true));
        lemma_count_true_set(s.drop_last(), i);
    }
}

/// An index in `0..len` among those marked in `sel` whose value in `r` is
/// smallest.
proof fn lemma_selected_minimum(sel: Seq<bool>, r: Seq<int>, len: int) -> (m: int)
    requires
        0 <= len <= sel.len(),
        sel.len() == r.len(),
        exists|i: int| 0 <= i < len && sel[i],
    ensures
        0 <= m < len,
        sel[m],
        forall|j: int| 0 <= j < len && sel[j] ==> r[m] <= r[j],
    decreases len,
{
    if exists|i: int| 0 <= i < len - 1 && sel[i] {
        let m0 = lemma_selected_minimum(sel, r, len - 1);
        if sel[len - 1] && r[len - 1] < r[m0] {
            len - 1
        } else {
            m0
        }
    } else {
        len - 1
    }
}

/// No numbering can increase along every edge when each node of a non-empty
/// set has a predecessor inside that set.
proof fn lemma_closed_set_blocks_numbering(g: Graph, inside: Seq<bool>, v: int)
    requires
        g.endpoints_valid(),
        inside.len() == g.node_count,
        0 <= v < g.node_count,
        inside[v],
        forall|w: int|
            0 <= w < g.node_count && #[trigger] inside[w] ==> exists|k: int|
                0 <= k < g.edge_count() && g.target_of(k) == w && inside[g.source_of(k)],
    ensures
        !is_acyclic(g),
{
    if is_acyclic(g) {
        let r = choose|r: Seq<int>| is_topological_numbering(g, r);
        let m = lemma_selected_minimum(inside, r, g.node_count as int);
        let k = choose|k: int|
            0 <= k < g.edge_count() && g.target_of(k) == m && inside[g.source_of(k)];
        assert(r[g.source_of(k)] < r[g.target_of(k)]);
    }
}

/// Every edge climbs in a longest-path layering.
pub proof fn lemma_ranks_increase_along_edges(g: Graph, r: Seq<usize>, k: int)
    requires
        is_longest_path_ranking(g, r),
        0 <= k < g.edge_count(),
    ensures
        r[g.source_of(k)] < r[g.target_of(k)],
{
}

/// A non-empty graph has a node at rank 0 in its longest-path layering, so the
/// smallest rank is 0.
pub proof fn lemma_lowest_rank_is_zero(g: Graph, r: Seq<usize>)
    requires
        is_longest_path_ranking(g, r),
        g.node_count > 0,
    ensures
        starts_at_zero(r),
{
    let all = Seq::new(r.len(), |i: int| true);
    let ri = Seq::new(r.len(), |i: int| r[i] as int);
    assert(all[0]);
    let m = lemma_selected_minimum(all, ri, r.len() as int);
    if r[m] != 0 {
        let k = choose|k: int|
            0 <= k < g.edge_count() && g.target_of(k) == m && #[trigger] r[g.source_of(k)] + 1
                == r[m];
        assert(all[g.source_of(k)]);
    }
}

proof fn lemma_ranking_below(g: Graph, r1: Seq<usize>, r2: Seq<usize>, v: int)
    requires
        is_longest_path_ranking(g, r1),
        is_longest_path_ranking(g, r2),
        0 <= v < g.node_count,
    ensures
        r1[v] <= r2[v],
    decreases r1[v],
{
    if r1[v] != 0 {
        let k = choose|k: int|
            0 <= k < g.edge_count() && g.target_of(k) == v && #[trigger] r1[g.source_of(k)] + 1
                == r1[v];
        lemma_ranking_below(g, r1, r2, g.source_of(k));
        assert(r2[g.source_of(k)] < r2[g.target_of(k)]);
    }
}

/// A graph has at most one longest-path layering.
pub proof fn lemma_longest_path_ranking_unique(g: Graph, r1: Seq<usize>, r2: Seq<usize>)
    requires
        is_longest_path_ranking(g, r1),
        is_longest_path_ranking(g, r2),
    ensures
        r1 == r2,
{
    assert forall|v: int| 0 <= v < r1.len() implies r1[v] == r2[v] by {
        lemma_ranking_below(g, r1, r2, v);
        lemma_ranking_below(g, r2, r1, v);
    }
    assert(r1 =~= r2);
}

/// The rank that node `v` takes once all its predecessors are ranked: one
/// more than the highest of them, or 0 without any. `None` when some
/// predecessor is not ranked yet.
fn rank_from_predecessors(g: &Graph, rank: &Vec<usize>, done: &Vec<bool>, v: usize) -> (res:
    Option<usize>)
    requires
        g.endpoints_valid(),
        rank@.len() == g.node_count,
        done@.len() == g.node_count,
        v < g.node_count,
        forall|u: int| 0 <= u < g.node_count && #[trigger] done@[u] ==> rank@[u] < g.node_count,
    ensures
        res is None <==> exists|k: int|
            0 <= k < g.edge_count() && g.target_of(k) == v && !#[trigger] done@[g.source_of(k)],
        res matches Some(x) ==> {
            &&& forall|k: int|
                0 <= k < g.edge_count() && #[trigger] g.target_of(k) == v ==> rank@[g.source_of(
                    k,
                )] < x
            &&& (x == 0 || exists|k: int|
                0 <= k < g.edge_count() && g.target_of(k) == v && #[trigger] rank@[g.source_of(k)]
                    + 1 == x)
        },
{
    let mut best: usize = 0;
    let mut k: usize = 0;
    while k < g.edges.len()
        invariant
            g.endpoints_valid(),
            rank@.len() == g.node_count,
            done@.len() == g.node_count,
            v < g.node_count,
            forall|u: int| 0 <= u < g.node_count && #[trigger] done@[u] ==> rank@[u] < g.node_count,
            k <= g.edge_count(),
            forall|j: int|
                0 <= j < k && #[trigger] g.target_of(j) == v ==> done@[g.source_of(j)],
            forall|j: int|
                0 <= j < k && #[trigger] g.target_of(j) == v ==> rank@[g.source_of(j)] < best,
            best == 0 || exists|j: int|
                0 <= j < k && g.target_of(j) == v && #[trigger] rank@[g.source_of(j)] + 1 == best,
        decreases g.edge_count() - k,
    {
        let e = g.edges[k];
        assert(g.source_of(k as int) < g.node_count);
        if e.target == v {
            if !done[e.source] {
                return None;
            }
            if rank[e.source] + 1 > best {
                best = rank[e.source] + 1;
            }
        }
        k = k + 1;
    }
    Some(best)
}

/// The state of the layering while it runs: `done` marks the nodes already
/// ranked, `count` says how many they are, each ranked node's predecessors are
/// ranked, and its rank obeys the longest-path rule among them.
#[verifier::opaque]
spec fn ranking_progress(g: Graph, rank: Seq<usize>, done: Seq<bool>, count: int) -> bool {
    &&& rank.len() == g.node_count
    &&& done.len() == g.node_count
    &&& count == count_true(done)
    &&& forall|u: int| 0 <= u < g.node_count && #[trigger] done[u] ==> rank[u] < count
    &&& forall|k: int|
        0 <= k < g.edge_count() && #[trigger] done[g.target_of(k)] ==> done[g.source_of(k)]
            && rank[g.source_of(k)] < rank[g.target_of(k)]
    &&& forall|u: int|
        0 <= u < g.node_count && #[trigger] done[u] ==> rank[u] == 0 || exists|k: int|
            0 <= k < g.edge_count() && g.target_of(k) == u && #[trigger] rank[g.source_of(k)] + 1
                == rank[u]
}

/// Ranks node `v` if all its predecessors are ranked; otherwise leaves the
/// state as it is and says so.
fn settle_node(
    g: &Graph,
    rank: &mut Vec<usize>,
    done: &mut Vec<bool>,
    done_count: &mut usize,
    v: usize,
) -> (settled: bool)
    requires
        g.endpoints_valid(),
        ranking_progress(*g, old(rank)@, old(done)@, *old(done_count) as int),
        v < g.node_count,
        !old(done)@[v as int],
    ensures
        ranking_progress(*g, final(rank)@, final(done)@, *final(done_count) as int),
        settled ==> *final(done_count) == *old(done_count) + 1,
        !settled ==> final(done)@ == old(done)@ && *final(done_count) == *old(done_count)
            && exists|k: int|
            0 <= k < g.edge_count() && g.target_of(k) == v && !#[trigger] old(done)@[g.source_of(
                k,
            )],
{
    proof {
        reveal(ranking_progress);
        lemma_count_true_set(done@, v as int);
        lemma_count_true_bound(done@.update(v as int, true));
        assert forall|u: int| 0 <= u < g.node_count && #[trigger] done@[u] implies rank@[u]
            < g.node_count by {}
    }
    match rank_from_predecessors(g, rank, done, v) {
        Some(x) => {
            let ghost old_done = done@;
            let ghost old_rank = rank@;
            rank.set(v, x);
            done.set(v, true);
            *done_count = *done_count + 1;
            proof {
                reveal(ranking_progress);
                let n = g.node_count;
                assert forall|k: int|
                    0 <= k < g.edge_count() && #[trigger] done@[g.target_of(k)] implies done@[g.source_of(
                        k,
                    )] && rank@[g.source_of(k)] < rank@[g.target_of(k)] by {
                    if g.target_of(k) == v {
                        assert(old_done[g.source_of(k)]);
                    } else {
                        assert(old_done[g.target_of(k)]);
                        assert(old_done[g.source_of(k)]);
                    }
                }
                assert forall|u: int|
                    0 <= u < n && #[trigger] done@[u] implies rank@[u] == 0 || exists|k: int|
                        0 <= k < g.edge_count() && g.target_of(k) == u
                            && #[trigger] rank@[g.source_of(k)] + 1 == rank@[u] by {
                    if u == v {
                        if x != 0 {
                            let k = choose|k: int|
                                0 <= k < g.edge_count() && g.target_of(k) == v
                                    && #[trigger] old_rank[g.source_of(k)] + 1 == x;
                            assert(old_done[g.source_of(k)]);
                            assert(rank@[g.source_of(k)] + 1 == rank@[u]);
                        }
                    } else {
                        assert(old_done[u]);
                        if rank@[u] != 0 {
                            let k = choose|k: int|
                                0 <= k < g.edge_count() && g.target_of(k) == u
                                    && #[trigger] old_rank[g.source_of(k)] + 1 == old_rank[u];
                            assert(old_done[g.source_of(k)]);
                            assert(rank@[g.source_of(k)] + 1 == rank@[u]);
                        }
                    }
                }
                assert forall|u: int| 0 <= u < n && #[trigger] done@[u] implies rank@[u]
                    < *done_count by {
                    if u == v {
                        if x != 0 {
                            let k = choose|k: int|
                                0 <= k < g.edge_count() && g.target_of(k) == v
                                    && #[trigger] old_rank[g.source_of(k)] + 1 == x;
                            assert(old_done[g.source_of(k)]);
                        }
                    } else {
                        assert(old_done[u]);
                    }
                }
            }
            true
        },
        None => false,
    }
}

/// Assigns each node its layer by longest-path propagation: a node without
/// predecessors gets rank 0, and any other node one more than the highest rank
/// among its predecessors. Nodes are ranked in topological order, so the
/// result is 0 at the lowest and rises by at least one along every edge.
pub fn assign_layers(g: &Graph) -> (res: Result<Vec<usize>, LayoutError>)
    ensures
        res matches Err(LayoutError::DanglingEdgeReference) <==> !g.endpoints_valid(),
        res matches Err(LayoutError::CycleDetected) <==> g.endpoints_valid() && !is_acyclic(*g),
        res matches Ok(r) ==> is_longest_path_ranking(*g, r@),
        res matches Ok(r) ==> starts_at_zero(r@),
        res matches Ok(r) ==> forall|v: int| 0 <= v < g.node_count ==> #[trigger] r@[v] < g.node_count,
{
    if !edges_in_range(g) {
        return Err(LayoutError::DanglingEdgeReference);
    }
    let n = g.node_count;
    let mut rank: Vec<usize> = Vec::new();
    let mut done: Vec<bool> = Vec::new();
    let mut i: usize = 0;
    while i < n
        invariant
            i <= n,
            rank@.len() == i,
            done@.len() == i,
            forall|u: int| 0 <= u < i ==> !#[trigger] done@[u],
        decreases n - i,
    {
        rank.push(0);
        done.push(false);
        i = i + 1;
    }
    let mut done_count: usize = 0;
    proof {
        lemma_count_none(done@);
        reveal(ranking_progress);
    }
    while done_count < n
        invariant
            g.endpoints_valid(),
            n == g.node_count,
            ranking_progress(*g, rank@, done@, done_count as int),
        decreases n - done_count,
    {
        let ghost start_done = done@;
        let ghost start_count = done_count;
        let mut progressed = false;
        let mut v: usize = 0;
        while v < n
            invariant
                g.endpoints_valid(),
                n == g.node_count,
                v <= n,
                ranking_progress(*g, rank@, done@, done_count as int),
                progressed ==> done_count > start_count,
                !progressed ==> done@ == start_done && done_count == start_count,
                !progressed ==> forall|w: int|
                    0 <= w < v && !#[trigger] done@[w] ==> exists|k: int|
                        0 <= k < g.edge_count() && g.target_of(k) == w && !done@[g.source_of(k)],
            decreases n - v,
        {
            proof {
                reveal(ranking_progress);
            }
            if !done[v] {
                if settle_node(g, &mut rank, &mut done, &mut done_count, v) {
                    progressed = true;
                }
            }
            v = v + 1;
        }
        proof {
            reveal(ranking_progress);
            lemma_count_true_bound(done@);
        }
        if !progressed {
            proof {
                let inside = Seq::new(n as nat, |w: int| !done@[w]);
                if forall|w: int| 0 <= w < n ==> done@[w] {
                    lemma_count_all(done@);
                }
                let w = choose|w: int| 0 <= w < n && !done@[w];
                assert forall|w: int| 0 <= w < g.node_count && #[trigger] inside[w] implies exists|k: int|
                    0 <= k < g.edge_count() && g.target_of(k) == w && inside[g.source_of(k)] by {
                    let k = choose|k: int|
                        0 <= k < g.edge_count() && g.target_of(k) == w && !done@[g.source_of(k)];
                    assert(inside[g.source_of(k)]);
                }
                lemma_closed_set_blocks_numbering(*g, inside, w);
            }
            return Err(LayoutError::CycleDetected);
        }
    }
    proof {
        lemma_finished_ranking(*g, rank@, done@, done_count as int);
    }
    Ok(rank)
}

proof fn lemma_finished_ranking(g: Graph, rank: Seq<usize>, done: Seq<bool>, count: int)
    requires
        g.endpoints_valid(),
        ranking_progress(g, rank, done, count),
        count >= g.node_count,
    ensures
        is_longest_path_ranking(g, rank),
        starts_at_zero(rank),
        is_acyclic(g),
        forall|v: int| 0 <= v < g.node_count ==> #[trigger] rank[v] < g.node_count,
{
    reveal(ranking_progress);
    let n = g.node_count;
    lemma_count_true_bound(done);
    lemma_count_true_all(done);
    assert forall|v: int| 0 <= v < n implies #[trigger] rank[v] < n by {
        assert(done[v]);
    }
    assert forall|u: int| 0 <= u < n implies #[trigger] rank[u] == 0 || exists|k: int|
        0 <= k < g.edge_count() && g.target_of(k) == u && #[trigger] rank[g.source_of(k)] + 1
            == rank[u] by {
        assert(done[u]);
    }
    assert forall|k: int| 0 <= k < g.edge_count() implies rank[#[trigger] g.source_of(k)]
        < rank[g.target_of(k)] by {
        assert(done[g.target_of(k)]);
    }
    assert(is_longest_path_ranking(g, rank));
    if n > 0 {
        lemma_lowest_rank_is_zero(g, rank);
    }
    let ri = Seq::new(n as nat, |u: int| rank[u] as int);
    assert(is_topological_numbering(g, ri));
}

proof fn lemma_count_none(s: Seq<bool>)
    requires
        forall|i: int| 0 <= i < s.len() ==> !s[i],
    ensures
        count_true(s) == 0,
    decreases s.len(),
{
    if s.len() > 0 {
        lemma_count_none(s.drop_last());
    }
}

proof fn lemma_count_all(s: Seq<bool>)
    requires
        forall|i: int| 0 <= i < s.len() ==> s[i],
    ensures
        count_true(s) == s.len(),
    decreases s.len(),
{
    if s.len() > 0 {
        lemma_count_all(s.drop_last());
    }
}

} // verus!
