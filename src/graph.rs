use vstd::prelude::*;

verus! {

/// A directed edge between two node ids.
#[derive(Clone, Copy, Debug, PartialEq, Eq, Structural)]
pub struct Edge {
    pub source: usize,
    pub target: usize,
}

/// A directed graph over the node ids `0..node_count`, with its edges in a
/// fixed order. Parallel edges are allowed and each one counts on its own.
#[derive(Clone, Debug)]
pub struct Graph {
    pub node_count: usize,
    pub edges: Vec<Edge>,
}

/// The ways in which a layout can fail.
#[derive(Clone, Copy, Debug, PartialEq, Eq, Structural)]
pub enum LayoutError {
    /// The graph has a directed cycle, so no layering exists.
    CycleDetected,
    /// An edge names a node id that is not below `node_count`.
    DanglingEdgeReference,
}

impl Graph {
    pub open spec fn edge_count(&self) -> int {
        self.edges@.len() as int
    }

    pub open spec fn source_of(&self, k: int) -> int {
        self.edges@[k].source as int
    }

    pub open spec fn target_of(&self, k: int) -> int {
        self.edges@[k].target as int
    }

    /// Every edge joins two nodes of the graph.
    pub open spec fn endpoints_valid(&self) -> bool {
        forall|k: int|
            #![trigger self.source_of(k)]
            #![trigger self.target_of(k)]
            0 <= k < self.edge_count() ==> self.source_of(k) < self.node_count && self.target_of(k)
                < self.node_count
    }

    /// An empty graph on `node_count` nodes.
    pub fn new(node_count: usize) -> (g: Graph)
        ensures
            g.node_count == node_count,
            g.edges@.len() == 0,
    {
        Graph { node_count, edges: Vec::new() }
    }

    /// Appends the edge `source -> target`.
    pub fn add_edge(&mut self, source: usize, target: usize)
        ensures
            final(self).node_count == old(self).node_count,
            final(self).edges@ == old(self).edges@.push(Edge { source, target }),
    {
        self.edges.push(Edge { source, target });
    }
}

/// `r` numbers the nodes so that every edge goes from a smaller number to a
/// larger one.
pub open spec fn is_topological_numbering(g: Graph, r: Seq<int>) -> bool {
    &&& r.len() == g.node_count
    &&& forall|k: int|
        0 <= k < g.edge_count() ==> r[#[trigger] g.source_of(k)] < r[g.target_of(k)]
}

/// A graph is acyclic exactly when some numbering of its nodes increases
/// along every edge.
pub open spec fn is_acyclic(g: Graph) -> bool {
    exists|r: Seq<int>| is_topological_numbering(g, r)
}

/// Returns whether every edge joins two nodes of the graph.
pub fn edges_in_range(g: &Graph) -> (ok: bool)
    ensures
        ok == g.endpoints_valid(),
{
    let mut k: usize = 0;
    while k < g.edges.len()
        invariant
            k <= g.edges@.len(),
            forall|j: int| 0 <= j < k ==> #[trigger] g.source_of(j) < g.node_count
                && g.target_of(j) < g.node_count,
        decreases g.edges@.len() - k,
    {
        let e = g.edges[k];
        if e.source >= g.node_count || e.target >= g.node_count {
            assert(!(g.source_of(k as int) < g.node_count && g.target_of(k as int) < g.node_count));
            return false;
        }
        k = k + 1;
    }
    true
}

} // verus!
