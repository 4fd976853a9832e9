//! The interfaces between graphs, max-flow solvers and the tree construction.
use vstd::prelude::*;

use super::cut::{cut_capacity, is_min_cut, total_capacity};

verus! {

/// A graph for flow algorithms: a number of vertices, numbered from 0.
pub trait FlowGraph {
    /// The number of vertices of the graph.
    spec fn spec_vertex_count(&self) -> nat;

    /// Returns the number of vertices in the graph.
    fn vertex_count(&self) -> (n: usize)
        ensures
            n == self.spec_vertex_count(),
    ;
}

/// A graph that can list all its directed edges.
pub trait OriginalGraphView: FlowGraph {
    /// The edges of the graph as `(source, target, capacity)`, in the order they are listed.
    spec fn spec_edges(&self) -> Seq<(usize, usize, u64)>;

    /// Returns all edges as `(source_vertex_idx, target_vertex_idx, capacity)`.
    /// An undirected edge of capacity `c` is given as the two directed edges `(u, v, c)`
    /// and `(v, u, c)`.
    fn all_edges(&self) -> (edges: Vec<(usize, usize, u64)>)
        ensures
            edges@ == self.spec_edges(),
    ;
}

/// A min-cut partition: `partition[i]` is true when vertex `i` is on the source side.
#[derive(Debug, Clone)]
pub struct MinCut {
    pub partition: Vec<bool>,
}

impl MinCut {
    /// Creates a `MinCut` from a partition.
    pub fn new(partition: Vec<bool>) -> (cut: Self)
        ensures
            cut.partition@ == partition@,
    {
        MinCut { partition }
    }

    /// Whether `v` lies on the same side of the cut as `s_representative`.
    /// Both must be vertices of the partition.
    pub fn same_side(&self, v: usize, s_representative: usize) -> (same: bool)
        requires
            v < self.partition.len(),
            s_representative < self.partition.len(),
        ensures
            same == (self.partition@[v as int] == self.partition@[s_representative as int]),
    {
        self.partition[v] == self.partition[s_representative]
    }
}

/// Errors of max-flow computations.
#[derive(Debug, Clone)]
pub enum MaxFlowError {
    /// The source and sink are the same vertex.
    SourceEqualsSink(usize),
    /// A vertex index is out of bounds.
    VertexNotFound(usize),
    /// The iteration limit was reached while the sink was still reachable.
    MaxIterationsReached(usize),
    /// The graph has no vertices.
    EmptyGraph,
    /// An unspecified internal error of a solver.
    InternalError(String),
}

/// A solver's result read as plain values: the flow and the cut's partition, or the error.
pub open spec fn result_view(res: Result<(u64, MinCut), MaxFlowError>) -> Result<(u64, Seq<bool>), MaxFlowError> {
    match res {
        Ok((flow, cut)) => Ok((flow, cut.partition@)),
        Err(e) => Err(e),
    }
}

/// Max-flow algorithms: the maximum flow from a source to a sink, with a minimum cut.
pub trait MaxFlowSolver<G: OriginalGraphView> {
    /// The results that a call with these arguments may give.
    spec fn allows(&self, graph: &G, source: usize, sink: usize, res: Result<(u64, Seq<bool>), MaxFlowError>) -> bool;

    /// The arguments on which a call succeeds.
    spec fn succeeds(&self, graph: &G, source: usize, sink: usize) -> bool;

    /// Computes a maximum flow from `source` to `sink` and a minimum cut.
    ///
    /// On success the flow value is the capacity of the returned cut, which puts
    /// `source` on its source side and `sink` on the other, and no `source`-`sink`
    /// cut has a smaller capacity (max-flow min-cut). The result is one that `allows`
    /// admits, and it is a success where `succeeds` holds.
    /// Flows are added up in `u64` and levels of vertices in `i32`, and each edge takes
    /// two residual edges, which bounds the total capacity, the number of vertices and the
    /// number of edges.
    fn max_flow_min_cut(&self, graph: &G, source: usize, sink: usize) -> (res: Result<
        (u64, MinCut),
        MaxFlowError,
    >)
        requires
            total_capacity(graph.spec_edges()) <= u64::MAX,
            graph.spec_vertex_count() <= i32::MAX,
            2 * graph.spec_edges().len() <= usize::MAX,
        ensures
            res matches Ok((flow, cut)) ==> {
                &&& is_min_cut(
                    graph.spec_edges(),
                    graph.spec_vertex_count(),
                    source,
                    sink,
                    cut.partition@,
                )
                &&& cut_capacity(graph.spec_edges(), cut.partition@) == flow
            },
            self.allows(graph, source, sink, result_view(res)),
            self.succeeds(graph, source, sink) ==> res is Ok,
    ;
}

} // verus!
