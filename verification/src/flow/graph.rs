//! A directed graph with integer capacities, stored in a `petgraph::Graph`.
use petgraph::graph::{Graph, NodeIndex};
use petgraph::visit::EdgeRef;
use petgraph::Directed;
use vstd::prelude::*;

use super::traits::{FlowGraph, OriginalGraphView};

verus! {

/// The petgraph `Graph` type, opaque to the proofs: what it holds is read through the
/// names `petgraph_node_count` and `petgraph_edges` below.
#[verifier::external_type_specification]
#[verifier::external_body]
#[verifier::reject_recursive_types(N)]
#[verifier::reject_recursive_types(E)]
#[verifier::reject_recursive_types(Ty)]
#[verifier::reject_recursive_types(Ix)]
pub struct ExGraph<N, E, Ty, Ix>(Graph<N, E, Ty, Ix>);

/// The petgraph marker type for directed graphs.
#[verifier::external_type_specification]
#[verifier::external_body]
pub struct ExDirected(Directed);

/// The number of nodes of a petgraph graph.
pub uninterp spec fn petgraph_node_count(g: Graph<(), u64, Directed, u32>) -> nat;

/// The edges of a petgraph graph as `(source index, target index, weight)`, in edge-index order.
pub uninterp spec fn petgraph_edges(g: Graph<(), u64, Directed, u32>) -> Seq<(usize, usize, u64)>;

/// `Graph::default()`: a graph without nodes or edges.
#[verifier::external_body]
fn petgraph_default() -> (g: Graph<(), u64, Directed, u32>)
    ensures
        petgraph_node_count(g) == 0,
        petgraph_edges(g) == Seq::<(usize, usize, u64)>::empty(),
{
    Graph::default()
}

/// `Graph::add_node`: appends a node, whose index is the old node count; the edges stay.
/// It panics when the node count reaches the maximum of the `u32` index type.
#[verifier::external_body]
fn petgraph_add_node(g: &mut Graph<(), u64, Directed, u32>) -> (idx: usize)
    requires
        petgraph_node_count(*old(g)) < u32::MAX,
    ensures
        idx == petgraph_node_count(*old(g)),
        petgraph_node_count(*final(g)) == petgraph_node_count(*old(g)) + 1,
        petgraph_edges(*final(g)) == petgraph_edges(*old(g)),
{
    g.add_node(()).index()
}

/// `Graph::add_edge`: appends the edge `(a, b, weight)` to the edge list; the nodes stay.
/// It panics when an endpoint is not a node, or when the edge count reaches the maximum
/// of the `u32` index type.
#[verifier::external_body]
fn petgraph_add_edge(g: &mut Graph<(), u64, Directed, u32>, a: usize, b: usize, weight: u64)
    requires
        a < petgraph_node_count(*old(g)),
        b < petgraph_node_count(*old(g)),
        petgraph_edges(*old(g)).len() < u32::MAX,
    ensures
        petgraph_node_count(*final(g)) == petgraph_node_count(*old(g)),
        petgraph_edges(*final(g)) == petgraph_edges(*old(g)).push((a, b, weight)),
{
    g.add_edge(NodeIndex::new(a), NodeIndex::new(b), weight);
}

/// `Graph::node_count`.
#[verifier::external_body]
fn petgraph_node_count_of(g: &Graph<(), u64, Directed, u32>) -> (n: usize)
    ensures
        n == petgraph_node_count(*g),
{
    g.node_count()
}

/// `Graph::edge_references`, each edge read as `(source index, target index, weight)`.
#[verifier::external_body]
fn petgraph_edge_list(g: &Graph<(), u64, Directed, u32>) -> (edges: Vec<(usize, usize, u64)>)
    ensures
        edges@ == petgraph_edges(*g),
{
    g.edge_references().map(|e| (e.source().index(), e.target().index(), *e.weight())).collect()
}

/// `Graph::clone`: a graph with clones of the nodes and edges, so the same node count and
/// the same edge list.
#[verifier::external_body]
fn petgraph_clone(g: &Graph<(), u64, Directed, u32>) -> (copy: Graph<(), u64, Directed, u32>)
    ensures
        petgraph_node_count(copy) == petgraph_node_count(*g),
        petgraph_edges(copy) == petgraph_edges(*g),
{
    g.clone()
}

/// A directed graph whose edges carry integer capacities.
///
/// Vertices are numbered `0, 1, ...` in the order they were added, and these numbers are
/// the indices that `add_edge` and the flow algorithms use. Undirected edges are given as
/// two directed edges of the same capacity.
#[derive(Debug)]
pub struct AdjacencyListFlowGraph {
    graph: Graph<(), u64, Directed, u32>,
}

impl AdjacencyListFlowGraph {
    /// Creates an empty graph.
    pub fn new() -> (g: Self)
        ensures
            g.spec_vertex_count() == 0,
            g.spec_edges() == Seq::<(usize, usize, u64)>::empty(),
    {
        AdjacencyListFlowGraph { graph: petgraph_default() }
    }

    /// Adds a vertex and returns its index, which is the number of vertices before the call.
    pub fn add_node(&mut self, weight: ()) -> (idx: usize)
        requires
            old(self).spec_vertex_count() < u32::MAX,
        ensures
            idx == old(self).spec_vertex_count(),
            final(self).spec_vertex_count() == old(self).spec_vertex_count() + 1,
            final(self).spec_edges() == old(self).spec_edges(),
    {
        petgraph_add_node(&mut self.graph)
    }

    /// Adds the directed edge `u_idx -> v_idx` with the given capacity.
    /// Both endpoints must be vertices of the graph.
    pub fn add_edge(&mut self, u_idx: usize, v_idx: usize, capacity: u64)
        requires
            u_idx < old(self).spec_vertex_count(),
            v_idx < old(self).spec_vertex_count(),
            old(self).spec_edges().len() < u32::MAX,
        ensures
            final(self).spec_vertex_count() == old(self).spec_vertex_count(),
            final(self).spec_edges() == old(self).spec_edges().push((u_idx, v_idx, capacity)),
    {
        petgraph_add_edge(&mut self.graph, u_idx, v_idx, capacity);
    }
}

impl FlowGraph for AdjacencyListFlowGraph {
    closed spec fn spec_vertex_count(&self) -> nat {
        petgraph_node_count(self.graph)
    }

    fn vertex_count(&self) -> (n: usize) {
        petgraph_node_count_of(&self.graph)
    }
}

impl OriginalGraphView for AdjacencyListFlowGraph {
    closed spec fn spec_edges(&self) -> Seq<(usize, usize, u64)> {
        petgraph_edges(self.graph)
    }

    fn all_edges(&self) -> (edges: Vec<(usize, usize, u64)>) {
        petgraph_edge_list(&self.graph)
    }
}

impl Clone for AdjacencyListFlowGraph {
    fn clone(&self) -> (copy: Self)
        ensures
            copy.spec_vertex_count() == self.spec_vertex_count(),
            copy.spec_edges() == self.spec_edges(),
    {
        AdjacencyListFlowGraph { graph: petgraph_clone(&self.graph) }
    }
}

impl Default for AdjacencyListFlowGraph {
    fn default() -> (g: Self)
        ensures
            g.spec_vertex_count() == 0,
            g.spec_edges() == Seq::<(usize, usize, u64)>::empty(),
    {
        AdjacencyListFlowGraph { graph: petgraph_default() }
    }
}

} // verus!
