use gomory_hu_tree::flow::{FlowGraph, MinCut, OriginalGraphView};
use gomory_hu_tree::{AdjacencyListFlowGraph, DinicSolver, MaxFlowError, MaxFlowSolver};

fn graph_with(n: usize, edges: &[(usize, usize, u64)]) -> AdjacencyListFlowGraph {
    let mut graph = AdjacencyListFlowGraph::new();
    for _ in 0..n {
        graph.add_node(());
    }
    for &(u, v, c) in edges {
        graph.add_edge(u, v, c);
    }
    graph
}

fn undirected_with(n: usize, edges: &[(usize, usize, u64)]) -> AdjacencyListFlowGraph {
    let mut both = Vec::new();
    for &(u, v, c) in edges {
        both.push((u, v, c));
        both.push((v, u, c));
    }
    graph_with(n, &both)
}

#[test]
fn graph_numbers_vertices_and_lists_edges_in_order() {
    let mut graph = AdjacencyListFlowGraph::new();
    assert_eq!(graph.vertex_count(), 0);
    assert_eq!(graph.add_node(()), 0);
    assert_eq!(graph.add_node(()), 1);
    assert_eq!(graph.add_node(()), 2);
    graph.add_edge(2, 0, 7);
    graph.add_edge(0, 1, 3);
    graph.add_edge(0, 1, 4);
    assert_eq!(graph.vertex_count(), 3);
    assert_eq!(graph.all_edges(), vec![(2, 0, 7), (0, 1, 3), (0, 1, 4)]);
    let empty = AdjacencyListFlowGraph::default();
    assert_eq!(empty.vertex_count(), 0);
    assert!(empty.all_edges().is_empty());
}

#[test]
fn cloned_graph_is_independent_copy() {
    let mut graph = graph_with(2, &[(0, 1, 5)]);
    let copy = graph.clone();
    graph.add_node(());
    graph.add_edge(2, 0, 1);
    assert_eq!(copy.vertex_count(), 2);
    assert_eq!(copy.all_edges(), vec![(0, 1, 5)]);
    assert_eq!(graph.vertex_count(), 3);
    assert_eq!(graph.all_edges(), vec![(0, 1, 5), (2, 0, 1)]);
}

#[test]
fn min_cut_same_side() {
    let cut = MinCut::new(vec![true, false, true]);
    assert!(cut.same_side(0, 2));
    assert!(!cut.same_side(1, 0));
    assert!(cut.same_side(1, 1));
    assert_eq!(cut.partition, vec![true, false, true]);
}

#[test]
fn dinic_line_graph_flow_and_cut() {
    let graph = undirected_with(3, &[(0, 1, 10), (1, 2, 5)]);
    let (flow, cut) = DinicSolver::new().max_flow_min_cut(&graph, 0, 2).unwrap();
    assert_eq!(flow, 5);
    assert_eq!(cut.partition, vec![true, true, false]);
    let (flow, cut) = DinicSolver::new().max_flow_min_cut(&graph, 1, 0).unwrap();
    assert_eq!(flow, 10);
    assert_eq!(cut.partition, vec![false, true, true]);
}

#[test]
fn dinic_returns_smallest_source_side() {
    // Both {0} and {0, 1} are minimum cuts of capacity 3; the reachable set is {0}.
    let graph = graph_with(3, &[(0, 1, 3), (1, 2, 3)]);
    let (flow, cut) = DinicSolver::new().max_flow_min_cut(&graph, 0, 2).unwrap();
    assert_eq!(flow, 3);
    assert_eq!(cut.partition, vec![true, false, false]);
}

#[test]
fn dinic_diamond_network() {
    // 0 -> 1 -> 3 and 0 -> 2 -> 3 with a cross edge 1 -> 2.
    let graph = graph_with(4, &[(0, 1, 4), (0, 2, 2), (1, 2, 3), (1, 3, 1), (2, 3, 6)]);
    let (flow, cut) = DinicSolver::new().max_flow_min_cut(&graph, 0, 3).unwrap();
    assert_eq!(flow, 6);
    assert_eq!(cut.partition, vec![true, false, false, false]);
}

#[test]
fn dinic_disconnected_gives_zero_flow() {
    let graph = graph_with(3, &[(0, 1, 5)]);
    let (flow, cut) = DinicSolver::with_max_iterations(0).max_flow_min_cut(&graph, 0, 2).unwrap();
    assert_eq!(flow, 0);
    assert_eq!(cut.partition, vec![true, true, false]);
}

#[test]
fn dinic_errors() {
    let solver = DinicSolver::default();
    let empty = AdjacencyListFlowGraph::new();
    assert!(matches!(solver.max_flow_min_cut(&empty, 0, 1), Err(MaxFlowError::EmptyGraph)));
    let graph = graph_with(2, &[(0, 1, 1)]);
    assert!(matches!(solver.max_flow_min_cut(&graph, 5, 1), Err(MaxFlowError::VertexNotFound(5))));
    assert!(matches!(solver.max_flow_min_cut(&graph, 0, 9), Err(MaxFlowError::VertexNotFound(9))));
    assert!(matches!(solver.max_flow_min_cut(&graph, 1, 1), Err(MaxFlowError::SourceEqualsSink(1))));
}

#[test]
fn dinic_iteration_limit() {
    // The first phase only uses 0 -> 2; the path 0 -> 1 -> 2 needs a second phase.
    let graph = graph_with(3, &[(0, 1, 1), (1, 2, 1), (0, 2, 1)]);
    assert!(matches!(
        DinicSolver::with_max_iterations(1).max_flow_min_cut(&graph, 0, 2),
        Err(MaxFlowError::MaxIterationsReached(1))
    ));
    assert!(matches!(
        DinicSolver::with_max_iterations(0).max_flow_min_cut(&graph, 0, 2),
        Err(MaxFlowError::MaxIterationsReached(0))
    ));
    let (flow, cut) = DinicSolver::with_max_iterations(2).max_flow_min_cut(&graph, 0, 2).unwrap();
    assert_eq!(flow, 2);
    assert_eq!(cut.partition, vec![true, false, false]);
}

#[test]
fn dinic_phase_limit_zero() {
    let graph = graph_with(2, &[(0, 1, 5)]);
    assert!(matches!(
        DinicSolver::with_max_iterations(0).max_flow_min_cut(&graph, 0, 1),
        Err(MaxFlowError::MaxIterationsReached(0))
    ));
    // The sink is cut off: no phase is needed.
    let (flow, cut) = DinicSolver::with_max_iterations(0).max_flow_min_cut(&graph, 1, 0).unwrap();
    assert_eq!(flow, 0);
    assert_eq!(cut.partition, vec![false, true]);
}

#[test]
fn dinic_one_phase_that_cuts_the_sink_off_is_enough() {
    let graph = graph_with(3, &[(0, 2, 5)]);
    let (flow, cut) = DinicSolver::with_max_iterations(1).max_flow_min_cut(&graph, 0, 2).unwrap();
    assert_eq!(flow, 5);
    assert_eq!(cut.partition, vec![true, false, false]);
}

#[test]
fn dinic_phase_limit_of_vertex_count_less_one_suffices() {
    // A long path with large capacities: one phase per distance, never more than n - 1.
    let graph = graph_with(5, &[(0, 1, 1_000_000), (1, 2, 1_000_000), (2, 3, 1_000_000), (3, 4, 1_000_000), (0, 4, 7)]);
    let (flow, cut) = DinicSolver::with_max_iterations(4).max_flow_min_cut(&graph, 0, 4).unwrap();
    assert_eq!(flow, 1_000_007);
    assert_eq!(cut.partition, vec![true, false, false, false, false]);
    let (flow, _) = DinicSolver::with_max_iterations(2).max_flow_min_cut(&graph, 0, 4).unwrap();
    assert_eq!(flow, 1_000_007);
}

#[test]
fn dinic_self_loops_and_parallel_edges() {
    let graph = graph_with(2, &[(0, 0, 9), (0, 1, 2), (0, 1, 3), (1, 1, 4)]);
    let (flow, cut) = DinicSolver::new().max_flow_min_cut(&graph, 0, 1).unwrap();
    assert_eq!(flow, 5);
    assert_eq!(cut.partition, vec![true, false]);
}
