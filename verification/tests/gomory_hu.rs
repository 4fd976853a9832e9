use gomory_hu_tree::{
    gusfield_tree, AdjacencyListFlowGraph, DinicSolver, GomoryHuError, GomoryHuTree, MaxFlowError,
    MaxFlowSolver, TreeEdge,
};

fn undirected_with(n: usize, edges: &[(usize, usize, u64)]) -> AdjacencyListFlowGraph {
    let mut graph = AdjacencyListFlowGraph::new();
    for _ in 0..n {
        graph.add_node(());
    }
    for &(u, v, c) in edges {
        graph.add_edge(u, v, c);
        graph.add_edge(v, u, c);
    }
    graph
}

fn has_path(n: usize, edges: &[(usize, usize, u64)], s: usize, t: usize) -> bool {
    let mut seen = vec![false; n];
    let mut stack = vec![s];
    seen[s] = true;
    while let Some(u) = stack.pop() {
        for &(a, b, c) in edges {
            if c > 0 {
                for (x, y) in [(a, b), (b, a)] {
                    if x == u && !seen[y] {
                        seen[y] = true;
                        stack.push(y);
                    }
                }
            }
        }
    }
    seen[t]
}

// A six-vertex network with several different minimum cuts.
const SIX: [(usize, usize, u64); 9] = [
    (0, 1, 1),
    (0, 2, 7),
    (1, 2, 1),
    (1, 3, 3),
    (1, 4, 2),
    (2, 4, 4),
    (3, 4, 1),
    (3, 5, 6),
    (4, 5, 2),
];

#[test]
fn line_graph_tree_edges() {
    let graph = undirected_with(3, &[(0, 1, 10), (1, 2, 5)]);
    let tree = gusfield_tree(&graph, &DinicSolver::new()).unwrap();
    assert_eq!(tree.vertex_count(), 3);
    assert_eq!(tree.edge_count(), 2);
    assert_eq!(tree.edges(), &vec![TreeEdge::new(1, 0, 10), TreeEdge::new(2, 1, 5)]);
    assert_eq!(tree.min_cut_value(0, 1), 10);
    assert_eq!(tree.min_cut_value(1, 2), 5);
    assert_eq!(tree.min_cut_value(0, 2), 5);
    assert_eq!(tree.min_cut_value(2, 0), 5);
}

#[test]
fn tree_has_correct_number_of_edges() {
    for n in 1..8usize {
        let mut edges = Vec::new();
        for i in 0..n.saturating_sub(1) {
            edges.push((i, i + 1, (i as u64) + 1));
        }
        let graph = undirected_with(n, &edges);
        let tree = gusfield_tree(&graph, &DinicSolver::new()).unwrap();
        assert_eq!(tree.edge_count(), n - 1);
        assert_eq!(tree.vertex_count(), n);
    }
    let tree = gusfield_tree(&AdjacencyListFlowGraph::new(), &DinicSolver::new()).unwrap();
    assert_eq!(tree.vertex_count(), 0);
    assert_eq!(tree.edge_count(), 0);
}

#[test]
fn cut_property_holds() {
    let graph = undirected_with(6, &SIX);
    let solver = DinicSolver::new();
    let tree = gusfield_tree(&graph, &solver).unwrap();
    assert_eq!(tree.edge_count(), 5);
    for s in 0..6 {
        for t in 0..6 {
            if s == t {
                continue;
            }
            let (flow, _) = solver.max_flow_min_cut(&graph, s, t).unwrap();
            assert_eq!(tree.min_cut_value(s, t), flow, "s = {}, t = {}", s, t);
        }
    }
    assert_eq!(tree.min_cut_value(0, 5), 6);
    assert_eq!(tree.min_cut_value(0, 1), 6);
    assert_eq!(tree.min_cut_value(3, 5), 8);
}

#[test]
fn tree_edges_join_later_to_earlier_vertices() {
    let graph = undirected_with(6, &SIX);
    let solver = DinicSolver::new();
    let tree = gusfield_tree(&graph, &solver).unwrap();
    for (k, edge) in tree.edges().iter().enumerate() {
        assert_eq!(edge.source, k + 1);
        assert!(edge.target < edge.source);
        let (flow, _) = solver.max_flow_min_cut(&graph, edge.source, edge.target).unwrap();
        assert_eq!(edge.capacity, flow);
    }
}

#[test]
fn tree_connectivity_matches_graph() {
    // Two components {0, 1, 2} and {3, 4}, and an isolated vertex 5.
    let edges = [(0, 1, 2), (1, 2, 3), (3, 4, 1)];
    let graph = undirected_with(6, &edges);
    let tree = gusfield_tree(&graph, &DinicSolver::new()).unwrap();
    for s in 0..6 {
        for t in 0..6 {
            if s != t {
                assert_eq!(tree.min_cut_value(s, t) > 0, has_path(6, &edges, s, t), "s = {}, t = {}", s, t);
            }
        }
    }
}

#[test]
fn single_vertex_tree() {
    let mut graph = AdjacencyListFlowGraph::new();
    graph.add_node(());
    let tree = gusfield_tree(&graph, &DinicSolver::new()).unwrap();
    assert_eq!(tree.vertex_count(), 1);
    assert_eq!(tree.edge_count(), 0);
    assert_eq!(tree.min_cut_value(0, 0), u64::MAX);
}

#[test]
fn solver_errors_are_passed_on() {
    let graph = undirected_with(2, &[(0, 1, 4)]);
    let result = gusfield_tree(&graph, &DinicSolver::with_max_iterations(0));
    assert!(matches!(
        result,
        Err(GomoryHuError::MaxFlowComputationError(MaxFlowError::MaxIterationsReached(0)))
    ));
    let converted: GomoryHuError = MaxFlowError::EmptyGraph.into();
    assert!(matches!(converted, GomoryHuError::MaxFlowComputationError(MaxFlowError::EmptyGraph)));
}

#[test]
fn query_on_hand_built_trees() {
    let empty = GomoryHuTree::new(Vec::new(), 0);
    assert_eq!(empty.vertex_count(), 0);
    assert_eq!(empty.edge_count(), 0);
    // A forest: 0 - 1 and 2 - 3, plus an edge to a vertex out of range.
    let forest = GomoryHuTree::new(
        vec![TreeEdge::new(0, 1, 4), TreeEdge::new(3, 2, 9), TreeEdge::new(1, 7, 1)],
        4,
    );
    assert_eq!(forest.min_cut_value(0, 1), 4);
    assert_eq!(forest.min_cut_value(2, 3), 9);
    assert_eq!(forest.min_cut_value(0, 3), 0);
    assert_eq!(forest.min_cut_value(2, 2), u64::MAX);
    let path = GomoryHuTree::new(
        vec![TreeEdge::new(0, 1, 8), TreeEdge::new(1, 2, 3), TreeEdge::new(3, 2, 5)],
        4,
    );
    assert_eq!(path.min_cut_value(0, 3), 3);
    assert_eq!(path.min_cut_value(3, 1), 3);
    assert_eq!(path.min_cut_value(0, 1), 8);
}

#[test]
fn dot_output() {
    let graph = undirected_with(3, &[(0, 1, 10), (1, 2, 5)]);
    let tree = gusfield_tree(&graph, &DinicSolver::new()).unwrap();
    assert_eq!(
        tree.to_dot(),
        "graph GomoryHuTree {\n  1 -- 0 [label=\"10.00\"]\n  2 -- 1 [label=\"5.00\"]\n}\n"
    );
    assert_eq!(GomoryHuTree::new(Vec::new(), 0).to_dot(), "graph GomoryHuTree {\n}\n");
    assert_eq!(GomoryHuTree::new(Vec::new(), 2).to_dot(), "graph GomoryHuTree {\n  0\n  1\n}\n");
    assert_eq!(
        GomoryHuTree::new(vec![TreeEdge::new(12, 305, 1234567)], 400).to_dot(),
        "graph GomoryHuTree {\n  12 -- 305 [label=\"1234567.00\"]\n}\n"
    );
}

#[test]
fn answers_are_symmetric_and_meet_the_three_vertex_inequality() {
    let graph = undirected_with(6, &SIX);
    let solver = DinicSolver::new();
    let tree = gusfield_tree(&graph, &solver).unwrap();
    for s in 0..6 {
        for t in 0..6 {
            if s == t {
                continue;
            }
            assert_eq!(tree.min_cut_value(s, t), tree.min_cut_value(t, s));
            let (st, _) = solver.max_flow_min_cut(&graph, s, t).unwrap();
            let (ts, _) = solver.max_flow_min_cut(&graph, t, s).unwrap();
            assert_eq!(st, ts);
            for u in 0..6 {
                if u == s || u == t {
                    continue;
                }
                let su = tree.min_cut_value(s, u);
                assert!(su >= tree.min_cut_value(s, t).min(tree.min_cut_value(t, u)));
            }
        }
    }
}

#[test]
fn construction_with_a_tight_phase_limit_succeeds() {
    // A limit of n - 1 phases is always enough for Dinic's algorithm.
    let graph = undirected_with(6, &SIX);
    let tree = gusfield_tree(&graph, &DinicSolver::with_max_iterations(5)).unwrap();
    let reference = gusfield_tree(&graph, &DinicSolver::new()).unwrap();
    assert_eq!(tree.edges(), reference.edges());
}

#[test]
fn forest_queries_are_symmetric_and_meet_the_three_vertex_inequality() {
    // Two trees, {0, 1, 2, 4} and {3, 5}, with edges in no particular orientation.
    let forest = GomoryHuTree::new(
        vec![
            TreeEdge::new(2, 0, 7),
            TreeEdge::new(1, 2, 3),
            TreeEdge::new(4, 2, 5),
            TreeEdge::new(3, 5, 6),
        ],
        6,
    );
    assert_eq!(forest.min_cut_value(0, 4), 5);
    assert_eq!(forest.min_cut_value(1, 4), 3);
    assert_eq!(forest.min_cut_value(0, 5), 0);
    for s in 0..6 {
        for t in 0..6 {
            if s == t {
                continue;
            }
            assert_eq!(forest.min_cut_value(s, t), forest.min_cut_value(t, s));
            for u in 0..6 {
                if u == s || u == t {
                    continue;
                }
                let su = forest.min_cut_value(s, u);
                assert!(su >= forest.min_cut_value(s, t).min(forest.min_cut_value(t, u)));
            }
        }
    }
}
