use gomory_hu_tree::{gusfield_tree, AdjacencyListFlowGraph, DinicSolver};

// Tolerance of the comparisons.
const EPSILON: f64 = 1e-9;

#[test]
fn test_triangle_graph() {
    // A line graph 0-1-2 whose two edges have capacity 10.
    let mut graph = AdjacencyListFlowGraph::new();
    let _ = graph.add_node(()); // Node 0
    let _ = graph.add_node(()); // Node 1
    let _ = graph.add_node(()); // Node 2

    graph.add_edge(0, 1, 10);
    graph.add_edge(1, 0, 10);

    graph.add_edge(1, 2, 10);
    graph.add_edge(2, 1, 10);

    let solver = DinicSolver::new();
    let gh_tree = gusfield_tree(&graph, &solver)
        .expect("Gusfield tree construction failed for line graph (triangle test)");

    assert!((gh_tree.min_cut_value(0, 1) as f64 - 10.0).abs() < EPSILON);
    assert!((gh_tree.min_cut_value(1, 2) as f64 - 10.0).abs() < EPSILON);
    assert!((gh_tree.min_cut_value(0, 2) as f64 - 10.0).abs() < EPSILON);
}

#[test]
fn test_star_graph() {
    // Center node 0 and spokes 1..=5; the edge to spoke i has capacity i.
    let mut graph = AdjacencyListFlowGraph::new();
    let _center = graph.add_node(());
    let num_spokes = 5;
    let mut spoke_nodes_indices = Vec::new();

    for _i in 0..num_spokes {
        spoke_nodes_indices.push(graph.add_node(()));
    }

    for (i, spoke_node_graph_idx) in spoke_nodes_indices.iter().enumerate().take(num_spokes) {
        let capacity = (i + 1) as u64;
        graph.add_edge(0, *spoke_node_graph_idx, capacity);
        graph.add_edge(*spoke_node_graph_idx, 0, capacity);
    }

    let solver = DinicSolver::new();
    let gh_tree =
        gusfield_tree(&graph, &solver).expect("Gusfield tree construction failed for star graph");

    // Between two spokes the min cut is the smaller of their two edges.
    for i in 0..num_spokes {
        for j in (i + 1)..num_spokes {
            let node_idx_i = spoke_nodes_indices[i];
            let node_idx_j = spoke_nodes_indices[j];

            let cap_i = (i + 1) as f64;
            let cap_j = (j + 1) as f64;

            let expected_min_cut = cap_i.min(cap_j);
            let actual_min_cut = gh_tree.min_cut_value(node_idx_i, node_idx_j) as f64;

            assert!(
                (actual_min_cut - expected_min_cut).abs() < EPSILON,
                "Min-cut between spoke {} (node {}) and spoke {} (node {}) was {}, expected {}",
                i + 1,
                node_idx_i,
                j + 1,
                node_idx_j,
                actual_min_cut,
                expected_min_cut
            );
        }
    }

    // Between the center and a spoke the min cut is the spoke's edge.
    for (i, spoke_node_graph_idx) in spoke_nodes_indices.iter().enumerate().take(num_spokes) {
        let expected_min_cut = (i + 1) as f64;
        let actual_min_cut = gh_tree.min_cut_value(0, *spoke_node_graph_idx) as f64;
        assert!(
            (actual_min_cut - expected_min_cut).abs() < EPSILON,
            "Min-cut between center (0) and spoke {} (node {}) was {}, expected {}",
            i + 1,
            spoke_node_graph_idx,
            actual_min_cut,
            expected_min_cut
        );
    }
}
