# gomory-hu-tree

Gomory-Hu cut trees for all-pairs minimum-cut queries, built with Gusfield's
algorithm on top of Dinic's max-flow algorithm, and verified with Verus.
Capacities are `u64`; `u64::MAX` stands for the infinite cut between a vertex and
itself.

## Layout

- `src/flow/`: the network type (stored in a `petgraph::Graph`), cuts and their
  capacities, the solver interface, and Dinic's algorithm, proved to return a
  maximum flow together with the smallest minimum cut on the source side. Its
  breadth-first levels are proved to be shortest residual distances, and each phase
  to lengthen the shortest residual path, so `n - 1` phases always suffice.
- `src/algorithms/gusfield.rs`: the tree construction, proved to follow Gusfield's
  rules on the cuts the solver returns, to succeed wherever the solver does, and to
  pass the solver's error on.
- `src/tree.rs`: the tree, its minimum-cut queries (breadth-first search for the
  bottleneck of a tree path) and its DOT output.
- `src/properties.rs`, `src/equivalence.rs`, `src/connectivity.rs`: what holds of
  the trees built for undirected networks (networks whose edges come in opposite
  pairs are undirected): they span the vertices, every query answer is the minimum
  cut value of the network, answers are symmetric and meet the three-vertex
  inequality, and an answer is positive exactly when the two vertices are connected
  through edges of positive capacity.
- `src/forest.rs`: on any tree whose edges form a forest, the query answer is unique,
  symmetric, and meets the three-vertex inequality.
- `tests/`: tests of the library on concrete networks.
- `app/`: copies of the tree and error types with serde and thiserror derives.
