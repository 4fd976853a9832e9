//! Gusfield's construction of a Gomory-Hu tree from `n - 1` max-flow computations.
use vstd::prelude::*;

use crate::flow::cut::{cut_capacity, is_min_cut, total_capacity};
use crate::flow::traits::{result_view, MaxFlowError, MaxFlowSolver, OriginalGraphView};
use crate::tree::{GomoryHuTree, TreeEdge};

verus! {

/// Errors of the tree construction.
#[derive(Debug, Clone)]
pub enum GomoryHuError {
    /// A max-flow computation failed.
    MaxFlowComputationError(MaxFlowError),
    /// The graph's structure is invalid.
    InvalidGraph(String),
    /// A vertex was not found by a check made before the computation.
    VertexNotFoundPreCheck(usize),
}

impl From<MaxFlowError> for GomoryHuError {
    fn from(err: MaxFlowError) -> (res: Self) {
        GomoryHuError::MaxFlowComputationError(err)
    }
}

impl vstd::std_specs::convert::FromSpecImpl<MaxFlowError> for GomoryHuError {
    open spec fn obeys_from_spec() -> bool {
        true
    }

    open spec fn from_spec(v: MaxFlowError) -> GomoryHuError {
        GomoryHuError::MaxFlowComputationError(v)
    }
}

/// The step at vertex `i`: every later vertex that has the same parent as `i` and lies on
/// the same side of the cut `side` as `i` gets `i` as its parent.
pub open spec fn gusfield_step(parent: Seq<usize>, i: int, side: Seq<bool>) -> Seq<usize> {
    Seq::new(
        parent.len(),
        |j: int|
            if j > i && parent[j] == parent[i] && side[j] == side[i] {
                i as usize
            } else {
                parent[j]
            },
    )
}

/// The parents after the steps at vertices `1..=k`, vertex `i` using the cut `sides[i - 1]`;
/// at first every vertex has parent `0`.
pub open spec fn gusfield_parents(n: nat, sides: Seq<Seq<bool>>, k: int) -> Seq<usize>
    decreases k,
{
    if k <= 0 {
        Seq::new(n, |j: int| 0usize)
    } else {
        gusfield_step(gusfield_parents(n, sides, k - 1), k, sides[k - 1])
    }
}

/// `tree` is the tree that Gusfield's algorithm builds on the network `edges` with `n > 0`
/// vertices when the minimum cuts found are `sides`: edge `k` joins vertex `k + 1` to its
/// parent at that step, and its capacity is the capacity of `sides[k]`, a minimum cut
/// between the two.
pub open spec fn is_gusfield_run(
    edges: Seq<(usize, usize, u64)>,
    n: nat,
    tree: Seq<TreeEdge>,
    sides: Seq<Seq<bool>>,
) -> bool {
    &&& tree.len() + 1 == n
    &&& sides.len() == tree.len()
    &&& forall|k: int|
        0 <= k < tree.len() ==> {
            let p = gusfield_parents(n, sides, k)[k + 1];
            &&& (#[trigger] tree[k]).source == k + 1
            &&& tree[k].target == p
            &&& is_min_cut(edges, n, (k + 1) as usize, p, sides[k])
            &&& cut_capacity(edges, sides[k]) == tree[k].capacity
        }
}

/// `tree` is a tree that Gusfield's algorithm builds on the network `edges` with `n` vertices.
pub open spec fn is_gusfield_tree(edges: Seq<(usize, usize, u64)>, n: nat, tree: Seq<TreeEdge>) -> bool {
    if n == 0 {
        tree.len() == 0
    } else {
        exists|sides: Seq<Seq<bool>>| is_gusfield_run(edges, n, tree, sides)
    }
}

/// The call of step `k` (between vertex `k + 1` and its parent after `k` steps) may return
/// the cut `sides[k]` with some flow value.
pub open spec fn solver_step_ok<G: OriginalGraphView, S: MaxFlowSolver<G>>(
    solver: &S,
    graph: &G,
    sides: Seq<Seq<bool>>,
    k: int,
) -> bool {
    exists|flow: u64|
        #[trigger] solver.allows(
            graph,
            (k + 1) as usize,
            gusfield_parents(graph.spec_vertex_count(), sides, k)[k + 1],
            Ok((flow, sides[k])),
        )
}

/// The tree comes from the solver's results: edge `k` carries the flow value and `sides[k]`
/// the cut that the call between vertex `k + 1` and its parent after `k` steps returned.
pub open spec fn solver_built<G: OriginalGraphView, S: MaxFlowSolver<G>>(
    solver: &S,
    graph: &G,
    tree: Seq<TreeEdge>,
    sides: Seq<Seq<bool>>,
) -> bool {
    forall|k: int|
        0 <= k < tree.len() ==> solver.allows(
            graph,
            (k + 1) as usize,
            (#[trigger] tree[k]).target,
            Ok((tree[k].capacity, sides[k])),
        )
}

/// The construction stopped with the solver's error `e` at step `k`: the calls of the
/// steps before returned the cuts `sides`, and the call of step `k` may return `e`.
pub open spec fn solver_failed_at<G: OriginalGraphView, S: MaxFlowSolver<G>>(
    solver: &S,
    graph: &G,
    sides: Seq<Seq<bool>>,
    k: int,
    e: MaxFlowError,
) -> bool {
    &&& 0 <= k
    &&& k + 1 < graph.spec_vertex_count()
    &&& sides.len() == k
    &&& forall|j: int| 0 <= j < k ==> #[trigger] solver_step_ok(solver, graph, sides, j)
    &&& solver.allows(
        graph,
        (k + 1) as usize,
        gusfield_parents(graph.spec_vertex_count(), sides, k)[k + 1],
        Err(e),
    )
}

/// Parents are earlier vertices: after the steps at `1..=k`, every parent is at most `k`.
pub proof fn lemma_gusfield_parents_bound(n: nat, sides: Seq<Seq<bool>>, k: int)
    requires
        0 <= k,
    ensures
        gusfield_parents(n, sides, k).len() == n,
        forall|j: int| 0 <= j < n ==> #[trigger] gusfield_parents(n, sides, k)[j] <= k,
    decreases k,
{
    if k > 0 {
        lemma_gusfield_parents_bound(n, sides, k - 1);
    }
}

/// The parents after `k` steps depend only on the first `k` cuts.
pub proof fn lemma_gusfield_parents_prefix(n: nat, sides: Seq<Seq<bool>>, more: Seq<Seq<bool>>, k: int)
    requires
        0 <= k <= sides.len(),
        sides.len() <= more.len(),
        forall|x: int| 0 <= x < sides.len() ==> #[trigger] more[x] == sides[x],
    ensures
        gusfield_parents(n, more, k) == gusfield_parents(n, sides, k),
    decreases k,
{
    if k > 0 {
        lemma_gusfield_parents_prefix(n, sides, more, k - 1);
        assert(more[k - 1] == sides[k - 1]);
    }
}

/// Builds a Gomory-Hu tree with Gusfield's algorithm: for each vertex `i` from 1 on, a
/// minimum cut between `i` and its current parent gives the tree edge between them, and
/// the later vertices on `i`'s side of the cut that shared that parent move under `i`.
///
/// The graph is read as undirected: each undirected edge is given as two directed edges
/// of the same capacity.
///
/// The tree is built from the flows and cuts that the solver returns, in order of the
/// vertices. The construction succeeds when the solver succeeds on every pair of a vertex
/// and an earlier one; the first error of the solver stops it and is passed on.
pub fn gusfield_tree<G: OriginalGraphView, S: MaxFlowSolver<G>>(graph: &G, solver: &S) -> (res: Result<
    GomoryHuTree,
    GomoryHuError,
>)
    requires
        total_capacity(graph.spec_edges()) <= u64::MAX,
        graph.spec_vertex_count() <= i32::MAX,
        2 * graph.spec_edges().len() <= usize::MAX,
    ensures
        graph.spec_vertex_count() <= 1 ==> res is Ok,
        (forall|i: usize, p: usize|
            p < i < graph.spec_vertex_count() ==> #[trigger] solver.succeeds(graph, i, p)) ==> res is Ok,
        res matches Ok(tree) ==> {
            &&& tree.spec_vertex_count() == graph.spec_vertex_count()
            &&& is_gusfield_tree(graph.spec_edges(), graph.spec_vertex_count(), tree.spec_edges())
            &&& exists|sides: Seq<Seq<bool>>|
                (graph.spec_vertex_count() == 0 || is_gusfield_run(
                    graph.spec_edges(),
                    graph.spec_vertex_count(),
                    tree.spec_edges(),
                    sides,
                )) && #[trigger] solver_built(solver, graph, tree.spec_edges(), sides)
        },
        res matches Err(err) ==> (err matches GomoryHuError::MaxFlowComputationError(e) && exists|
            sides: Seq<Seq<bool>>,
            k: int,
        | #[trigger] solver_failed_at(solver, graph, sides, k, e)),
{
    let n = graph.vertex_count();
    if n == 0 {
        let tree = GomoryHuTree::new(Vec::new(), 0);
        proof {
            let sides = Seq::<Seq<bool>>::empty();
            assert(solver_built(
                solver,
                graph,
                tree.spec_edges(),
                sides,
            ));
        }
        return Ok(tree);
    }
    if n == 1 {
        let tree = GomoryHuTree::new(Vec::new(), 1);
        proof {
            let sides = Seq::<Seq<bool>>::empty();
            assert(is_gusfield_run(graph.spec_edges(), 1, tree.spec_edges(), sides) && solver_built(
                solver,
                graph,
                tree.spec_edges(),
                sides,
            ));
        }
        return Ok(tree);
    }
    let ghost nn = n as nat;
    let ghost edges = graph.spec_edges();
    let mut parent: Vec<usize> = Vec::new();
    let mut x: usize = 0;
    while x < n
        invariant
            x <= n,
            parent@.len() == x,
            forall|y: int| 0 <= y < x ==> #[trigger] parent@[y] == 0,
        decreases n - x,
    {
        parent.push(0);
        x = x + 1;
    }
    let mut tree_edges: Vec<TreeEdge> = Vec::with_capacity(n - 1);
    let ghost mut sides: Seq<Seq<bool>> = Seq::empty();
    proof {
        assert(parent@ =~= gusfield_parents(nn, sides, 0));
    }
    let mut i: usize = 1;
    while i < n
        invariant
            nn == n,
            n == graph.spec_vertex_count(),
            edges == graph.spec_edges(),
            total_capacity(edges) <= u64::MAX,
            n <= i32::MAX,
            2 * edges.len() <= usize::MAX,
            1 <= i <= n,
            sides.len() == i - 1,
            tree_edges@.len() == i - 1,
            parent@ == gusfield_parents(nn, sides, i - 1),
            forall|k: int|
                0 <= k < tree_edges@.len() ==> {
                    let p = gusfield_parents(nn, sides, k)[k + 1];
                    &&& (#[trigger] tree_edges@[k]).source == k + 1
                    &&& tree_edges@[k].target == p
                    &&& is_min_cut(edges, nn, (k + 1) as usize, p, sides[k])
                    &&& cut_capacity(edges, sides[k]) == tree_edges@[k].capacity
                    &&& solver.allows(graph, (k + 1) as usize, p, Ok((tree_edges@[k].capacity, sides[k])))
                },
        decreases n - i,
    {
        proof {
            lemma_gusfield_parents_bound(nn, sides, i - 1);
        }
        let p = parent[i];
        let r = solver.max_flow_min_cut(graph, i, p);
        let (flow_value, min_cut) = match r {
            Ok(found) => found,
            Err(err) => {
                proof {
                    let k = i - 1;
                    assert(result_view(r) == Err::<(u64, Seq<bool>), MaxFlowError>(err));
                    assert forall|j: int| 0 <= j < k implies #[trigger] solver_step_ok(solver, graph, sides, j) by {
                        assert(tree_edges@[j].source == j + 1);
                        assert(solver.allows(
                            graph,
                            (j + 1) as usize,
                            gusfield_parents(nn, sides, j)[j + 1],
                            Ok((tree_edges@[j].capacity, sides[j])),
                        ));
                    }
                    assert(solver_failed_at(solver, graph, sides, k, err));
                }
                return Err(GomoryHuError::MaxFlowComputationError(err));
            },
        };
        proof {
            assert(result_view(r) == Ok::<(u64, Seq<bool>), MaxFlowError>((flow_value, min_cut.partition@)));
        }
        let ghost side = min_cut.partition@;
        tree_edges.push(TreeEdge::new(i, p, flow_value));
        let ghost p0 = parent@;
        let mut j: usize = i + 1;
        while j < n
            invariant
                nn == n,
                i < n,
                i + 1 <= j <= n,
                side.len() == n,
                min_cut.partition@ == side,
                p0.len() == n,
                parent@.len() == n,
                parent@[i as int] == p0[i as int],
                forall|y: int| 0 <= y < j ==> #[trigger] parent@[y] == gusfield_step(p0, i as int, side)[y],
                forall|y: int| j <= y < n ==> #[trigger] parent@[y] == p0[y],
            decreases n - j,
        {
            if parent[j] == parent[i] && min_cut.same_side(j, i) {
                parent[j] = i;
            }
            j = j + 1;
        }
        proof {
            let old_sides = sides;
            sides = sides.push(side);
            assert(parent@ =~= gusfield_step(p0, i as int, side));
            lemma_gusfield_parents_prefix(nn, old_sides, sides, i - 1);
            assert(parent@ == gusfield_parents(nn, sides, i as int));
            assert forall|k: int|
                0 <= k < tree_edges@.len() implies {
                    let q = gusfield_parents(nn, sides, k)[k + 1];
                    &&& (#[trigger] tree_edges@[k]).source == k + 1
                    &&& tree_edges@[k].target == q
                    &&& is_min_cut(edges, nn, (k + 1) as usize, q, sides[k])
                    &&& cut_capacity(edges, sides[k]) == tree_edges@[k].capacity
                    &&& solver.allows(graph, (k + 1) as usize, q, Ok((tree_edges@[k].capacity, sides[k])))
                } by {
                if k < i - 1 {
                    lemma_gusfield_parents_prefix(nn, old_sides, sides, k);
                    assert(sides[k] == old_sides[k]);
                }
            }
        }
        i = i + 1;
    }
    proof {
        assert(is_gusfield_run(edges, nn, tree_edges@, sides));
        assert(solver_built(solver, graph, tree_edges@, sides));
    }
    Ok(GomoryHuTree::new(tree_edges, n))
}

} // verus!
