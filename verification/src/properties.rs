//! Properties of Gomory-Hu trees that relate the construction, the queries and the cuts
//! of the network.
use vstd::prelude::*;

use crate::algorithms::gusfield::{
    gusfield_parents, is_gusfield_run, is_gusfield_tree, lemma_gusfield_parents_bound,
};
use crate::flow::dinic::dinic_allows;
use crate::flow::cut::{crossing_capacity, cut_capacity, is_min_cut, is_min_cut_capacity, separates};
use crate::tree::{
    bottleneck, is_query_answer, is_tree_path, joins, tree_closed, tree_separated, TreeEdge,
};

verus! {

/// The vertex set complementary to `side`.
pub open spec fn complement(side: Seq<bool>) -> Seq<bool> {
    Seq::new(side.len(), |v: int| !side[v])
}

/// The network on `n` vertices is undirected: every vertex set has the same cut capacity
/// as its complement, as when each edge is given in both directions with one capacity.
pub open spec fn undirected(edges: Seq<(usize, usize, u64)>, n: nat) -> bool {
    forall|side: Seq<bool>| side.len() == n ==> #[trigger] cut_capacity(edges, side) == cut_capacity(
        edges,
        complement(side),
    )
}

/// Each tree edge carries the minimum cut value between its endpoints.
pub open spec fn edges_are_min_cuts(edges: Seq<(usize, usize, u64)>, n: nat, tree: Seq<TreeEdge>) -> bool {
    forall|k: int|
        0 <= k < tree.len() ==> is_min_cut_capacity(
            edges,
            n,
            (#[trigger] tree[k]).source,
            tree[k].target,
            tree[k].capacity as int,
        )
}

/// A tree built by Gusfield's algorithm has `n - 1` edges (none for no vertex); edge `k`
/// joins vertex `k + 1` to an earlier vertex, and its capacity is the minimum cut value
/// between its endpoints.
pub proof fn lemma_gusfield_tree_edges(edges: Seq<(usize, usize, u64)>, n: nat, tree: Seq<TreeEdge>)
    requires
        is_gusfield_tree(edges, n, tree),
    ensures
        n == 0 ==> tree.len() == 0,
        n > 0 ==> tree.len() == n - 1,
        forall|k: int| 0 <= k < tree.len() ==> (#[trigger] tree[k]).source == k + 1 && tree[k].target < k + 1,
        edges_are_min_cuts(edges, n, tree),
{
    if n > 0 {
        let sides = choose|sides: Seq<Seq<bool>>| is_gusfield_run(edges, n, tree, sides);
        assert forall|k: int| 0 <= k < tree.len() implies (#[trigger] tree[k]).source == k + 1 && tree[k].target < k + 1 by {
            lemma_gusfield_parents_bound(n, sides, k);
        }
        assert forall|k: int|
            0 <= k < tree.len() implies is_min_cut_capacity(
                edges,
                n,
                (#[trigger] tree[k]).source,
                tree[k].target,
                tree[k].capacity as int,
            ) by {
            assert(is_min_cut(edges, n, tree[k].source, tree[k].target, sides[k]));
        }
    }
}

/// In a tree built by Gusfield's algorithm, all vertices below `n` are joined to vertex 0.
proof fn lemma_gusfield_joined_to_root(
    edges: Seq<(usize, usize, u64)>,
    n: nat,
    tree: Seq<TreeEdge>,
    side: Seq<bool>,
    v: int,
)
    requires
        is_gusfield_tree(edges, n, tree),
        side.len() == n,
        tree_closed(tree, n, side),
        0 <= v < n,
    ensures
        side[v] == side[0],
    decreases v,
{
    if v > 0 {
        lemma_gusfield_tree_edges(edges, n, tree);
        let e = tree[v - 1];
        lemma_gusfield_joined_to_root(edges, n, tree, side, e.target as int);
        assert(e.source < n && e.target < n);
    }
}

/// A tree built by Gusfield's algorithm spans the vertices: no two vertices below `n`
/// lie in different components of it, so the minimum-cut query between two of them
/// always answers from a tree path.
pub proof fn lemma_gusfield_tree_spans(
    edges: Seq<(usize, usize, u64)>,
    n: nat,
    tree: Seq<TreeEdge>,
    s: usize,
    t: usize,
)
    requires
        is_gusfield_tree(edges, n, tree),
        s < n,
        t < n,
    ensures
        !tree_separated(tree, n, s, t),
{
    if tree_separated(tree, n, s, t) {
        let side = choose|side: Seq<bool>|
            side.len() == n && side[s as int] && !side[t as int] && #[trigger] tree_closed(tree, n, side);
        lemma_gusfield_joined_to_root(edges, n, tree, side, s as int);
        lemma_gusfield_joined_to_root(edges, n, tree, side, t as int);
    }
}

/// A vertex set closed under the tree edges that contains the start of a tree path
/// contains its whole path.
proof fn lemma_path_stays_inside(
    tree: Seq<TreeEdge>,
    n: nat,
    s: usize,
    t: usize,
    vs: Seq<usize>,
    es: Seq<int>,
    side: Seq<bool>,
    i: int,
)
    requires
        is_tree_path(tree, n, s, t, vs, es),
        side.len() == n,
        side[s as int],
        tree_closed(tree, n, side),
        0 <= i < vs.len(),
    ensures
        side[vs[i] as int],
    decreases i,
{
    if i > 0 {
        lemma_path_stays_inside(tree, n, s, t, vs, es, side, i - 1);
        let e = tree[es[i - 1]];
        assert(joins(e, vs[i - 1], vs[i]));
        assert(vs[i - 1] < n && vs[i] < n);
    }
}

/// The two answers of the minimum-cut query exclude each other: vertices joined by a tree
/// path are not in different components of the tree.
pub proof fn lemma_path_not_separated(
    tree: Seq<TreeEdge>,
    n: nat,
    s: usize,
    t: usize,
    vs: Seq<usize>,
    es: Seq<int>,
)
    requires
        is_tree_path(tree, n, s, t, vs, es),
    ensures
        !tree_separated(tree, n, s, t),
{
    if tree_separated(tree, n, s, t) {
        let side = choose|side: Seq<bool>|
            side.len() == n && side[s as int] && !side[t as int] && #[trigger] tree_closed(tree, n, side);
        lemma_path_stays_inside(tree, n, s, t, vs, es, side, vs.len() - 1);
    }
}

/// A path that starts inside `side` and ends outside it has a step leaving `side`.
proof fn lemma_path_leaves(vs: Seq<usize>, side: Seq<bool>) -> (k: int)
    requires
        vs.len() >= 1,
        forall|i: int| 0 <= i < vs.len() ==> #[trigger] vs[i] < side.len(),
        side[vs[0] as int],
        !side[vs.last() as int],
    ensures
        0 <= k < vs.len() - 1,
        side[vs[k] as int],
        !side[vs[k + 1] as int],
    decreases vs.len(),
{
    if !side[vs[1] as int] {
        0
    } else {
        let rest = vs.drop_first();
        assert(rest.last() == vs.last());
        let k = lemma_path_leaves(rest, side);
        assert(rest[k] == vs[k + 1] && rest[k + 1] == vs[k + 2]);
        k + 1
    }
}

/// The bottleneck of a list of tree edges is at most the capacity of each of them.
pub proof fn lemma_bottleneck_at_most(tree: Seq<TreeEdge>, es: Seq<int>, k: int)
    requires
        0 <= k < es.len(),
    ensures
        bottleneck(tree, es) <= tree[es[k]].capacity,
    decreases es.len(),
{
    if k < es.len() - 1 {
        lemma_bottleneck_at_most(tree, es.drop_last(), k);
    }
}

/// In an undirected network, every `s`-`t` cut has at least the smallest capacity on any
/// path from `s` to `t` in a tree whose edges carry minimum cut values: the path has an
/// edge leaving the cut's source side, and the cut separates that edge's endpoints.
pub proof fn lemma_tree_path_below_cuts(
    edges: Seq<(usize, usize, u64)>,
    n: nat,
    tree: Seq<TreeEdge>,
    s: usize,
    t: usize,
    vs: Seq<usize>,
    es: Seq<int>,
)
    requires
        undirected(edges, n),
        edges_are_min_cuts(edges, n, tree),
        is_tree_path(tree, n, s, t, vs, es),
    ensures
        forall|side: Seq<bool>|
            separates(side, n, s, t) ==> bottleneck(tree, es) <= #[trigger] cut_capacity(edges, side),
{
    assert forall|side: Seq<bool>| separates(side, n, s, t) implies bottleneck(tree, es) <= #[trigger] cut_capacity(
        edges,
        side,
    ) by {
        let k = lemma_path_leaves(vs, side);
        let e = tree[es[k]];
        assert(joins(e, vs[k], vs[k + 1]));
        lemma_bottleneck_at_most(tree, es, k);
        assert(is_min_cut_capacity(edges, n, e.source, e.target, e.capacity as int));
        let best = choose|best: Seq<bool>|
            is_min_cut(edges, n, e.source, e.target, best) && cut_capacity(edges, best) == e.capacity;
        if e.source == vs[k] {
            assert(separates(side, n, e.source, e.target));
        } else {
            let other = complement(side);
            assert(separates(other, n, e.source, e.target));
            assert(cut_capacity(edges, side) == cut_capacity(edges, other));
        }
    }
}

/// On a tree built by Gusfield's algorithm for an undirected network, the answer to the
/// minimum-cut query between two distinct vertices is the bottleneck of a tree path, and
/// no cut between them in the network is smaller.
pub proof fn lemma_gusfield_answer_below_cuts(
    edges: Seq<(usize, usize, u64)>,
    n: nat,
    tree: Seq<TreeEdge>,
    s: usize,
    t: usize,
    value: u64,
)
    requires
        undirected(edges, n),
        is_gusfield_tree(edges, n, tree),
        s < n,
        t < n,
        s != t,
        is_query_answer(tree, n, s, t, value),
    ensures
        exists|vs: Seq<usize>, es: Seq<int>|
            #[trigger] is_tree_path(tree, n, s, t, vs, es) && value == bottleneck(tree, es),
        forall|side: Seq<bool>| separates(side, n, s, t) ==> value <= #[trigger] cut_capacity(edges, side),
{
    lemma_gusfield_tree_spans(edges, n, tree, s, t);
    lemma_gusfield_tree_edges(edges, n, tree);
    let (vs, es) = choose|vs: Seq<usize>, es: Seq<int>|
        #[trigger] is_tree_path(tree, n, s, t, vs, es) && value == bottleneck(tree, es);
    lemma_tree_path_below_cuts(edges, n, tree, s, t, vs, es);
}


/// The edges come in pairs: every edge at an even position is followed by the edge back,
/// with the same capacity, as when each undirected edge is added in both directions.
pub open spec fn paired(edges: Seq<(usize, usize, u64)>) -> bool
    decreases edges.len(),
{
    if edges.len() == 0 {
        true
    } else if edges.len() == 1 {
        false
    } else {
        let a = edges[edges.len() - 2];
        &&& edges.last() == (a.1, a.0, a.2)
        &&& paired(edges.drop_last().drop_last())
    }
}

proof fn lemma_paired_cut(edges: Seq<(usize, usize, u64)>, side: Seq<bool>)
    requires
        paired(edges),
    ensures
        cut_capacity(edges, side) == cut_capacity(edges, complement(side)),
    decreases edges.len(),
{
    if edges.len() >= 2 {
        let rest = edges.drop_last().drop_last();
        lemma_paired_cut(rest, side);
        let a = edges[edges.len() - 2];
        let b = edges.last();
        let other = complement(side);
        assert(edges.drop_last().last() == a);
        assert(cut_capacity(edges.drop_last(), side) == cut_capacity(rest, side) + crossing_capacity(a, side));
        assert(cut_capacity(edges.drop_last(), other) == cut_capacity(rest, other) + crossing_capacity(a, other));
        if a.0 < side.len() && a.1 < side.len() {
            assert(other[a.0 as int] == !side[a.0 as int]);
            assert(other[a.1 as int] == !side[a.1 as int]);
        }
        assert(crossing_capacity(a, side) + crossing_capacity(b, side) == crossing_capacity(a, other)
            + crossing_capacity(b, other));
    }
}

/// A network whose edges come in pairs of opposite edges with one capacity is undirected.
pub proof fn lemma_paired_undirected(edges: Seq<(usize, usize, u64)>, n: nat)
    requires
        paired(edges),
    ensures
        undirected(edges, n),
{
    assert forall|side: Seq<bool>| side.len() == n implies #[trigger] cut_capacity(edges, side) == cut_capacity(
        edges,
        complement(side),
    ) by {
        lemma_paired_cut(edges, side);
    }
}

/// Two minimum cut values between the same vertices are equal.
pub proof fn lemma_min_cut_capacity_unique(
    edges: Seq<(usize, usize, u64)>,
    n: nat,
    s: usize,
    t: usize,
    c1: int,
    c2: int,
)
    requires
        is_min_cut_capacity(edges, n, s, t, c1),
        is_min_cut_capacity(edges, n, s, t, c2),
    ensures
        c1 == c2,
{
    let a = choose|side: Seq<bool>| is_min_cut(edges, n, s, t, side) && cut_capacity(edges, side) == c1;
    let b = choose|side: Seq<bool>| is_min_cut(edges, n, s, t, side) && cut_capacity(edges, side) == c2;
    assert(cut_capacity(edges, a) <= cut_capacity(edges, b));
    assert(cut_capacity(edges, b) <= cut_capacity(edges, a));
}

/// In an undirected network the minimum cut value between two vertices does not depend on
/// their order.
pub proof fn lemma_min_cut_symmetric(edges: Seq<(usize, usize, u64)>, n: nat, s: usize, t: usize, c: int)
    requires
        undirected(edges, n),
        is_min_cut_capacity(edges, n, s, t, c),
    ensures
        is_min_cut_capacity(edges, n, t, s, c),
{
    let best = choose|side: Seq<bool>| is_min_cut(edges, n, s, t, side) && cut_capacity(edges, side) == c;
    let flipped = complement(best);
    assert(cut_capacity(edges, best) == cut_capacity(edges, flipped));
    assert(separates(flipped, n, t, s));
    assert forall|other: Seq<bool>| separates(other, n, t, s) implies cut_capacity(edges, flipped) <= #[trigger] cut_capacity(
        edges,
        other,
    ) by {
        let back = complement(other);
        assert(separates(back, n, s, t));
        assert(cut_capacity(edges, other) == cut_capacity(edges, back));
    }
    assert(is_min_cut(edges, n, t, s, flipped));
}

/// The minimum cut value between `s` and `u` is at least the smaller of those between
/// `s` and `t` and between `t` and `u`: a minimum `s`-`u` cut separates one of the two pairs.
pub proof fn lemma_min_cut_three_vertices(
    edges: Seq<(usize, usize, u64)>,
    n: nat,
    s: usize,
    t: usize,
    u: usize,
    st: int,
    tu: int,
    su: int,
)
    requires
        is_min_cut_capacity(edges, n, s, t, st),
        is_min_cut_capacity(edges, n, t, u, tu),
        is_min_cut_capacity(edges, n, s, u, su),
    ensures
        su >= st || su >= tu,
{
    let best = choose|side: Seq<bool>| is_min_cut(edges, n, s, u, side) && cut_capacity(edges, side) == su;
    let a = choose|side: Seq<bool>| is_min_cut(edges, n, s, t, side) && cut_capacity(edges, side) == st;
    let b = choose|side: Seq<bool>| is_min_cut(edges, n, t, u, side) && cut_capacity(edges, side) == tu;
    if best[t as int] {
        assert(separates(best, n, t, u));
    } else {
        assert(separates(best, n, s, t));
    }
}


/// On an undirected network, Dinic's algorithm finds the same maximum flow value from `s`
/// to `t` as from `t` to `s`.
pub proof fn lemma_dinic_flow_symmetric(
    limit: nat,
    edges: Seq<(usize, usize, u64)>,
    n: nat,
    s: usize,
    t: usize,
    st: u64,
    st_side: Seq<bool>,
    ts: u64,
    ts_side: Seq<bool>,
)
    requires
        undirected(edges, n),
        s < n,
        t < n,
        s != t,
        dinic_allows(limit, edges, n, s, t, Ok((st, st_side))),
        dinic_allows(limit, edges, n, t, s, Ok((ts, ts_side))),
    ensures
        st == ts,
{
    assert(is_min_cut_capacity(edges, n, s, t, st as int));
    assert(is_min_cut_capacity(edges, n, t, s, ts as int));
    lemma_min_cut_symmetric(edges, n, t, s, ts as int);
    lemma_min_cut_capacity_unique(edges, n, s, t, st as int, ts as int);
}

} // verus!
