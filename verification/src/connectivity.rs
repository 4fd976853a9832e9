//! Connectivity through edges of positive capacity, and what minimum cuts and Gomory-Hu
//! trees say of it.
use vstd::prelude::*;

use crate::algorithms::gusfield::is_gusfield_tree;
use crate::equivalence::lemma_gusfield_answer_is_min_cut;
use crate::flow::cut::{
    crossing_capacity, cut_capacity, is_min_cut, is_min_cut_capacity, lemma_cut_capacity_bounds,
    separates,
};
use crate::properties::undirected;
use crate::tree::{is_query_answer, TreeEdge};

verus! {

/// Some edge leads from `a` to `b` with positive capacity, both below `n`.
pub open spec fn positive_step(edges: Seq<(usize, usize, u64)>, n: nat, a: int, b: int) -> bool {
    &&& 0 <= a < n
    &&& 0 <= b < n
    &&& exists|k: int|
        0 <= k < edges.len() && (#[trigger] edges[k]).0 == a && edges[k].1 == b && edges[k].2 > 0
}

/// Step `i` of the walk `vs` goes along an edge of positive capacity.
pub open spec fn walk_step(edges: Seq<(usize, usize, u64)>, n: nat, vs: Seq<int>, i: int) -> bool {
    positive_step(edges, n, vs[i], vs[i + 1])
}

/// `vs` is a walk through vertices below `n` along edges of positive capacity.
pub open spec fn is_positive_walk(edges: Seq<(usize, usize, u64)>, n: nat, vs: Seq<int>) -> bool {
    &&& vs.len() >= 1
    &&& 0 <= vs[0] < n
    &&& forall|i: int| 0 <= i < vs.len() - 1 ==> #[trigger] walk_step(edges, n, vs, i)
}

/// `t` can be reached from `s` along edges of positive capacity.
pub open spec fn connected(edges: Seq<(usize, usize, u64)>, n: nat, s: int, t: int) -> bool {
    exists|vs: Seq<int>| #[trigger] is_positive_walk(edges, n, vs) && vs[0] == s && vs.last() == t
}

/// A cut is at least what any one of its edges contributes.
proof fn lemma_cut_at_least_crossing(edges: Seq<(usize, usize, u64)>, side: Seq<bool>, k: int)
    requires
        0 <= k < edges.len(),
    ensures
        crossing_capacity(edges[k], side) <= cut_capacity(edges, side),
    decreases edges.len(),
{
    lemma_cut_capacity_bounds(edges.drop_last(), side);
    if k < edges.len() - 1 {
        lemma_cut_at_least_crossing(edges.drop_last(), side, k);
        assert(edges.drop_last()[k] == edges[k]);
    }
}

/// A cut to which no edge contributes has capacity 0.
proof fn lemma_cut_zero(edges: Seq<(usize, usize, u64)>, side: Seq<bool>)
    requires
        forall|k: int| 0 <= k < edges.len() ==> crossing_capacity(#[trigger] edges[k], side) == 0,
    ensures
        cut_capacity(edges, side) == 0,
    decreases edges.len(),
{
    if edges.len() > 0 {
        let rest = edges.drop_last();
        assert forall|k: int| 0 <= k < rest.len() implies crossing_capacity(#[trigger] rest[k], side) == 0 by {
            assert(rest[k] == edges[k]);
        }
        lemma_cut_zero(rest, side);
        assert(crossing_capacity(edges[edges.len() - 1], side) == 0);
    }
}

/// A walk that starts inside `side` and ends outside it has a step leaving `side`.
proof fn lemma_walk_leaves(edges: Seq<(usize, usize, u64)>, n: nat, vs: Seq<int>, side: Seq<bool>) -> (i: int)
    requires
        is_positive_walk(edges, n, vs),
        side.len() == n,
        side[vs[0]],
        !side[vs.last()],
    ensures
        0 <= i < vs.len() - 1,
        walk_step(edges, n, vs, i),
        side[vs[i]],
        !side[vs[i + 1]],
    decreases vs.len(),
{
    assert(vs.len() >= 2);
    assert(walk_step(edges, n, vs, 0));
    if !side[vs[1]] {
        0
    } else {
        let rest = vs.drop_first();
        assert forall|i: int| 0 <= i < rest.len() - 1 implies #[trigger] walk_step(edges, n, rest, i) by {
            assert(walk_step(edges, n, vs, i + 1));
        }
        assert(rest.last() == vs.last());
        let i = lemma_walk_leaves(edges, n, rest, side);
        assert(walk_step(edges, n, vs, i + 1));
        i + 1
    }
}

/// When `t` can be reached from `s` along edges of positive capacity, every cut between
/// them has positive capacity: the walk leaves the cut's source side along such an edge.
pub proof fn lemma_connected_cuts_positive(
    edges: Seq<(usize, usize, u64)>,
    n: nat,
    s: usize,
    t: usize,
    side: Seq<bool>,
)
    requires
        connected(edges, n, s as int, t as int),
        separates(side, n, s, t),
    ensures
        cut_capacity(edges, side) > 0,
{
    let vs = choose|vs: Seq<int>| #[trigger] is_positive_walk(edges, n, vs) && vs[0] == s && vs.last() == t;
    let i = lemma_walk_leaves(edges, n, vs, side);
    let k = choose|k: int|
        0 <= k < edges.len() && (#[trigger] edges[k]).0 == vs[i] && edges[k].1 == vs[i + 1] && edges[k].2 > 0;
    lemma_cut_at_least_crossing(edges, side, k);
}

/// The vertices below `n` that can be reached from `s` along edges of positive capacity.
pub open spec fn reach_side(edges: Seq<(usize, usize, u64)>, n: nat, s: int) -> Seq<bool> {
    Seq::new(n, |w: int| connected(edges, n, s, w))
}

/// No edge of positive capacity leaves the set of vertices reachable from `s`.
proof fn lemma_reach_side_closed(edges: Seq<(usize, usize, u64)>, n: nat, s: int, k: int)
    requires
        0 <= k < edges.len(),
    ensures
        crossing_capacity(edges[k], reach_side(edges, n, s)) == 0,
{
    let side = reach_side(edges, n, s);
    let e = edges[k];
    if e.0 < n && e.1 < n && side[e.0 as int] && !side[e.1 as int] && e.2 > 0 {
        let vs = choose|vs: Seq<int>|
            #[trigger] is_positive_walk(edges, n, vs) && vs[0] == s && vs.last() == e.0 as int;
        let longer = vs.push(e.1 as int);
        assert(positive_step(edges, n, e.0 as int, e.1 as int));
        assert forall|i: int| 0 <= i < longer.len() - 1 implies #[trigger] walk_step(edges, n, longer, i) by {
            if i < vs.len() - 1 {
                assert(walk_step(edges, n, vs, i));
            }
        }
        assert(is_positive_walk(edges, n, longer) && longer[0] == s && longer.last() == e.1 as int);
    }
}

/// When `t` cannot be reached from `s` along edges of positive capacity, the vertices that
/// can form a cut between them of capacity 0.
pub proof fn lemma_unconnected_cut_zero(edges: Seq<(usize, usize, u64)>, n: nat, s: usize, t: usize)
    requires
        s < n,
        t < n,
        !connected(edges, n, s as int, t as int),
    ensures
        separates(reach_side(edges, n, s as int), n, s, t),
        cut_capacity(edges, reach_side(edges, n, s as int)) == 0,
{
    let side = reach_side(edges, n, s as int);
    let single = seq![s as int];
    assert(is_positive_walk(edges, n, single) && single[0] == s && single.last() == s);
    assert(side[s as int]);
    assert forall|k: int| 0 <= k < edges.len() implies crossing_capacity(#[trigger] edges[k], side) == 0 by {
        lemma_reach_side_closed(edges, n, s as int, k);
    }
    lemma_cut_zero(edges, side);
}

/// The minimum cut value between two vertices is positive exactly when the second can be
/// reached from the first along edges of positive capacity.
pub proof fn lemma_min_cut_positive_iff_connected(
    edges: Seq<(usize, usize, u64)>,
    n: nat,
    s: usize,
    t: usize,
    value: int,
)
    requires
        s < n,
        t < n,
        is_min_cut_capacity(edges, n, s, t, value),
    ensures
        value > 0 <==> connected(edges, n, s as int, t as int),
{
    let best = choose|side: Seq<bool>| is_min_cut(edges, n, s, t, side) && cut_capacity(edges, side) == value;
    if connected(edges, n, s as int, t as int) {
        lemma_connected_cuts_positive(edges, n, s, t, best);
    } else {
        lemma_unconnected_cut_zero(edges, n, s, t);
        assert(cut_capacity(edges, best) <= cut_capacity(edges, reach_side(edges, n, s as int)));
    }
}

/// On a tree built by Gusfield's algorithm for an undirected network, the answer to the
/// minimum-cut query between two distinct vertices is positive exactly when they are
/// connected in the network by edges of positive capacity.
pub proof fn lemma_gusfield_answer_positive_iff_connected(
    edges: Seq<(usize, usize, u64)>,
    n: nat,
    tree: Seq<TreeEdge>,
    s: usize,
    t: usize,
    value: u64,
)
    requires
        undirected(edges, n),
        is_gusfield_tree(edges, n, tree),
        n <= usize::MAX,
        s < n,
        t < n,
        s != t,
        is_query_answer(tree, n, s, t, value),
    ensures
        value > 0 <==> connected(edges, n, s as int, t as int),
{
    lemma_gusfield_answer_is_min_cut(edges, n, tree, s, t, value);
    lemma_min_cut_positive_iff_connected(edges, n, s, t, value as int);
}

} // verus!
