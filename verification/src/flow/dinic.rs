//! Dinic's max-flow algorithm.
//!
//! The residual graph keeps, for the `k`-th edge of the network, two residual edges:
//! edge `2k` runs along it and edge `2k + 1` against it. The two residual capacities add
//! up to the edge's capacity, and the capacity of edge `2k + 1` is the flow on edge `k`.
use std::collections::VecDeque;
use vstd::prelude::*;

use super::cut::{
    crossing_capacity, cut_capacity, edges_within, is_min_cut, lemma_cut_capacity_bounds,
    lemma_edges_within, separates, total_capacity,
};
use super::traits::{result_view, MaxFlowError, MaxFlowSolver, MinCut, OriginalGraphView};
use crate::utils::{count_false, lemma_count_false_mark};

verus! {

/// The vertex that residual edge `e` leaves.
pub open spec fn tail_of(net: Seq<(usize, usize, u64)>, e: int) -> usize {
    if e % 2 == 0 {
        net[e / 2].0
    } else {
        net[e / 2].1
    }
}

/// The vertex that residual edge `e` enters.
pub open spec fn head_of(net: Seq<(usize, usize, u64)>, e: int) -> usize {
    if e % 2 == 0 {
        net[e / 2].1
    } else {
        net[e / 2].0
    }
}

/// The residual edge paired with `e`.
pub open spec fn partner(e: int) -> int {
    if e % 2 == 0 {
        e + 1
    } else {
        e - 1
    }
}

/// How much a flow `f` from `a` to `b` adds to the net flow out of the source side `side`.
pub open spec fn shift(side: Seq<bool>, a: usize, b: usize, f: int) -> int {
    if side[a as int] && !side[b as int] {
        f
    } else if !side[a as int] && side[b as int] {
        -f
    } else {
        0
    }
}

/// The residual capacities hold a feasible flow: the two residual edges of network edge
/// `k` have capacities adding up to its capacity.
pub open spec fn feasible(net: Seq<(usize, usize, u64)>, caps: Seq<u64>) -> bool {
    &&& caps.len() == 2 * net.len()
    &&& forall|k: int| 0 <= k < net.len() ==> caps[2 * k] + caps[2 * k + 1] == (#[trigger] net[k]).2
}

/// Net flow out of the source side `side`, over the first `m` network edges.
pub open spec fn flow_across(net: Seq<(usize, usize, u64)>, caps: Seq<u64>, side: Seq<bool>, m: int) -> int
    decreases m,
{
    if m <= 0 {
        0
    } else {
        flow_across(net, caps, side, m - 1) + shift(side, net[m - 1].0, net[m - 1].1, caps[2 * (m - 1) + 1] as int)
    }
}

/// No residual edge with capacity left leaves the vertex set `side`.
pub open spec fn closed(net: Seq<(usize, usize, u64)>, caps: Seq<u64>, side: Seq<bool>) -> bool {
    forall|e: int|
        0 <= e < caps.len() && side[tail_of(net, e) as int] && #[trigger] caps[e] > 0 ==> side[head_of(
            net,
            e,
        ) as int]
}

/// All endpoints of the network's edges are below `n`.
pub open spec fn endpoints_below(net: Seq<(usize, usize, u64)>, n: nat) -> bool {
    forall|k: int| 0 <= k < net.len() ==> (#[trigger] net[k]).0 < n && net[k].1 < n
}

proof fn lemma_flow_across_change(
    net: Seq<(usize, usize, u64)>,
    c1: Seq<u64>,
    c2: Seq<u64>,
    side: Seq<bool>,
    m: int,
    k: int,
)
    requires
        0 <= k < m <= net.len(),
        c1.len() == 2 * net.len(),
        c2.len() == c1.len(),
        forall|e: int| 0 <= e < c1.len() && e != 2 * k && e != 2 * k + 1 ==> c1[e] == c2[e],
    ensures
        flow_across(net, c2, side, m) == flow_across(net, c1, side, m) - shift(
            side,
            net[k].0,
            net[k].1,
            c1[2 * k + 1] as int,
        ) + shift(side, net[k].0, net[k].1, c2[2 * k + 1] as int),
    decreases m,
{
    if m - 1 > k {
        lemma_flow_across_change(net, c1, c2, side, m - 1, k);
        assert(c1[2 * (m - 1) + 1] == c2[2 * (m - 1) + 1]);
    } else {
        lemma_flow_across_unchanged(net, c1, c2, side, k);
    }
}

proof fn lemma_flow_across_unchanged(
    net: Seq<(usize, usize, u64)>,
    c1: Seq<u64>,
    c2: Seq<u64>,
    side: Seq<bool>,
    m: int,
)
    requires
        0 <= m <= net.len(),
        c1.len() == 2 * net.len(),
        c2.len() == c1.len(),
        forall|e: int| 0 <= e < 2 * m ==> c1[e] == c2[e],
    ensures
        flow_across(net, c2, side, m) == flow_across(net, c1, side, m),
    decreases m,
{
    if m > 0 {
        lemma_flow_across_unchanged(net, c1, c2, side, m - 1);
        assert(c1[2 * (m - 1) + 1] == c2[2 * (m - 1) + 1]);
    }
}

/// Pushing `f` units along residual edge `e` changes the net flow out of every vertex
/// set as a flow of `f` from the tail of `e` to its head does.
proof fn lemma_push_shifts_flow(
    net: Seq<(usize, usize, u64)>,
    c1: Seq<u64>,
    c2: Seq<u64>,
    e: int,
    f: int,
    side: Seq<bool>,
)
    requires
        0 <= e < c1.len(),
        c1.len() == 2 * net.len(),
        c2.len() == c1.len(),
        c2[e] == c1[e] - f,
        c2[partner(e)] == c1[partner(e)] + f,
        forall|x: int| 0 <= x < c1.len() && x != e && x != partner(e) ==> c1[x] == c2[x],
    ensures
        flow_across(net, c2, side, net.len() as int) == flow_across(net, c1, side, net.len() as int)
            + shift(side, tail_of(net, e), head_of(net, e), f),
{
    let k = e / 2;
    lemma_flow_across_change(net, c1, c2, side, net.len() as int, k);
}

/// What network edge `k` contributes to the net flow out of `side`, against what it
/// contributes to the capacity of the cut `side`.
proof fn lemma_edge_term(net: Seq<(usize, usize, u64)>, caps: Seq<u64>, side: Seq<bool>, k: int)
    requires
        0 <= k < net.len(),
        feasible(net, caps),
        net[k].0 < side.len(),
        net[k].1 < side.len(),
    ensures
        ({
            let u = net[k].0;
            let v = net[k].1;
            let t = shift(side, u, v, caps[2 * k + 1] as int);
            let c = crossing_capacity(net[k], side);
            &&& t <= c
            &&& (side[u as int] && !side[v as int] ==> (t == c <==> caps[2 * k] == 0))
            &&& (side[v as int] && !side[u as int] ==> (t == c <==> caps[2 * k + 1] == 0))
            &&& (side[u as int] == side[v as int] ==> t == c)
        }),
{
    assert(caps[2 * k] + caps[2 * k + 1] == net[k].2);
}

/// No residual edge among the first `2 * m` with capacity left leaves `side`.
pub open spec fn closed_upto(net: Seq<(usize, usize, u64)>, caps: Seq<u64>, side: Seq<bool>, m: int) -> bool {
    forall|e: int|
        0 <= e < 2 * m && side[tail_of(net, e) as int] && #[trigger] caps[e] > 0 ==> side[head_of(
            net,
            e,
        ) as int]
}

proof fn lemma_closed_upto_step(net: Seq<(usize, usize, u64)>, caps: Seq<u64>, side: Seq<bool>, m: int)
    requires
        0 < m <= net.len(),
    ensures
        closed_upto(net, caps, side, m) <==> closed_upto(net, caps, side, m - 1) && (side[net[m
            - 1].0 as int] && !side[net[m - 1].1 as int] ==> caps[2 * (m - 1)] == 0) && (side[net[m
            - 1].1 as int] && !side[net[m - 1].0 as int] ==> caps[2 * (m - 1) + 1] == 0),
{
    let k = m - 1;
    let fw = 2 * k;
    let bw = 2 * k + 1;
    assert(tail_of(net, fw) == net[k].0 && head_of(net, fw) == net[k].1);
    assert(tail_of(net, bw) == net[k].1 && head_of(net, bw) == net[k].0);
    if closed_upto(net, caps, side, m) {
        assert(closed_upto(net, caps, side, k));
        if side[net[k].0 as int] && !side[net[k].1 as int] {
            assert(caps[fw] == 0);
        }
        if side[net[k].1 as int] && !side[net[k].0 as int] {
            assert(caps[bw] == 0);
        }
    }
    if closed_upto(net, caps, side, k) && (side[net[k].0 as int] && !side[net[k].1 as int]
        ==> caps[fw] == 0) && (side[net[k].1 as int] && !side[net[k].0 as int] ==> caps[bw] == 0) {
        assert forall|e: int|
            0 <= e < 2 * m && side[tail_of(net, e) as int] && #[trigger] caps[e] > 0 implies side[head_of(
            net,
            e,
        ) as int] by {
            if e == fw {
            } else if e == bw {
            } else {
            }
        }
    }
}

/// The net flow out of a vertex set is at most its cut capacity, and equal to it exactly
/// when no residual edge with capacity left leaves the set.
proof fn lemma_flow_across_bounded(
    net: Seq<(usize, usize, u64)>,
    caps: Seq<u64>,
    side: Seq<bool>,
    m: int,
)
    requires
        0 <= m <= net.len(),
        feasible(net, caps),
        endpoints_below(net, side.len()),
    ensures
        flow_across(net, caps, side, m) <= cut_capacity(net.take(m), side),
        flow_across(net, caps, side, m) == cut_capacity(net.take(m), side) <==> closed_upto(
            net,
            caps,
            side,
            m,
        ),
    decreases m,
{
    if m > 0 {
        let k = m - 1;
        lemma_flow_across_bounded(net, caps, side, k);
        assert(net.take(m).drop_last() =~= net.take(k));
        assert(net.take(m).last() == net[k]);
        assert(net[k].0 < side.len() && net[k].1 < side.len());
        lemma_edge_term(net, caps, side, k);
        lemma_closed_upto_step(net, caps, side, m);
    } else {
        assert(closed_upto(net, caps, side, 0));
    }
}

/// Applied to all network edges: the net flow out of `side` is at most the cut
/// capacity, with equality exactly when `side` is closed.
proof fn lemma_flow_across_cut(net: Seq<(usize, usize, u64)>, caps: Seq<u64>, side: Seq<bool>)
    requires
        feasible(net, caps),
        endpoints_below(net, side.len()),
    ensures
        flow_across(net, caps, side, net.len() as int) <= cut_capacity(net, side),
        flow_across(net, caps, side, net.len() as int) == cut_capacity(net, side) <==> closed(
            net,
            caps,
            side,
        ),
{
    lemma_flow_across_bounded(net, caps, side, net.len() as int);
    assert(net.take(net.len() as int) =~= net);
    if closed_upto(net, caps, side, net.len() as int) {
        assert forall|e: int|
            0 <= e < caps.len() && side[tail_of(net, e) as int] && #[trigger] caps[e] > 0 implies side[head_of(
            net,
            e,
        ) as int] by {}
    }
}

proof fn lemma_total_capacity_prefix(edges: Seq<(usize, usize, u64)>, m: int)
    requires
        0 <= m <= edges.len(),
    ensures
        total_capacity(edges.take(m)) <= total_capacity(edges),
    decreases edges.len(),
{
    if m < edges.len() {
        assert(edges.drop_last().take(m) =~= edges.take(m));
        lemma_total_capacity_prefix(edges.drop_last(), m);
    } else {
        assert(edges.take(m) =~= edges);
    }
}

proof fn lemma_edges_within_total(edges: Seq<(usize, usize, u64)>, n: nat)
    ensures
        total_capacity(edges_within(edges, n)) <= total_capacity(edges),
        edges_within(edges, n).len() <= edges.len(),
    decreases edges.len(),
{
    if edges.len() > 0 {
        lemma_edges_within_total(edges.drop_last(), n);
        let rest = edges_within(edges.drop_last(), n);
        if edges.last().0 < n && edges.last().1 < n {
            assert(rest.push(edges.last()).drop_last() =~= rest);
        }
    }
}

/// The number of vertices without a level (marked `-1`).
pub open spec fn count_unleveled(levels: Seq<i32>) -> nat
    decreases levels.len(),
{
    if levels.len() == 0 {
        0
    } else {
        count_unleveled(levels.drop_last()) + if levels.last() == -1 {
            1nat
        } else {
            0nat
        }
    }
}

proof fn lemma_count_unleveled_bound(levels: Seq<i32>)
    ensures
        count_unleveled(levels) <= levels.len(),
    decreases levels.len(),
{
    if levels.len() > 0 {
        lemma_count_unleveled_bound(levels.drop_last());
    }
}

proof fn lemma_count_unleveled_all(levels: Seq<i32>)
    requires
        forall|v: int| 0 <= v < levels.len() ==> levels[v] == -1,
    ensures
        count_unleveled(levels) == levels.len(),
    decreases levels.len(),
{
    if levels.len() > 0 {
        lemma_count_unleveled_all(levels.drop_last());
    }
}

proof fn lemma_count_unleveled_assign(levels: Seq<i32>, v: int, x: i32)
    requires
        0 <= v < levels.len(),
        levels[v] == -1,
        x != -1,
    ensures
        count_unleveled(levels.update(v, x)) + 1 == count_unleveled(levels),
    decreases levels.len(),
{
    if v < levels.len() - 1 {
        assert(levels.update(v, x).drop_last() =~= levels.drop_last().update(v, x));
        lemma_count_unleveled_assign(levels.drop_last(), v, x);
    } else {
        assert(levels.update(v, x).drop_last() =~= levels.drop_last());
    }
}

/// The vertices that have a level.
pub open spec fn leveled_side(levels: Seq<i32>) -> Seq<bool> {
    Seq::new(levels.len(), |v: int| levels[v] >= 0)
}

/// Every vertex marked in `inner` is marked in `outer`.
pub open spec fn contained_in(inner: Seq<bool>, outer: Seq<bool>) -> bool {
    forall|v: int| 0 <= v < inner.len() && #[trigger] inner[v] ==> outer[v]
}

proof fn lemma_zero_flow(net: Seq<(usize, usize, u64)>, caps: Seq<u64>, side: Seq<bool>, m: int)
    requires
        0 <= m <= net.len(),
        caps.len() == 2 * net.len(),
        forall|e: int| 0 <= e < caps.len() && e % 2 == 1 ==> caps[e] == 0,
    ensures
        flow_across(net, caps, side, m) == 0,
    decreases m,
{
    if m > 0 {
        lemma_zero_flow(net, caps, side, m - 1);
        assert(caps[2 * (m - 1) + 1] == 0);
    }
}

/// A flow from `a` to `b` followed by one from `b` to `c` is a flow from `a` to `c`.
proof fn lemma_shift_compose(side: Seq<bool>, a: usize, b: usize, c: usize, f: int)
    requires
        a < side.len(),
        b < side.len(),
        c < side.len(),
    ensures
        shift(side, a, b, f) + shift(side, b, c, f) == shift(side, a, c, f),
{
}

/// Every residual edge with capacity left that leaves a vertex with a level below `bound`
/// enters a vertex with a level, at most one more.
pub open spec fn levels_tight(net: Seq<(usize, usize, u64)>, caps: Seq<u64>, levels: Seq<i32>, bound: int) -> bool {
    forall|e: int|
        0 <= e < caps.len() && #[trigger] caps[e] > 0 && 0 <= levels[tail_of(net, e) as int] < bound ==> 0
            <= levels[head_of(net, e) as int] <= levels[tail_of(net, e) as int] + 1
}

/// `es` is a walk from `a` to `b` along residual edges with capacity left.
pub open spec fn res_walk(net: Seq<(usize, usize, u64)>, caps: Seq<u64>, es: Seq<int>, a: int, b: int) -> bool
    decreases es.len(),
{
    if es.len() == 0 {
        a == b
    } else {
        &&& 0 <= es[0] < caps.len()
        &&& caps[es[0]] > 0
        &&& tail_of(net, es[0]) == a
        &&& res_walk(net, caps, es.drop_first(), head_of(net, es[0]) as int, b)
    }
}

/// A walk extended by one more edge with capacity left.
proof fn lemma_walk_push(net: Seq<(usize, usize, u64)>, caps: Seq<u64>, es: Seq<int>, a: int, b: int, e: int)
    requires
        res_walk(net, caps, es, a, b),
        0 <= e < caps.len(),
        caps[e] > 0,
        tail_of(net, e) == b,
    ensures
        res_walk(net, caps, es.push(e), a, head_of(net, e) as int),
    decreases es.len(),
{
    let h = head_of(net, e) as int;
    if es.len() == 0 {
        assert(es.push(e).drop_first() =~= Seq::<int>::empty());
        assert(res_walk(net, caps, Seq::<int>::empty(), h, h));
        assert(es.push(e)[0] == e);
    } else {
        lemma_walk_push(net, caps, es.drop_first(), head_of(net, es[0]) as int, b, e);
        assert(es.push(e).drop_first() =~= es.drop_first().push(e));
        assert(es.push(e)[0] == es[0]);
    }
}

/// Along a walk, a potential that grows by at most one per edge grows by at most the
/// walk's length.
proof fn lemma_walk_potential(
    net: Seq<(usize, usize, u64)>,
    caps: Seq<u64>,
    es: Seq<int>,
    a: int,
    b: int,
    phi: spec_fn(int) -> int,
)
    requires
        res_walk(net, caps, es, a, b),
        forall|e: int|
            0 <= e < caps.len() && #[trigger] caps[e] > 0 ==> phi(head_of(net, e) as int) <= phi(tail_of(net, e) as int) + 1,
    ensures
        phi(b) <= phi(a) + es.len(),
    decreases es.len(),
{
    if es.len() > 0 {
        lemma_walk_potential(net, caps, es.drop_first(), head_of(net, es[0]) as int, b, phi);
        assert(caps[es[0]] > 0);
    }
}

/// A walk that starts in a closed vertex set stays in it.
proof fn lemma_walk_closed(net: Seq<(usize, usize, u64)>, caps: Seq<u64>, es: Seq<int>, a: int, b: int, side: Seq<bool>)
    requires
        res_walk(net, caps, es, a, b),
        closed(net, caps, side),
        side[a],
    ensures
        side[b],
    decreases es.len(),
{
    if es.len() > 0 {
        assert(caps[es[0]] > 0);
        lemma_walk_closed(net, caps, es.drop_first(), head_of(net, es[0]) as int, b, side);
    }
}

/// Every walk from `s` to `t` along residual edges with capacity left has at least `k` edges.
#[verifier::opaque]
pub open spec fn walks_at_least(net: Seq<(usize, usize, u64)>, caps: Seq<u64>, s: int, t: int, k: int) -> bool {
    forall|es: Seq<int>| #[trigger] res_walk(net, caps, es, s, t) ==> k <= es.len()
}

/// A lower bound on walk lengths holds for every smaller bound.
proof fn lemma_walks_weaken(net: Seq<(usize, usize, u64)>, caps: Seq<u64>, s: int, t: int, k: int, smaller: int)
    requires
        walks_at_least(net, caps, s, t, k),
        smaller <= k,
    ensures
        walks_at_least(net, caps, s, t, smaller),
{
    reveal(walks_at_least);
}

/// Each vertex with a level is reached from `source` by a walk along residual edges with
/// capacity left that has as many edges as its level.
#[verifier::opaque]
pub open spec fn levels_reached(net: Seq<(usize, usize, u64)>, caps: Seq<u64>, levels: Seq<i32>, source: int) -> bool {
    forall|v: int|
        0 <= v < levels.len() && #[trigger] levels[v] >= 0 ==> exists|es: Seq<int>|
            #[trigger] res_walk(net, caps, es, source, v) && es.len() == levels[v]
}

/// The levels are shortest walk lengths from `source`: no walk to a vertex with a level is
/// shorter than its level, and a walk to a vertex without one has more edges than the
/// level of `sink`, which then has a level.
#[verifier::opaque]
pub open spec fn levels_shortest(
    net: Seq<(usize, usize, u64)>,
    caps: Seq<u64>,
    levels: Seq<i32>,
    source: int,
    sink: int,
) -> bool {
    forall|v: int, es: Seq<int>|
        0 <= v < levels.len() && #[trigger] res_walk(net, caps, es, source, v) ==> (levels[v] >= 0 ==> levels[v]
            <= es.len()) && (levels[v] < 0 ==> 0 <= sink < levels.len() && levels[sink] >= 0 && levels[sink] + 1
            <= es.len())
}

/// The level of `v` capped at `top`, with `top` for vertices without a level.
pub open spec fn capped_level(levels: Seq<i32>, top: int, v: int) -> int {
    if 0 <= levels[v] <= top {
        levels[v] as int
    } else {
        top
    }
}

/// `es` is a path of the level graph from `u` to `t`: residual edges with capacity left,
/// each entering a vertex one level above the one it leaves.
pub open spec fn level_path(
    net: Seq<(usize, usize, u64)>,
    caps: Seq<u64>,
    levels: Seq<i32>,
    es: Seq<int>,
    u: int,
    t: int,
) -> bool
    decreases es.len(),
{
    if es.len() == 0 {
        u == t
    } else {
        &&& 0 <= es[0] < caps.len()
        &&& caps[es[0]] > 0
        &&& tail_of(net, es[0]) == u
        &&& levels[head_of(net, es[0]) as int] == levels[u] + 1
        &&& level_path(net, caps, levels, es.drop_first(), head_of(net, es[0]) as int, t)
    }
}

/// The smallest residual capacity among the edges `es`; `u64::MAX` for none.
pub open spec fn path_min(caps: Seq<u64>, es: Seq<int>) -> int
    decreases es.len(),
{
    if es.len() == 0 {
        u64::MAX as int
    } else {
        let rest = path_min(caps, es.drop_first());
        if caps[es[0]] < rest {
            caps[es[0]] as int
        } else {
            rest
        }
    }
}

/// The residual capacities after pushing `f` along the edges `es`, the last edge first:
/// each edge loses `f` and its paired edge gains it.
pub open spec fn push_along(caps: Seq<u64>, es: Seq<int>, f: int) -> Seq<u64>
    decreases es.len(),
{
    if es.len() == 0 {
        caps
    } else {
        let c = push_along(caps, es.drop_first(), f);
        let e = es[0];
        c.update(e, (c[e] - f) as u64).update(partner(e), (c[partner(e)] + f) as u64)
    }
}

/// The residual capacities of the zero flow on `net`: each edge's capacity forward, none back.
pub open spec fn zero_flow_caps(net: Seq<(usize, usize, u64)>) -> Seq<u64> {
    Seq::new(2 * net.len(), |e: int| if e % 2 == 0 { net[e / 2].2 } else { 0u64 })
}

/// `t` can be reached from `s` along residual edges with capacity left.
pub open spec fn reachable(net: Seq<(usize, usize, u64)>, caps: Seq<u64>, s: int, t: int) -> bool {
    exists|es: Seq<int>| #[trigger] res_walk(net, caps, es, s, t)
}

/// One phase of Dinic's algorithm from `s` to `t` on a network with `n` vertices, with the
/// breadth-first levels `levels` of `before`: the sink has a level; flow is taken only from
/// edges of the level graph and given back only to their paired edges; a positive amount
/// goes from `s` to `t` and nothing is lost elsewhere; and afterwards no path of the level
/// graph with capacity left reaches the sink (the flow is blocking).
pub open spec fn phase_with_levels(
    net: Seq<(usize, usize, u64)>,
    n: nat,
    before: Seq<u64>,
    after: Seq<u64>,
    levels: Seq<i32>,
    s: usize,
    t: usize,
) -> bool {
    &&& levels.len() == n
    &&& s < n
    &&& t < n
    &&& levels_reached(net, before, levels, s as int)
    &&& levels_shortest(net, before, levels, s as int, t as int)
    &&& levels[t as int] >= 0
    &&& feasible(net, after)
    &&& before.len() == after.len()
    &&& forall|x: int|
        0 <= x < before.len() && #[trigger] after[x] < before[x] ==> levels[tail_of(net, x) as int] >= 0
            && levels[head_of(net, x) as int] == levels[tail_of(net, x) as int] + 1
    &&& forall|x: int|
        0 <= x < before.len() && #[trigger] after[x] > before[x] ==> levels[head_of(net, x) as int] >= 0
            && levels[tail_of(net, x) as int] == levels[head_of(net, x) as int] + 1
    &&& exists|f: int| #[trigger] moves_flow(net, n, before, after, s, t, f)
    &&& forall|es: Seq<int>| !#[trigger] level_path(net, after, levels, es, s as int, t as int)
}

/// Going from `before` to `after` moves the positive amount `f` from `s` to `t`: the net
/// flow out of every vertex set changes as by a flow of `f` from `s` to `t`.
pub open spec fn moves_flow(
    net: Seq<(usize, usize, u64)>,
    n: nat,
    before: Seq<u64>,
    after: Seq<u64>,
    s: usize,
    t: usize,
    f: int,
) -> bool {
    &&& f > 0
    &&& forall|side: Seq<bool>|
        side.len() == n ==> #[trigger] flow_across(net, after, side, net.len() as int) == flow_across(
            net,
            before,
            side,
            net.len() as int,
        ) + shift(side, s, t, f)
}

/// `after` comes from `before` by one phase of Dinic's algorithm.
pub open spec fn dinic_phase(
    net: Seq<(usize, usize, u64)>,
    n: nat,
    before: Seq<u64>,
    after: Seq<u64>,
    s: usize,
    t: usize,
) -> bool {
    exists|levels: Seq<i32>| #[trigger] phase_with_levels(net, n, before, after, levels, s, t)
}

/// Step `i` of the run `run` is a phase of Dinic's algorithm.
pub open spec fn phase_at(net: Seq<(usize, usize, u64)>, n: nat, run: Seq<Seq<u64>>, i: int, s: usize, t: usize) -> bool {
    dinic_phase(net, n, run[i], run[i + 1], s, t)
}

/// `run` lists the residual capacities of a run of Dinic's algorithm: the zero flow, then
/// the capacities after each phase.
pub open spec fn dinic_run(net: Seq<(usize, usize, u64)>, n: nat, run: Seq<Seq<u64>>, s: usize, t: usize) -> bool {
    &&& run.len() >= 1
    &&& run[0] == zero_flow_caps(net)
    &&& forall|i: int| 0 <= i < run.len() - 1 ==> #[trigger] phase_at(net, n, run, i, s, t)
}

/// The facts known at the end of a phase of `max_flow_min_cut` make it a phase of Dinic's
/// algorithm.
proof fn lemma_phase_done(
    net: Seq<(usize, usize, u64)>,
    n: nat,
    before: Seq<u64>,
    after: Seq<u64>,
    levels: Seq<i32>,
    s: usize,
    t: usize,
    f0: int,
    f1: int,
)
    requires
        levels.len() == n,
        s < n,
        t < n,
        levels_reached(net, before, levels, s as int),
        levels_shortest(net, before, levels, s as int, t as int),
        levels[t as int] >= 0,
        feasible(net, after),
        before.len() == after.len(),
        forall|x: int|
            0 <= x < before.len() && #[trigger] after[x] < before[x] ==> levels[tail_of(net, x) as int] >= 0
                && levels[head_of(net, x) as int] == levels[tail_of(net, x) as int] + 1,
        forall|x: int|
            0 <= x < before.len() && #[trigger] after[x] > before[x] ==> levels[head_of(net, x) as int] >= 0
                && levels[tail_of(net, x) as int] == levels[head_of(net, x) as int] + 1,
        forall|side: Seq<bool>|
            side.len() == n ==> #[trigger] flow_across(net, before, side, net.len() as int) == shift(side, s, t, f0),
        forall|side: Seq<bool>|
            side.len() == n ==> #[trigger] flow_across(net, after, side, net.len() as int) == shift(side, s, t, f1),
        f0 < f1,
        walks_at_least(net, after, s as int, t as int, levels[t as int] + 1),
        levels[s as int] == 0,
    ensures
        dinic_phase(net, n, before, after, s, t),
{
    assert(moves_flow(net, n, before, after, s, t, f1 - f0)) by {
        assert forall|side: Seq<bool>| side.len() == n implies #[trigger] flow_across(net, after, side, net.len() as int)
            == flow_across(net, before, side, net.len() as int) + shift(side, s, t, f1 - f0) by {
            assert(flow_across(net, before, side, net.len() as int) == shift(side, s, t, f0));
        }
    }
    assert forall|es: Seq<int>| !#[trigger] level_path(net, after, levels, es, s as int, t as int) by {
        if level_path(net, after, levels, es, s as int, t as int) {
            lemma_level_path_walk(net, after, levels, es, s as int, t as int);
            reveal(walks_at_least);
        }
    }
    assert(phase_with_levels(net, n, before, after, levels, s, t));
}

/// A path of the level graph is a walk, and it climbs one level per edge.
proof fn lemma_level_path_walk(
    net: Seq<(usize, usize, u64)>,
    caps: Seq<u64>,
    levels: Seq<i32>,
    es: Seq<int>,
    u: int,
    t: int,
)
    requires
        level_path(net, caps, levels, es, u, t),
    ensures
        res_walk(net, caps, es, u, t),
        levels[t] == levels[u] + es.len(),
    decreases es.len(),
{
    if es.len() > 0 {
        lemma_level_path_walk(net, caps, levels, es.drop_first(), head_of(net, es[0]) as int, t);
    }
}

/// Vertex `v` is entered by a residual edge with capacity left from a vertex one level lower.
#[verifier::opaque]
pub open spec fn has_pred(net: Seq<(usize, usize, u64)>, caps: Seq<u64>, levels: Seq<i32>, v: int) -> bool {
    exists|e: int|
        0 <= e < caps.len() && head_of(net, e) == v && #[trigger] caps[e] > 0 && levels[tail_of(
            net,
            e,
        ) as int] == levels[v] - 1
}

/// An edge of the residual graph.
#[derive(Clone, Copy, Debug)]
struct ResidualEdge {
    to: usize,
    capacity: u64,
    reverse_edge_index: usize,
}

/// The residual graph of Dinic's algorithm: the residual edges, and for each vertex the
/// indices of the residual edges that leave it.
struct ResidualGraph {
    adj: Vec<Vec<usize>>,
    edges: Vec<ResidualEdge>,
    vertex_count: usize,
    /// The network edges (those with both endpoints in range), in order.
    network: Ghost<Seq<(usize, usize, u64)>>,
    /// For each residual edge, its position in the list of its tail.
    slot: Ghost<Seq<int>>,
}

impl ResidualGraph {
    spec fn net(&self) -> Seq<(usize, usize, u64)> {
        self.network@
    }

    spec fn caps(&self) -> Seq<u64> {
        Seq::new(self.edges@.len(), |e: int| self.edges@[e].capacity)
    }

    /// The shape of the residual graph: pairing of edges and adjacency lists.
    #[verifier::opaque]
    spec fn shape_wf(&self) -> bool {
        let net = self.network@;
        let n = self.vertex_count;
        &&& self.adj@.len() == n
        &&& self.edges@.len() == 2 * net.len()
        &&& self.slot@.len() == self.edges@.len()
        &&& endpoints_below(net, n as nat)
        &&& forall|e: int|
            0 <= e < self.edges@.len() ==> (#[trigger] self.edges@[e]).to == head_of(net, e)
                && self.edges@[e].reverse_edge_index == partner(e)
        &&& forall|u: int, i: int|
            0 <= u < n && 0 <= i < self.adj@[u]@.len() ==> #[trigger] self.adj@[u]@[i]
                < self.edges@.len() && tail_of(net, self.adj@[u]@[i] as int) == u
        &&& forall|e: int|
            0 <= e < self.edges@.len() ==> 0 <= #[trigger] self.slot@[e] < self.adj@[tail_of(
                net,
                e,
            ) as int]@.len() && self.adj@[tail_of(net, e) as int]@[self.slot@[e]] == e
    }

    spec fn wf(&self) -> bool {
        self.shape_wf() && feasible(self.net(), self.caps())
    }

    /// `other` differs from `self` at most in residual capacities.
    spec fn same_shape(&self, other: &ResidualGraph) -> bool {
        &&& self.adj@ == other.adj@
        &&& self.vertex_count == other.vertex_count
        &&& self.network@ == other.network@
        &&& self.slot@ == other.slot@
        &&& self.edges@.len() == other.edges@.len()
        &&& forall|e: int|
            0 <= e < self.edges@.len() ==> (#[trigger] self.edges@[e]).to == other.edges@[e].to
                && self.edges@[e].reverse_edge_index == other.edges@[e].reverse_edge_index
    }

    proof fn lemma_shape(&self)
        requires
            self.shape_wf(),
        ensures
            self.adj@.len() == self.vertex_count,
            self.edges@.len() == 2 * self.net().len(),
            self.caps().len() == self.edges@.len(),
            endpoints_below(self.net(), self.vertex_count as nat),
    {
        reveal(ResidualGraph::shape_wf);
    }

    proof fn lemma_adj(&self, u: int, i: int)
        requires
            self.shape_wf(),
            0 <= u < self.vertex_count,
            0 <= i < self.adj@[u]@.len(),
        ensures
            self.adj@[u]@[i] < self.edges@.len(),
            tail_of(self.net(), self.adj@[u]@[i] as int) == u,
    {
        reveal(ResidualGraph::shape_wf);
    }

    proof fn lemma_edge(&self, e: int)
        requires
            self.shape_wf(),
            0 <= e < self.edges@.len(),
        ensures
            self.edges@[e].to == head_of(self.net(), e),
            self.edges@[e].reverse_edge_index == partner(e),
            0 <= partner(e) < self.edges@.len(),
            tail_of(self.net(), e) < self.vertex_count,
            head_of(self.net(), e) < self.vertex_count,
            tail_of(self.net(), partner(e)) == head_of(self.net(), e),
            head_of(self.net(), partner(e)) == tail_of(self.net(), e),
            0 <= self.slot@[e] < self.adj@[tail_of(self.net(), e) as int]@.len(),
            self.adj@[tail_of(self.net(), e) as int]@[self.slot@[e]] == e,
    {
        reveal(ResidualGraph::shape_wf);
        let k = e / 2;
        assert(self.net()[k].0 < self.vertex_count && self.net()[k].1 < self.vertex_count);
    }

    proof fn lemma_same_shape(&self, other: &ResidualGraph)
        requires
            self.shape_wf(),
            other.same_shape(self),
        ensures
            other.shape_wf(),
    {
        reveal(ResidualGraph::shape_wf);
        assert forall|e: int|
            0 <= e < other.edges@.len() implies (#[trigger] other.edges@[e]).to == head_of(other.net(), e)
                && other.edges@[e].reverse_edge_index == partner(e) by {
            assert(self.edges@[e].to == head_of(self.net(), e));
        }
        assert forall|u: int, i: int|
            0 <= u < other.vertex_count && 0 <= i < other.adj@[u]@.len() implies #[trigger] other.adj@[u]@[i]
                < other.edges@.len() && tail_of(other.net(), other.adj@[u]@[i] as int) == u by {
            assert(self.adj@[u] == other.adj@[u]);
        }
        assert forall|e: int|
            0 <= e < other.edges@.len() implies 0 <= #[trigger] other.slot@[e] < other.adj@[tail_of(
                other.net(),
                e,
            ) as int]@.len() && other.adj@[tail_of(other.net(), e) as int]@[other.slot@[e]] == e by {
            assert(self.adj@[tail_of(self.net(), e) as int] == other.adj@[tail_of(other.net(), e) as int]);
        }
    }

    proof fn lemma_same_shape_trans(&self, b: &ResidualGraph, c: &ResidualGraph)
        requires
            b.same_shape(self),
            c.same_shape(b),
        ensures
            c.same_shape(self),
    {
        assert forall|e: int| 0 <= e < c.edges@.len() implies (#[trigger] c.edges@[e]).to == self.edges@[e].to
            && c.edges@[e].reverse_edge_index == self.edges@[e].reverse_edge_index by {
            assert(b.edges@[e].to == self.edges@[e].to);
        }
    }

    /// Builds the residual graph of the zero flow; edges with an endpoint out of range are left out.
    fn new_from_original<G: OriginalGraphView>(original_graph: &G) -> (g: Self)
        requires
            total_capacity(original_graph.spec_edges()) <= u64::MAX,
            2 * original_graph.spec_edges().len() <= usize::MAX,
        ensures
            g.wf(),
            g.vertex_count == original_graph.spec_vertex_count(),
            g.net() == edges_within(original_graph.spec_edges(), g.vertex_count as nat),
            forall|e: int| 0 <= e < g.edges@.len() && e % 2 == 1 ==> g.edges@[e].capacity == 0,
            forall|e: int| 0 <= e < g.edges@.len() && e % 2 == 0 ==> g.edges@[e].capacity == g.net()[e / 2].2,
            forall|w: int, i: int, j: int|
                0 <= w < g.vertex_count && 0 <= i < j < g.adj@[w]@.len() ==> #[trigger] g.adj@[w]@[i]
                    < #[trigger] g.adj@[w]@[j],
            forall|w: int, i: int|
                0 <= w < g.vertex_count && 0 <= i < g.adj@[w]@.len() ==> {
                    let e = #[trigger] g.adj@[w]@[i] as int;
                    let r = g.edges@[e].reverse_edge_index as int;
                    &&& 0 <= e < g.edges@.len()
                    &&& g.edges@[e].to < g.vertex_count
                    &&& 0 <= r < g.edges@.len()
                    &&& r != e
                    &&& g.edges@[r].to == w
                    &&& g.edges@[r].reverse_edge_index == e
                    &&& exists|j: int| 0 <= j < g.adj@[g.edges@[e].to as int]@.len() && #[trigger] g.adj@[g.edges@[e].to as int]@[j] == r
                },
    {
        let vertex_count = original_graph.vertex_count();
        let mut adj: Vec<Vec<usize>> = Vec::new();
        let mut j: usize = 0;
        while j < vertex_count
            invariant
                j <= vertex_count,
                adj@.len() == j,
                forall|u: int| 0 <= u < j ==> (#[trigger] adj@[u])@.len() == 0,
            decreases vertex_count - j,
        {
            adj.push(Vec::new());
            j = j + 1;
        }
        let all = original_graph.all_edges();
        let ghost full = all@;
        let ghost n = vertex_count as nat;
        let mut edges: Vec<ResidualEdge> = Vec::new();
        let ghost mut net: Seq<(usize, usize, u64)> = Seq::empty();
        let ghost mut slot: Seq<int> = Seq::empty();
        let mut idx: usize = 0;
        proof {
            reveal(ResidualGraph::shape_wf);
            assert(full.take(0) =~= Seq::<(usize, usize, u64)>::empty());
            let g = ResidualGraph { adj, edges, vertex_count, network: Ghost(net), slot: Ghost(slot) };
            assert(g.shape_wf());
            assert(feasible(net, g.caps()));
        }
        while idx < all.len()
            invariant
                full == all@,
                n == vertex_count,
                idx <= all.len(),
                net == edges_within(full.take(idx as int), n),
                total_capacity(full) <= u64::MAX,
                2 * full.len() <= usize::MAX,
                net.len() <= idx,
                ({
                    let g = ResidualGraph {
                        adj,
                        edges,
                        vertex_count,
                        network: Ghost(net),
                        slot: Ghost(slot),
                    };
                    g.wf()
                }),
                forall|e: int| 0 <= e < edges@.len() && e % 2 == 1 ==> edges@[e].capacity == 0,
                forall|e: int| 0 <= e < edges@.len() && e % 2 == 0 ==> edges@[e].capacity == net[e / 2].2,
                adj@.len() == vertex_count,
                forall|w: int, i: int| 0 <= w < vertex_count && 0 <= i < adj@[w]@.len() ==> #[trigger] adj@[w]@[i] < edges@.len(),
                forall|w: int, i: int, j: int|
                    0 <= w < vertex_count && 0 <= i < j < adj@[w]@.len() ==> #[trigger] adj@[w]@[i] < #[trigger] adj@[w]@[j],
            decreases all.len() - idx,
        {
            let (u, v, capacity) = all[idx];
            proof {
                reveal(ResidualGraph::shape_wf);
                assert(full.take(idx + 1).drop_last() =~= full.take(idx as int));
                assert(full.take(idx + 1).last() == full[idx as int]);
            }
            if u >= vertex_count || v >= vertex_count {
                idx = idx + 1;
                continue;
            }
            let ef = edges.len();
            let eb = ef + 1;
            let ghost old_adj = adj@;
            let ghost old_edges = edges@;
            let ghost old_net = net;
            let ghost old_slot = slot;
            let su = adj[u].len();
            adj[u].push(ef);
            let sv = adj[v].len();
            adj[v].push(eb);
            edges.push(ResidualEdge { to: v, capacity, reverse_edge_index: eb });
            edges.push(ResidualEdge { to: u, capacity: 0, reverse_edge_index: ef });
            proof {
                net = net.push((u, v, capacity));
                slot = slot.push(su as int).push(sv as int);
                reveal(ResidualGraph::shape_wf);
                lemma_total_capacity_prefix(full, idx as int + 1);
                lemma_edges_within_total(full.take(idx + 1), n);
                let g = ResidualGraph { adj, edges, vertex_count, network: Ghost(net), slot: Ghost(slot) };
                let k = old_net.len() as int;
                assert(ef == 2 * k);
                assert forall|x: int| 0 <= x < k implies #[trigger] net[x] == old_net[x] by {}
                assert(net[k] == (u, v, capacity));
                assert forall|e: int| 0 <= e < old_edges.len() implies tail_of(net, e) == tail_of(old_net, e)
                    && head_of(net, e) == head_of(old_net, e) by {
                    assert(e / 2 < k);
                }
                assert(tail_of(net, ef as int) == u && head_of(net, ef as int) == v);
                assert(tail_of(net, eb as int) == v && head_of(net, eb as int) == u);
                assert(g.shape_wf()) by {
                    assert forall|e: int| 0 <= e < g.edges@.len() implies (#[trigger] g.edges@[e]).to == head_of(net, e)
                        && g.edges@[e].reverse_edge_index == partner(e) by {
                        if e < old_edges.len() {
                            assert(g.edges@[e] == old_edges[e]);
                        }
                    }
                    assert forall|w: int, i: int|
                        0 <= w < vertex_count && 0 <= i < g.adj@[w]@.len() implies #[trigger] g.adj@[w]@[i]
                            < g.edges@.len() && tail_of(net, g.adj@[w]@[i] as int) == w by {
                        if i < old_adj[w]@.len() {
                            assert(g.adj@[w]@[i] == old_adj[w]@[i]);
                        }
                    }
                    assert forall|e: int| 0 <= e < g.edges@.len() implies 0 <= #[trigger] g.slot@[e]
                        < g.adj@[tail_of(net, e) as int]@.len() && g.adj@[tail_of(net, e) as int]@[g.slot@[e]] == e by {
                        if e < old_edges.len() {
                            assert(g.slot@[e] == old_slot[e]);
                        }
                    }
                }
                assert(feasible(net, g.caps())) by {
                    let old_caps = Seq::new(old_edges.len(), |e: int| old_edges[e].capacity);
                    assert(feasible(old_net, old_caps));
                    assert forall|x: int| 0 <= x < net.len() implies g.caps()[2 * x] + g.caps()[2 * x + 1] == (#[trigger] net[x]).2 by {
                        if x < k {
                            assert(old_caps[2 * x] + old_caps[2 * x + 1] == old_net[x].2);
                            assert(g.edges@[2 * x] == old_edges[2 * x]);
                            assert(g.edges@[2 * x + 1] == old_edges[2 * x + 1]);
                        }
                    }
                }
            }
            idx = idx + 1;
        }
        proof {
            assert(full.take(all.len() as int) =~= full);
        }
        let g = ResidualGraph {
            adj,
            edges,
            vertex_count,
            network: Ghost(net),
            slot: Ghost(slot),
        };
        proof {
            assert forall|w: int, i: int|
                0 <= w < g.vertex_count && 0 <= i < g.adj@[w]@.len() implies {
                    let e = #[trigger] g.adj@[w]@[i] as int;
                    let r = g.edges@[e].reverse_edge_index as int;
                    &&& 0 <= e < g.edges@.len()
                    &&& g.edges@[e].to < g.vertex_count
                    &&& 0 <= r < g.edges@.len()
                    &&& r != e
                    &&& g.edges@[r].to == w
                    &&& g.edges@[r].reverse_edge_index == e
                    &&& exists|j: int| 0 <= j < g.adj@[g.edges@[e].to as int]@.len() && #[trigger] g.adj@[g.edges@[e].to as int]@[j] == r
                } by {
                g.lemma_adj(w, i);
                let e = g.adj@[w]@[i] as int;
                g.lemma_edge(e);
                let r = partner(e);
                g.lemma_edge(r);
                assert(partner(r) == e);
                assert(g.adj@[g.edges@[e].to as int]@[g.slot@[r]] == r);
            }
        }
        g
    }
    /// All residual edges leaving `v` with capacity left enter vertices that have a level,
    /// at most one more than that of `v`.
    #[verifier::opaque]
    spec fn closed_at(&self, levels: Seq<i32>, v: int) -> bool {
        forall|i: int|
            0 <= i < self.adj@[v]@.len() && #[trigger] self.caps()[self.adj@[v]@[i] as int] > 0
                ==> 0 <= levels[head_of(self.net(), self.adj@[v]@[i] as int) as int] <= levels[v] + 1
    }

    /// The levels of a breadth-first search from `source` along residual edges with
    /// capacity left: `source` alone has level 0, every other vertex with a level is
    /// entered by such an edge from a vertex one level lower, and `-1` means no level.
    spec fn level_facts(&self, levels: Seq<i32>, source: usize) -> bool {
        let n = self.vertex_count;
        &&& levels.len() == n
        &&& source < n
        &&& forall|v: int| 0 <= v < n ==> -1 <= #[trigger] levels[v] < n
        &&& levels[source as int] == 0
        &&& forall|v: int| 0 <= v < n && #[trigger] levels[v] == 0 ==> v == source
        &&& forall|v: int| 0 <= v < n && #[trigger] levels[v] > 0 ==> has_pred(self.net(), self.caps(), levels, v)
    }

    /// The level facts during the search, with levels bounded by the number of vertices
    /// that have one.
    #[verifier::opaque]
    spec fn search_levels(&self, levels: Seq<i32>, source: usize) -> bool {
        let n = self.vertex_count;
        &&& levels.len() == n
        &&& source < n
        &&& count_unleveled(levels) <= n
        &&& forall|v: int| 0 <= v < n ==> -1 <= #[trigger] levels[v] < n - count_unleveled(levels)
        &&& levels[source as int] == 0
        &&& forall|v: int| 0 <= v < n && #[trigger] levels[v] == 0 ==> v == source
        &&& forall|v: int| 0 <= v < n && #[trigger] levels[v] > 0 ==> has_pred(self.net(), self.caps(), levels, v)
    }

    proof fn lemma_search_levels_facts(&self, levels: Seq<i32>, source: usize)
        requires
            self.search_levels(levels, source),
        ensures
            self.level_facts(levels, source),
            levels.len() == self.vertex_count,
            levels[source as int] == 0,
            forall|v: int| 0 <= v < self.vertex_count ==> -1 <= #[trigger] levels[v] < self.vertex_count - count_unleveled(levels),
    {
        reveal(ResidualGraph::search_levels);
    }

    /// A vertex with a level is reached from `source` by a walk of that length, through
    /// the vertices one level lower.
    proof fn lemma_level_walk(&self, levels: Seq<i32>, source: usize, v: int) -> (es: Seq<int>)
        requires
            self.wf(),
            self.level_facts(levels, source),
            0 <= v < self.vertex_count,
            levels[v] >= 0,
        ensures
            res_walk(self.net(), self.caps(), es, source as int, v),
            es.len() == levels[v],
        decreases levels[v],
    {
        if levels[v] == 0 {
            Seq::empty()
        } else {
            assert(has_pred(self.net(), self.caps(), levels, v));
            reveal(has_pred);
            let e = choose|e: int|
                0 <= e < self.caps().len() && head_of(self.net(), e) == v && #[trigger] self.caps()[e] > 0
                    && levels[tail_of(self.net(), e) as int] == levels[v] - 1;
            self.lemma_shape();
            self.lemma_edge(e);
            let t = tail_of(self.net(), e) as int;
            let front = self.lemma_level_walk(levels, source, t);
            lemma_walk_push(self.net(), self.caps(), front, source as int, t, e);
            front.push(e)
        }
    }

    /// Levels that are tight below `bnd` and at most `bnd + 1` are shortest walk lengths: a
    /// walk from `source` to a vertex with a level is at least that long, and one to a
    /// vertex without a level is longer than `bnd`.
    proof fn lemma_level_shortest(&self, levels: Seq<i32>, source: usize, bnd: int, es: Seq<int>, v: int)
        requires
            self.wf(),
            self.level_facts(levels, source),
            0 <= bnd,
            levels_tight(self.net(), self.caps(), levels, bnd),
            forall|x: int| 0 <= x < self.vertex_count ==> #[trigger] levels[x] <= bnd + 1,
            res_walk(self.net(), self.caps(), es, source as int, v),
            0 <= v < self.vertex_count,
        ensures
            levels[v] >= 0 ==> levels[v] <= es.len(),
            levels[v] < 0 ==> bnd + 1 <= es.len(),
    {
        let phi = |x: int|
            if 0 <= levels[x] <= bnd {
                levels[x] as int
            } else {
                bnd + 1
            };
        self.lemma_shape();
        assert forall|e: int|
            0 <= e < self.caps().len() && #[trigger] self.caps()[e] > 0 implies phi(head_of(self.net(), e) as int)
                <= phi(tail_of(self.net(), e) as int) + 1 by {
            self.lemma_edge(e);
        }
        lemma_walk_potential(self.net(), self.caps(), es, source as int, v, phi);
    }

    /// Giving level `levels[u] + 1` to the head of an edge with capacity left leaving `u`.
    proof fn lemma_search_levels_assign(&self, levels: Seq<i32>, source: usize, u: int, e: int)
        requires
            self.wf(),
            self.search_levels(levels, source),
            self.vertex_count <= i32::MAX,
            0 <= u < self.vertex_count,
            levels[u] >= 0,
            0 <= e < self.edges@.len(),
            tail_of(self.net(), e) == u,
            self.caps()[e] > 0,
            levels[head_of(self.net(), e) as int] == -1,
        ensures
            levels[u] + 1 <= i32::MAX,
            self.search_levels(levels.update(head_of(self.net(), e) as int, (levels[u] + 1) as i32), source),
            count_unleveled(levels.update(head_of(self.net(), e) as int, (levels[u] + 1) as i32)) + 1
                == count_unleveled(levels),
    {
        reveal(ResidualGraph::search_levels);
        self.lemma_edge(e);
        let h = head_of(self.net(), e) as int;
        let x = (levels[u] + 1) as i32;
        let nl = levels.update(h, x);
        lemma_count_unleveled_assign(levels, h, x);
        lemma_count_unleveled_bound(levels);
        assert forall|v: int| 0 <= v < self.vertex_count && #[trigger] nl[v] > 0 implies has_pred(self.net(), self.caps(), nl, v) by {
            reveal(has_pred);
            if v == h {
                assert(self.caps()[e] > 0);
            } else {
                assert(has_pred(self.net(), self.caps(), levels, v));
                let e2 = choose|e2: int|
                    0 <= e2 < self.caps().len() && head_of(self.net(), e2) == v && #[trigger] self.caps()[e2]
                        > 0 && levels[tail_of(self.net(), e2) as int] == levels[v] - 1;
                self.lemma_edge(e2);
                assert(nl[tail_of(self.net(), e2) as int] == levels[tail_of(self.net(), e2) as int]);
            }
        }
    }

    /// A vertex that stays closed when more vertices get levels.
    proof fn lemma_closed_at_grow(&self, l1: Seq<i32>, l2: Seq<i32>, v: int)
        requires
            self.closed_at(l1, v),
            l1.len() == self.vertex_count,
            l1.len() == l2.len(),
            forall|x: int| 0 <= x < l1.len() && l1[x] >= 0 ==> #[trigger] l2[x] == l1[x],
            self.shape_wf(),
            0 <= v < self.vertex_count,
            l1[v] >= 0,
        ensures
            self.closed_at(l2, v),
    {
        reveal(ResidualGraph::closed_at);
        assert forall|i: int|
            0 <= i < self.adj@[v]@.len() && #[trigger] self.caps()[self.adj@[v]@[i] as int] > 0
                implies 0 <= l2[head_of(self.net(), self.adj@[v]@[i] as int) as int] <= l2[v] + 1 by {
            self.lemma_adj(v, i);
            self.lemma_edge(self.adj@[v]@[i] as int);
            assert(l1[head_of(self.net(), self.adj@[v]@[i] as int) as int] >= 0);
        }
    }

    /// All residual edges leaving `v` with capacity left enter marked vertices.
    #[verifier::opaque]
    spec fn marks_closed_at(&self, marks: Seq<bool>, v: int) -> bool {
        forall|i: int|
            0 <= i < self.adj@[v]@.len() && #[trigger] self.caps()[self.adj@[v]@[i] as int] > 0
                ==> marks[head_of(self.net(), self.adj@[v]@[i] as int) as int]
    }

    /// Vertex `x` is known to have no path to `sink` left in the level graph: all its
    /// residual edges have been passed over.
    spec fn dead_end(&self, ptr: Seq<usize>, sink: usize, x: int) -> bool {
        x != sink && ptr[x] >= self.adj@[x]@.len()
    }

    /// Residual edge `e` leaving `w` may be passed over: it is no edge of the level graph
    /// with capacity left, or it enters a dead end.
    spec fn may_skip(&self, levels: Seq<i32>, ptr: Seq<usize>, sink: usize, w: int, e: int) -> bool {
        !(levels[head_of(self.net(), e) as int] == levels[w] + 1 && self.caps()[e] > 0) || self.dead_end(
            ptr,
            sink,
            head_of(self.net(), e) as int,
        )
    }

    /// Every residual edge that the search has passed over may be passed over.
    #[verifier::opaque]
    spec fn passed_edges_dead(&self, levels: Seq<i32>, ptr: Seq<usize>, sink: usize) -> bool {
        forall|w: int, i: int|
            0 <= w < self.vertex_count && 0 <= i < ptr[w] && i < self.adj@[w]@.len() ==> #[trigger] self.may_skip(
                levels,
                ptr,
                sink,
                w,
                self.adj@[w]@[i] as int,
            )
    }

    /// Passing over one more edge of `u`, which may be passed over.
    proof fn lemma_pass_edge(&self, levels: Seq<i32>, ptr: Seq<usize>, sink: usize, u: int)
        requires
            self.shape_wf(),
            ptr.len() == self.vertex_count,
            levels.len() == self.vertex_count,
            0 <= u < self.vertex_count,
            ptr[u] < self.adj@[u]@.len(),
            self.passed_edges_dead(levels, ptr, sink),
            self.may_skip(levels, ptr, sink, u, self.adj@[u]@[ptr[u] as int] as int),
        ensures
            self.passed_edges_dead(levels, ptr.update(u, (ptr[u] + 1) as usize), sink),
    {
        reveal(ResidualGraph::passed_edges_dead);
        let p2 = ptr.update(u, (ptr[u] + 1) as usize);
        assert forall|w: int, i: int|
            0 <= w < self.vertex_count && 0 <= i < p2[w] && i < self.adj@[w]@.len() implies #[trigger] self.may_skip(
                levels,
                p2,
                sink,
                w,
                self.adj@[w]@[i] as int,
            ) by {
            self.lemma_adj(w, i);
            let e = self.adj@[w]@[i] as int;
            self.lemma_edge(e);
            if w == u && i == ptr[u] {
                assert(self.may_skip(levels, ptr, sink, u, e));
            } else {
                assert(self.may_skip(levels, ptr, sink, w, e));
            }
        }
    }

    /// Capacities that only go down, or go up on edges outside the level graph, keep
    /// passed-over edges passable.
    proof fn lemma_passed_edges_dead_caps(
        &self,
        other: &ResidualGraph,
        levels: Seq<i32>,
        ptr: Seq<usize>,
        sink: usize,
    )
        requires
            self.shape_wf(),
            other.same_shape(self),
            ptr.len() == self.vertex_count,
            levels.len() == self.vertex_count,
            self.passed_edges_dead(levels, ptr, sink),
            forall|x: int|
                0 <= x < self.caps().len() && #[trigger] other.caps()[x] > self.caps()[x] ==> levels[head_of(
                    self.net(),
                    x,
                ) as int] != levels[tail_of(self.net(), x) as int] + 1,
        ensures
            other.passed_edges_dead(levels, ptr, sink),
    {
        reveal(ResidualGraph::passed_edges_dead);
        self.lemma_shape();
        assert forall|w: int, i: int|
            0 <= w < other.vertex_count && 0 <= i < ptr[w] && i < other.adj@[w]@.len() implies #[trigger] other.may_skip(
                levels,
                ptr,
                sink,
                w,
                other.adj@[w]@[i] as int,
            ) by {
            assert(self.adj@[w] == other.adj@[w]);
            self.lemma_adj(w, i);
            let e = self.adj@[w]@[i] as int;
            assert(self.may_skip(levels, ptr, sink, w, e));
            assert(other.caps()[e] == other.edges@[e].capacity);
        }
    }

    /// When every edge the search passed over was passable and the source is a dead end,
    /// every vertex with a level is a dead end.
    proof fn lemma_leveled_dead(&self, levels: Seq<i32>, ptr: Seq<usize>, source: usize, sink: usize, l: int, v: int)
        requires
            self.wf(),
            self.level_facts(levels, source),
            ptr.len() == self.vertex_count,
            self.passed_edges_dead(levels, ptr, sink),
            self.dead_end(ptr, sink, source as int),
            0 <= v < self.vertex_count,
            levels[v] == l,
            l >= 0,
        ensures
            self.dead_end(ptr, sink, v),
        decreases l,
    {
        if l == 0 {
            assert(v == source);
        } else {
            assert(has_pred(self.net(), self.caps(), levels, v));
            reveal(has_pred);
            let e = choose|e: int|
                0 <= e < self.caps().len() && head_of(self.net(), e) == v && #[trigger] self.caps()[e]
                    > 0 && levels[tail_of(self.net(), e) as int] == levels[v] - 1;
            self.lemma_shape();
            self.lemma_edge(e);
            let t = tail_of(self.net(), e) as int;
            self.lemma_leveled_dead(levels, ptr, source, sink, l - 1, t);
            let i = self.slot@[e];
            reveal(ResidualGraph::passed_edges_dead);
            assert(self.may_skip(levels, ptr, sink, t, self.adj@[t]@[i] as int));
        }
    }

    /// After a phase on the level graph of `before`, the capped levels grow by at most one
    /// along each residual edge with capacity left, and exactly one only along edges of the
    /// level graph.
    proof fn lemma_phase_edge(&self, before: &ResidualGraph, levels: Seq<i32>, sink: usize, e: int)
        requires
            self.wf(),
            before.wf(),
            self.same_shape(before),
            levels.len() == before.vertex_count,
            sink < before.vertex_count,
            levels[sink as int] >= 0,
            levels_tight(before.net(), before.caps(), levels, levels[sink as int] as int),
            forall|x: int|
                0 <= x < before.caps().len() && #[trigger] self.caps()[x] > before.caps()[x] ==> levels[tail_of(
                    before.net(),
                    x,
                ) as int] == levels[head_of(before.net(), x) as int] + 1 && 0 <= levels[head_of(before.net(), x) as int]
                    && levels[tail_of(before.net(), x) as int] <= levels[sink as int],
            0 <= e < self.caps().len(),
            self.caps()[e] > 0,
        ensures
            capped_level(levels, levels[sink as int] as int, head_of(self.net(), e) as int) <= capped_level(
                levels,
                levels[sink as int] as int,
                tail_of(self.net(), e) as int,
            ) + 1,
            capped_level(levels, levels[sink as int] as int, head_of(self.net(), e) as int) == capped_level(
                levels,
                levels[sink as int] as int,
                tail_of(self.net(), e) as int,
            ) + 1 && capped_level(levels, levels[sink as int] as int, tail_of(self.net(), e) as int)
                < levels[sink as int] ==> levels[head_of(self.net(), e) as int] == levels[tail_of(self.net(), e) as int]
                + 1 && levels[tail_of(self.net(), e) as int] >= 0,
    {
        before.lemma_shape();
        self.lemma_shape();
        self.lemma_edge(e);
        if self.caps()[e] <= before.caps()[e] {
            assert(before.caps()[e] > 0);
        }
    }

    /// After a blocking phase, no walk from a dead end reaches the sink within the room that
    /// the capped levels leave.
    proof fn lemma_phase_walk(
        &self,
        before: &ResidualGraph,
        levels: Seq<i32>,
        ptr: Seq<usize>,
        sink: usize,
        a: int,
        es: Seq<int>,
    )
        requires
            self.wf(),
            before.wf(),
            self.same_shape(before),
            levels.len() == before.vertex_count,
            sink < before.vertex_count,
            levels[sink as int] >= 0,
            levels_tight(before.net(), before.caps(), levels, levels[sink as int] as int),
            forall|x: int|
                0 <= x < before.caps().len() && #[trigger] self.caps()[x] > before.caps()[x] ==> levels[tail_of(
                    before.net(),
                    x,
                ) as int] == levels[head_of(before.net(), x) as int] + 1 && 0 <= levels[head_of(before.net(), x) as int]
                    && levels[tail_of(before.net(), x) as int] <= levels[sink as int],
            ptr.len() == self.vertex_count,
            self.passed_edges_dead(levels, ptr, sink),
            0 <= a < self.vertex_count,
            self.dead_end(ptr, sink, a),
            res_walk(self.net(), self.caps(), es, a, sink as int),
        ensures
            capped_level(levels, levels[sink as int] as int, a) + es.len() > levels[sink as int],
        decreases es.len(),
    {
        if capped_level(levels, levels[sink as int] as int, a) + es.len() <= levels[sink as int] {
            self.lemma_phase_walk_step(before, levels, ptr, sink, a, es);
            self.lemma_phase_walk(before, levels, ptr, sink, head_of(self.net(), es[0]) as int, es.drop_first());
        }
    }

    /// The step of `lemma_phase_walk`: a walk from a dead end that fits in the room left
    /// starts along a level-graph edge into another dead end.
    proof fn lemma_phase_walk_step(
        &self,
        before: &ResidualGraph,
        levels: Seq<i32>,
        ptr: Seq<usize>,
        sink: usize,
        a: int,
        es: Seq<int>,
    )
        requires
            self.wf(),
            before.wf(),
            self.same_shape(before),
            levels.len() == before.vertex_count,
            sink < before.vertex_count,
            levels[sink as int] >= 0,
            levels_tight(before.net(), before.caps(), levels, levels[sink as int] as int),
            forall|x: int|
                0 <= x < before.caps().len() && #[trigger] self.caps()[x] > before.caps()[x] ==> levels[tail_of(
                    before.net(),
                    x,
                ) as int] == levels[head_of(before.net(), x) as int] + 1 && 0 <= levels[head_of(before.net(), x) as int]
                    && levels[tail_of(before.net(), x) as int] <= levels[sink as int],
            ptr.len() == self.vertex_count,
            self.passed_edges_dead(levels, ptr, sink),
            0 <= a < self.vertex_count,
            self.dead_end(ptr, sink, a),
            res_walk(self.net(), self.caps(), es, a, sink as int),
            capped_level(levels, levels[sink as int] as int, a) + es.len() <= levels[sink as int],
        ensures
            es.len() > 0,
            self.dead_end(ptr, sink, head_of(self.net(), es[0]) as int),
            capped_level(levels, levels[sink as int] as int, head_of(self.net(), es[0]) as int) + es.len() - 1
                <= levels[sink as int],
            res_walk(self.net(), self.caps(), es.drop_first(), head_of(self.net(), es[0]) as int, sink as int),
            0 <= head_of(self.net(), es[0]) < self.vertex_count,
    {
        let top = levels[sink as int] as int;
        let phi = |v: int| capped_level(levels, top, v);
        self.lemma_shape();
        assert forall|x: int| 0 <= x < self.caps().len() && #[trigger] self.caps()[x] > 0 implies phi(
            head_of(self.net(), x) as int,
        ) <= phi(tail_of(self.net(), x) as int) + 1 by {
            self.lemma_phase_edge(before, levels, sink, x);
        }
        let e = es[0];
        let h = head_of(self.net(), e) as int;
        let rest = es.drop_first();
        lemma_walk_potential(self.net(), self.caps(), rest, h, sink as int, phi);
        self.lemma_phase_edge(before, levels, sink, e);
        self.lemma_edge(e);
        let i = self.slot@[e];
        reveal(ResidualGraph::passed_edges_dead);
        assert(self.may_skip(levels, ptr, sink, a, self.adj@[a]@[i] as int));
    }

    /// Pushes `flow_amount` along the `edge_idx_in_u`-th residual edge leaving `u` and
    /// gives it back to the paired edge.
    fn push_flow_on_edge(&mut self, u: usize, edge_idx_in_u: usize, flow_amount: u64)
        requires
            old(self).wf(),
            flow_amount > 0 ==> u < old(self).vertex_count,
            flow_amount > 0 ==> edge_idx_in_u < old(self).adj@[u as int]@.len(),
            flow_amount > 0 ==> flow_amount <= old(self).caps()[old(self).adj@[u as int]@[edge_idx_in_u as int] as int],
        ensures
            final(self).wf(),
            final(self).same_shape(old(self)),
            flow_amount == 0 ==> *final(self) == *old(self),
            flow_amount > 0 ==> ({
                let e = old(self).adj@[u as int]@[edge_idx_in_u as int] as int;
                final(self).caps() == old(self).caps().update(e, (old(self).caps()[e] - flow_amount) as u64).update(
                    partner(e),
                    (old(self).caps()[partner(e)] + flow_amount) as u64,
                )
            }),
    {
        if flow_amount == 0 {
            proof {
                self.lemma_same_shape(self);
            }
            return;
        }
        let ghost e = self.adj@[u as int]@[edge_idx_in_u as int] as int;
        let ghost old_caps = self.caps();
        proof {
            self.lemma_shape();
            self.lemma_adj(u as int, edge_idx_in_u as int);
            self.lemma_edge(e);
        }
        let edge = self.adj[u][edge_idx_in_u];
        proof {
            let k = e / 2;
            assert(old_caps[2 * k] + old_caps[2 * k + 1] == self.net()[k].2);
            assert(partner(e) == 2 * k || partner(e) == 2 * k + 1);
            assert(e == 2 * k || e == 2 * k + 1);
        }
        self.edges[edge].capacity = self.edges[edge].capacity - flow_amount;
        let r = self.edges[edge].reverse_edge_index;
        self.edges[r].capacity = self.edges[r].capacity + flow_amount;
        proof {
            let new_caps = old_caps.update(e, (old_caps[e] - flow_amount) as u64).update(
                partner(e),
                (old_caps[partner(e)] + flow_amount) as u64,
            );
            assert(self.caps() =~= new_caps);
            old(self).lemma_same_shape(self);
            assert forall|k: int| 0 <= k < self.net().len() implies self.caps()[2 * k] + self.caps()[2 * k + 1] == (#[trigger] self.net()[k]).2 by {
                assert(old_caps[2 * k] + old_caps[2 * k + 1] == self.net()[k].2);
            }
        }
    }
}

/// Dinic's max-flow algorithm, with a limit on the number of phases.
#[derive(Debug, Clone, Copy)]
pub struct DinicSolver {
    max_iterations: usize,
}

impl DinicSolver {
    /// The limit on the number of phases.
    pub closed spec fn iteration_limit(&self) -> nat {
        self.max_iterations as nat
    }

    /// A solver with the default limit of 100 000 phases.
    pub fn new() -> (solver: Self)
        ensures
            solver.iteration_limit() == 100_000,
    {
        DinicSolver { max_iterations: 100_000 }
    }

    /// A solver with the given limit on the number of phases.
    pub fn with_max_iterations(max_iterations: usize) -> (solver: Self)
        ensures
            solver.iteration_limit() == max_iterations,
    {
        DinicSolver { max_iterations }
    }

    /// Breadth-first search from `source` along residual edges with capacity left; stops
    /// when `sink` is taken from the queue. Vertices not reached keep level `-1`.
    fn build_level_graph(&self, graph: &ResidualGraph, source: usize, sink: usize) -> (levels: Vec<i32>)
        requires
            graph.wf(),
            graph.vertex_count <= i32::MAX,
        ensures
            levels@.len() == graph.vertex_count,
            source >= graph.vertex_count ==> forall|v: int| 0 <= v < graph.vertex_count ==> #[trigger] levels@[v] == -1,
            source < graph.vertex_count ==> graph.level_facts(levels@, source),
            source < graph.vertex_count ==> levels_tight(
                graph.net(),
                graph.caps(),
                levels@,
                if sink < levels@.len() && levels@[sink as int] >= 0 {
                    levels@[sink as int] as int
                } else {
                    graph.vertex_count as int
                },
            ),
            source < graph.vertex_count && (sink < levels@.len() && levels@[sink as int] >= 0) ==> forall|v: int|
                0 <= v < graph.vertex_count ==> #[trigger] levels@[v] <= levels@[sink as int] + 1,
            source < graph.vertex_count && !(sink < levels@.len() && levels@[sink as int] >= 0) ==> closed(graph.net(), graph.caps(), leveled_side(levels@)),
            source < graph.vertex_count ==> levels_reached(graph.net(), graph.caps(), levels@, source as int),
            source < graph.vertex_count ==> levels_shortest(graph.net(), graph.caps(), levels@, source as int, sink as int),
    {
        let n = graph.vertex_count;
        let mut levels: Vec<i32> = vec![-1; n];
        if source >= n {
            proof {
                assert forall|v: int| 0 <= v < n implies #[trigger] levels@[v] == -1 by {
                    assert(cloned(-1i32, levels@[v]));
                }
            }
            return levels;
        }
        proof {
            graph.lemma_shape();
            assert forall|v: int| 0 <= v < n implies levels@[v] == -1 by {
                assert(cloned(-1i32, levels@[v]));
            }
            lemma_count_unleveled_all(levels@);
            lemma_count_unleveled_assign(levels@, source as int, 0);
        }
        levels[source] = 0;
        proof {
            reveal(ResidualGraph::search_levels);
            assert forall|v: int| 0 <= v < n && #[trigger] levels@[v] == 0 implies v == source by {
                if v != source {
                    assert(cloned(-1i32, levels@[v]));
                }
            }
            assert forall|v: int| 0 <= v < n implies -1 <= #[trigger] levels@[v] < n - count_unleveled(levels@) by {
                if v != source {
                    assert(cloned(-1i32, levels@[v]));
                }
            }
            assert(graph.search_levels(levels@, source));
        }
        let mut queue: VecDeque<usize> = VecDeque::new();
        queue.push_back(source);
        proof {
            assert(queue@[0] == source);
            assert forall|v: int|
                0 <= v < n && #[trigger] levels@[v] >= 0 implies queue@.contains(v as usize) || graph.closed_at(levels@, v) by {
                if v != source {
                    assert(cloned(-1i32, levels@[v]));
                }
            }
            assert forall|v: int| 0 <= v < n && #[trigger] levels@[v] >= 0 implies levels@[v] <= levels@[queue@[0] as int] + 1 by {
                if v != source {
                    assert(cloned(-1i32, levels@[v]));
                }
            }
            if sink < levels@.len() && levels@[sink as int] >= 0 {
                if sink != source {
                    assert(cloned(-1i32, levels@[sink as int]));
                }
                assert(queue@[0] == sink);
            }
        }
        loop
            invariant_except_break
                forall|v: int|
                    0 <= v < n && #[trigger] levels@[v] >= 0 ==> queue@.contains(v as usize) || graph.closed_at(levels@, v),
                (sink < levels@.len() && levels@[sink as int] >= 0) ==> queue@.contains(sink),
                queue@.len() > 0 ==> forall|v: int|
                    0 <= v < n && #[trigger] levels@[v] >= 0 ==> levels@[v] <= levels@[queue@[0] as int] + 1,
                forall|i: int, j: int|
                    0 <= i < j < queue@.len() ==> levels@[#[trigger] queue@[i] as int] <= levels@[#[trigger] queue@[j] as int],
            invariant
                graph.wf(),
                n == graph.vertex_count,
                n <= i32::MAX,
                graph.search_levels(levels@, source),
                forall|j: int| 0 <= j < queue@.len() ==> #[trigger] queue@[j] < n && levels@[queue@[j] as int] >= 0,
            ensures
                !(sink < levels@.len() && levels@[sink as int] >= 0) ==> forall|v: int| 0 <= v < n && #[trigger] levels@[v] >= 0 ==> graph.closed_at(levels@, v),
                (sink < levels@.len() && levels@[sink as int] >= 0) ==> forall|v: int|
                    0 <= v < n && #[trigger] levels@[v] >= 0 ==> levels@[v] <= levels@[sink as int] + 1 && (levels@[v]
                        < levels@[sink as int] ==> graph.closed_at(levels@, v)),
            decreases 2 * count_unleveled(levels@) + queue@.len(),
        {
            let ghost q0 = queue@;
            match queue.pop_front() {
                None => {
                    break;
                },
                Some(u) => {
                    proof {
                        graph.lemma_search_levels_facts(levels@, source);
                        graph.lemma_shape();
                    }
                    if u == sink {
                        assert(q0[0] == u);
                        proof {
                            assert forall|v: int|
                                0 <= v < n && #[trigger] levels@[v] >= 0 implies levels@[v] <= levels@[sink as int] + 1 && (
                                levels@[v] < levels@[sink as int] ==> graph.closed_at(levels@, v)) by {
                                if levels@[v] < levels@[sink as int] && q0.contains(v as usize) {
                                    let j = choose|j: int| 0 <= j < q0.len() && q0[j] == v as usize;
                                    if j > 0 {
                                        assert(levels@[q0[0] as int] <= levels@[q0[j] as int]);
                                    }
                                }
                            }
                        }
                        break;
                    }
                    assert(q0[0] == u);
                    let ghost levels0 = levels@;
                    let ghost lu = levels@[u as int] as int;
                    proof {
                        assert forall|v: int|
                            0 <= v < n && #[trigger] levels@[v] >= 0 implies v == u || queue@.contains(v as usize)
                                || levels0[v] >= 0 && graph.closed_at(levels0, v) by {
                            if v != u && q0.contains(v as usize) {
                                let j = choose|j: int| 0 <= j < q0.len() && q0[j] == v as usize;
                                assert(j != 0);
                                assert(queue@[j - 1] == v as usize);
                            }
                        }
                        assert forall|j: int| 0 <= j < queue@.len() implies lu <= levels@[#[trigger] queue@[j] as int] <= lu + 1 by {
                            assert(queue@[j] == q0[j + 1]);
                            assert(levels@[q0[0] as int] <= levels@[q0[j + 1] as int]);
                        }
                        assert forall|i: int, j: int|
                            0 <= i < j < queue@.len() implies levels@[#[trigger] queue@[i] as int] <= levels@[#[trigger] queue@[j] as int] by {
                            assert(queue@[i] == q0[i + 1]);
                            assert(queue@[j] == q0[j + 1]);
                        }
                        if sink < levels@.len() && levels@[sink as int] >= 0 {
                            let j = choose|j: int| 0 <= j < q0.len() && q0[j] == sink;
                            assert(j != 0);
                            assert(queue@[j - 1] == sink);
                        }
                    }
                    let ghost bound = 2 * count_unleveled(levels@) + queue@.len();
                    let mut i: usize = 0;
                    while i < graph.adj[u].len()
                        invariant
                            graph.wf(),
                            n == graph.vertex_count,
                                        u < n,
                            n <= i32::MAX,
                            graph.adj@.len() == n,
                            i <= graph.adj@[u as int]@.len(),
                            graph.search_levels(levels@, source),
                            levels@.len() == n,
                            levels@[u as int] == lu,
                            0 <= lu,
                            2 * count_unleveled(levels@) + queue@.len() <= bound,
                            forall|x: int| 0 <= x < n && levels0[x] >= 0 ==> #[trigger] levels@[x] == levels0[x],
                            forall|j: int| 0 <= j < queue@.len() ==> #[trigger] queue@[j] < n && levels@[queue@[j] as int] >= 0,
                            forall|j: int| 0 <= j < queue@.len() ==> lu <= levels@[#[trigger] queue@[j] as int] <= lu + 1,
                            forall|i2: int, j: int|
                                0 <= i2 < j < queue@.len() ==> levels@[#[trigger] queue@[i2] as int] <= levels@[#[trigger] queue@[j] as int],
                            forall|v: int| 0 <= v < n && #[trigger] levels@[v] >= 0 ==> levels@[v] <= lu + 1,
                            (sink < levels@.len() && levels@[sink as int] >= 0) ==> queue@.contains(sink),
                            forall|v: int|
                                0 <= v < n && #[trigger] levels@[v] >= 0 ==> v == u || queue@.contains(v as usize)
                                    || levels0[v] >= 0 && graph.closed_at(levels0, v),
                            forall|j: int|
                                0 <= j < i && #[trigger] graph.caps()[graph.adj@[u as int]@[j] as int] > 0
                                    ==> levels@[head_of(graph.net(), graph.adj@[u as int]@[j] as int) as int] >= 0,
                        decreases graph.adj@[u as int]@.len() - i,
                    {
                        let e = graph.adj[u][i];
                        proof {
                            graph.lemma_adj(u as int, i as int);
                            graph.lemma_edge(e as int);
                        }
                        let to = graph.edges[e].to;
                        if graph.edges[e].capacity > 0 && levels[to] == -1 {
                            let ghost old_levels = levels@;
                            let ghost old_queue = queue@;
                            proof {
                                graph.lemma_search_levels_assign(levels@, source, u as int, e as int);
                            }
                            levels[to] = levels[u] + 1;
                            queue.push_back(to);
                            proof {
                                graph.lemma_search_levels_facts(levels@, source);
                                assert forall|v: int|
                                    0 <= v < n && #[trigger] levels@[v] >= 0 implies v == u || queue@.contains(v as usize)
                                        || levels0[v] >= 0 && graph.closed_at(levels0, v) by {
                                    if v == to {
                                        assert(queue@[queue@.len() - 1] == to);
                                    } else if old_queue.contains(v as usize) {
                                        let j = choose|j: int| 0 <= j < old_queue.len() && old_queue[j] == v as usize;
                                        assert(queue@[j] == v as usize);
                                    } else {
                                        assert(old_levels[v] >= 0);
                                    }
                                }
                                assert forall|j: int| 0 <= j < queue@.len() implies #[trigger] queue@[j] < n && levels@[queue@[j] as int] >= 0 by {
                                    if j < old_queue.len() {
                                        assert(queue@[j] == old_queue[j]);
                                    }
                                }
                                assert forall|j: int| 0 <= j < queue@.len() implies lu <= levels@[#[trigger] queue@[j] as int] <= lu + 1 by {
                                    if j < old_queue.len() {
                                        assert(queue@[j] == old_queue[j]);
                                        assert(old_levels[old_queue[j] as int] >= 0);
                                    }
                                }
                                assert forall|i2: int, j: int|
                                    0 <= i2 < j < queue@.len() implies levels@[#[trigger] queue@[i2] as int] <= levels@[#[trigger] queue@[j] as int] by {
                                    assert(queue@[i2] == old_queue[i2]);
                                    assert(old_levels[old_queue[i2] as int] >= 0);
                                    if j < old_queue.len() {
                                        assert(queue@[j] == old_queue[j]);
                                        assert(old_levels[old_queue[j] as int] >= 0);
                                    }
                                }
                                assert forall|v: int| 0 <= v < n && #[trigger] levels@[v] >= 0 implies levels@[v] <= lu + 1 by {
                                    if v != to {
                                        assert(old_levels[v] >= 0);
                                    }
                                }
                                if sink < levels@.len() && levels@[sink as int] >= 0 {
                                    if sink == to {
                                        assert(queue@[queue@.len() - 1] == to);
                                    } else {
                                        let j = choose|j: int| 0 <= j < old_queue.len() && old_queue[j] == sink;
                                        assert(queue@[j] == sink);
                                    }
                                }
                                assert forall|j: int|
                                    0 <= j < i && #[trigger] graph.caps()[graph.adj@[u as int]@[j] as int] > 0
                                        implies levels@[head_of(graph.net(), graph.adj@[u as int]@[j] as int) as int] >= 0 by {
                                    let h = head_of(graph.net(), graph.adj@[u as int]@[j] as int) as int;
                                    graph.lemma_adj(u as int, j);
                                    graph.lemma_edge(graph.adj@[u as int]@[j] as int);
                                    assert(old_levels[h] >= 0);
                                    if h != to as int {
                                        assert(levels@[h] == old_levels[h]);
                                    }
                                }
                                assert forall|x: int| 0 <= x < n && levels0[x] >= 0 implies #[trigger] levels@[x] == levels0[x] by {
                                    assert(old_levels[x] == levels0[x]);
                                }
                            }
                        }
                        proof {
                            graph.lemma_search_levels_facts(levels@, source);
                            assert(graph.caps()[e as int] == graph.edges@[e as int].capacity);
                            assert(graph.caps()[e as int] > 0 ==> levels@[to as int] >= 0);
                        }
                        i = i + 1;
                    }
                    proof {
                        assert(graph.closed_at(levels@, u as int)) by {
                            reveal(ResidualGraph::closed_at);
                            assert forall|j: int|
                                0 <= j < graph.adj@[u as int]@.len() && #[trigger] graph.caps()[graph.adj@[u as int]@[j] as int] > 0
                                    implies 0 <= levels@[head_of(graph.net(), graph.adj@[u as int]@[j] as int) as int]
                                    <= levels@[u as int] + 1 by {
                                let h = head_of(graph.net(), graph.adj@[u as int]@[j] as int) as int;
                                graph.lemma_adj(u as int, j);
                                graph.lemma_edge(graph.adj@[u as int]@[j] as int);
                                assert(levels@[h] >= 0);
                                assert(levels@[h] <= lu + 1);
                            }
                        }
                        assert forall|v: int|
                            0 <= v < n && #[trigger] levels@[v] >= 0 implies queue@.contains(v as usize) || graph.closed_at(levels@, v) by {
                            if v != u && !queue@.contains(v as usize) {
                                graph.lemma_closed_at_grow(levels0, levels@, v);
                            }
                        }
                        if queue@.len() > 0 {
                            assert(lu <= levels@[queue@[0] as int]);
                            assert forall|v: int| 0 <= v < n && #[trigger] levels@[v] >= 0 implies levels@[v] <= levels@[queue@[0] as int] + 1 by {
                            }
                        }
                    }
                },
            }
        }
        proof {
            graph.lemma_search_levels_facts(levels@, source);
            graph.lemma_shape();
            let bnd: int = if sink < levels@.len() && levels@[sink as int] >= 0 {
                levels@[sink as int] as int
            } else {
                n as int
            };
            assert forall|e: int|
                0 <= e < graph.caps().len() && #[trigger] graph.caps()[e] > 0 && 0 <= levels@[tail_of(graph.net(), e) as int] < bnd
                    implies 0 <= levels@[head_of(graph.net(), e) as int] <= levels@[tail_of(graph.net(), e) as int] + 1 by {
                graph.lemma_edge(e);
                let t = tail_of(graph.net(), e);
                let i = graph.slot@[e];
                assert(levels@[t as int] >= 0);
                assert(graph.closed_at(levels@, t as int));
                reveal(ResidualGraph::closed_at);
                assert(graph.adj@[t as int]@[i] == e);
            }
            if !(sink < levels@.len() && levels@[sink as int] >= 0) {
                let side = leveled_side(levels@);
                assert forall|e: int|
                    0 <= e < graph.caps().len() && side[tail_of(graph.net(), e) as int] && #[trigger] graph.caps()[e] > 0
                        implies side[head_of(graph.net(), e) as int] by {
                    graph.lemma_edge(e);
                    assert(levels@[tail_of(graph.net(), e) as int] < n);
                }
            }
            reveal(levels_reached);
            reveal(levels_shortest);
            assert forall|v: int| 0 <= v < n && #[trigger] levels@[v] >= 0 implies exists|es: Seq<int>|
                #[trigger] res_walk(graph.net(), graph.caps(), es, source as int, v) && es.len() == levels@[v] by {
                let es = graph.lemma_level_walk(levels@, source, v);
            }
            assert forall|v: int, es: Seq<int>|
                0 <= v < n && #[trigger] res_walk(graph.net(), graph.caps(), es, source as int, v) implies (levels@[v] >= 0
                    ==> levels@[v] <= es.len()) && (levels@[v] < 0 ==> 0 <= sink < levels@.len() && levels@[sink as int] >= 0 && levels@[sink as int] + 1
                    <= es.len()) by {
                if sink < levels@.len() && levels@[sink as int] >= 0 {
                    graph.lemma_level_shortest(levels@, source, bnd, es, v);
                } else {
                    assert forall|x: int| 0 <= x < n implies #[trigger] levels@[x] <= bnd + 1 by {}
                    graph.lemma_level_shortest(levels@, source, bnd, es, v);
                    lemma_walk_closed(graph.net(), graph.caps(), es, source as int, v, leveled_side(levels@));
                }
            }
        }
        levels
    }

    /// The vertices reachable from `source` along residual edges with capacity left:
    /// the least closed vertex set that contains `source`.
    fn find_reachable(&self, graph: &ResidualGraph, source: usize) -> (reachable: Vec<bool>)
        requires
            graph.wf(),
        ensures
            reachable@.len() == graph.vertex_count,
            source >= graph.vertex_count ==> forall|v: int| 0 <= v < graph.vertex_count ==> !#[trigger] reachable@[v],
            source < graph.vertex_count ==> reachable@[source as int],
            source < graph.vertex_count ==> closed(graph.net(), graph.caps(), reachable@),
            source < graph.vertex_count ==> forall|side: Seq<bool>|
                side.len() == graph.vertex_count && side[source as int] && #[trigger] closed(
                    graph.net(),
                    graph.caps(),
                    side,
                ) ==> contained_in(reachable@, side),
    {
        let n = graph.vertex_count;
        let mut reachable: Vec<bool> = vec![false; n];
        if source >= n {
            proof {
                assert forall|v: int| 0 <= v < n implies !#[trigger] reachable@[v] by {
                    assert(cloned(false, reachable@[v]));
                }
            }
            return reachable;
        }
        let ghost init = reachable@;
        proof {
            graph.lemma_shape();
            assert forall|v: int| 0 <= v < n implies !init[v] by {
                assert(cloned(false, init[v]));
            }
            lemma_count_false_mark(reachable@, source as int);
        }
        let mut stack: Vec<usize> = Vec::new();
        stack.push(source);
        reachable[source] = true;
        proof {
            assert(stack@[0] == source);
            assert forall|v: int| 0 <= v < n && #[trigger] reachable@[v] implies stack@.contains(v as usize)
                || graph.marks_closed_at(reachable@, v) by {
                assert(v == source as int || !init[v]);
            }
            assert forall|side: Seq<bool>|
                side.len() == n && side[source as int] && #[trigger] closed(graph.net(), graph.caps(), side)
                    implies contained_in(reachable@, side) by {
                assert forall|v: int| 0 <= v < n && #[trigger] reachable@[v] implies side[v] by {
                    assert(v == source as int || !init[v]);
                }
            }
        }
        while stack.len() > 0
            invariant
                graph.wf(),
                n == graph.vertex_count,
                source < n,
                graph.adj@.len() == n,
                graph.caps().len() == graph.edges@.len(),
                reachable@.len() == n,
                reachable@[source as int],
                forall|j: int| 0 <= j < stack@.len() ==> #[trigger] stack@[j] < n && reachable@[stack@[j] as int],
                forall|v: int| 0 <= v < n && #[trigger] reachable@[v] ==> stack@.contains(v as usize)
                    || graph.marks_closed_at(reachable@, v),
                forall|side: Seq<bool>|
                    side.len() == n && side[source as int] && #[trigger] closed(graph.net(), graph.caps(), side)
                        ==> contained_in(reachable@, side),
            decreases 2 * count_false(reachable@) + stack@.len(),
        {
            let ghost s0 = stack@;
            let ghost marks0 = reachable@;
            let u = stack.pop().unwrap();
            assert(s0[s0.len() - 1] == u);
            assert(stack@ =~= s0.drop_last());
            let ghost bound = 2 * count_false(reachable@) + stack@.len();
            proof {
                assert forall|v: int| 0 <= v < n && #[trigger] reachable@[v] implies v == u || stack@.contains(v as usize)
                    || marks0[v] && graph.marks_closed_at(marks0, v) by {
                    if v != u && s0.contains(v as usize) {
                        let j = choose|j: int| 0 <= j < s0.len() && s0[j] == v as usize;
                        assert(j != s0.len() - 1);
                        assert(stack@[j] == v as usize);
                    }
                }
            }
            let mut i: usize = 0;
            while i < graph.adj[u].len()
                invariant
                    graph.wf(),
                    n == graph.vertex_count,
                    source < n,
                    u < n,
                    graph.adj@.len() == n,
                    graph.caps().len() == graph.edges@.len(),
                    i <= graph.adj@[u as int]@.len(),
                    reachable@.len() == n,
                    reachable@[source as int],
                    reachable@[u as int],
                    2 * count_false(reachable@) + stack@.len() <= bound,
                    forall|x: int| 0 <= x < n && marks0[x] ==> #[trigger] reachable@[x],
                    forall|j: int| 0 <= j < stack@.len() ==> #[trigger] stack@[j] < n && reachable@[stack@[j] as int],
                    forall|v: int| 0 <= v < n && #[trigger] reachable@[v] ==> v == u || stack@.contains(v as usize)
                        || marks0[v] && graph.marks_closed_at(marks0, v),
                    forall|j: int|
                        0 <= j < i && #[trigger] graph.caps()[graph.adj@[u as int]@[j] as int] > 0
                            ==> reachable@[head_of(graph.net(), graph.adj@[u as int]@[j] as int) as int],
                    forall|side: Seq<bool>|
                        side.len() == n && side[source as int] && #[trigger] closed(graph.net(), graph.caps(), side)
                            ==> contained_in(reachable@, side),
                decreases graph.adj@[u as int]@.len() - i,
            {
                let e = graph.adj[u][i];
                proof {
                    graph.lemma_adj(u as int, i as int);
                    graph.lemma_edge(e as int);
                }
                let to = graph.edges[e].to;
                if graph.edges[e].capacity > 0 && !reachable[to] {
                    let ghost old_marks = reachable@;
                    let ghost old_stack = stack@;
                    proof {
                        lemma_count_false_mark(reachable@, to as int);
                    }
                    reachable[to] = true;
                    stack.push(to);
                    proof {
                        assert(graph.caps()[e as int] > 0);
                        assert forall|v: int| 0 <= v < n && #[trigger] reachable@[v] implies v == u || stack@.contains(v as usize)
                            || marks0[v] && graph.marks_closed_at(marks0, v) by {
                            if v == to {
                                assert(stack@[stack@.len() - 1] == to);
                            } else if old_stack.contains(v as usize) {
                                let j = choose|j: int| 0 <= j < old_stack.len() && old_stack[j] == v as usize;
                                assert(stack@[j] == v as usize);
                            } else {
                                assert(old_marks[v]);
                            }
                        }
                        assert forall|j: int| 0 <= j < stack@.len() implies #[trigger] stack@[j] < n && reachable@[stack@[j] as int] by {
                            if j < old_stack.len() {
                                assert(stack@[j] == old_stack[j]);
                            }
                        }
                        assert forall|j: int|
                            0 <= j < i && #[trigger] graph.caps()[graph.adj@[u as int]@[j] as int] > 0
                                implies reachable@[head_of(graph.net(), graph.adj@[u as int]@[j] as int) as int] by {
                            let h = head_of(graph.net(), graph.adj@[u as int]@[j] as int) as int;
                            graph.lemma_adj(u as int, j);
                            graph.lemma_edge(graph.adj@[u as int]@[j] as int);
                            assert(old_marks[h]);
                            if h != to as int {
                                assert(reachable@[h] == old_marks[h]);
                            }
                        }
                        assert forall|side: Seq<bool>|
                            side.len() == n && side[source as int] && #[trigger] closed(graph.net(), graph.caps(), side)
                                implies contained_in(reachable@, side) by {
                            assert(contained_in(old_marks, side));
                            assert(side[u as int]);
                            assert(side[to as int]);
                            assert forall|v: int| 0 <= v < n && #[trigger] reachable@[v] implies side[v] by {
                                if v != to as int {
                                    assert(old_marks[v]);
                                }
                            }
                        }
                    }
                }
                proof {
                    assert(graph.caps()[e as int] == graph.edges@[e as int].capacity);
                }
                i = i + 1;
            }
            proof {
                assert(graph.marks_closed_at(reachable@, u as int)) by {
                    reveal(ResidualGraph::marks_closed_at);
                }
                assert forall|v: int| 0 <= v < n && #[trigger] reachable@[v] implies stack@.contains(v as usize)
                    || graph.marks_closed_at(reachable@, v) by {
                    if v != u && !stack@.contains(v as usize) {
                        assert(marks0[v] && graph.marks_closed_at(marks0, v));
                        reveal(ResidualGraph::marks_closed_at);
                        assert forall|i2: int|
                            0 <= i2 < graph.adj@[v]@.len() && #[trigger] graph.caps()[graph.adj@[v]@[i2] as int] > 0
                                implies reachable@[head_of(graph.net(), graph.adj@[v]@[i2] as int) as int] by {
                            graph.lemma_adj(v, i2);
                            graph.lemma_edge(graph.adj@[v]@[i2] as int);
                            assert(marks0[head_of(graph.net(), graph.adj@[v]@[i2] as int) as int]);
                        }
                    }
                }
            }
        }
        proof {
            assert forall|e: int|
                0 <= e < graph.caps().len() && reachable@[tail_of(graph.net(), e) as int] && #[trigger] graph.caps()[e] > 0
                    implies reachable@[head_of(graph.net(), e) as int] by {
                graph.lemma_edge(e);
                let t = tail_of(graph.net(), e);
                assert(graph.marks_closed_at(reachable@, t as int));
                reveal(ResidualGraph::marks_closed_at);
                assert(graph.adj@[t as int]@[graph.slot@[e]] == e);
            }
        }
        reachable
    }

    /// The minimum cut left by a maximum flow: the vertices still reachable from `source`.
    fn extract_min_cut(&self, graph: &ResidualGraph, source: usize) -> (cut: MinCut)
        requires
            graph.wf(),
        ensures
            cut.partition@.len() == graph.vertex_count,
            source >= graph.vertex_count ==> forall|v: int|
                0 <= v < graph.vertex_count ==> !#[trigger] cut.partition@[v],
            source < graph.vertex_count ==> cut.partition@[source as int],
            source < graph.vertex_count ==> closed(graph.net(), graph.caps(), cut.partition@),
            source < graph.vertex_count ==> forall|side: Seq<bool>|
                side.len() == graph.vertex_count && side[source as int] && #[trigger] closed(
                    graph.net(),
                    graph.caps(),
                    side,
                ) ==> contained_in(cut.partition@, side),
    {
        MinCut::new(self.find_reachable(graph, source))
    }
}

impl Default for DinicSolver {
    /// The solver of [`DinicSolver::new`].
    fn default() -> (solver: Self)
        ensures
            solver.iteration_limit() == 100_000,
    {
        Self::new()
    }
}

/// The results of Dinic's algorithm with a limit of `limit` phases on the network `edges`
/// with `n` vertices: each invalid input gets its error; for two distinct vertices in range
/// the result is either the maximum flow with the minimum cut whose source side lies in
/// that of every minimum cut, reached by a run of at most `limit` phases that cuts the sink
/// off, or the phase-limit error, which comes from a run of `limit` phases after which the
/// sink can still be reached (and then no cut between them is smaller than the limit, nor
/// the limit above `n - 2`).
pub open spec fn dinic_allows(
    limit: nat,
    edges: Seq<(usize, usize, u64)>,
    n: nat,
    source: usize,
    sink: usize,
    res: Result<(u64, Seq<bool>), MaxFlowError>,
) -> bool {
    &&& n == 0 ==> (res matches Err(MaxFlowError::EmptyGraph))
    &&& n > 0 && source >= n ==> (res matches Err(MaxFlowError::VertexNotFound(x)) && x == source)
    &&& n > 0 && source < n && sink >= n ==> (res matches Err(MaxFlowError::VertexNotFound(x)) && x == sink)
    &&& source < n && sink < n && source == sink ==> (res matches Err(MaxFlowError::SourceEqualsSink(x)) && x
        == source)
    &&& source < n && sink < n && source != sink ==> match res {
        Ok((flow, side)) => {
            &&& is_min_cut(edges, n, source, sink, side)
            &&& cut_capacity(edges, side) == flow
            &&& limit == 0 ==> flow == 0
            &&& exists|run: Seq<Seq<u64>>|
                #[trigger] dinic_run(edges_within(edges, n), n, run, source, sink) && run.len() <= limit + 1
                    && !reachable(edges_within(edges, n), run.last(), source as int, sink as int)
            &&& forall|other: Seq<bool>|
                separates(other, n, source, sink) && #[trigger] cut_capacity(edges, other) == flow ==> contained_in(
                    side,
                    other,
                )
        },
        Err(e) => {
            &&& e matches MaxFlowError::MaxIterationsReached(m) && m == limit
            &&& exists|run: Seq<Seq<u64>>|
                #[trigger] dinic_run(edges_within(edges, n), n, run, source, sink) && run.len() == limit + 1
                    && reachable(edges_within(edges, n), run.last(), source as int, sink as int)
            &&& limit + 2 <= n
            &&& forall|side: Seq<bool>| separates(side, n, source, sink) ==> limit <= #[trigger] cut_capacity(edges, side)
            &&& forall|side: Seq<bool>| separates(side, n, source, sink) ==> 0 < #[trigger] cut_capacity(edges, side)
        },
    }
}

/// Dinic's algorithm succeeds on two distinct vertices in range when the phase limit is at
/// least the number of vertices less one (each phase lengthens the shortest residual path
/// from source to sink), or when some cut between them is smaller than the limit (each
/// phase adds to the flow), or when some cut between them has capacity 0 (the sink cannot
/// be reached).
pub open spec fn dinic_succeeds(
    limit: nat,
    edges: Seq<(usize, usize, u64)>,
    n: nat,
    source: usize,
    sink: usize,
) -> bool {
    &&& source < n
    &&& sink < n
    &&& source != sink
    &&& (limit + 1 >= n || exists|side: Seq<bool>|
        separates(side, n, source, sink) && (#[trigger] cut_capacity(edges, side) < limit || cut_capacity(edges, side)
            == 0))
}

impl<G: OriginalGraphView> MaxFlowSolver<G> for DinicSolver {
    open spec fn allows(&self, graph: &G, source: usize, sink: usize, res: Result<(u64, Seq<bool>), MaxFlowError>) -> bool {
        dinic_allows(self.iteration_limit(), graph.spec_edges(), graph.spec_vertex_count(), source, sink, res)
    }

    open spec fn succeeds(&self, graph: &G, source: usize, sink: usize) -> bool {
        dinic_succeeds(self.iteration_limit(), graph.spec_edges(), graph.spec_vertex_count(), source, sink)
    }

    /// Dinic's algorithm: phases of a breadth-first level graph and a blocking flow found
    /// by depth-first search, until the sink is cut off from the source or the phase limit
    /// is reached. The returned cut is the set of vertices reachable from the source in
    /// the final residual graph: the minimum cut whose source side is contained in that of
    /// every minimum cut.
    #[verifier::rlimit(60)]
    fn max_flow_min_cut(&self, graph_view: &G, source: usize, sink: usize) -> (res: Result<
        (u64, MinCut),
        MaxFlowError,
    >)
    {
        let n = graph_view.vertex_count();
        if n == 0 {
            return Err(MaxFlowError::EmptyGraph);
        }
        if source >= n {
            return Err(MaxFlowError::VertexNotFound(source));
        }
        if sink >= n {
            return Err(MaxFlowError::VertexNotFound(sink));
        }
        if source == sink {
            return Err(MaxFlowError::SourceEqualsSink(source));
        }
        let mut residual_graph = ResidualGraph::new_from_original(graph_view);
        let ghost full = graph_view.spec_edges();
        let ghost net = residual_graph.net();
        let ghost single = Seq::new(n as nat, |v: int| v == source);
        proof {
            residual_graph.lemma_shape();
            assert(separates(single, n as nat, source, sink));
            lemma_edges_within(full, n as nat, single);
            lemma_cut_capacity_bounds(net, single);
            assert forall|side: Seq<bool>| side.len() == n implies #[trigger] flow_across(
                net,
                residual_graph.caps(),
                side,
                net.len() as int,
            ) == shift(side, source, sink, 0) by {
                lemma_zero_flow(net, residual_graph.caps(), side, net.len() as int);
            }
        }
        let mut total_flow: u64 = 0;
        let mut iterations_completed: usize = 0;
        let ghost mut cut_off: Seq<bool> = Seq::empty();
        let ghost mut run: Seq<Seq<u64>> = seq![residual_graph.caps()];
        proof {
            residual_graph.lemma_shape();
            assert(residual_graph.caps() =~= zero_flow_caps(net));
            assert(dinic_run(net, n as nat, run, source, sink));
            assert(walks_at_least(net, residual_graph.caps(), source as int, sink as int, 1)) by {
                reveal(walks_at_least);
                assert forall|es: Seq<int>|
                    #[trigger] res_walk(net, residual_graph.caps(), es, source as int, sink as int) implies 1 <= es.len() by {
                }
            }
        }
        while iterations_completed < self.max_iterations
            invariant
                residual_graph.wf(),
                residual_graph.vertex_count == n,
                residual_graph.net() == net,
                n == graph_view.spec_vertex_count(),
                n <= i32::MAX,
                source < n,
                sink < n,
                source != sink,
                separates(single, n as nat, source, sink),
                endpoints_below(net, n as nat),
                cut_capacity(net, single) <= total_capacity(net),
                total_capacity(net) <= u64::MAX,
                iterations_completed <= self.max_iterations,
                iterations_completed <= total_flow,
                iterations_completed == 0 ==> total_flow == 0,
                walks_at_least(net, residual_graph.caps(), source as int, sink as int, iterations_completed + 1),
                dinic_run(net, n as nat, run, source, sink),
                run.len() == iterations_completed + 1,
                run.last() == residual_graph.caps(),
                total_flow <= total_capacity(net),
                forall|side: Seq<bool>| side.len() == n ==> #[trigger] flow_across(
                    net,
                    residual_graph.caps(),
                    side,
                    net.len() as int,
                ) == shift(side, source, sink, total_flow as int),
            ensures
                iterations_completed == self.max_iterations || (cut_off.len() == n && cut_off[source as int]
                    && !cut_off[sink as int] && closed(net, residual_graph.caps(), cut_off)),
            decreases self.max_iterations - iterations_completed,
        {
            let levels = self.build_level_graph(&residual_graph, source, sink);
            if levels[sink] == -1 {
                proof {
                    cut_off = leveled_side(levels@);
                }
                break;
            }
            let ghost gb = residual_graph;
            proof {
                assert(iterations_completed + 1 <= levels@[sink as int]) by {
                    reveal(levels_reached);
                    reveal(walks_at_least);
                    assert(levels@[sink as int] >= 0);
                    let es0 = choose|es: Seq<int>|
                        #[trigger] res_walk(net, gb.caps(), es, source as int, sink as int) && es.len() == levels@[sink as int];
                    assert(res_walk(net, gb.caps(), es0, source as int, sink as int));
                }
            }
            let mut ptr: Vec<usize> = vec![0; n];
            proof {
                assert forall|w: int| 0 <= w < n implies #[trigger] ptr@[w] == 0 by {
                    assert(cloned(0usize, ptr@[w]));
                }
                reveal(ResidualGraph::passed_edges_dead);
            }
            let mut flow_this_phase: u64 = 0;
            loop
                invariant
                    residual_graph.wf(),
                    residual_graph.same_shape(&gb),
                    gb.wf(),
                    gb.vertex_count == n,
                    gb.net() == net,
                    gb.level_facts(levels@, source),
                    levels@[sink as int] >= 0,
                    iterations_completed + 1 <= levels@[sink as int],
                    levels_tight(net, gb.caps(), levels@, levels@[sink as int] as int),
                    levels_reached(net, gb.caps(), levels@, source as int),
                    levels_shortest(net, gb.caps(), levels@, source as int, sink as int),
                    forall|side: Seq<bool>| side.len() == n ==> #[trigger] flow_across(
                        net,
                        gb.caps(),
                        side,
                        net.len() as int,
                    ) == shift(side, source, sink, total_flow as int),
                    forall|x: int|
                        0 <= x < gb.caps().len() && #[trigger] residual_graph.caps()[x] < gb.caps()[x] ==> levels@[tail_of(
                            net,
                            x,
                        ) as int] >= 0 && levels@[head_of(net, x) as int] == levels@[tail_of(net, x) as int] + 1,
                    forall|x: int|
                        0 <= x < gb.caps().len() && #[trigger] residual_graph.caps()[x] > gb.caps()[x] ==> levels@[tail_of(
                            net,
                            x,
                        ) as int] == levels@[head_of(net, x) as int] + 1 && 0 <= levels@[head_of(net, x) as int]
                            && levels@[tail_of(net, x) as int] <= levels@[sink as int],
                    n <= i32::MAX,
                    source < n,
                    sink < n,
                    source != sink,
                    separates(single, n as nat, source, sink),
                    endpoints_below(net, n as nat),
                    cut_capacity(net, single) <= total_capacity(net),
                    total_capacity(net) <= u64::MAX,
                    ptr@.len() == n,
                    forall|w: int| 0 <= w < ptr@.len() ==> #[trigger] ptr@[w] <= residual_graph.adj@[w]@.len(),
                    residual_graph.passed_edges_dead(levels@, ptr@, sink),
                    flow_this_phase == 0 ==> residual_graph.caps() == gb.caps(),
                    total_flow + flow_this_phase <= total_capacity(net),
                    forall|side: Seq<bool>| side.len() == n ==> #[trigger] flow_across(
                        net,
                        residual_graph.caps(),
                        side,
                        net.len() as int,
                    ) == shift(side, source, sink, total_flow + flow_this_phase),
                ensures
                    flow_this_phase > 0,
                    total_flow + flow_this_phase <= total_capacity(net),
                    walks_at_least(net, residual_graph.caps(), source as int, sink as int, levels@[sink as int] + 1),
                decreases total_capacity(net) - total_flow - flow_this_phase,
            {
                proof {
                    gb.lemma_same_shape(&residual_graph);
                    residual_graph.lemma_shape();
                }
                let ghost g1 = residual_graph;
                let r = dfs_path(&mut residual_graph, source, sink, u64::MAX, &levels, &mut ptr);
                proof {
                    g1.lemma_same_shape_trans(&gb, &residual_graph);
                    gb.lemma_same_shape_trans(&g1, &residual_graph);
                    assert forall|x: int|
                        0 <= x < gb.caps().len() && #[trigger] residual_graph.caps()[x] > gb.caps()[x] implies levels@[tail_of(
                            net,
                            x,
                        ) as int] == levels@[head_of(net, x) as int] + 1 && 0 <= levels@[head_of(net, x) as int]
                            && levels@[tail_of(net, x) as int] <= levels@[sink as int] by {
                        if residual_graph.caps()[x] <= g1.caps()[x] {
                            assert(g1.caps()[x] > gb.caps()[x]);
                        }
                    }
                    assert forall|x: int|
                        0 <= x < gb.caps().len() && #[trigger] residual_graph.caps()[x] < gb.caps()[x] implies levels@[tail_of(
                            net,
                            x,
                        ) as int] >= 0 && levels@[head_of(net, x) as int] == levels@[tail_of(net, x) as int] + 1 by {
                        if residual_graph.caps()[x] >= g1.caps()[x] {
                            assert(g1.caps()[x] < gb.caps()[x]);
                        }
                    }
                }
                match r {
                    None => {
                        proof {
                            gb.lemma_same_shape(&residual_graph);
                            if flow_this_phase == 0 {
                                assert(residual_graph.level_facts(levels@, source));
                                residual_graph.lemma_leveled_dead(levels@, ptr@, source, sink, levels@[sink as int] as int, sink as int);
                            }
                            assert(walks_at_least(net, residual_graph.caps(), source as int, sink as int, levels@[sink as int] + 1))
                                by {
                                reveal(walks_at_least);
                                assert forall|es: Seq<int>|
                                    #[trigger] res_walk(net, residual_graph.caps(), es, source as int, sink as int) implies levels@[sink
                                        as int] + 1 <= es.len() by {
                                    residual_graph.lemma_phase_walk(&gb, levels@, ptr@, sink, source as int, es);
                                }
                            }
                        }
                        break;
                    },
                    Some(pushed_path_flow) => {
                        if pushed_path_flow == 0 {
                            break;
                        }
                        proof {
                            assert(flow_across(net, residual_graph.caps(), single, net.len() as int) == total_flow
                                + flow_this_phase + pushed_path_flow);
                            lemma_flow_across_cut(net, residual_graph.caps(), single);
                        }
                        flow_this_phase = flow_this_phase + pushed_path_flow;
                    },
                }
            }
            if flow_this_phase == 0 {
                break;
            }
            proof {
                lemma_walks_weaken(
                    net,
                    residual_graph.caps(),
                    source as int,
                    sink as int,
                    levels@[sink as int] + 1,
                    iterations_completed + 2,
                );
                gb.lemma_shape();
                lemma_phase_done(
                    net,
                    n as nat,
                    gb.caps(),
                    residual_graph.caps(),
                    levels@,
                    source,
                    sink,
                    total_flow as int,
                    total_flow + flow_this_phase,
                );
                let old_run = run;
                run = run.push(residual_graph.caps());
                assert forall|i: int| 0 <= i < run.len() - 1 implies #[trigger] phase_at(net, n as nat, run, i, source, sink) by {
                    if i < old_run.len() - 1 {
                        assert(phase_at(net, n as nat, old_run, i, source, sink));
                        assert(run[i] == old_run[i] && run[i + 1] == old_run[i + 1]);
                    } else {
                        assert(run[i] == gb.caps() && run[i + 1] == residual_graph.caps());
                    }
                }
            }
            total_flow = total_flow + flow_this_phase;
            iterations_completed = iterations_completed + 1;
        }
        if iterations_completed == self.max_iterations {
            let levels = self.build_level_graph(&residual_graph, source, sink);
            if levels[sink] != -1 {
                proof {
                    assert forall|side: Seq<bool>| separates(side, n as nat, source, sink) implies 0 < #[trigger] cut_capacity(
                        full,
                        side,
                    ) by {
                        lemma_flow_across_cut(net, residual_graph.caps(), side);
                        lemma_edges_within(full, n as nat, side);
                        lemma_cut_capacity_bounds(net, side);
                        if cut_capacity(net, side) == 0 {
                            assert(flow_across(net, residual_graph.caps(), side, net.len() as int) == shift(side, source, sink, total_flow as int));
                            if self.iteration_limit() > 0 {
                                assert(0 < total_flow);
                            } else {
                                assert(closed(net, residual_graph.caps(), side));
                                reveal(levels_reached);
                                assert(levels@[sink as int] >= 0);
                                let es0 = choose|es: Seq<int>|
                                    #[trigger] res_walk(net, residual_graph.caps(), es, source as int, sink as int)
                                        && es.len() == levels@[sink as int];
                                lemma_walk_closed(net, residual_graph.caps(), es0, source as int, sink as int, side);
                            }
                        }
                    }
                    assert(reachable(net, run.last(), source as int, sink as int)) by {
                        reveal(levels_reached);
                        assert(levels@[sink as int] >= 0);
                        let es0 = choose|es: Seq<int>|
                            #[trigger] res_walk(net, residual_graph.caps(), es, source as int, sink as int) && es.len()
                                == levels@[sink as int];
                        assert(res_walk(net, run.last(), es0, source as int, sink as int));
                    }
                    assert(self.iteration_limit() + 2 <= n) by {
                        reveal(levels_reached);
                        reveal(walks_at_least);
                        assert(levels@[sink as int] >= 0);
                        let es0 = choose|es: Seq<int>|
                            #[trigger] res_walk(net, residual_graph.caps(), es, source as int, sink as int) && es.len()
                                == levels@[sink as int];
                        assert(res_walk(net, residual_graph.caps(), es0, source as int, sink as int));
                    }
                    assert forall|side: Seq<bool>|
                        separates(side, n as nat, source, sink) implies self.iteration_limit()
                            <= #[trigger] cut_capacity(full, side) by {
                        lemma_flow_across_cut(net, residual_graph.caps(), side);
                        lemma_edges_within(full, n as nat, side);
                        assert(flow_across(net, residual_graph.caps(), side, net.len() as int) == total_flow);
                    }
                }
                return Err(MaxFlowError::MaxIterationsReached(self.max_iterations));
            }
            proof {
                cut_off = leveled_side(levels@);
            }
        }
        let min_cut = self.extract_min_cut(&residual_graph, source);
        proof {
            let part = min_cut.partition@;
            let caps = residual_graph.caps();
            assert(contained_in(part, cut_off));
            assert(!part[sink as int]);
            assert(separates(part, n as nat, source, sink));
            lemma_flow_across_cut(net, caps, part);
            lemma_edges_within(full, n as nat, part);
            assert(flow_across(net, caps, part, net.len() as int) == total_flow);
            assert(cut_capacity(full, part) == total_flow);
            assert(!reachable(net, run.last(), source as int, sink as int)) by {
                if reachable(net, run.last(), source as int, sink as int) {
                    let es = choose|es: Seq<int>| #[trigger] res_walk(net, run.last(), es, source as int, sink as int);
                    lemma_walk_closed(net, caps, es, source as int, sink as int, part);
                }
            }
            assert forall|side: Seq<bool>| separates(side, n as nat, source, sink) implies total_flow
                <= #[trigger] cut_capacity(full, side) && (cut_capacity(full, side) == total_flow ==> contained_in(
                part,
                side,
            )) by {
                lemma_flow_across_cut(net, caps, side);
                lemma_edges_within(full, n as nat, side);
                assert(flow_across(net, caps, side, net.len() as int) == total_flow);
            }
        }
        Ok((total_flow, min_cut))
    }
}

/// Looks for a path from `u` to `sink` in the level graph, following the per-vertex
/// edge pointers `ptr` past edges that lead nowhere, and pushes as much flow along it
/// as `flow_limit` and the capacities on it allow. Returns the flow pushed.
#[verifier::spinoff_prover]
#[verifier::rlimit(40)]
fn dfs_path(
    graph: &mut ResidualGraph,
    u: usize,
    sink: usize,
    flow_limit: u64,
    levels: &Vec<i32>,
    ptr: &mut Vec<usize>,
) -> (pushed: Option<u64>)
    requires
        old(graph).wf(),
        old(graph).vertex_count <= i32::MAX,
        levels@.len() == old(graph).vertex_count,
        forall|v: int| 0 <= v < levels@.len() ==> -1 <= #[trigger] levels@[v] < levels@.len(),
        old(ptr)@.len() == old(graph).vertex_count,
        forall|w: int| 0 <= w < old(ptr)@.len() ==> #[trigger] old(ptr)@[w] <= old(graph).adj@[w]@.len(),
        u < old(graph).vertex_count,
        sink < old(graph).vertex_count,
        levels@[u as int] >= 0,
        old(graph).passed_edges_dead(levels@, old(ptr)@, sink),
    ensures
        final(graph).wf(),
        final(graph).same_shape(old(graph)),
        final(ptr)@.len() == old(ptr)@.len(),
        forall|w: int| 0 <= w < final(ptr)@.len() ==> #[trigger] final(ptr)@[w] <= final(graph).adj@[w]@.len(),
        forall|w: int| 0 <= w < final(ptr)@.len() ==> old(ptr)@[w] <= #[trigger] final(ptr)@[w],
        forall|w: int|
            0 <= w < final(ptr)@.len() && #[trigger] final(ptr)@[w] != old(ptr)@[w] ==> levels@[w] >= levels@[u as int],
        forall|x: int|
            0 <= x < old(graph).caps().len() && #[trigger] final(graph).caps()[x] > old(graph).caps()[x]
                ==> levels@[head_of(old(graph).net(), x) as int] != levels@[tail_of(old(graph).net(), x) as int] + 1,
        forall|x: int|
            0 <= x < old(graph).caps().len() && #[trigger] final(graph).caps()[x] < old(graph).caps()[x]
                ==> levels@[tail_of(old(graph).net(), x) as int] >= levels@[u as int] && levels@[head_of(
                old(graph).net(),
                x,
            ) as int] == levels@[tail_of(old(graph).net(), x) as int] + 1,
        forall|x: int|
            0 <= x < old(graph).caps().len() && #[trigger] final(graph).caps()[x] > old(graph).caps()[x]
                ==> levels@[tail_of(old(graph).net(), x) as int] == levels@[head_of(old(graph).net(), x) as int] + 1
                && 0 <= levels@[head_of(old(graph).net(), x) as int] && levels@[tail_of(old(graph).net(), x) as int]
                <= levels@[sink as int],
        final(graph).passed_edges_dead(levels@, final(ptr)@, sink),
        pushed matches Some(f) && f > 0 ==> levels@[u as int] <= levels@[sink as int],
        u == sink ==> pushed == Some(flow_limit),
        u != sink && flow_limit == 0 ==> pushed is None,
        u != sink ==> (pushed matches Some(f) ==> f > 0),
        pushed matches Some(f) ==> exists|es: Seq<int>|
            #[trigger] level_path(old(graph).net(), old(graph).caps(), levels@, es, u as int, sink as int) && f == (if flow_limit
                < path_min(old(graph).caps(), es) {
                flow_limit as int
            } else {
                path_min(old(graph).caps(), es)
            }) && final(graph).caps() == push_along(old(graph).caps(), es, f as int),
        match pushed {
            None => {
                &&& final(graph).caps() == old(graph).caps()
                &&& flow_limit > 0 ==> final(graph).dead_end(final(ptr)@, sink, u as int)
            },
            Some(f) => {
                &&& f <= flow_limit
                &&& flow_limit > 0 ==> f > 0
                &&& forall|side: Seq<bool>|
                    side.len() == old(graph).vertex_count ==> #[trigger] flow_across(
                        final(graph).net(),
                        final(graph).caps(),
                        side,
                        final(graph).net().len() as int,
                    ) == flow_across(old(graph).net(), old(graph).caps(), side, old(graph).net().len() as int)
                        + shift(side, u, sink, f as int)
            },
        },
    decreases levels@.len() - levels@[u as int],
{
    let ghost g0 = *graph;
    let ghost p0 = ptr@;
    let ghost n = graph.vertex_count;
    proof {
        graph.lemma_shape();
        graph.lemma_same_shape(graph);
    }
    if u == sink {
        proof {
            let es = Seq::<int>::empty();
            assert(level_path(g0.net(), g0.caps(), levels@, es, u as int, sink as int));
            assert(graph.caps() == push_along(g0.caps(), es, flow_limit as int));
        }
        return Some(flow_limit);
    }
    if flow_limit == 0 {
        return None;
    }
    while ptr[u] < graph.adj[u].len()
        invariant
            graph.wf(),
            graph.same_shape(&g0),
            graph.caps() == g0.caps(),
            g0 == *old(graph),
            p0 == old(ptr)@,
            p0.len() == n,
            g0.wf(),
            n == g0.vertex_count,
            n <= i32::MAX,
            graph.adj@.len() == n,
            levels@.len() == n,
            forall|v: int| 0 <= v < levels@.len() ==> -1 <= #[trigger] levels@[v] < levels@.len(),
            u < n,
            sink < n,
            u != sink,
            flow_limit > 0,
            levels@[u as int] >= 0,
            ptr@.len() == n,
            forall|w: int| 0 <= w < ptr@.len() ==> #[trigger] ptr@[w] <= graph.adj@[w]@.len(),
            forall|w: int| 0 <= w < ptr@.len() ==> p0[w] <= #[trigger] ptr@[w],
            forall|w: int|
                0 <= w < ptr@.len() && #[trigger] ptr@[w] != p0[w] ==> levels@[w] >= levels@[u as int],
            graph.passed_edges_dead(levels@, ptr@, sink),
        decreases graph.adj@[u as int]@.len() - ptr@[u as int],
    {
        let edge_idx = ptr[u];
        let e = graph.adj[u][edge_idx];
        proof {
            graph.lemma_adj(u as int, edge_idx as int);
            graph.lemma_edge(e as int);
        }
        let v = graph.edges[e].to;
        let current_edge_capacity = graph.edges[e].capacity;
        if levels[v] != levels[u] + 1 || current_edge_capacity == 0 {
            proof {
                assert(graph.caps()[e as int] == current_edge_capacity);
                graph.lemma_pass_edge(levels@, ptr@, sink, u as int);
            }
            ptr[u] = ptr[u] + 1;
            continue;
        }
        let path_flow_limit = if flow_limit < current_edge_capacity {
            flow_limit
        } else {
            current_edge_capacity
        };
        let ghost g1 = *graph;
        let ghost p1 = ptr@;
        let r = dfs_path(graph, v, sink, path_flow_limit, levels, ptr);
        proof {
            g1.lemma_same_shape(graph);
            graph.lemma_shape();
        }
        match r {
            Some(pushed_flow) => {
                if pushed_flow > 0 {
                    proof {
                        assert(graph.adj@ == g1.adj@);
                        assert(graph.caps()[e as int] == g1.caps()[e as int]) by {
                            if graph.caps()[e as int] > g1.caps()[e as int] {
                            }
                            if graph.caps()[e as int] < g1.caps()[e as int] {
                            }
                        }
                    }
                    let ghost g2 = *graph;
                    graph.push_flow_on_edge(u, edge_idx, pushed_flow);
                    proof {
                        let c2 = g2.caps();
                        let c3 = graph.caps();
                        assert forall|side: Seq<bool>| side.len() == n implies #[trigger] flow_across(
                            graph.net(),
                            graph.caps(),
                            side,
                            graph.net().len() as int,
                        ) == flow_across(g0.net(), g0.caps(), side, g0.net().len() as int) + shift(side, u, sink, pushed_flow as int) by {
                            lemma_push_shifts_flow(g2.net(), c2, c3, e as int, pushed_flow as int, side);
                            assert(flow_across(g2.net(), c2, side, g2.net().len() as int) == flow_across(g1.net(), g1.caps(), side, g1.net().len() as int) + shift(side, v, sink, pushed_flow as int));
                            lemma_shift_compose(side, u, v, sink, pushed_flow as int);
                        }
                        assert forall|x: int|
                            0 <= x < g0.caps().len() && #[trigger] graph.caps()[x] > g0.caps()[x]
                                implies levels@[head_of(g0.net(), x) as int] != levels@[tail_of(g0.net(), x) as int] + 1 by {
                            if x == partner(e as int) {
                            } else if x != e as int {
                                assert(c3[x] == c2[x]);
                            }
                        }
                        assert forall|x: int|
                            0 <= x < g0.caps().len() && #[trigger] graph.caps()[x] > g0.caps()[x]
                                implies levels@[tail_of(g0.net(), x) as int] == levels@[head_of(g0.net(), x) as int] + 1
                                && 0 <= levels@[head_of(g0.net(), x) as int] && levels@[tail_of(g0.net(), x) as int]
                                <= levels@[sink as int] by {
                            if x == partner(e as int) {
                            } else if x != e as int {
                                assert(c3[x] == c2[x]);
                            }
                        }
                        assert forall|x: int|
                            0 <= x < g0.caps().len() && #[trigger] graph.caps()[x] < g0.caps()[x]
                                implies levels@[tail_of(g0.net(), x) as int] >= levels@[u as int] && levels@[head_of(
                                g0.net(),
                                x,
                            ) as int] == levels@[tail_of(g0.net(), x) as int] + 1 by {
                            if x == e as int {
                            } else if x != partner(e as int) {
                                assert(c3[x] == c2[x]);
                            }
                        }
                        g2.lemma_passed_edges_dead_caps(graph, levels@, ptr@, sink);
                        g0.lemma_same_shape_trans(&g1, &g2);
                        g0.lemma_same_shape_trans(&g2, graph);
                        assert(ptr@.len() == p1.len());
                        let rest = choose|es: Seq<int>|
                            #[trigger] level_path(g1.net(), g1.caps(), levels@, es, v as int, sink as int) && pushed_flow == (
                            if path_flow_limit < path_min(g1.caps(), es) {
                                path_flow_limit as int
                            } else {
                                path_min(g1.caps(), es)
                            }) && g2.caps() == push_along(g1.caps(), es, pushed_flow as int);
                        let es = seq![e as int] + rest;
                        assert(es.drop_first() =~= rest);
                        assert(es[0] == e as int);
                        assert(level_path(g0.net(), g0.caps(), levels@, es, u as int, sink as int));
                        assert(c3 =~= push_along(g0.caps(), es, pushed_flow as int));

                    }
                    return Some(pushed_flow);
                }
            },
            None => {
            },
        }
        proof {
            assert(graph.may_skip(levels@, ptr@, sink, u as int, e as int));
            graph.lemma_pass_edge(levels@, ptr@, sink, u as int);
        }
        ptr[u] = ptr[u] + 1;
    }
    None
}

} // verus!
