//! Cuts of a flow network given as a list of directed, capacitated edges.
//!
//! A cut is described by its source side: a sequence `side` with one entry per
//! vertex, `side[v]` being true when `v` lies on the source side. Its capacity is
//! the total capacity of the edges that leave the source side.
use vstd::prelude::*;

verus! {

/// What one edge `(tail, head, capacity)` contributes to the capacity of the cut `side`.
pub open spec fn crossing_capacity(e: (usize, usize, u64), side: Seq<bool>) -> int {
    if e.0 < side.len() && e.1 < side.len() && side[e.0 as int] && !side[e.1 as int] {
        e.2 as int
    } else {
        0
    }
}

/// Capacity of the cut `side`: the sum of the capacities of the edges from the source
/// side to the sink side. Edges with an endpoint outside the vertex range count for nothing.
pub open spec fn cut_capacity(edges: Seq<(usize, usize, u64)>, side: Seq<bool>) -> int
    decreases edges.len(),
{
    if edges.len() == 0 {
        0
    } else {
        cut_capacity(edges.drop_last(), side) + crossing_capacity(edges.last(), side)
    }
}

/// Sum of the capacities of all edges.
pub open spec fn total_capacity(edges: Seq<(usize, usize, u64)>) -> int
    decreases edges.len(),
{
    if edges.len() == 0 {
        0
    } else {
        total_capacity(edges.drop_last()) + edges.last().2
    }
}

/// `side` is an `s`-`t` cut of a network on `n` vertices: `s` on the source side, `t` not.
pub open spec fn separates(side: Seq<bool>, n: nat, s: usize, t: usize) -> bool {
    &&& side.len() == n
    &&& s < n
    &&& t < n
    &&& side[s as int]
    &&& !side[t as int]
}

/// `side` is an `s`-`t` cut of least capacity.
pub open spec fn is_min_cut(
    edges: Seq<(usize, usize, u64)>,
    n: nat,
    s: usize,
    t: usize,
    side: Seq<bool>,
) -> bool {
    &&& separates(side, n, s, t)
    &&& forall|other: Seq<bool>|
        separates(other, n, s, t) ==> cut_capacity(edges, side) <= #[trigger] cut_capacity(
            edges,
            other,
        )
}

/// `c` is the capacity of a minimum `s`-`t` cut.
pub open spec fn is_min_cut_capacity(
    edges: Seq<(usize, usize, u64)>,
    n: nat,
    s: usize,
    t: usize,
    c: int,
) -> bool {
    exists|side: Seq<bool>| is_min_cut(edges, n, s, t, side) && cut_capacity(edges, side) == c
}

/// The edges whose two endpoints are below `n`, in their given order.
pub open spec fn edges_within(edges: Seq<(usize, usize, u64)>, n: nat) -> Seq<(usize, usize, u64)>
    decreases edges.len(),
{
    if edges.len() == 0 {
        Seq::empty()
    } else {
        let rest = edges_within(edges.drop_last(), n);
        let e = edges.last();
        if e.0 < n && e.1 < n {
            rest.push(e)
        } else {
            rest
        }
    }
}

pub proof fn lemma_cut_capacity_bounds(edges: Seq<(usize, usize, u64)>, side: Seq<bool>)
    ensures
        0 <= cut_capacity(edges, side) <= total_capacity(edges),
    decreases edges.len(),
{
    if edges.len() > 0 {
        lemma_cut_capacity_bounds(edges.drop_last(), side);
    }
}

pub proof fn lemma_edges_within(edges: Seq<(usize, usize, u64)>, n: nat, side: Seq<bool>)
    requires
        side.len() == n,
    ensures
        cut_capacity(edges_within(edges, n), side) == cut_capacity(edges, side),
        total_capacity(edges_within(edges, n)) <= total_capacity(edges),
        forall|k: int|
            0 <= k < edges_within(edges, n).len() ==> (#[trigger] edges_within(edges, n)[k]).0 < n
                && edges_within(edges, n)[k].1 < n,
    decreases edges.len(),
{
    if edges.len() > 0 {
        lemma_edges_within(edges.drop_last(), n, side);
        let rest = edges_within(edges.drop_last(), n);
        let e = edges.last();
        if e.0 < n && e.1 < n {
            assert(rest.push(e).drop_last() =~= rest);
        }
    }
}

} // verus!
