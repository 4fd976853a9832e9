//! The trees built by Gusfield's algorithm on undirected networks answer every
//! minimum-cut query exactly.
use vstd::prelude::*;

use crate::algorithms::gusfield::{
    gusfield_parents, gusfield_step, is_gusfield_run, lemma_gusfield_parents_bound,
};
use crate::flow::cut::{crossing_capacity, cut_capacity, is_min_cut, is_min_cut_capacity, separates};
use crate::algorithms::gusfield::is_gusfield_tree;
use crate::properties::{complement, edges_are_min_cuts, lemma_gusfield_tree_edges, undirected};
use crate::properties::{
    lemma_bottleneck_at_most, lemma_gusfield_answer_below_cuts, lemma_min_cut_capacity_unique, lemma_min_cut_symmetric,
    lemma_min_cut_three_vertices,
};
use crate::tree::{bottleneck, is_query_answer, is_tree_path, joins, tree_closed, tree_separated, TreeEdge};

verus! {

/// Edge `k` of the tree joins vertex `k + 1` to an earlier vertex, as in the trees that
/// Gusfield's algorithm builds on `n` vertices.
pub open spec fn parent_shaped(tree: Seq<TreeEdge>, n: nat) -> bool {
    &&& tree.len() + 1 == n
    &&& forall|k: int| 0 <= k < tree.len() ==> (#[trigger] tree[k]).source == k + 1 && tree[k].target < k + 1
}

/// The smaller of two integers.
pub open spec fn min_of(a: int, b: int) -> int {
    if a < b {
        a
    } else {
        b
    }
}

/// The smallest capacity on the path between `a` and `b` in a parent-shaped tree, found by
/// repeatedly replacing the larger endpoint by its parent; `u64::MAX` when `a == b`.
pub open spec fn climb(tree: Seq<TreeEdge>, a: int, b: int) -> int
    decreases a + b,
{
    if a == b || a < 0 || b < 0 {
        u64::MAX as int
    } else if a > b {
        let p = tree[a - 1].target as int;
        if p < a {
            min_of(tree[a - 1].capacity as int, climb(tree, p, b))
        } else {
            0
        }
    } else {
        let p = tree[b - 1].target as int;
        if p < b {
            min_of(tree[b - 1].capacity as int, climb(tree, a, p))
        } else {
            0
        }
    }
}

pub proof fn lemma_climb_symmetric(tree: Seq<TreeEdge>, a: int, b: int)
    ensures
        climb(tree, a, b) == climb(tree, b, a),
    decreases a + b,
{
    if a != b && a >= 0 && b >= 0 {
        if a > b {
            let p = tree[a - 1].target as int;
            if p < a {
                lemma_climb_symmetric(tree, p, b);
            }
        } else {
            let p = tree[b - 1].target as int;
            if p < b {
                lemma_climb_symmetric(tree, a, p);
            }
        }
    }
}

/// In an undirected network, a vertex set that separates the endpoints of a tree edge
/// carrying their minimum cut value has at least that capacity.
proof fn lemma_cut_at_least_edge(
    edges: Seq<(usize, usize, u64)>,
    n: nat,
    tree: Seq<TreeEdge>,
    side: Seq<bool>,
    k: int,
)
    requires
        undirected(edges, n),
        edges_are_min_cuts(edges, n, tree),
        0 <= k < tree.len(),
        side.len() == n,
        tree[k].source < n,
        tree[k].target < n,
        side[tree[k].source as int] != side[tree[k].target as int],
    ensures
        cut_capacity(edges, side) >= tree[k].capacity,
{
    let e = tree[k];
    assert(is_min_cut_capacity(edges, n, e.source, e.target, e.capacity as int));
    let best = choose|best: Seq<bool>|
        is_min_cut(edges, n, e.source, e.target, best) && cut_capacity(edges, best) == e.capacity;
    if side[e.source as int] {
        assert(separates(side, n, e.source, e.target));
    } else {
        let other = complement(side);
        assert(separates(other, n, e.source, e.target));
        assert(cut_capacity(edges, side) == cut_capacity(edges, other));
    }
}

/// In an undirected network, a vertex set that separates two tree vertices has at least
/// the capacity of the smallest tree edge between them, when each tree edge carries the
/// minimum cut value between its endpoints.
pub proof fn lemma_cut_at_least_climb(
    edges: Seq<(usize, usize, u64)>,
    n: nat,
    tree: Seq<TreeEdge>,
    side: Seq<bool>,
    x: int,
    y: int,
)
    requires
        undirected(edges, n),
        parent_shaped(tree, n),
        edges_are_min_cuts(edges, n, tree),
        side.len() == n,
        0 <= x < n,
        0 <= y < n,
        side[x] != side[y],
    ensures
        cut_capacity(edges, side) >= climb(tree, x, y),
    decreases x + y,
{
    if x > y {
        let p = tree[x - 1].target as int;
        assert(tree[x - 1].source == x && p < x);
        if side[x] != side[p] {
            lemma_cut_at_least_edge(edges, n, tree, side, x - 1);
        } else {
            lemma_cut_at_least_climb(edges, n, tree, side, p, y);
        }
    } else {
        let p = tree[y - 1].target as int;
        assert(tree[y - 1].source == y && p < y);
        if side[y] != side[p] {
            lemma_cut_at_least_edge(edges, n, tree, side, y - 1);
        } else {
            lemma_cut_at_least_climb(edges, n, tree, side, x, p);
        }
    }
}

/// The parent of `w` after `k` steps: `w` moves under step `k` when it shared the parent of
/// `k` and lies on `k`'s side of its cut.
proof fn lemma_parents_step(n: nat, sides: Seq<Seq<bool>>, k: int, w: int)
    requires
        1 <= k,
        0 <= w < n,
    ensures
        gusfield_parents(n, sides, k)[w] == (if w > k && gusfield_parents(n, sides, k - 1)[w]
            == gusfield_parents(n, sides, k - 1)[k] && sides[k - 1][w] == sides[k - 1][k] {
            k as usize
        } else {
            gusfield_parents(n, sides, k - 1)[w]
        }),
{
    lemma_gusfield_parents_bound(n, sides, k - 1);
}

/// Once `w` has parent `a` after `m` steps, it had that parent after every step from `a` on.
proof fn lemma_parents_stable(n: nat, sides: Seq<Seq<bool>>, m: int, j: int, w: int)
    requires
        0 <= j <= m < n,
        n <= usize::MAX,
        0 <= w < n,
        gusfield_parents(n, sides, m)[w] <= j,
    ensures
        gusfield_parents(n, sides, j)[w] == gusfield_parents(n, sides, m)[w],
    decreases m - j,
{
    if m > j {
        lemma_parents_step(n, sides, m, w);
        lemma_parents_stable(n, sides, m - 1, j, w);
    }
}

/// Where vertex `w` hangs after `k` steps: itself once processed, else its current parent.
pub open spec fn anchor(n: nat, sides: Seq<Seq<bool>>, k: int, w: int) -> int {
    if w <= k {
        w
    } else {
        gusfield_parents(n, sides, k)[w] as int
    }
}

/// Some cut with `u` on the source side and `v` not has capacity at most `bound`.
pub open spec fn has_cut_within(edges: Seq<(usize, usize, u64)>, n: nat, u: int, v: int, bound: int) -> bool {
    exists|side: Seq<bool>|
        side.len() == n && side[u] && !side[v] && #[trigger] cut_capacity(edges, side) <= bound
}

/// Every vertex of the path that climbing from `a` and `b` walks is outside `side`.
pub open spec fn path_avoids(tree: Seq<TreeEdge>, a: int, b: int, side: Seq<bool>) -> bool
    decreases a + b,
{
    if a < 0 || b < 0 {
        false
    } else if a == b {
        !side[a]
    } else if a > b {
        let p = tree[a - 1].target as int;
        !side[a] && p < a && path_avoids(tree, p, b, side)
    } else {
        let p = tree[b - 1].target as int;
        !side[b] && p < b && path_avoids(tree, a, p, side)
    }
}

/// The vertices in both sets.
pub open spec fn meet(a: Seq<bool>, b: Seq<bool>) -> Seq<bool> {
    Seq::new(a.len(), |w: int| a[w] && b[w])
}

/// The vertices in either set.
pub open spec fn join(a: Seq<bool>, b: Seq<bool>) -> Seq<bool> {
    Seq::new(a.len(), |w: int| a[w] || b[w])
}

/// Cut capacity is submodular.
pub proof fn lemma_submodular(edges: Seq<(usize, usize, u64)>, a: Seq<bool>, b: Seq<bool>)
    requires
        a.len() == b.len(),
    ensures
        cut_capacity(edges, meet(a, b)) + cut_capacity(edges, join(a, b)) <= cut_capacity(edges, a)
            + cut_capacity(edges, b),
    decreases edges.len(),
{
    if edges.len() > 0 {
        lemma_submodular(edges.drop_last(), a, b);
        let e = edges.last();
        let m = meet(a, b);
        let j = join(a, b);
        assert(crossing_capacity(e, m) + crossing_capacity(e, j) <= crossing_capacity(e, a)
            + crossing_capacity(e, b)) by {
            if e.0 < a.len() && e.1 < a.len() {
                assert(m[e.0 as int] == (a[e.0 as int] && b[e.0 as int]));
                assert(m[e.1 as int] == (a[e.1 as int] && b[e.1 as int]));
                assert(j[e.0 as int] == (a[e.0 as int] || b[e.0 as int]));
                assert(j[e.1 as int] == (a[e.1 as int] || b[e.1 as int]));
            }
        }
    }
}

/// Climbing between two vertices outside a vertex set whose capacity is below the
/// climbing bound never enters the set.
proof fn lemma_path_avoids(
    edges: Seq<(usize, usize, u64)>,
    n: nat,
    tree: Seq<TreeEdge>,
    side: Seq<bool>,
    a: int,
    b: int,
)
    requires
        undirected(edges, n),
        parent_shaped(tree, n),
        edges_are_min_cuts(edges, n, tree),
        side.len() == n,
        0 <= a < n,
        0 <= b < n,
        !side[a],
        !side[b],
        climb(tree, a, b) > cut_capacity(edges, side),
    ensures
        path_avoids(tree, a, b, side),
    decreases a + b,
{
    if a > b {
        let p = tree[a - 1].target as int;
        assert(tree[a - 1].source == a && p < a);
        if side[p] {
            lemma_cut_at_least_climb(edges, n, tree, side, p, a);
            assert(climb(tree, p, p) == u64::MAX as int);
        }
        lemma_path_avoids(edges, n, tree, side, p, b);
    } else if a < b {
        let p = tree[b - 1].target as int;
        assert(tree[b - 1].source == b && p < b);
        if side[p] {
            lemma_cut_at_least_climb(edges, n, tree, side, p, b);
            assert(climb(tree, p, p) == u64::MAX as int);
        }
        lemma_path_avoids(edges, n, tree, side, a, p);
    }
}

/// For two vertices not yet processed after `m` steps and hanging at different vertices,
/// some tree edge on the path between those vertices has a cut that separates them.
proof fn lemma_separating_edge(
    edges: Seq<(usize, usize, u64)>,
    n: nat,
    tree: Seq<TreeEdge>,
    sides: Seq<Seq<bool>>,
    side: Seq<bool>,
    u: int,
    v: int,
    a: int,
    b: int,
    m: int,
) -> (c: int)
    requires
        is_gusfield_run(edges, n, tree, sides),
        n <= usize::MAX,
        0 <= a <= m,
        0 <= b <= m,
        a != b,
        m < u < n,
        m < v < n,
        gusfield_parents(n, sides, m)[u] == a,
        gusfield_parents(n, sides, m)[v] == b,
        path_avoids(tree, a, b, side),
    ensures
        1 <= c < n,
        sides[c - 1][u] != sides[c - 1][v],
        !side[c],
        !side[tree[c - 1].target as int],
    decreases a + b,
{
    if a > b {
        let k = a - 1;
        let p = tree[k].target as int;
        assert(tree[k].source == k + 1);
        assert(tree[k].target == gusfield_parents(n, sides, k)[k + 1]);
        assert(is_min_cut(edges, n, (k + 1) as usize, tree[k].target, sides[k]));
        lemma_gusfield_parents_bound(n, sides, k);
        lemma_parents_stable(n, sides, m, a, u);
        lemma_parents_step(n, sides, a, u);
        lemma_parents_stable(n, sides, m, a, v);
        lemma_parents_stable(n, sides, m, k, v);
        lemma_parents_step(n, sides, a, v);
        assert(path_avoids(tree, p, b, side));
        if p == b {
            assert(!side[b]);
            a
        } else {
            lemma_separating_edge(edges, n, tree, sides, side, u, v, p, b, k)
        }
    } else {
        let k = b - 1;
        let p = tree[k].target as int;
        assert(tree[k].source == k + 1);
        assert(tree[k].target == gusfield_parents(n, sides, k)[k + 1]);
        assert(is_min_cut(edges, n, (k + 1) as usize, tree[k].target, sides[k]));
        lemma_gusfield_parents_bound(n, sides, k);
        lemma_parents_stable(n, sides, m, b, v);
        lemma_parents_step(n, sides, b, v);
        lemma_parents_stable(n, sides, m, b, u);
        lemma_parents_stable(n, sides, m, k, u);
        lemma_parents_step(n, sides, b, u);
        assert(path_avoids(tree, a, p, side));
        if p == a {
            assert(!side[a]);
            b
        } else {
            lemma_separating_edge(edges, n, tree, sides, side, u, v, a, p, k)
        }
    }
}

/// The facts of a run that the proofs below use, on a parent-shaped tree whose edges carry
/// minimum cut values.
proof fn lemma_run_facts(edges: Seq<(usize, usize, u64)>, n: nat, tree: Seq<TreeEdge>, sides: Seq<Seq<bool>>)
    requires
        is_gusfield_run(edges, n, tree, sides),
    ensures
        parent_shaped(tree, n),
        edges_are_min_cuts(edges, n, tree),
{
    assert(is_gusfield_tree(edges, n, tree));
    lemma_gusfield_tree_edges(edges, n, tree);
}

/// In an undirected network, a cut found for the pair in one order also serves the other.
proof fn lemma_cut_within_swap(edges: Seq<(usize, usize, u64)>, n: nat, u: int, v: int, bound: int)
    requires
        undirected(edges, n),
        0 <= u < n,
        0 <= v < n,
        has_cut_within(edges, n, v, u, bound),
    ensures
        has_cut_within(edges, n, u, v, bound),
{
    let side = choose|side: Seq<bool>|
        side.len() == n && side[v] && !side[u] && #[trigger] cut_capacity(edges, side) <= bound;
    let other = complement(side);
    assert(cut_capacity(edges, side) == cut_capacity(edges, other));
    assert(other[u] && !other[v]);
}

/// Two vertices on the source side of a cut `x`, separated by the minimum cut `z` of a
/// tree edge whose endpoints lie outside `x`, are separated by the meet of `x` and `z`,
/// whose capacity is at most that of `x` (submodularity).
proof fn lemma_meet_separates(
    edges: Seq<(usize, usize, u64)>,
    n: nat,
    x: Seq<bool>,
    z: Seq<bool>,
    c: usize,
    pc: usize,
    u: int,
    v: int,
)
    requires
        undirected(edges, n),
        is_min_cut(edges, n, c, pc, z),
        x.len() == n,
        !x[c as int],
        !x[pc as int],
        0 <= u < n,
        0 <= v < n,
        x[u],
        x[v],
        z[u] != z[v],
    ensures
        has_cut_within(edges, n, u, v, cut_capacity(edges, x)),
{
    let lower = meet(x, z);
    let upper = join(x, z);
    lemma_submodular(edges, x, z);
    assert(separates(upper, n, c, pc));
    if z[u] {
        assert(lower[u] && !lower[v]);
        assert(lower.len() == n);
    } else {
        let other = complement(lower);
        assert(lower.len() == n);
        assert(cut_capacity(edges, lower) == cut_capacity(edges, other));
        assert(other[u] && !other[v]);
    }
}

/// Step `y` finds the cut `X` between `y` and its parent `t`. Two vertices on `y`'s side of
/// `X`, one hanging at `t` and one at another vertex `b` farther than `X`'s capacity from
/// `t` in the tree, are separated by a cut no larger than `X`: the meet of `X` with the cut
/// of a tree edge between `t` and `b`.
proof fn lemma_same_side_pair(
    edges: Seq<(usize, usize, u64)>,
    n: nat,
    tree: Seq<TreeEdge>,
    sides: Seq<Seq<bool>>,
    y: int,
    u: int,
    v: int,
)
    requires
        is_gusfield_run(edges, n, tree, sides),
        undirected(edges, n),
        n <= usize::MAX,
        1 <= y < n,
        0 <= u < n,
        0 <= v < n,
        sides[y - 1][u],
        sides[y - 1][v],
        anchor(n, sides, y - 1, u) == tree[y - 1].target,
        anchor(n, sides, y - 1, v) != tree[y - 1].target,
        climb(tree, tree[y - 1].target as int, anchor(n, sides, y - 1, v)) > tree[y - 1].capacity,
    ensures
        has_cut_within(edges, n, u, v, tree[y - 1].capacity as int),
{
    let k = y - 1;
    let x = sides[k];
    let t = tree[k].target as int;
    let b = anchor(n, sides, k, v);
    let c = lemma_same_side_edge(edges, n, tree, sides, y, u, v);
    let z = sides[c - 1];
    let pc = tree[c - 1].target;
    assert(tree[c - 1].source == c);
    assert(tree[c - 1].target == gusfield_parents(n, sides, c - 1)[c]);
    assert(is_min_cut(edges, n, c as usize, pc, z));
    assert(tree[k].source == k + 1);
    assert(cut_capacity(edges, x) == tree[k].capacity);
    lemma_meet_separates(edges, n, x, z, c as usize, pc, u, v);
}

/// The tree edge whose cut separates the two vertices of `lemma_same_side_pair`.
proof fn lemma_same_side_edge(
    edges: Seq<(usize, usize, u64)>,
    n: nat,
    tree: Seq<TreeEdge>,
    sides: Seq<Seq<bool>>,
    y: int,
    u: int,
    v: int,
) -> (c: int)
    requires
        is_gusfield_run(edges, n, tree, sides),
        undirected(edges, n),
        n <= usize::MAX,
        1 <= y < n,
        0 <= u < n,
        0 <= v < n,
        sides[y - 1][u],
        sides[y - 1][v],
        anchor(n, sides, y - 1, u) == tree[y - 1].target,
        anchor(n, sides, y - 1, v) != tree[y - 1].target,
        climb(tree, tree[y - 1].target as int, anchor(n, sides, y - 1, v)) > tree[y - 1].capacity,
    ensures
        1 <= c < n,
        sides[c - 1][u] != sides[c - 1][v],
        sides[y - 1].len() == n,
        !sides[y - 1][c],
        !sides[y - 1][tree[c - 1].target as int],
{
    let k = y - 1;
    let x = sides[k];
    let t = tree[k].target as int;
    let f = tree[k].capacity as int;
    lemma_run_facts(edges, n, tree, sides);
    lemma_gusfield_parents_bound(n, sides, k);
    assert(tree[k].source == k + 1);
    assert(tree[k].target == gusfield_parents(n, sides, k)[k + 1]);
    assert(is_min_cut(edges, n, (k + 1) as usize, tree[k].target, x));
    assert(cut_capacity(edges, x) == f);
    assert(x[y] && !x[t] && x.len() == n);
    let b = anchor(n, sides, k, v);
    assert(u > k);
    assert(0 <= b <= k);
    if x[b] {
        lemma_cut_at_least_climb(edges, n, tree, x, b, t);
        lemma_climb_symmetric(tree, b, t);
    }
    assert(v > k);
    lemma_path_avoids(edges, n, tree, x, t, b);
    lemma_separating_edge(edges, n, tree, sides, x, u, v, t, b, k)
}


/// Where every vertex hangs after `k` steps bounds the cuts: two vertices that hang at
/// different vertices are separated by a cut no larger than the smallest capacity on the
/// tree path between those two vertices.
pub open spec fn cuts_bounded(
    edges: Seq<(usize, usize, u64)>,
    n: nat,
    tree: Seq<TreeEdge>,
    sides: Seq<Seq<bool>>,
    k: int,
) -> bool {
    forall|u: int, v: int|
        0 <= u < n && 0 <= v < n && anchor(n, sides, k, u) != anchor(n, sides, k, v) ==> #[trigger] has_cut_within(
            edges,
            n,
            u,
            v,
            climb(tree, anchor(n, sides, k, u), anchor(n, sides, k, v)),
        )
}

/// A cut within a bound is within every larger bound.
proof fn lemma_cut_within_weaken(edges: Seq<(usize, usize, u64)>, n: nat, u: int, v: int, small: int, large: int)
    requires
        has_cut_within(edges, n, u, v, small),
        small <= large,
    ensures
        has_cut_within(edges, n, u, v, large),
{
    let side = choose|side: Seq<bool>|
        side.len() == n && side[u] && !side[v] && #[trigger] cut_capacity(edges, side) <= small;
    assert(cut_capacity(edges, side) <= large);
}

/// Where a vertex hangs after step `y`: under `y` when it hung at `y`'s parent and lies on
/// `y`'s side of the cut found there, else where it hung before.
proof fn lemma_anchor_step(
    edges: Seq<(usize, usize, u64)>,
    n: nat,
    tree: Seq<TreeEdge>,
    sides: Seq<Seq<bool>>,
    y: int,
    w: int,
)
    requires
        is_gusfield_run(edges, n, tree, sides),
        n <= usize::MAX,
        1 <= y < n,
        0 <= w < n,
    ensures
        0 <= anchor(n, sides, y - 1, w) <= y - 1,
        anchor(n, sides, y, w) == (if anchor(n, sides, y - 1, w) == tree[y - 1].target && sides[y - 1][w] {
            y
        } else {
            anchor(n, sides, y - 1, w)
        }),
{
    let k = y - 1;
    lemma_gusfield_parents_bound(n, sides, k);
    lemma_gusfield_parents_bound(n, sides, y);
    assert(tree[k].source == k + 1);
    assert(tree[k].target == gusfield_parents(n, sides, k)[k + 1]);
    assert(is_min_cut(edges, n, (k + 1) as usize, tree[k].target, sides[k]));
    lemma_parents_step(n, sides, y, w);
}

/// Climbing from step `y` to an earlier vertex passes the edge from `y` to its parent.
proof fn lemma_climb_step(tree: Seq<TreeEdge>, n: nat, y: int, b: int)
    requires
        parent_shaped(tree, n),
        1 <= y < n,
        0 <= b < y,
    ensures
        climb(tree, y, b) == min_of(tree[y - 1].capacity as int, climb(tree, tree[y - 1].target as int, b)),
{
    assert(tree[y - 1].source == y && tree[y - 1].target < y);
}

/// Step `y` moved `u` under `y` and left `v` where it hung: some cut separates them within
/// the smaller of the new edge's capacity and the climbing bound from `y`'s parent.
proof fn lemma_moved_pair(
    edges: Seq<(usize, usize, u64)>,
    n: nat,
    tree: Seq<TreeEdge>,
    sides: Seq<Seq<bool>>,
    y: int,
    u: int,
    v: int,
)
    requires
        is_gusfield_run(edges, n, tree, sides),
        undirected(edges, n),
        n <= usize::MAX,
        1 <= y < n,
        0 <= u < n,
        0 <= v < n,
        cuts_bounded(edges, n, tree, sides, y - 1),
        anchor(n, sides, y - 1, u) == tree[y - 1].target,
        sides[y - 1][u],
        !(anchor(n, sides, y - 1, v) == tree[y - 1].target && sides[y - 1][v]),
    ensures
        has_cut_within(
            edges,
            n,
            u,
            v,
            min_of(tree[y - 1].capacity as int, climb(tree, tree[y - 1].target as int, anchor(n, sides, y - 1, v))),
        ),
{
    let k = y - 1;
    let x = sides[k];
    let t = tree[k].target as int;
    let f = tree[k].capacity as int;
    let b = anchor(n, sides, k, v);
    let bound = min_of(f, climb(tree, t, b));
    assert(tree[k].source == k + 1);
    assert(tree[k].target == gusfield_parents(n, sides, k)[k + 1]);
    assert(is_min_cut(edges, n, (k + 1) as usize, tree[k].target, x));
    assert(cut_capacity(edges, x) == f);
    if b == t {
        assert(!x[v]);
        assert(climb(tree, t, t) == u64::MAX as int);
        assert(x.len() == n && x[u] && !x[v] && cut_capacity(edges, x) <= bound);
    } else {
        assert(has_cut_within(edges, n, u, v, climb(tree, anchor(n, sides, k, u), anchor(n, sides, k, v))));
        if climb(tree, t, b) <= f {
            lemma_cut_within_weaken(edges, n, u, v, climb(tree, t, b), bound);
        } else if !x[v] {
            assert(x.len() == n && x[u] && !x[v] && cut_capacity(edges, x) <= bound);
        } else {
            lemma_same_side_pair(edges, n, tree, sides, y, u, v);
        }
    }
}

/// Step `y` keeps the cuts bounded.
proof fn lemma_cuts_step(
    edges: Seq<(usize, usize, u64)>,
    n: nat,
    tree: Seq<TreeEdge>,
    sides: Seq<Seq<bool>>,
    y: int,
)
    requires
        is_gusfield_run(edges, n, tree, sides),
        undirected(edges, n),
        n <= usize::MAX,
        1 <= y < n,
        cuts_bounded(edges, n, tree, sides, y - 1),
    ensures
        cuts_bounded(edges, n, tree, sides, y),
{
    let k = y - 1;
    let t = tree[k].target as int;
    lemma_run_facts(edges, n, tree, sides);
    assert forall|u: int, v: int|
        0 <= u < n && 0 <= v < n && anchor(n, sides, y, u) != anchor(n, sides, y, v) implies #[trigger] has_cut_within(
        edges,
        n,
        u,
        v,
        climb(tree, anchor(n, sides, y, u), anchor(n, sides, y, v)),
    ) by {
        lemma_anchor_step(edges, n, tree, sides, y, u);
        lemma_anchor_step(edges, n, tree, sides, y, v);
        let a = anchor(n, sides, k, u);
        let b = anchor(n, sides, k, v);
        let moved_u = a == t && sides[k][u];
        let moved_v = b == t && sides[k][v];
        if moved_u && !moved_v {
            lemma_moved_pair(edges, n, tree, sides, y, u, v);
            lemma_climb_step(tree, n, y, b);
        } else if moved_v && !moved_u {
            lemma_moved_pair(edges, n, tree, sides, y, v, u);
            lemma_climb_step(tree, n, y, a);
            lemma_climb_symmetric(tree, a, y);
            lemma_cut_within_swap(edges, n, u, v, climb(tree, y, a));
        } else {
            assert(has_cut_within(edges, n, u, v, climb(tree, anchor(n, sides, k, u), anchor(n, sides, k, v))));
        }
    }
}

/// The cuts stay bounded through every step of a run.
proof fn lemma_cuts_bounded(
    edges: Seq<(usize, usize, u64)>,
    n: nat,
    tree: Seq<TreeEdge>,
    sides: Seq<Seq<bool>>,
    k: int,
)
    requires
        is_gusfield_run(edges, n, tree, sides),
        undirected(edges, n),
        n <= usize::MAX,
        0 <= k < n,
    ensures
        cuts_bounded(edges, n, tree, sides, k),
    decreases k,
{
    if k == 0 {
        assert forall|u: int, v: int|
            0 <= u < n && 0 <= v < n && anchor(n, sides, 0, u) != anchor(n, sides, 0, v) implies #[trigger] has_cut_within(
            edges,
            n,
            u,
            v,
            climb(tree, anchor(n, sides, 0, u), anchor(n, sides, 0, v)),
        ) by {
            assert(anchor(n, sides, 0, u) == 0);
            assert(anchor(n, sides, 0, v) == 0);
        }
    } else {
        lemma_cuts_bounded(edges, n, tree, sides, k - 1);
        lemma_cuts_step(edges, n, tree, sides, k);
    }
}

/// On a tree built by Gusfield's algorithm for an undirected network, the smallest
/// capacity on the tree path between two distinct vertices is their minimum cut value.
pub proof fn lemma_gusfield_climb_is_min_cut(
    edges: Seq<(usize, usize, u64)>,
    n: nat,
    tree: Seq<TreeEdge>,
    s: usize,
    t: usize,
)
    requires
        undirected(edges, n),
        is_gusfield_tree(edges, n, tree),
        n <= usize::MAX,
        s < n,
        t < n,
        s != t,
    ensures
        parent_shaped(tree, n),
        is_min_cut_capacity(edges, n, s, t, climb(tree, s as int, t as int)),
{
    let sides = choose|sides: Seq<Seq<bool>>| is_gusfield_run(edges, n, tree, sides);
    lemma_run_facts(edges, n, tree, sides);
    let last = n - 1;
    lemma_cuts_bounded(edges, n, tree, sides, last);
    assert(anchor(n, sides, last, s as int) == s);
    assert(anchor(n, sides, last, t as int) == t);
    assert(has_cut_within(edges, n, s as int, t as int, climb(tree, s as int, t as int)));
    let best = choose|side: Seq<bool>|
        side.len() == n && side[s as int] && !side[t as int] && #[trigger] cut_capacity(edges, side)
            <= climb(tree, s as int, t as int);
    assert(separates(best, n, s, t));
    lemma_cut_at_least_climb(edges, n, tree, best, s as int, t as int);
    assert forall|other: Seq<bool>| separates(other, n, s, t) implies cut_capacity(edges, best) <= #[trigger] cut_capacity(
        edges,
        other,
    ) by {
        lemma_cut_at_least_climb(edges, n, tree, other, s as int, t as int);
    }
    assert(is_min_cut(edges, n, s, t, best));
}


/// `w` lies in the subtree of `c`: climbing from `w` through parents reaches `c`.
pub open spec fn descends(tree: Seq<TreeEdge>, w: int, c: int) -> bool
    decreases w,
{
    if w == c {
        true
    } else if w < c || w <= 0 {
        false
    } else {
        let p = tree[w - 1].target as int;
        if p < w {
            descends(tree, p, c)
        } else {
            false
        }
    }
}

/// Two vertices on different sides of the edge above `c` are at most that edge's capacity
/// apart in the climbing bound.
proof fn lemma_climb_below_split(tree: Seq<TreeEdge>, n: nat, a: int, b: int, c: int)
    requires
        parent_shaped(tree, n),
        0 <= a < n,
        0 <= b < n,
        1 <= c < n,
        descends(tree, a, c) != descends(tree, b, c),
    ensures
        climb(tree, a, b) <= tree[c - 1].capacity,
    decreases a + b,
{
    if a > b {
        let p = tree[a - 1].target as int;
        assert(tree[a - 1].source == a && p < a);
        if a != c {
            assert(descends(tree, a, c) == descends(tree, p, c));
            lemma_climb_below_split(tree, n, p, b, c);
        }
    } else {
        let p = tree[b - 1].target as int;
        assert(tree[b - 1].source == b && p < b);
        if b != c {
            assert(descends(tree, b, c) == descends(tree, p, c));
            lemma_climb_below_split(tree, n, a, p, c);
        }
    }
}

/// Along a simple tree path, a vertex lies in the subtree of `m + 1` exactly when the
/// start does, unless the path has already crossed edge `m`, which it crosses at most once.
proof fn lemma_path_crossings(
    tree: Seq<TreeEdge>,
    n: nat,
    s: usize,
    t: usize,
    vs: Seq<usize>,
    es: Seq<int>,
    m: int,
    i: int,
)
    requires
        parent_shaped(tree, n),
        is_tree_path(tree, n, s, t, vs, es),
        0 <= m < tree.len(),
        0 <= i < vs.len(),
    ensures
        (exists|l: int| 0 <= l < i && #[trigger] es[l] == m) ==> descends(tree, vs[i] as int, m + 1)
            != descends(tree, s as int, m + 1),
        (forall|l: int| 0 <= l < i ==> #[trigger] es[l] != m) ==> descends(tree, vs[i] as int, m + 1)
            == descends(tree, s as int, m + 1),
    decreases i,
{
    if i > 0 {
        lemma_path_crossings(tree, n, s, t, vs, es, m, i - 1);
        let j = es[i - 1];
        let e = tree[j];
        assert(joins(e, vs[i - 1], vs[i]));
        assert(e.source == j + 1 && e.target < j + 1);
        if j == m {
            assert(descends(tree, (m + 1) as int, m + 1));
            assert(!descends(tree, e.target as int, m + 1));
            assert forall|l: int| 0 <= l < i - 1 implies #[trigger] es[l] != m by {
                if es[l] == m {
                    assert(joins(tree[m], vs[l], vs[l + 1]));
                    assert(vs[l] != vs[i - 1] && vs[l] != vs[i]);
                }
            }
        } else {
            assert(descends(tree, e.source as int, m + 1) == descends(tree, e.target as int, m + 1));
            if exists|l: int| 0 <= l < i && #[trigger] es[l] == m {
                let l = choose|l: int| 0 <= l < i && #[trigger] es[l] == m;
                assert(l < i - 1);
            }
        }
    }
}

/// The smallest capacity on a list of tree edges each of capacity at least `bound`.
pub proof fn lemma_bottleneck_at_least(tree: Seq<TreeEdge>, es: Seq<int>, bound: int)
    requires
        bound <= u64::MAX,
        forall|i: int| 0 <= i < es.len() ==> bound <= (#[trigger] tree[es[i]]).capacity,
    ensures
        bound <= bottleneck(tree, es),
    decreases es.len(),
{
    if es.len() > 0 {
        let rest = es.drop_last();
        assert forall|i: int| 0 <= i < rest.len() implies bound <= (#[trigger] tree[rest[i]]).capacity by {
            assert(rest[i] == es[i]);
        }
        lemma_bottleneck_at_least(tree, rest, bound);
        assert(tree[es[es.len() - 1]].capacity >= bound);
    }
}

/// In a parent-shaped tree, every simple tree path between two vertices has at least the
/// climbing bound between them as its smallest capacity: the path crosses only edges that
/// split the two vertices, and the climbing bound is at most each of those.
proof fn lemma_path_at_least_climb(
    tree: Seq<TreeEdge>,
    n: nat,
    s: usize,
    t: usize,
    vs: Seq<usize>,
    es: Seq<int>,
)
    requires
        parent_shaped(tree, n),
        is_tree_path(tree, n, s, t, vs, es),
    ensures
        climb(tree, s as int, t as int) <= bottleneck(tree, es),
{
    assert forall|i: int| 0 <= i < es.len() implies climb(tree, s as int, t as int) <= (#[trigger] tree[es[i]]).capacity by {
        let m = es[i];
        lemma_path_crossings(tree, n, s, t, vs, es, m, vs.len() - 1);
        assert(es[i] == m);
        assert(vs[vs.len() - 1] == t);
        lemma_climb_below_split(tree, n, s as int, t as int, m + 1);
    }
    if es.len() > 0 {
        assert(vs[0] == s && vs[vs.len() - 1] == t && vs.len() >= 2);
        assert(s != t);
        assert(climb(tree, s as int, t as int) <= tree[es[0]].capacity);
    } else {
        assert(climb(tree, s as int, t as int) <= u64::MAX) by {
            lemma_climb_at_most_max(tree, s as int, t as int);
        }
    }
    lemma_climb_at_most_max(tree, s as int, t as int);
    lemma_bottleneck_at_least(tree, es, climb(tree, s as int, t as int));
}

/// The climbing bound never exceeds `u64::MAX`.
proof fn lemma_climb_at_most_max(tree: Seq<TreeEdge>, a: int, b: int)
    ensures
        climb(tree, a, b) <= u64::MAX,
    decreases a + b,
{
    if a != b && a >= 0 && b >= 0 {
        if a > b {
            let p = tree[a - 1].target as int;
            if p < a {
                lemma_climb_at_most_max(tree, p, b);
            }
        } else {
            let p = tree[b - 1].target as int;
            if p < b {
                lemma_climb_at_most_max(tree, a, p);
            }
        }
    }
}

/// On a tree built by Gusfield's algorithm for an undirected network, the answer to the
/// minimum-cut query between two distinct vertices is the capacity of a minimum cut
/// between them in the network.
pub proof fn lemma_gusfield_answer_is_min_cut(
    edges: Seq<(usize, usize, u64)>,
    n: nat,
    tree: Seq<TreeEdge>,
    s: usize,
    t: usize,
    value: u64,
)
    requires
        undirected(edges, n),
        is_gusfield_tree(edges, n, tree),
        n <= usize::MAX,
        s < n,
        t < n,
        s != t,
        is_query_answer(tree, n, s, t, value),
    ensures
        is_min_cut_capacity(edges, n, s, t, value as int),
{
    lemma_gusfield_climb_is_min_cut(edges, n, tree, s, t);
    lemma_gusfield_answer_below_cuts(edges, n, tree, s, t, value);
    let (vs, es) = choose|vs: Seq<usize>, es: Seq<int>|
        #[trigger] is_tree_path(tree, n, s, t, vs, es) && value == bottleneck(tree, es);
    lemma_path_at_least_climb(tree, n, s, t, vs, es);
    let best = choose|side: Seq<bool>|
        is_min_cut(edges, n, s, t, side) && cut_capacity(edges, side) == climb(tree, s as int, t as int);
    assert(separates(best, n, s, t));
    assert(value <= cut_capacity(edges, best));
}


/// On a tree built by Gusfield's algorithm for an undirected network, the minimum-cut query
/// gives the same answer for a pair of vertices in either order.
pub proof fn lemma_gusfield_answers_symmetric(
    edges: Seq<(usize, usize, u64)>,
    n: nat,
    tree: Seq<TreeEdge>,
    s: usize,
    t: usize,
    st: u64,
    ts: u64,
)
    requires
        undirected(edges, n),
        is_gusfield_tree(edges, n, tree),
        n <= usize::MAX,
        s < n,
        t < n,
        s != t,
        is_query_answer(tree, n, s, t, st),
        is_query_answer(tree, n, t, s, ts),
    ensures
        st == ts,
{
    lemma_gusfield_answer_is_min_cut(edges, n, tree, s, t, st);
    lemma_gusfield_answer_is_min_cut(edges, n, tree, t, s, ts);
    lemma_min_cut_symmetric(edges, n, t, s, ts as int);
    lemma_min_cut_capacity_unique(edges, n, s, t, st as int, ts as int);
}

/// On a tree built by Gusfield's algorithm for an undirected network, the answer for `s`
/// and `u` is at least the smaller of the answers for `s` and `t` and for `t` and `u`.
pub proof fn lemma_gusfield_answers_three_vertices(
    edges: Seq<(usize, usize, u64)>,
    n: nat,
    tree: Seq<TreeEdge>,
    s: usize,
    t: usize,
    u: usize,
    st: u64,
    tu: u64,
    su: u64,
)
    requires
        undirected(edges, n),
        is_gusfield_tree(edges, n, tree),
        n <= usize::MAX,
        s < n,
        t < n,
        u < n,
        s != t,
        t != u,
        s != u,
        is_query_answer(tree, n, s, t, st),
        is_query_answer(tree, n, t, u, tu),
        is_query_answer(tree, n, s, u, su),
    ensures
        su >= st || su >= tu,
{
    lemma_gusfield_answer_is_min_cut(edges, n, tree, s, t, st);
    lemma_gusfield_answer_is_min_cut(edges, n, tree, t, u, tu);
    lemma_gusfield_answer_is_min_cut(edges, n, tree, s, u, su);
    lemma_min_cut_three_vertices(edges, n, s, t, u, st as int, tu as int, su as int);
}


/// The climbing bound between two distinct vertices is the capacity of an edge that splits
/// them: one lies in the subtree below the edge and the other does not.
proof fn lemma_climb_attained(tree: Seq<TreeEdge>, n: nat, a: int, b: int) -> (c: int)
    requires
        parent_shaped(tree, n),
        0 <= a < n,
        0 <= b < n,
        a != b,
    ensures
        1 <= c < n,
        descends(tree, a, c) != descends(tree, b, c),
        climb(tree, a, b) == tree[c - 1].capacity,
    decreases a + b,
{
    if a > b {
        let p = tree[a - 1].target as int;
        assert(tree[a - 1].source == a && p < a);
        lemma_climb_at_most_max(tree, p, b);
        if tree[a - 1].capacity <= climb(tree, p, b) {
            assert(descends(tree, a, a));
            assert(!descends(tree, b, a));
            a
        } else {
            let c = lemma_climb_attained(tree, n, p, b);
            assert(!descends(tree, p, a) && !descends(tree, b, a));
            assert(descends(tree, a, c) == descends(tree, p, c));
            c
        }
    } else {
        let p = tree[b - 1].target as int;
        assert(tree[b - 1].source == b && p < b);
        lemma_climb_at_most_max(tree, a, p);
        if tree[b - 1].capacity <= climb(tree, a, p) {
            assert(descends(tree, b, b));
            assert(!descends(tree, a, b));
            b
        } else {
            let c = lemma_climb_attained(tree, n, a, p);
            assert(!descends(tree, p, b) && !descends(tree, a, b));
            assert(descends(tree, b, c) == descends(tree, p, c));
            c
        }
    }
}

/// A vertex set closed under the edges of a parent-shaped tree holds every vertex or none.
proof fn lemma_parent_shaped_joined(tree: Seq<TreeEdge>, n: nat, side: Seq<bool>, v: int)
    requires
        parent_shaped(tree, n),
        side.len() == n,
        tree_closed(tree, n, side),
        0 <= v < n,
    ensures
        side[v] == side[0],
    decreases v,
{
    if v > 0 {
        let e = tree[v - 1];
        assert(e.source == v && e.target < v);
        lemma_parent_shaped_joined(tree, n, side, e.target as int);
    }
}

/// On a tree in which edge `k` joins vertex `k + 1` to an earlier vertex (every tree that
/// Gusfield's algorithm builds), the minimum-cut query between two distinct vertices has
/// exactly one answer: the smallest capacity on the tree path between them.
pub proof fn lemma_parent_shaped_answer(tree: Seq<TreeEdge>, n: nat, s: usize, t: usize, value: u64)
    requires
        parent_shaped(tree, n),
        s < n,
        t < n,
        s != t,
        is_query_answer(tree, n, s, t, value),
    ensures
        value == climb(tree, s as int, t as int),
{
    if tree_separated(tree, n, s, t) {
        let side = choose|side: Seq<bool>|
            side.len() == n && side[s as int] && !side[t as int] && #[trigger] tree_closed(tree, n, side);
        lemma_parent_shaped_joined(tree, n, side, s as int);
        lemma_parent_shaped_joined(tree, n, side, t as int);
    }
    let (vs, es) = choose|vs: Seq<usize>, es: Seq<int>|
        #[trigger] is_tree_path(tree, n, s, t, vs, es) && value == bottleneck(tree, es);
    lemma_path_at_least_climb(tree, n, s, t, vs, es);
    let c = lemma_climb_attained(tree, n, s as int, t as int);
    let m = c - 1;
    lemma_path_crossings(tree, n, s, t, vs, es, m, vs.len() - 1);
    assert(vs[vs.len() - 1] == t);
    let l = choose|l: int| 0 <= l < vs.len() - 1 && #[trigger] es[l] == m;
    lemma_bottleneck_at_most(tree, es, l);
}

} // verus!
