//! Minimum-cut queries on trees whose edges form a forest: the answer between two vertices
//! is unique, does not depend on their order, and meets the three-vertex inequality.
use vstd::prelude::*;

use crate::equivalence::{lemma_bottleneck_at_least, parent_shaped};
use crate::properties::{complement, lemma_bottleneck_at_most, lemma_path_not_separated};
use crate::tree::{bottleneck, is_query_answer, is_tree_path, joins, tree_closed, tree_separated, TreeEdge};

verus! {

/// The endpoint of tree edge `edge` other than `v`.
pub open spec fn other_end(edge: TreeEdge, v: int) -> int {
    if edge.source == v {
        edge.target as int
    } else {
        edge.source as int
    }
}

/// `pe` and `depth` root the tree's edges between vertices below `n` as a forest: each
/// vertex `v` hangs by at most one edge `pe[v]` (`-1` for none) from a vertex of smaller
/// depth, and each edge between two vertices below `n` is the edge by which one of its
/// endpoints hangs.
pub open spec fn rooted_by(tree: Seq<TreeEdge>, n: nat, pe: Seq<int>, depth: Seq<nat>) -> bool {
    &&& pe.len() == n
    &&& depth.len() == n
    &&& forall|v: int|
        0 <= v < n && #[trigger] pe[v] != -1 ==> {
            &&& 0 <= pe[v] < tree.len()
            &&& (tree[pe[v]].source == v || tree[pe[v]].target == v)
            &&& 0 <= other_end(tree[pe[v]], v) < n
            &&& depth[other_end(tree[pe[v]], v)] < depth[v]
        }
    &&& forall|k: int|
        0 <= k < tree.len() && (#[trigger] tree[k]).source < n && tree[k].target < n ==> pe[tree[k].source as int]
            == k || pe[tree[k].target as int] == k
}

/// The tree's edges between vertices below `n` form a forest.
pub open spec fn is_forest(tree: Seq<TreeEdge>, n: nat) -> bool {
    exists|pe: Seq<int>, depth: Seq<nat>| #[trigger] rooted_by(tree, n, pe, depth)
}

/// `w` hangs, through the edges of the rooting, below `c` (or is `c`).
pub open spec fn hangs_below(tree: Seq<TreeEdge>, pe: Seq<int>, depth: Seq<nat>, w: int, c: int) -> bool
    decreases depth[w],
{
    if w == c {
        true
    } else if !(0 <= w < pe.len()) || pe[w] == -1 {
        false
    } else {
        let p = other_end(tree[pe[w]], w);
        if 0 <= p < depth.len() && depth[p] < depth[w] {
            hangs_below(tree, pe, depth, p, c)
        } else {
            false
        }
    }
}

/// The endpoint that hangs by edge `k`.
pub open spec fn hanging_end(tree: Seq<TreeEdge>, pe: Seq<int>, k: int) -> int {
    if pe[tree[k].source as int] == k {
        tree[k].source as int
    } else {
        tree[k].target as int
    }
}

/// No vertex hangs below a vertex at least as deep, other than itself.
proof fn lemma_not_below_deeper(tree: Seq<TreeEdge>, n: nat, pe: Seq<int>, depth: Seq<nat>, w: int, c: int)
    requires
        rooted_by(tree, n, pe, depth),
        0 <= w < n,
        0 <= c < n,
        w != c,
        depth[w] <= depth[c],
    ensures
        !hangs_below(tree, pe, depth, w, c),
    decreases depth[w],
{
    if pe[w] != -1 {
        let p = other_end(tree[pe[w]], w);
        if p != c {
            lemma_not_below_deeper(tree, n, pe, depth, p, c);
        }
    }
}

/// The facts of an edge between two vertices below `n`: its two endpoints differ, one of
/// them hangs by it from the other, and crossing any other such edge keeps on the same side
/// of the subtree below `c`, the endpoint that hangs by edge `m`.
proof fn lemma_edge_sides(tree: Seq<TreeEdge>, n: nat, pe: Seq<int>, depth: Seq<nat>, m: int, j: int)
    requires
        rooted_by(tree, n, pe, depth),
        0 <= m < tree.len(),
        tree[m].source < n,
        tree[m].target < n,
        0 <= j < tree.len(),
        tree[j].source < n,
        tree[j].target < n,
    ensures
        tree[j].source != tree[j].target,
        ({
            let c = hanging_end(tree, pe, m);
            &&& pe[c] == m
            &&& other_end(tree[m], c) == (if c == tree[m].source { tree[m].target as int } else { tree[m].source as int })
            &&& j != m ==> hangs_below(tree, pe, depth, tree[j].source as int, c) == hangs_below(
                tree,
                pe,
                depth,
                tree[j].target as int,
                c,
            )
            &&& j == m ==> hangs_below(tree, pe, depth, tree[j].source as int, c) != hangs_below(
                tree,
                pe,
                depth,
                tree[j].target as int,
                c,
            )
        }),
{
    let c = hanging_end(tree, pe, m);
    let x = hanging_end(tree, pe, j);
    let y = other_end(tree[j], x);
    assert(pe[x] == j);
    assert(depth[y] < depth[x]);
    if j == m {
        assert(hangs_below(tree, pe, depth, c, c));
        lemma_not_below_deeper(tree, n, pe, depth, y, c);
    } else {
        assert(x != c);
        assert(hangs_below(tree, pe, depth, x, c) == hangs_below(tree, pe, depth, y, c));
    }
}

/// Along a simple tree path, a vertex lies below the endpoint that hangs by edge `m` exactly
/// when the start does, unless the path has already crossed edge `m`, which it crosses at
/// most once.
proof fn lemma_forest_crossings(
    tree: Seq<TreeEdge>,
    n: nat,
    pe: Seq<int>,
    depth: Seq<nat>,
    s: usize,
    t: usize,
    vs: Seq<usize>,
    es: Seq<int>,
    m: int,
    i: int,
)
    requires
        rooted_by(tree, n, pe, depth),
        is_tree_path(tree, n, s, t, vs, es),
        0 <= m < tree.len(),
        tree[m].source < n,
        tree[m].target < n,
        0 <= i < vs.len(),
    ensures
        (exists|l: int| 0 <= l < i && #[trigger] es[l] == m) ==> hangs_below(
            tree,
            pe,
            depth,
            vs[i] as int,
            hanging_end(tree, pe, m),
        ) != hangs_below(tree, pe, depth, s as int, hanging_end(tree, pe, m)),
        (forall|l: int| 0 <= l < i ==> #[trigger] es[l] != m) ==> hangs_below(
            tree,
            pe,
            depth,
            vs[i] as int,
            hanging_end(tree, pe, m),
        ) == hangs_below(tree, pe, depth, s as int, hanging_end(tree, pe, m)),
    decreases i,
{
    if i > 0 {
        lemma_forest_crossings(tree, n, pe, depth, s, t, vs, es, m, i - 1);
        let j = es[i - 1];
        assert(joins(tree[j], vs[i - 1], vs[i]));
        assert(vs[i - 1] < n && vs[i] < n);
        lemma_edge_sides(tree, n, pe, depth, m, j);
        if j == m {
            assert forall|l: int| 0 <= l < i - 1 implies #[trigger] es[l] != m by {
                if es[l] == m {
                    assert(joins(tree[m], vs[l], vs[l + 1]));
                    assert(vs[l] != vs[i - 1] && vs[l] != vs[i]);
                }
            }
        } else {
            if exists|l: int| 0 <= l < i && #[trigger] es[l] == m {
                let l = choose|l: int| 0 <= l < i && #[trigger] es[l] == m;
                assert(l < i - 1);
            }
        }
    }
}

/// Every edge of a simple tree path splits its two ends: exactly one of them lies below
/// the endpoint that hangs by the edge. Every edge that splits them lies on the path.
proof fn lemma_forest_path_edges(
    tree: Seq<TreeEdge>,
    n: nat,
    pe: Seq<int>,
    depth: Seq<nat>,
    s: usize,
    t: usize,
    vs: Seq<usize>,
    es: Seq<int>,
    m: int,
)
    requires
        rooted_by(tree, n, pe, depth),
        is_tree_path(tree, n, s, t, vs, es),
        0 <= m < tree.len(),
        tree[m].source < n,
        tree[m].target < n,
    ensures
        (exists|l: int| 0 <= l < es.len() && #[trigger] es[l] == m) <==> hangs_below(
            tree,
            pe,
            depth,
            s as int,
            hanging_end(tree, pe, m),
        ) != hangs_below(tree, pe, depth, t as int, hanging_end(tree, pe, m)),
{
    lemma_forest_crossings(tree, n, pe, depth, s, t, vs, es, m, vs.len() - 1);
    assert(vs[vs.len() - 1] == t);
}

/// The edges of a simple tree path have both endpoints below `n`.
proof fn lemma_path_edge_in_range(tree: Seq<TreeEdge>, n: nat, s: usize, t: usize, vs: Seq<usize>, es: Seq<int>, i: int)
    requires
        is_tree_path(tree, n, s, t, vs, es),
        0 <= i < es.len(),
    ensures
        0 <= es[i] < tree.len(),
        tree[es[i]].source < n,
        tree[es[i]].target < n,
{
    assert(joins(tree[es[i]], vs[i], vs[i + 1]));
    assert(vs[i] < n && vs[i + 1] < n);
}

/// The smallest capacity on a nonempty list of tree edges is the capacity of one of them.
proof fn lemma_bottleneck_attained(tree: Seq<TreeEdge>, es: Seq<int>) -> (k: int)
    requires
        es.len() > 0,
    ensures
        0 <= k < es.len(),
        bottleneck(tree, es) == tree[es[k]].capacity,
    decreases es.len(),
{
    if es.len() == 1 {
        assert(es.drop_last().len() == 0);
        assert(bottleneck(tree, es.drop_last()) == u64::MAX);
        assert(es.last() == es[0]);
        0
    } else {
        let k = lemma_bottleneck_attained(tree, es.drop_last());
        if tree[es.last()].capacity < bottleneck(tree, es.drop_last()) {
            assert(es.last() == es[es.len() - 1]);
            es.len() - 1
        } else {
            assert(es.drop_last()[k] == es[k]);
            k
        }
    }
}

/// `x` occurs in the list `es`.
pub open spec fn occurs(es: Seq<int>, x: int) -> bool {
    exists|j: int| 0 <= j < es.len() && es[j] == x
}

/// When every edge of `small` occurs in `large`, the smallest capacity on `large` is at
/// most that on `small`.
proof fn lemma_bottleneck_subset(tree: Seq<TreeEdge>, large: Seq<int>, small: Seq<int>)
    requires
        forall|i: int| 0 <= i < small.len() ==> #[trigger] occurs(large, small[i]),
    ensures
        bottleneck(tree, large) <= bottleneck(tree, small),
{
    assert forall|i: int| 0 <= i < small.len() implies bottleneck(tree, large) <= (#[trigger] tree[small[i]]).capacity by {
        assert(occurs(large, small[i]));
        let j = choose|j: int| 0 <= j < large.len() && large[j] == small[i];
        lemma_bottleneck_at_most(tree, large, j);
    }
    lemma_bottleneck_at_least(tree, small, bottleneck(tree, large) as int);
}

/// In a forest, two simple tree paths between the same vertices have the same smallest
/// capacity: they use the same edges, those that split the two vertices.
proof fn lemma_forest_paths_same_bottleneck(
    tree: Seq<TreeEdge>,
    n: nat,
    pe: Seq<int>,
    depth: Seq<nat>,
    s: usize,
    t: usize,
    vs1: Seq<usize>,
    es1: Seq<int>,
    vs2: Seq<usize>,
    es2: Seq<int>,
)
    requires
        rooted_by(tree, n, pe, depth),
        is_tree_path(tree, n, s, t, vs1, es1),
        is_tree_path(tree, n, s, t, vs2, es2),
    ensures
        bottleneck(tree, es1) == bottleneck(tree, es2),
{
    assert forall|i: int| 0 <= i < es2.len() implies #[trigger] occurs(es1, es2[i]) by {
        lemma_forest_edge_shared(tree, n, pe, depth, s, t, vs1, es1, vs2, es2, i);
    }
    assert forall|i: int| 0 <= i < es1.len() implies #[trigger] occurs(es2, es1[i]) by {
        lemma_forest_edge_shared(tree, n, pe, depth, s, t, vs2, es2, vs1, es1, i);
    }
    lemma_bottleneck_subset(tree, es1, es2);
    lemma_bottleneck_subset(tree, es2, es1);
}

/// An edge of one simple tree path of a forest lies on every other between the same vertices.
proof fn lemma_forest_edge_shared(
    tree: Seq<TreeEdge>,
    n: nat,
    pe: Seq<int>,
    depth: Seq<nat>,
    s: usize,
    t: usize,
    vs1: Seq<usize>,
    es1: Seq<int>,
    vs2: Seq<usize>,
    es2: Seq<int>,
    i: int,
)
    requires
        rooted_by(tree, n, pe, depth),
        is_tree_path(tree, n, s, t, vs1, es1),
        is_tree_path(tree, n, s, t, vs2, es2),
        0 <= i < es2.len(),
    ensures
        occurs(es1, es2[i]),
{
    let m = es2[i];
    lemma_path_edge_in_range(tree, n, s, t, vs2, es2, i);
    lemma_forest_path_edges(tree, n, pe, depth, s, t, vs2, es2, m);
    assert(es2[i] == m);
    lemma_forest_path_edges(tree, n, pe, depth, s, t, vs1, es1, m);
    let j = choose|j: int| 0 <= j < es1.len() && #[trigger] es1[j] == m;
    assert(es1[j] == es2[i]);
}

/// On a tree whose edges form a forest, the minimum-cut query between two distinct
/// vertices has exactly one answer.
pub proof fn lemma_forest_answer_unique(tree: Seq<TreeEdge>, n: nat, s: usize, t: usize, v1: u64, v2: u64)
    requires
        is_forest(tree, n),
        s < n,
        t < n,
        s != t,
        is_query_answer(tree, n, s, t, v1),
        is_query_answer(tree, n, s, t, v2),
    ensures
        v1 == v2,
{
    let (pe, depth) = choose|pe: Seq<int>, depth: Seq<nat>| #[trigger] rooted_by(tree, n, pe, depth);
    let p1 = exists|vs: Seq<usize>, es: Seq<int>| #[trigger] is_tree_path(tree, n, s, t, vs, es) && v1 == bottleneck(tree, es);
    let p2 = exists|vs: Seq<usize>, es: Seq<int>| #[trigger] is_tree_path(tree, n, s, t, vs, es) && v2 == bottleneck(tree, es);
    if p1 && p2 {
        let (vs1, es1) = choose|vs: Seq<usize>, es: Seq<int>|
            #[trigger] is_tree_path(tree, n, s, t, vs, es) && v1 == bottleneck(tree, es);
        let (vs2, es2) = choose|vs: Seq<usize>, es: Seq<int>|
            #[trigger] is_tree_path(tree, n, s, t, vs, es) && v2 == bottleneck(tree, es);
        lemma_forest_paths_same_bottleneck(tree, n, pe, depth, s, t, vs1, es1, vs2, es2);
    } else if p1 {
        let (vs1, es1) = choose|vs: Seq<usize>, es: Seq<int>|
            #[trigger] is_tree_path(tree, n, s, t, vs, es) && v1 == bottleneck(tree, es);
        lemma_path_not_separated(tree, n, s, t, vs1, es1);
    } else if p2 {
        let (vs2, es2) = choose|vs: Seq<usize>, es: Seq<int>|
            #[trigger] is_tree_path(tree, n, s, t, vs, es) && v2 == bottleneck(tree, es);
        lemma_path_not_separated(tree, n, s, t, vs2, es2);
    }
}

/// A simple tree path read backwards is a simple tree path with the same smallest capacity.
proof fn lemma_path_reversed(tree: Seq<TreeEdge>, n: nat, s: usize, t: usize, vs: Seq<usize>, es: Seq<int>)
    requires
        is_tree_path(tree, n, s, t, vs, es),
    ensures
        is_tree_path(tree, n, t, s, vs.reverse(), es.reverse()),
        bottleneck(tree, es.reverse()) == bottleneck(tree, es),
{
    let rv = vs.reverse();
    let re = es.reverse();
    let m = es.len();
    assert forall|k: int| 0 <= k < re.len() implies 0 <= #[trigger] re[k] < tree.len() && joins(tree[re[k]], rv[k], rv[k + 1]) by {
        assert(re[k] == es[m - 1 - k]);
        assert(rv[k] == vs[m - k]);
        assert(rv[k + 1] == vs[m - 1 - k]);
        assert(joins(tree[es[m - 1 - k]], vs[m - 1 - k], vs[m - k]));
    }
    assert forall|i: int| 0 <= i < rv.len() implies #[trigger] rv[i] < n by {
        assert(rv[i] == vs[m - i]);
    }
    assert forall|i: int, j: int| 0 <= i < j < rv.len() implies rv[i] != rv[j] by {
        assert(rv[i] == vs[m - i] && rv[j] == vs[m - j]);
    }
    assert(rv[0] == t && rv.last() == s);
    assert(is_tree_path(tree, n, t, s, rv, re));
    lemma_reversed_bottleneck(tree, es);
}

/// A list of tree edges read backwards has the same smallest capacity.
proof fn lemma_reversed_bottleneck(tree: Seq<TreeEdge>, es: Seq<int>)
    ensures
        bottleneck(tree, es.reverse()) == bottleneck(tree, es),
{
    let re = es.reverse();
    let m = es.len();
    assert forall|i: int| 0 <= i < re.len() implies #[trigger] occurs(es, re[i]) by {
        assert(es[m - 1 - i] == re[i]);
    }
    assert forall|i: int| 0 <= i < es.len() implies #[trigger] occurs(re, es[i]) by {
        assert(re[m - 1 - i] == es[i]);
    }
    lemma_bottleneck_subset(tree, es, re);
    lemma_bottleneck_subset(tree, re, es);
}

/// Vertices in different components of the tree, in either order.
proof fn lemma_separated_swap(tree: Seq<TreeEdge>, n: nat, s: usize, t: usize)
    requires
        s < n,
        t < n,
        tree_separated(tree, n, s, t),
    ensures
        tree_separated(tree, n, t, s),
{
    let side = choose|side: Seq<bool>|
        side.len() == n && side[s as int] && !side[t as int] && #[trigger] tree_closed(tree, n, side);
    let other = complement(side);
    assert forall|k: int|
        0 <= k < tree.len() && (#[trigger] tree[k]).source < n && tree[k].target < n implies other[tree[k].source as int]
            == other[tree[k].target as int] by {
        assert(side[tree[k].source as int] == side[tree[k].target as int]);
    }
    assert(tree_closed(tree, n, other));
    assert(other.len() == n && other[t as int] && !other[s as int]);
}

/// On a tree whose edges form a forest, the minimum-cut query gives the same answer for a
/// pair of vertices in either order.
pub proof fn lemma_forest_answers_symmetric(tree: Seq<TreeEdge>, n: nat, s: usize, t: usize, st: u64, ts: u64)
    requires
        is_forest(tree, n),
        s < n,
        t < n,
        s != t,
        is_query_answer(tree, n, s, t, st),
        is_query_answer(tree, n, t, s, ts),
    ensures
        st == ts,
{
    if exists|vs: Seq<usize>, es: Seq<int>| #[trigger] is_tree_path(tree, n, s, t, vs, es) && st == bottleneck(tree, es) {
        let (vs, es) = choose|vs: Seq<usize>, es: Seq<int>|
            #[trigger] is_tree_path(tree, n, s, t, vs, es) && st == bottleneck(tree, es);
        lemma_path_reversed(tree, n, s, t, vs, es);
        assert(is_query_answer(tree, n, t, s, st));
    } else {
        lemma_separated_swap(tree, n, s, t);
        assert(is_query_answer(tree, n, t, s, st));
    }
    lemma_forest_answer_unique(tree, n, t, s, st, ts);
}

/// In a forest, the answer for a pair split by edge `m` is at most its capacity.
proof fn lemma_forest_answer_at_most_split(
    tree: Seq<TreeEdge>,
    n: nat,
    pe: Seq<int>,
    depth: Seq<nat>,
    a: usize,
    b: usize,
    value: u64,
    m: int,
)
    requires
        rooted_by(tree, n, pe, depth),
        a < n,
        b < n,
        a != b,
        is_query_answer(tree, n, a, b, value),
        0 <= m < tree.len(),
        tree[m].source < n,
        tree[m].target < n,
        hangs_below(tree, pe, depth, a as int, hanging_end(tree, pe, m)) != hangs_below(
            tree,
            pe,
            depth,
            b as int,
            hanging_end(tree, pe, m),
        ),
    ensures
        value <= tree[m].capacity,
{
    if exists|vs: Seq<usize>, es: Seq<int>| #[trigger] is_tree_path(tree, n, a, b, vs, es) && value == bottleneck(tree, es) {
        let (vs, es) = choose|vs: Seq<usize>, es: Seq<int>|
            #[trigger] is_tree_path(tree, n, a, b, vs, es) && value == bottleneck(tree, es);
        lemma_forest_path_edges(tree, n, pe, depth, a, b, vs, es, m);
        let l = choose|l: int| 0 <= l < es.len() && #[trigger] es[l] == m;
        lemma_bottleneck_at_most(tree, es, l);
    }
}

/// On a tree whose edges form a forest, the answer for `s` and `u` is at least the smaller
/// of the answers for `s` and `t` and for `t` and `u`.
pub proof fn lemma_forest_answers_three_vertices(
    tree: Seq<TreeEdge>,
    n: nat,
    s: usize,
    t: usize,
    u: usize,
    st: u64,
    tu: u64,
    su: u64,
)
    requires
        is_forest(tree, n),
        s < n,
        t < n,
        u < n,
        s != t,
        t != u,
        s != u,
        is_query_answer(tree, n, s, t, st),
        is_query_answer(tree, n, t, u, tu),
        is_query_answer(tree, n, s, u, su),
    ensures
        su >= st || su >= tu,
{
    let (pe, depth) = choose|pe: Seq<int>, depth: Seq<nat>| #[trigger] rooted_by(tree, n, pe, depth);
    if exists|vs: Seq<usize>, es: Seq<int>| #[trigger] is_tree_path(tree, n, s, u, vs, es) && su == bottleneck(tree, es) {
        let (vs, es) = choose|vs: Seq<usize>, es: Seq<int>|
            #[trigger] is_tree_path(tree, n, s, u, vs, es) && su == bottleneck(tree, es);
        assert(es.len() > 0) by {
            if es.len() == 0 {
                assert(vs[0] == vs.last());
            }
        }
        let k = lemma_bottleneck_attained(tree, es);
        let m = es[k];
        lemma_path_edge_in_range(tree, n, s, u, vs, es, k);
        lemma_forest_path_edges(tree, n, pe, depth, s, u, vs, es, m);
        let c = hanging_end(tree, pe, m);
        if hangs_below(tree, pe, depth, s as int, c) != hangs_below(tree, pe, depth, t as int, c) {
            lemma_forest_answer_at_most_split(tree, n, pe, depth, s, t, st, m);
        } else {
            lemma_forest_answer_at_most_split(tree, n, pe, depth, t, u, tu, m);
        }
    } else {
        let side = choose|side: Seq<bool>|
            side.len() == n && side[s as int] && !side[u as int] && #[trigger] tree_closed(tree, n, side);
        if side[t as int] {
            assert(tree_separated(tree, n, t, u));
            assert(is_query_answer(tree, n, t, u, 0));
            lemma_forest_answer_unique(tree, n, t, u, tu, 0);
        } else {
            assert(tree_separated(tree, n, s, t));
            assert(is_query_answer(tree, n, s, t, 0));
            lemma_forest_answer_unique(tree, n, s, t, st, 0);
        }
    }
}

/// A tree in which edge `k` joins vertex `k + 1` to an earlier vertex (every tree that
/// Gusfield's algorithm builds) is a forest, rooted at vertex 0.
pub proof fn lemma_parent_shaped_is_forest(tree: Seq<TreeEdge>, n: nat)
    requires
        parent_shaped(tree, n),
    ensures
        is_forest(tree, n),
{
    let pe = Seq::new(n, |v: int| v - 1);
    let depth = Seq::new(n, |v: int| v as nat);
    assert forall|v: int| 0 <= v < n && #[trigger] pe[v] != -1 implies {
        &&& 0 <= pe[v] < tree.len()
        &&& (tree[pe[v]].source == v || tree[pe[v]].target == v)
        &&& 0 <= other_end(tree[pe[v]], v) < n
        &&& depth[other_end(tree[pe[v]], v)] < depth[v]
    } by {
        assert(tree[v - 1].source == v && tree[v - 1].target < v);
    }
    assert forall|k: int|
        0 <= k < tree.len() && (#[trigger] tree[k]).source < n && tree[k].target < n implies pe[tree[k].source as int] == k
            || pe[tree[k].target as int] == k by {
        assert(tree[k].source == k + 1);
    }
    assert(rooted_by(tree, n, pe, depth));
}

} // verus!
