//! The Gomory-Hu tree and its minimum-cut queries.
use std::collections::VecDeque;
use vstd::prelude::*;

use crate::utils::{count_false, lemma_count_false_mark};

verus! {

/// An edge of a Gomory-Hu tree: two vertices of the network and the capacity of a
/// minimum cut between them.
#[derive(Debug, Clone, Copy, PartialEq, Eq, Structural)]
pub struct TreeEdge {
    /// One endpoint of the tree edge.
    pub source: usize,
    /// The other endpoint of the tree edge.
    pub target: usize,
    /// The capacity of the edge: the minimum cut value between its endpoints found when
    /// it was added.
    pub capacity: u64,
}

impl TreeEdge {
    /// Creates a tree edge.
    pub fn new(source: usize, target: usize, capacity: u64) -> (edge: Self)
        ensures
            edge.source == source,
            edge.target == target,
            edge.capacity == capacity,
    {
        TreeEdge { source, target, capacity }
    }
}

/// Tree edge `edge` joins `a` and `b`, in one direction or the other.
pub open spec fn joins(edge: TreeEdge, a: usize, b: usize) -> bool {
    (edge.source == a && edge.target == b) || (edge.source == b && edge.target == a)
}

/// `vs` is a simple path from `s` to `t` through vertices below `n` whose `k`-th step
/// goes along tree edge `es[k]`.
pub open spec fn is_tree_path(
    edges: Seq<TreeEdge>,
    n: nat,
    s: usize,
    t: usize,
    vs: Seq<usize>,
    es: Seq<int>,
) -> bool {
    &&& vs.len() == es.len() + 1
    &&& vs[0] == s
    &&& vs.last() == t
    &&& forall|i: int| 0 <= i < vs.len() ==> #[trigger] vs[i] < n
    &&& forall|i: int, j: int| 0 <= i < j < vs.len() ==> vs[i] != vs[j]
    &&& forall|k: int|
        0 <= k < es.len() ==> 0 <= #[trigger] es[k] < edges.len() && joins(edges[es[k]], vs[k], vs[k + 1])
}

/// The smallest capacity among the tree edges `es`; `u64::MAX` for no edge.
pub open spec fn bottleneck(edges: Seq<TreeEdge>, es: Seq<int>) -> u64
    decreases es.len(),
{
    if es.len() == 0 {
        u64::MAX
    } else {
        let rest = bottleneck(edges, es.drop_last());
        let c = edges[es.last()].capacity;
        if c < rest {
            c
        } else {
            rest
        }
    }
}

/// No tree edge between vertices below `n` leaves the vertex set `side`.
pub open spec fn tree_closed(edges: Seq<TreeEdge>, n: nat, side: Seq<bool>) -> bool {
    forall|k: int|
        0 <= k < edges.len() && (#[trigger] edges[k]).source < n && edges[k].target < n ==> side[edges[k].source as int]
            == side[edges[k].target as int]
}

/// `s` and `t` lie in different components of the tree's edges.
pub open spec fn tree_separated(edges: Seq<TreeEdge>, n: nat, s: usize, t: usize) -> bool {
    exists|side: Seq<bool>|
        side.len() == n && side[s as int] && !side[t as int] && #[trigger] tree_closed(edges, n, side)
}

/// `value` answers the minimum-cut query between distinct `s` and `t`: the bottleneck of
/// a tree path from `s` to `t`, or `0` when no tree path joins them.
pub open spec fn is_query_answer(edges: Seq<TreeEdge>, n: nat, s: usize, t: usize, value: u64) -> bool {
    ||| exists|vs: Seq<usize>, es: Seq<int>|
        #[trigger] is_tree_path(edges, n, s, t, vs, es) && value == bottleneck(edges, es)
    ||| value == 0 && tree_separated(edges, n, s, t)
}

/// Each adjacency entry `adj[u][j] = (w, c)` comes from tree edge `origin[u][j]`, which
/// joins `u` and `w` and has capacity `c`.
pub open spec fn adjacency_sound(
    edges: Seq<TreeEdge>,
    n: nat,
    adj: Seq<Vec<(usize, u64)>>,
    origin: Seq<Seq<int>>,
) -> bool {
    &&& adj.len() == n
    &&& origin.len() == n
    &&& forall|u: int| 0 <= u < n ==> (#[trigger] origin[u]).len() == adj[u]@.len()
    &&& forall|u: int, j: int|
        0 <= u < n && 0 <= j < adj[u]@.len() ==> 0 <= #[trigger] origin[u][j] < edges.len() && joins(
            edges[origin[u][j]],
            u as usize,
            adj[u]@[j].0,
        ) && adj[u]@[j].1 == edges[origin[u][j]].capacity
}

/// Each of the first `m` tree edges appears in the list of each endpoint below `n`, at
/// positions `at_source[k]` and `at_target[k]`.
pub open spec fn adjacency_complete(
    edges: Seq<TreeEdge>,
    n: nat,
    adj: Seq<Vec<(usize, u64)>>,
    at_source: Seq<int>,
    at_target: Seq<int>,
    m: int,
) -> bool {
    &&& at_source.len() == m
    &&& at_target.len() == m
    &&& forall|k: int|
        0 <= k < m && (#[trigger] edges[k]).source < n ==> 0 <= at_source[k] < adj[edges[k].source as int]@.len()
            && adj[edges[k].source as int]@[at_source[k]].0 == edges[k].target
    &&& forall|k: int|
        0 <= k < m && (#[trigger] edges[k]).target < n ==> 0 <= at_target[k] < adj[edges[k].target as int]@.len()
            && adj[edges[k].target as int]@[at_target[k]].0 == edges[k].source
}

/// Every neighbour below `n` of `v` is marked.
pub open spec fn neighbours_marked(adj: Seq<Vec<(usize, u64)>>, n: nat, marks: Seq<bool>, v: int) -> bool {
    forall|j: int| 0 <= j < adj[v]@.len() && #[trigger] adj[v]@[j].0 < n ==> marks[adj[v]@[j].0 as int]
}

/// The decimal digits of `x`, most significant first, without leading zeros.
pub open spec fn decimal(x: nat) -> Seq<char>
    decreases x,
{
    if x < 10 {
        seq![digit_char(x)]
    } else {
        decimal(x / 10).push(digit_char(x % 10))
    }
}

/// The character of a decimal digit.
pub open spec fn digit_char(d: nat) -> char {
    (d + 48) as char
}

/// The DOT line of a tree edge: `  s -- t [label="c.00"]`, the capacity written with two
/// decimals.
pub open spec fn dot_edge_line(edge: TreeEdge) -> Seq<char> {
    "  "@ + decimal(edge.source as nat) + " -- "@ + decimal(edge.target as nat) + " [label=\""@
        + decimal(edge.capacity as nat) + ".00\"]\n"@
}

/// The DOT lines of the edges, in order.
pub open spec fn dot_edge_lines(edges: Seq<TreeEdge>) -> Seq<char>
    decreases edges.len(),
{
    if edges.len() == 0 {
        Seq::empty()
    } else {
        dot_edge_lines(edges.drop_last()) + dot_edge_line(edges.last())
    }
}

/// The DOT lines `  i` of the vertices `0..count`.
pub open spec fn dot_node_lines(count: nat) -> Seq<char>
    decreases count,
{
    if count == 0 {
        Seq::empty()
    } else {
        dot_node_lines((count - 1) as nat) + "  "@ + decimal((count - 1) as nat) + "\n"@
    }
}

/// The DOT text of a tree: its edges, or its vertices when it has no edge.
pub open spec fn dot_text(vertex_count: nat, edges: Seq<TreeEdge>) -> Seq<char> {
    "graph GomoryHuTree {\n"@ + (if vertex_count == 0 {
        Seq::empty()
    } else if edges.len() == 0 {
        dot_node_lines(vertex_count)
    } else {
        dot_edge_lines(edges)
    }) + "}\n"@
}

/// The DOT lines of the edges, read as one text, are the lines of the edges in order.
proof fn lemma_dot_edge_lines_flat(edges: Seq<TreeEdge>)
    ensures
        dot_edge_lines(edges) == Seq::new(
            edges.len(),
            |k: int|
                "  "@ + decimal(edges[k].source as nat) + " -- "@ + decimal(edges[k].target as nat) + " [label=\""@
                    + decimal(edges[k].capacity as nat) + ".00\"]\n"@,
        ).flatten_alt(),
    decreases edges.len(),
{
    let lines = Seq::new(
        edges.len(),
        |k: int|
            "  "@ + decimal(edges[k].source as nat) + " -- "@ + decimal(edges[k].target as nat) + " [label=\""@
                + decimal(edges[k].capacity as nat) + ".00\"]\n"@,
    );
    if edges.len() > 0 {
        let rest = edges.drop_last();
        lemma_dot_edge_lines_flat(rest);
        let rest_lines = Seq::new(
            rest.len(),
            |k: int|
                "  "@ + decimal(rest[k].source as nat) + " -- "@ + decimal(rest[k].target as nat) + " [label=\""@
                    + decimal(rest[k].capacity as nat) + ".00\"]\n"@,
        );
        assert(lines.drop_last() =~= rest_lines);
        assert(lines.last() == dot_edge_line(edges.last()));
    } else {
        assert(lines.len() == 0);
    }
}

/// The DOT lines of the vertices `0..count`, read as one text, are their lines in order.
proof fn lemma_dot_node_lines_flat(count: nat)
    ensures
        dot_node_lines(count) == Seq::new(count, |i: int| "  "@ + decimal(i as nat) + "\n"@).flatten_alt(),
    decreases count,
{
    let lines = Seq::new(count, |i: int| "  "@ + decimal(i as nat) + "\n"@);
    if count > 0 {
        lemma_dot_node_lines_flat((count - 1) as nat);
        let rest_lines = Seq::new((count - 1) as nat, |i: int| "  "@ + decimal(i as nat) + "\n"@);
        assert(lines.drop_last() =~= rest_lines);
        assert(dot_node_lines(count) =~= dot_node_lines((count - 1) as nat) + lines.last());
    } else {
        assert(lines.len() == 0);
    }
}

/// The DOT text of a tree: the header `graph GomoryHuTree {`, then, for a tree with
/// vertices and edges, one line `  s -- t [label="c.00"]` for every edge in order, whatever
/// its capacity; for a tree with vertices and no edge, one line `  i` for every vertex
/// `i`; for a tree without vertices, nothing; then the closing `}`.
pub proof fn lemma_dot_text_lines(vertex_count: nat, edges: Seq<TreeEdge>)
    ensures
        vertex_count == 0 ==> dot_text(vertex_count, edges) == "graph GomoryHuTree {\n"@ + "}\n"@,
        vertex_count > 0 && edges.len() == 0 ==> dot_text(vertex_count, edges) == "graph GomoryHuTree {\n"@
            + Seq::new(vertex_count, |i: int| "  "@ + decimal(i as nat) + "\n"@).flatten() + "}\n"@,
        vertex_count > 0 && edges.len() > 0 ==> dot_text(vertex_count, edges) == "graph GomoryHuTree {\n"@
            + Seq::new(
            edges.len(),
            |k: int|
                "  "@ + decimal(edges[k].source as nat) + " -- "@ + decimal(edges[k].target as nat) + " [label=\""@
                    + decimal(edges[k].capacity as nat) + ".00\"]\n"@,
        ).flatten() + "}\n"@,
{
    let lines = Seq::new(
        edges.len(),
        |k: int|
            "  "@ + decimal(edges[k].source as nat) + " -- "@ + decimal(edges[k].target as nat) + " [label=\""@
                + decimal(edges[k].capacity as nat) + ".00\"]\n"@,
    );
    let nodes = Seq::new(vertex_count, |i: int| "  "@ + decimal(i as nat) + "\n"@);
    lemma_dot_edge_lines_flat(edges);
    lemma_dot_node_lines_flat(vertex_count);
    lines.lemma_flatten_and_flatten_alt_are_equivalent();
    nodes.lemma_flatten_and_flatten_alt_are_equivalent();
    if vertex_count == 0 {
        assert(dot_text(vertex_count, edges) =~= "graph GomoryHuTree {\n"@ + "}\n"@);
    }
}

/// The text of one decimal digit.
fn digit_text(d: u64) -> (text: &'static str)
    requires
        d < 10,
    ensures
        text@ == seq![digit_char(d as nat)],
{
    proof {
        reveal_strlit("0");
        reveal_strlit("1");
        reveal_strlit("2");
        reveal_strlit("3");
        reveal_strlit("4");
        reveal_strlit("5");
        reveal_strlit("6");
        reveal_strlit("7");
        reveal_strlit("8");
        reveal_strlit("9");
    }
    if d == 0 {
        "0"
    } else if d == 1 {
        "1"
    } else if d == 2 {
        "2"
    } else if d == 3 {
        "3"
    } else if d == 4 {
        "4"
    } else if d == 5 {
        "5"
    } else if d == 6 {
        "6"
    } else if d == 7 {
        "7"
    } else if d == 8 {
        "8"
    } else {
        "9"
    }
}

/// Appends the decimal digits of `x` to `buf`, most significant first.
fn push_decimal(buf: &mut String, x: u64)
    ensures
        final(buf)@ == old(buf)@ + decimal(x as nat),
    decreases x,
{
    if x >= 10 {
        push_decimal(buf, x / 10);
    }
    let ghost mid = buf@;
    buf.append(digit_text(x % 10));
    proof {
        if x >= 10 {
            assert(decimal(x as nat) == decimal((x / 10) as nat).push(digit_char((x % 10) as nat)));
            assert(buf@ =~= old(buf)@ + decimal(x as nat));
        } else {
            assert(buf@ =~= old(buf)@ + decimal(x as nat));
        }
    }
}

/// A Gomory-Hu tree: edges between vertices of the network whose capacities are
/// minimum cut values.
#[derive(Debug, Clone)]
pub struct GomoryHuTree {
    pub(crate) vertex_count: usize,
    pub(crate) edges: Vec<TreeEdge>,
}

impl GomoryHuTree {
    /// The number of vertices of the network.
    pub closed spec fn spec_vertex_count(&self) -> nat {
        self.vertex_count as nat
    }

    /// The edges of the tree.
    pub closed spec fn spec_edges(&self) -> Seq<TreeEdge> {
        self.edges@
    }

    /// Creates a tree from its edges and the number of vertices of the network.
    pub fn new(edges: Vec<TreeEdge>, vertex_count: usize) -> (tree: Self)
        ensures
            tree.spec_edges() == edges@,
            tree.spec_vertex_count() == vertex_count,
    {
        GomoryHuTree { edges, vertex_count }
    }

    /// Returns the number of vertices of the network.
    pub fn vertex_count(&self) -> (n: usize)
        ensures
            n == self.spec_vertex_count(),
    {
        self.vertex_count
    }

    /// Returns the number of edges of the tree.
    pub fn edge_count(&self) -> (m: usize)
        ensures
            m == self.spec_edges().len(),
    {
        self.edges.len()
    }

    /// Returns the edges of the tree.
    pub fn edges(&self) -> (edges: &Vec<TreeEdge>)
        ensures
            edges@ == self.spec_edges(),
    {
        &self.edges
    }

    /// The adjacency lists of the tree for vertices below the vertex count: for each tree
    /// edge, an entry `(other endpoint, capacity)` in the list of each endpoint in range.
    fn adjacency_lists(&self) -> (adj: Vec<Vec<(usize, u64)>>)
        ensures
            exists|origin: Seq<Seq<int>>, at_source: Seq<int>, at_target: Seq<int>|
                adjacency_sound(self.edges@, self.vertex_count as nat, adj@, origin) && adjacency_complete(
                    self.edges@,
                    self.vertex_count as nat,
                    adj@,
                    at_source,
                    at_target,
                    self.edges@.len() as int,
                ),
    {
        let n = self.vertex_count;
        let ghost edges = self.edges@;
        let ghost nn = n as nat;
        let mut adj: Vec<Vec<(usize, u64)>> = Vec::new();
        let ghost mut origin: Seq<Seq<int>> = Seq::empty();
        let mut u: usize = 0;
        while u < n
            invariant
                u <= n,
                adj@.len() == u,
                origin.len() == u,
                forall|x: int| 0 <= x < u ==> (#[trigger] adj@[x])@.len() == 0 && origin[x].len() == 0,
            decreases n - u,
        {
            let ghost adj0 = adj@;
            adj.push(Vec::new());
            proof {
                origin = origin.push(Seq::empty());
                assert forall|x: int| 0 <= x < u + 1 implies (#[trigger] adj@[x])@.len() == 0 && origin[x].len() == 0 by {
                    if x < u {
                        assert(adj@[x] == adj0[x]);
                    }
                }
            }
            u = u + 1;
        }
        let ghost mut at_source: Seq<int> = Seq::empty();
        let ghost mut at_target: Seq<int> = Seq::empty();
        let mut k: usize = 0;
        while k < self.edges.len()
            invariant
                edges == self.edges@,
                nn == n,
                n == self.vertex_count,
                k <= edges.len(),
                adjacency_sound(edges, nn, adj@, origin),
                adjacency_complete(edges, nn, adj@, at_source, at_target, k as int),
            decreases edges.len() - k,
        {
            let edge = self.edges[k];
            let ghost adj0 = adj@;
            let ghost origin0 = origin;
            let ghost ps: int = -1;
            let ghost pt: int = -1;
            if edge.source < n {
                proof {
                    ps = adj@[edge.source as int]@.len() as int;
                }
                adj[edge.source].push((edge.target, edge.capacity));
                proof {
                    origin = origin.update(edge.source as int, origin[edge.source as int].push(k as int));
                }
            }
            let ghost adj1 = adj@;
            if edge.target < n {
                proof {
                    pt = adj@[edge.target as int]@.len() as int;
                }
                adj[edge.target].push((edge.source, edge.capacity));
                proof {
                    origin = origin.update(edge.target as int, origin[edge.target as int].push(k as int));
                }
            }
            proof {
                at_source = at_source.push(ps);
                at_target = at_target.push(pt);
                assert forall|x: int, j: int|
                    0 <= x < nn && 0 <= j < adj@[x]@.len() implies 0 <= #[trigger] origin[x][j] < edges.len() && joins(
                        edges[origin[x][j]],
                        x as usize,
                        adj@[x]@[j].0,
                    ) && adj@[x]@[j].1 == edges[origin[x][j]].capacity by {
                    if j < adj0[x]@.len() {
                        assert(adj@[x]@[j] == adj0[x]@[j]);
                        assert(origin[x][j] == origin0[x][j]);
                    }
                }
                assert forall|x: int| 0 <= x < nn implies (#[trigger] origin[x]).len() == adj@[x]@.len() by {}
                assert forall|k2: int|
                    0 <= k2 < k + 1 && (#[trigger] edges[k2]).source < nn implies 0 <= at_source[k2]
                        < adj@[edges[k2].source as int]@.len() && adj@[edges[k2].source as int]@[at_source[k2]].0
                        == edges[k2].target by {
                    if k2 < k {
                        assert(adj@[edges[k2].source as int]@[at_source[k2]] == adj0[edges[k2].source as int]@[at_source[k2]]);
                    } else {
                        assert(adj@[edges[k2].source as int]@[at_source[k2]] == adj1[edges[k2].source as int]@[at_source[k2]]);
                    }
                }
                assert forall|k2: int|
                    0 <= k2 < k + 1 && (#[trigger] edges[k2]).target < nn implies 0 <= at_target[k2]
                        < adj@[edges[k2].target as int]@.len() && adj@[edges[k2].target as int]@[at_target[k2]].0
                        == edges[k2].source by {
                    if k2 < k {
                        assert(adj@[edges[k2].target as int]@[at_target[k2]] == adj0[edges[k2].target as int]@[at_target[k2]]);
                    }
                }
            }
            k = k + 1;
        }
        proof {
            assert(adjacency_sound(edges, nn, adj@, origin) && adjacency_complete(
                edges,
                nn,
                adj@,
                at_source,
                at_target,
                edges.len() as int,
            ));
        }
        adj
    }

    /// The minimum cut value between `s` and `t`: the smallest capacity on the path from
    /// `s` to `t` in the tree, found by breadth-first search.
    ///
    /// Returns `u64::MAX`, which stands for an infinite cut, when `s == t`, and `0` when no
    /// tree path joins `s` and `t`. Both vertices must be below the vertex count.
    pub fn min_cut_value(&self, s: usize, t: usize) -> (value: u64)
        requires
            s < self.spec_vertex_count(),
            t < self.spec_vertex_count(),
        ensures
            s == t ==> value == u64::MAX,
            s != t ==> is_query_answer(self.spec_edges(), self.spec_vertex_count(), s, t, value),
    {
        let n = self.vertex_count;
        if s == t {
            return u64::MAX;
        }
        let ghost edges = self.edges@;
        let ghost nn = n as nat;
        let adj = self.adjacency_lists();
        let ghost (origin, at_source, at_target) = choose|origin: Seq<Seq<int>>, at_source: Seq<int>, at_target: Seq<int>|
            adjacency_sound(edges, nn, adj@, origin) && adjacency_complete(
                edges,
                nn,
                adj@,
                at_source,
                at_target,
                edges.len() as int,
            );
        // Breadth-first search from `s`, carrying the smallest capacity on the path so far.
        let mut queue: VecDeque<(usize, u64)> = VecDeque::new();
        queue.push_back((s, u64::MAX));
        let ghost mut paths: Seq<(Seq<usize>, Seq<int>)> = seq![(seq![s], Seq::<int>::empty())];
        let mut visited_bfs: Vec<bool> = Vec::new();
        let mut x: usize = 0;
        while x < n
            invariant
                x <= n,
                visited_bfs@.len() == x,
                forall|y: int| 0 <= y < x ==> !(#[trigger] visited_bfs@[y]),
            decreases n - x,
        {
            visited_bfs.push(false);
            x = x + 1;
        }
        proof {
            lemma_count_false_mark(visited_bfs@, s as int);
        }
        visited_bfs[s] = true;
        proof {
            let (vs, es) = paths[0];
            assert(is_tree_path(edges, nn, s, s, vs, es));
            assert(queue@[0] == (s, u64::MAX));
            assert forall|v: int| 0 <= v < nn && #[trigger] visited_bfs@[v] implies exists|j: int|
                0 <= j < queue@.len() && queue@[j].0 == v by {
                assert(v == s);
                assert(queue@[0].0 == s);
            }
        }
        loop
            invariant_except_break
                forall|v: int|
                    0 <= v < nn && #[trigger] visited_bfs@[v] ==> (exists|j: int| 0 <= j < queue@.len() && queue@[j].0 == v)
                        || (v != t && neighbours_marked(adj@, nn, visited_bfs@, v)),
            invariant
                edges == self.edges@,
                nn == n,
                n == self.vertex_count,
                s < n,
                t < n,
                s != t,
                adjacency_sound(edges, nn, adj@, origin),
                adjacency_complete(edges, nn, adj@, at_source, at_target, edges.len() as int),
                visited_bfs@.len() == n,
                visited_bfs@[s as int],
                paths.len() == queue@.len(),
                forall|j: int|
                    0 <= j < queue@.len() ==> {
                        let (v, m) = #[trigger] queue@[j];
                        let (vs, es) = paths[j];
                        &&& v < n
                        &&& visited_bfs@[v as int]
                        &&& is_tree_path(edges, nn, s, v, vs, es)
                        &&& m == bottleneck(edges, es)
                        &&& forall|i: int| 0 <= i < vs.len() ==> visited_bfs@[#[trigger] vs[i] as int]
                    },
            ensures
                queue@.len() == 0,
                forall|v: int| 0 <= v < nn && #[trigger] visited_bfs@[v] ==> v != t && neighbours_marked(adj@, nn, visited_bfs@, v),
            decreases 2 * count_false(visited_bfs@) + queue@.len(),
        {
            let ghost q0 = queue@;
            let ghost paths0 = paths;
            let ghost marks0 = visited_bfs@;
            match queue.pop_front() {
                None => {
                    break;
                },
                Some((curr, path_min_cap)) => {
                    proof {
                        assert(q0[0] == (curr, path_min_cap));
                        paths = paths.drop_first();
                    }
                    let ghost (cvs, ces) = paths0[0];
                    if curr == t {
                        proof {
                            assert(is_tree_path(edges, nn, s, t, cvs, ces) && path_min_cap == bottleneck(edges, ces));
                            assert(is_tree_path(self.spec_edges(), self.spec_vertex_count(), s, t, cvs, ces));
                        }
                        return path_min_cap;
                    }
                    let ghost bound = 2 * count_false(visited_bfs@) + queue@.len();
                    proof {
                        assert forall|j: int| 0 <= j < queue@.len() implies {
                            let (v, m) = #[trigger] queue@[j];
                            let (vs, es) = paths[j];
                            &&& v < n
                            &&& visited_bfs@[v as int]
                            &&& is_tree_path(edges, nn, s, v, vs, es)
                            &&& m == bottleneck(edges, es)
                            &&& forall|i: int| 0 <= i < vs.len() ==> visited_bfs@[#[trigger] vs[i] as int]
                        } by {
                            assert(queue@[j] == q0[j + 1]);
                            assert(paths[j] == paths0[j + 1]);
                        }
                        assert forall|v: int|
                            0 <= v < nn && #[trigger] visited_bfs@[v] implies v == curr || (exists|j: int| 0 <= j < queue@.len() && queue@[j].0 == v)
                                || (v != t && neighbours_marked(adj@, nn, marks0, v)) by {
                            if v != curr && (exists|j: int| 0 <= j < q0.len() && q0[j].0 == v) {
                                let j = choose|j: int| 0 <= j < q0.len() && q0[j].0 == v;
                                assert(j != 0);
                                assert(queue@[j - 1] == q0[j]);
                            }
                        }
                    }
                    let mut i: usize = 0;
                    while i < adj[curr].len()
                        invariant
                            edges == self.edges@,
                            nn == n,
                            n == self.vertex_count,
                            s < n,
                            t < n,
                            curr < n,
                            curr != t,
                            adjacency_sound(edges, nn, adj@, origin),
                            adjacency_complete(edges, nn, adj@, at_source, at_target, edges.len() as int),
                            i <= adj@[curr as int]@.len(),
                            visited_bfs@.len() == n,
                            visited_bfs@[s as int],
                            visited_bfs@[curr as int],
                            is_tree_path(edges, nn, s, curr, cvs, ces),
                            path_min_cap == bottleneck(edges, ces),
                            forall|i2: int| 0 <= i2 < cvs.len() ==> visited_bfs@[#[trigger] cvs[i2] as int],
                            2 * count_false(visited_bfs@) + queue@.len() <= bound,
                            forall|y: int| 0 <= y < n && marks0[y] ==> #[trigger] visited_bfs@[y],
                            paths.len() == queue@.len(),
                            forall|j: int|
                                0 <= j < queue@.len() ==> {
                                    let (v, m) = #[trigger] queue@[j];
                                    let (vs, es) = paths[j];
                                    &&& v < n
                                    &&& visited_bfs@[v as int]
                                    &&& is_tree_path(edges, nn, s, v, vs, es)
                                    &&& m == bottleneck(edges, es)
                                    &&& forall|i3: int| 0 <= i3 < vs.len() ==> visited_bfs@[#[trigger] vs[i3] as int]
                                },
                            forall|v: int|
                                0 <= v < nn && #[trigger] visited_bfs@[v] ==> v == curr || (exists|j: int| 0 <= j < queue@.len() && queue@[j].0 == v)
                                    || (v != t && neighbours_marked(adj@, nn, marks0, v)),
                            forall|j: int| 0 <= j < i && #[trigger] adj@[curr as int]@[j].0 < n ==> visited_bfs@[adj@[curr as int]@[j].0 as int],
                        decreases adj@[curr as int]@.len() - i,
                    {
                        let (neighbor, edge_cap) = adj[curr][i];
                        if neighbor < n && !visited_bfs[neighbor] {
                            let ghost old_marks = visited_bfs@;
                            let ghost old_queue = queue@;
                            let ghost old_paths = paths;
                            proof {
                                lemma_count_false_mark(visited_bfs@, neighbor as int);
                            }
                            visited_bfs[neighbor] = true;
                            let next_min = if edge_cap < path_min_cap {
                                edge_cap
                            } else {
                                path_min_cap
                            };
                            queue.push_back((neighbor, next_min));
                            proof {
                                let ek = origin[curr as int][i as int];
                                let nvs = cvs.push(neighbor);
                                let nes = ces.push(ek);
                                paths = paths.push((nvs, nes));
                                assert(nes.drop_last() =~= ces);
                                assert(next_min == bottleneck(edges, nes));
                                assert forall|a: int, b: int| 0 <= a < b < nvs.len() implies nvs[a] != nvs[b] by {
                                    if b == nvs.len() - 1 {
                                        assert(old_marks[cvs[a] as int]);
                                    }
                                }
                                assert forall|kk: int| 0 <= kk < nes.len() implies 0 <= #[trigger] nes[kk] < edges.len()
                                    && joins(edges[nes[kk]], nvs[kk], nvs[kk + 1]) by {
                                    if kk < ces.len() {
                                        assert(nes[kk] == ces[kk]);
                                        assert(nvs[kk] == cvs[kk]);
                                        assert(nvs[kk + 1] == cvs[kk + 1]);
                                    }
                                }
                                assert(is_tree_path(edges, nn, s, neighbor, nvs, nes));
                                assert forall|j: int|
                                    0 <= j < queue@.len() implies {
                                        let (v, m) = #[trigger] queue@[j];
                                        let (vs, es) = paths[j];
                                        &&& v < n
                                        &&& visited_bfs@[v as int]
                                        &&& is_tree_path(edges, nn, s, v, vs, es)
                                        &&& m == bottleneck(edges, es)
                                        &&& forall|i3: int| 0 <= i3 < vs.len() ==> visited_bfs@[#[trigger] vs[i3] as int]
                                    } by {
                                    if j < old_queue.len() {
                                        assert(queue@[j] == old_queue[j]);
                                        assert(paths[j] == old_paths[j]);
                                    }
                                }
                                assert forall|v: int|
                                    0 <= v < nn && #[trigger] visited_bfs@[v] implies v == curr || (exists|j: int| 0 <= j < queue@.len() && queue@[j].0 == v)
                                        || (v != t && neighbours_marked(adj@, nn, marks0, v)) by {
                                    if v == neighbor {
                                        assert(queue@[queue@.len() - 1].0 == v);
                                    } else if v != curr && (exists|j: int| 0 <= j < old_queue.len() && old_queue[j].0 == v) {
                                        let j = choose|j: int| 0 <= j < old_queue.len() && old_queue[j].0 == v;
                                        assert(queue@[j] == old_queue[j]);
                                    } else {
                                        assert(old_marks[v]);
                                    }
                                }
                            }
                        }
                        i = i + 1;
                    }
                    proof {
                        assert forall|v: int|
                            0 <= v < nn && #[trigger] visited_bfs@[v] implies (exists|j: int| 0 <= j < queue@.len() && queue@[j].0 == v)
                                || (v != t && neighbours_marked(adj@, nn, visited_bfs@, v)) by {
                            if v == curr {
                            } else if !(exists|j: int| 0 <= j < queue@.len() && queue@[j].0 == v) {
                                assert(neighbours_marked(adj@, nn, marks0, v));
                            }
                        }
                    }
                },
            }
        }
        proof {
            let side = visited_bfs@;
            assert(!side[t as int]);
            assert(tree_closed(edges, nn, side)) by {
                assert forall|k2: int|
                    0 <= k2 < edges.len() && (#[trigger] edges[k2]).source < nn && edges[k2].target < nn implies side[edges[k2].source as int]
                        == side[edges[k2].target as int] by {
                    let a = edges[k2].source as int;
                    let b = edges[k2].target as int;
                    if side[a] {
                        assert(neighbours_marked(adj@, nn, side, a));
                        assert(adj@[a]@[at_source[k2]].0 == b);
                    }
                    if side[b] {
                        assert(neighbours_marked(adj@, nn, side, b));
                        assert(adj@[b]@[at_target[k2]].0 == a);
                    }
                }
            }
            assert(side.len() == nn && side[s as int]);
            assert(tree_separated(edges, nn, s, t));
            assert(tree_separated(self.spec_edges(), self.spec_vertex_count(), s, t));
        }
        0
    }

    /// The tree in Graphviz DOT format: one line `  s -- t [label="c.00"]` per edge, or,
    /// when there is no edge, one line per vertex.
    pub fn to_dot(&self) -> (dot: String)
        ensures
            dot@ == dot_text(self.spec_vertex_count(), self.spec_edges()),
            self.spec_vertex_count() == 0 ==> dot@ == "graph GomoryHuTree {\n"@ + "}\n"@,
            self.spec_vertex_count() > 0 && self.spec_edges().len() == 0 ==> dot@ == "graph GomoryHuTree {\n"@
                + Seq::new(self.spec_vertex_count(), |i: int| "  "@ + decimal(i as nat) + "\n"@).flatten() + "}\n"@,
            self.spec_vertex_count() > 0 && self.spec_edges().len() > 0 ==> dot@ == "graph GomoryHuTree {\n"@
                + Seq::new(
                self.spec_edges().len(),
                |k: int|
                    "  "@ + decimal(self.spec_edges()[k].source as nat) + " -- "@ + decimal(
                        self.spec_edges()[k].target as nat,
                    ) + " [label=\""@ + decimal(self.spec_edges()[k].capacity as nat) + ".00\"]\n"@,
            ).flatten() + "}\n"@,
    {
        proof {
            lemma_dot_text_lines(self.spec_vertex_count(), self.spec_edges());
        }
        let mut dot = String::new();
        dot.append("graph GomoryHuTree {\n");
        let ghost header = dot@;
        if self.vertex_count == 0 {
        } else if self.edges.len() == 0 {
            let mut i: usize = 0;
            while i < self.vertex_count
                invariant
                    i <= self.vertex_count,
                    dot@ == header + dot_node_lines(i as nat),
                decreases self.vertex_count - i,
            {
                dot.append("  ");
                push_decimal(&mut dot, i as u64);
                dot.append("\n");
                proof {
                    assert(dot@ =~= header + dot_node_lines((i + 1) as nat));
                }
                i = i + 1;
            }
        } else {
            let mut k: usize = 0;
            while k < self.edges.len()
                invariant
                    k <= self.edges@.len(),
                    dot@ == header + dot_edge_lines(self.edges@.take(k as int)),
                decreases self.edges@.len() - k,
            {
                let edge = self.edges[k];
                dot.append("  ");
                push_decimal(&mut dot, edge.source as u64);
                dot.append(" -- ");
                push_decimal(&mut dot, edge.target as u64);
                dot.append(" [label=\"");
                push_decimal(&mut dot, edge.capacity);
                dot.append(".00\"]\n");
                proof {
                    assert(self.edges@.take(k + 1).drop_last() =~= self.edges@.take(k as int));
                    assert(dot@ =~= header + dot_edge_lines(self.edges@.take(k + 1)));
                }
                k = k + 1;
            }
            proof {
                assert(self.edges@.take(self.edges@.len() as int) =~= self.edges@);
            }
        }
        dot.append("}\n");
        proof {
            assert(dot@ =~= dot_text(self.spec_vertex_count(), self.spec_edges()));
        }
        dot
    }
}

} // verus!
