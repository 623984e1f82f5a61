//! Dominance: the dominators of every node of a control-flow graph, the
//! nodes each node dominates, dominance frontiers, immediate dominators and
//! the dominator tree. Nodes are given by their numbers in the graph: a
//! block by its position, the sink by the number of blocks.
use crate::bits::{count_true, filled_row, members, table};
use crate::cfg::CFG;
use crate::domsets::{
    dom_bit, dominates, dominator_rows, entry_walk, lemma_simple_walks_suffice, on_simple_walks,
    square,
};
use crate::graph::{
    graph_add_edge, graph_add_node, graph_edges, graph_new, graph_node_list, graph_nodes,
    graph_post_order, graph_predecessors, graph_successors, is_walk, linked, reaches, Graph,
};
use vstd::prelude::*;

verus! {

/// The dominance result of a control-flow graph. Each list is indexed by the
/// number of a node and holds numbers of nodes in ascending order.
pub struct DomResult {
    /// `dominators[x]` holds the nodes that dominate `x`.
    pub dominators: Vec<Vec<usize>>,
    /// `dominated_by[d]` holds the nodes that `d` dominates.
    pub dominated_by: Vec<Vec<usize>>,
    /// `dominance_frontier[v]` holds the nodes on the dominance frontier of `v`.
    pub dominance_frontier: Vec<Vec<usize>>,
    /// `immediate_dominator[v]` is the immediate dominator of `v`, if it has one.
    pub immediate_dominator: Vec<Option<usize>>,
    /// The tree whose edges lead from an immediate dominator to the node.
    pub dominator_tree: Graph,
}

/// The numbers of a list ascend.
pub open spec fn ascending(s: Seq<usize>) -> bool {
    forall|i: int, j: int| 0 <= i < j < s.len() ==> s[i] < s[j]
}

/// Which numbers up to `rows` are nodes.
pub open spec fn node_flags(nodes: Set<usize>, rows: nat) -> Seq<bool> {
    Seq::new(rows, |i: int| nodes.contains(i as usize))
}

/// An edge from `d` to `s` leaves the region that `v` dominates: `v`
/// dominates `d`, and `s` is `v` itself or not dominated by `v`.
pub open spec fn leaves(t: Seq<Seq<bool>>, edges: Set<(usize, usize)>, v: int, d: int, s: int) -> bool {
    &&& 0 <= d < t.len()
    &&& t[d][v]
    &&& edges.contains((d as usize, s as usize))
    &&& !(t[s][v] && s != v)
}

/// `s` is among the first `upto` entries of `list`.
pub open spec fn among(list: Seq<usize>, upto: int, s: usize) -> bool {
    exists|i: int| 0 <= i < upto && #[trigger] list[i] == s
}

/// `s` is on the dominance frontier of `v`, counting the edges from the
/// nodes below `upto` only.
pub open spec fn frontier_upto(
    t: Seq<Seq<bool>>,
    edges: Set<(usize, usize)>,
    v: int,
    s: int,
    upto: int,
) -> bool {
    exists|d: int| d < upto && #[trigger] leaves(t, edges, v, d, s)
}

/// `s` is on the dominance frontier of `v`.
pub open spec fn frontier_bit(t: Seq<Seq<bool>>, edges: Set<(usize, usize)>, v: int, s: int) -> bool {
    frontier_upto(t, edges, v, s, t.len() as int)
}

/// The nodes that `d` dominates and that dominate `v`.
pub open spec fn between(t: Seq<Seq<bool>>, v: int, d: int) -> Seq<bool> {
    Seq::new(t.len(), |x: int| t[x][d] && t[v][x])
}

/// `d` can be the immediate dominator of `v`: it dominates `v`, is not `v`,
/// and the only nodes that it dominates and that dominate `v` are the two.
pub open spec fn idom_candidate(t: Seq<Seq<bool>>, v: int, d: int) -> bool {
    &&& 0 <= d < t.len()
    &&& d != v
    &&& t[v][d]
    &&& count_true(between(t, v, d)) == 2
}

/// `r` is the least candidate for the immediate dominator of `v`, or none
/// if there is no candidate.
pub open spec fn is_least_candidate(t: Seq<Seq<bool>>, v: int, r: Option<usize>) -> bool {
    match r {
        Some(d) => idom_candidate(t, v, d as int) && forall|e: int|
            0 <= e < d ==> !idom_candidate(t, v, e),
        None => forall|e: int| 0 <= e < t.len() ==> !idom_candidate(t, v, e),
    }
}

impl DomResult {
    /// The dominator sets as a table: entry `[x][d]` says whether `d` is
    /// among the dominators of `x`.
    pub open spec fn table(&self) -> Seq<Seq<bool>> {
        Seq::new(
            self.dominators.len() as nat,
            |x: int|
                Seq::new(
                    self.dominators.len() as nat,
                    |d: int| self.dominators[x]@.contains(d as usize),
                ),
        )
    }

    /// The lists have one entry for each block and one for the sink, and
    /// every list ascends and holds numbers of that range only.
    pub open spec fn shaped(&self, rows: nat) -> bool {
        &&& self.dominators.len() == rows
        &&& self.dominated_by.len() == rows
        &&& self.dominance_frontier.len() == rows
        &&& self.immediate_dominator.len() == rows
        &&& forall|x: int|
            0 <= x < rows ==> ascending((#[trigger] self.dominators[x])@) && forall|d: usize|
                self.dominators[x]@.contains(d) ==> d < rows
        &&& forall|x: int|
            0 <= x < rows ==> ascending((#[trigger] self.dominated_by[x])@) && forall|d: usize|
                self.dominated_by[x]@.contains(d) ==> d < rows
        &&& forall|x: int|
            0 <= x < rows ==> ascending((#[trigger] self.dominance_frontier[x])@) && forall|
                d: usize,
            |
                self.dominance_frontier[x]@.contains(d) ==> d < rows
    }

    /// This is the dominance result of `cfg`.
    ///
    /// The dominators of a node that the entry reaches are the nodes that lie
    /// on every walk from the entry to it; those of any other node of the
    /// graph are all the nodes of the graph. `dominated_by` is the same
    /// relation read the other way. The dominance frontier of `v` holds the
    /// targets of the edges that leave the region that `v` dominates. The
    /// immediate dominator of `v` is the least node that dominates `v`, is
    /// not `v`, and has nothing but itself and `v` between the two. The tree
    /// has the entry as a node and an edge from each immediate dominator to
    /// its node. Of a graph without blocks every list is empty.
    pub open spec fn is_result_for(&self, cfg: &CFG) -> bool {
        let rows = (cfg.blocks.len() + 1) as nat;
        let nodes = graph_nodes(cfg.graph);
        let edges = graph_edges(cfg.graph).dom();
        let t = self.table();
        &&& self.shaped(rows)
        &&& forall|x: int, d: int|
            0 <= x < rows && 0 <= d < rows ==> #[trigger] t[x][d] == (cfg.blocks.len() > 0
                && dom_bit(edges, node_flags(nodes, rows), x, d))
        &&& forall|x: int, d: int|
            0 <= x < rows && 0 <= d < rows ==> self.dominated_by[d]@.contains(x as usize)
                == #[trigger] t[x][d]
        &&& forall|v: int, s: int|
            0 <= v < rows && 0 <= s < rows ==> #[trigger] self.dominance_frontier[v]@.contains(
                s as usize,
            ) == frontier_bit(t, edges, v, s)
        &&& forall|v: int|
            0 <= v < rows ==> is_least_candidate(t, v, #[trigger] self.immediate_dominator[v])
        &&& forall|a: usize, b: usize| #[trigger]
            graph_edges(self.dominator_tree).contains_key((a, b)) <==> b < rows
                && self.immediate_dominator[b as int] == Some(a)
        &&& forall|x: usize|
            graph_nodes(self.dominator_tree).contains(x) <==> x == 0 || exists|b: int|
                0 <= b < rows && #[trigger] tree_joins(self.immediate_dominator@, b, x)
    }
}

/// `x` is the node `b` or its immediate dominator.
pub open spec fn tree_joins(idoms: Seq<Option<usize>>, b: int, x: usize) -> bool {
    idoms[b] is Some && (x == b || idoms[b] == Some(x))
}

/// The nodes that `start` reaches, `start` first: a depth-first post-order,
/// reversed.
pub fn reverse_postorder(graph: &Graph, start: usize) -> (r: Vec<usize>)
    ensures
        r@.no_duplicates(),
        r.len() > 0,
        r[0] == start,
        forall|n: usize| #[trigger] r@.contains(n) <==> reaches(graph_edges(*graph).dom(), start, n),
{
    let post = graph_post_order(graph, start);
    let mut r: Vec<usize> = Vec::new();
    let mut i: usize = post.len();
    while i > 0
        invariant
            i <= post.len(),
            r.len() == post.len() - i,
            forall|k: int| 0 <= k < r.len() ==> r[k] == post[post.len() - 1 - k],
        decreases i,
    {
        i -= 1;
        r.push(post[i]);
    }
    proof {
        assert forall|a: int, b: int| 0 <= a < r.len() && 0 <= b < r.len() && a != b implies r[a]
            != r[b] by {
            assert(post[post.len() - 1 - a] != post[post.len() - 1 - b]);
        }
        assert forall|n: usize| #[trigger] r@.contains(n) <==> post@.contains(n) by {
            if r@.contains(n) {
                let k = choose|k: int| 0 <= k < r.len() && r[k] == n;
                assert(post[post.len() - 1 - k] == n);
            }
            if post@.contains(n) {
                let k = choose|k: int| 0 <= k < post.len() && post[k] == n;
                assert(r[post.len() - 1 - k] == n);
            }
        }
    }
    r
}

/// For each number below `rows`, the nodes with an edge to it.
fn gather_preds(graph: &Graph, rows: usize) -> (r: Vec<Vec<usize>>)
    ensures
        r.len() == rows,
        forall|b: int, a: usize|
            0 <= b < rows ==> (#[trigger] r[b]@.contains(a) <==> graph_edges(*graph).contains_key(
                (a, b as usize),
            )),
{
    let mut r: Vec<Vec<usize>> = Vec::new();
    let mut b: usize = 0;
    while b < rows
        invariant
            b <= rows,
            r.len() == b,
            forall|c: int, a: usize|
                0 <= c < b ==> (#[trigger] r[c]@.contains(a) <==> graph_edges(*graph).contains_key(
                    (a, c as usize),
                )),
        decreases rows - b,
    {
        r.push(graph_predecessors(graph, b));
        b += 1;
    }
    r
}

/// For each number below `rows`, the nodes that an edge from it leads to.
fn gather_succs(graph: &Graph, rows: usize) -> (r: Vec<Vec<usize>>)
    ensures
        r.len() == rows,
        forall|a: int, b: usize|
            0 <= a < rows ==> (#[trigger] r[a]@.contains(b) <==> graph_edges(*graph).contains_key(
                (a as usize, b),
            )),
{
    let mut r: Vec<Vec<usize>> = Vec::new();
    let mut a: usize = 0;
    while a < rows
        invariant
            a <= rows,
            r.len() == a,
            forall|c: int, b: usize|
                0 <= c < a ==> (#[trigger] r[c]@.contains(b) <==> graph_edges(*graph).contains_key(
                    (c as usize, b),
                )),
        decreases rows - a,
    {
        r.push(graph_successors(graph, a));
        a += 1;
    }
    r
}

/// Which numbers below `rows` are nodes of the graph.
fn gather_present(graph: &Graph, rows: usize) -> (r: Vec<bool>)
    ensures
        r@ == node_flags(graph_nodes(*graph), rows as nat),
{
    let list = graph_node_list(graph);
    let mut r = filled_row(rows, false);
    let mut i: usize = 0;
    while i < list.len()
        invariant
            i <= list.len(),
            r.len() == rows,
            forall|x: int|
                0 <= x < rows ==> r[x] == exists|k: int| 0 <= k < i && list[k] == x as usize,
        decreases list.len() - i,
    {
        let id = list[i];
        let ghost before = r@;
        if id < rows {
            r[id] = true;
        }
        proof {
            assert forall|x: int| 0 <= x < rows implies r[x] == exists|k: int|
                0 <= k < i + 1 && list[k] == x as usize by {
                if before[x] {
                    let k = choose|k: int| 0 <= k < i && list[k] == x as usize;
                    assert(0 <= k < i + 1 && list[k] == x as usize);
                }
                if exists|k: int| 0 <= k < i + 1 && list[k] == x as usize {
                    let k = choose|k: int| 0 <= k < i + 1 && list[k] == x as usize;
                    if k < i {
                        assert(before[x]);
                    }
                }
            }
        }
        i += 1;
    }
    proof {
        assert forall|x: int| 0 <= x < rows implies r[x] == graph_nodes(*graph).contains(x as usize) by {
            if r[x] {
                let k = choose|k: int| 0 <= k < list.len() && list[k] == x as usize;
                assert(list@.contains(x as usize));
            }
            if graph_nodes(*graph).contains(x as usize) {
                assert(list@.contains(x as usize));
            }
        }
        assert(r@ =~= node_flags(graph_nodes(*graph), rows as nat));
    }
    r
}

/// The table read the other way: entry `[d][x]` of the result is entry
/// `[x][d]` of `rows`.
fn transpose(rows: &Vec<Vec<bool>>) -> (r: Vec<Vec<bool>>)
    requires
        square(table(rows@), rows.len() as nat),
    ensures
        square(table(r@), rows.len() as nat),
        forall|x: int, d: int|
            0 <= x < rows.len() && 0 <= d < rows.len() ==> #[trigger] r[d][x] == rows[x][d],
{
    let n = rows.len();
    let mut r: Vec<Vec<bool>> = Vec::new();
    let mut d: usize = 0;
    while d < n
        invariant
            d <= n,
            n == rows.len(),
            square(table(rows@), n as nat),
            r.len() == d,
            forall|e: int| 0 <= e < d ==> (#[trigger] r[e]).len() == n,
            forall|x: int, e: int| 0 <= x < n && 0 <= e < d ==> #[trigger] r[e][x] == rows[x][e],
        decreases n - d,
    {
        let mut col: Vec<bool> = Vec::new();
        let mut x: usize = 0;
        while x < n
            invariant
                x <= n,
                d < n,
                n == rows.len(),
                square(table(rows@), n as nat),
                col.len() == x,
                forall|y: int| 0 <= y < x ==> col[y] == rows[y][d as int],
            decreases n - x,
        {
            assert(table(rows@)[x as int].len() == n);
            col.push(rows[x][d]);
            x += 1;
        }
        r.push(col);
        d += 1;
    }
    assert(square(table(r@), n as nat)) by {
        assert forall|e: int| 0 <= e < n implies (#[trigger] table(r@)[e]).len() == n by {
            assert(r[e].len() == n);
        }
    }
    r
}

/// The dominance frontier of `v` as a row.
fn frontier_row(rows: &Vec<Vec<bool>>, succs: &Vec<Vec<usize>>, v: usize, Ghost(edges): Ghost<
    Set<(usize, usize)>,
>) -> (r: Vec<bool>)
    requires
        v < rows.len(),
        succs.len() == rows.len(),
        square(table(rows@), rows.len() as nat),
        forall|a: int, b: usize|
            0 <= a < succs.len() ==> (#[trigger] succs[a]@.contains(b) <==> edges.contains(
                (a as usize, b),
            )),
        forall|a: usize, b: usize| #[trigger] edges.contains((a, b)) ==> b < rows.len(),
    ensures
        r.len() == rows.len(),
        forall|s: int| 0 <= s < rows.len() ==> r[s] == frontier_bit(table(rows@), edges, v as int, s),
{
    let n = rows.len();
    let ghost t = table(rows@);
    let mut r = filled_row(n, false);
    let mut d: usize = 0;
    while d < n
        invariant
            d <= n,
            v < n,
            n == rows.len(),
            succs.len() == n,
            t == table(rows@),
            square(t, n as nat),
            forall|a: int, b: usize|
                0 <= a < succs.len() ==> (#[trigger] succs[a]@.contains(b) <==> edges.contains(
                    (a as usize, b),
                )),
            forall|a: usize, b: usize| #[trigger] edges.contains((a, b)) ==> b < n,
            r.len() == n,
            forall|s: int|
                0 <= s < n ==> #[trigger] r[s] == frontier_upto(t, edges, v as int, s, d as int),
        decreases n - d,
    {
        assert(t[d as int].len() == n);
        assert(t[d as int][v as int] == rows[d as int][v as int]);
        let ghost at_d = r@;
        if rows[d][v] {
            let mut j: usize = 0;
            while j < succs[d].len()
                invariant
                    j <= succs[d as int].len(),
                    d < n,
                    v < n,
                    n == rows.len(),
                    succs.len() == n,
                    t == table(rows@),
                    square(t, n as nat),
                    t[d as int][v as int],
                    at_d.len() == n,
                    forall|a: int, b: usize|
                        0 <= a < succs.len() ==> (#[trigger] succs[a]@.contains(b)
                            <==> edges.contains((a as usize, b))),
                    forall|a: usize, b: usize| #[trigger] edges.contains((a, b)) ==> b < n,
                    r.len() == n,
                    forall|s: int|
                        0 <= s < n ==> #[trigger] r[s] == (at_d[s] || (among(
                            succs[d as int]@,
                            j as int,
                            s as usize,
                        ) && !(t[s][v as int] && s != v))),
                decreases succs[d as int].len() - j,
            {
                let s = succs[d][j];
                let ghost before = r@;
                let ghost list = succs[d as int]@;
                assert(list.contains(s));
                assert(edges.contains((d, s)));
                assert(t[s as int].len() == n);
                assert(t[s as int][v as int] == rows[s as int][v as int]);
                if !(rows[s][v] && s != v) {
                    r[s] = true;
                }
                proof {
                    assert forall|q: usize| #[trigger]
                        among(list, j + 1, q) <==> (among(list, j as int, q) || q == s) by {
                        if among(list, j as int, q) {
                            let i = choose|i: int| 0 <= i < j && #[trigger] list[i] == q;
                            assert(0 <= i < j + 1 && list[i] == q);
                        }
                        if q == s {
                            assert(list[j as int] == q);
                        }
                        if among(list, j + 1, q) {
                            let i = choose|i: int| 0 <= i < j + 1 && #[trigger] list[i] == q;
                            if i < j {
                                assert(list[i] == q);
                            }
                        }
                    }
                    assert forall|q: int| 0 <= q < n implies #[trigger] r[q] == (at_d[q] || (among(
                        list,
                        j + 1,
                        q as usize,
                    ) && !(t[q][v as int] && q != v))) by {
                        assert(among(list, j + 1, q as usize) <==> (among(list, j as int, q as usize)
                            || q as usize == s));
                        assert(before[q] == (at_d[q] || (among(list, j as int, q as usize) && !(
                        t[q][v as int] && q != v))));
                        if q == s {
                            assert(r[q] == (before[q] || !(t[q][v as int] && q != v)));
                        } else {
                            assert(r[q] == before[q]);
                        }
                    }
                }
                j += 1;
            }
            proof {
                let list = succs[d as int]@;
                assert forall|s: int| 0 <= s < n implies #[trigger] r[s] == frontier_upto(
                    t,
                    edges,
                    v as int,
                    s,
                    d + 1,
                ) by {
                    if r[s] {
                        if at_d[s] {
                            let e = choose|e: int| e < d && #[trigger] leaves(t, edges, v as int, e, s);
                            assert(e < d + 1 && leaves(t, edges, v as int, e, s));
                        } else {
                            let i = choose|i: int|
                                0 <= i < list.len() && #[trigger] list[i] == s as usize;
                            assert(list.contains(s as usize));
                            assert(leaves(t, edges, v as int, d as int, s));
                        }
                    }
                    if frontier_upto(t, edges, v as int, s, d + 1) {
                        let e = choose|e: int| e < d + 1 && #[trigger] leaves(t, edges, v as int, e, s);
                        if e < d {
                            assert(at_d[s]);
                        } else {
                            assert(list.contains(s as usize));
                            let i = choose|i: int| 0 <= i < list.len() && list[i] == s as usize;
                            assert(list[i] == s as usize);
                            assert(among(list, list.len() as int, s as usize));
                        }
                    }
                }
            }
        } else {
            proof {
                assert forall|s: int| 0 <= s < n implies #[trigger] r[s] == frontier_upto(
                    t,
                    edges,
                    v as int,
                    s,
                    d + 1,
                ) by {
                    if r[s] {
                        let e = choose|e: int| e < d && #[trigger] leaves(t, edges, v as int, e, s);
                        assert(e < d + 1 && leaves(t, edges, v as int, e, s));
                    }
                    if frontier_upto(t, edges, v as int, s, d + 1) {
                        let e = choose|e: int| e < d + 1 && #[trigger] leaves(t, edges, v as int, e, s);
                        assert(e < d);
                    }
                }
            }
        }
        d += 1;
    }
    r
}

/// The least candidate for the immediate dominator of `v`.
fn immediate(rows: &Vec<Vec<bool>>, v: usize) -> (r: Option<usize>)
    requires
        v < rows.len(),
        square(table(rows@), rows.len() as nat),
    ensures
        is_least_candidate(table(rows@), v as int, r),
{
    let n = rows.len();
    let ghost t = table(rows@);
    let mut d: usize = 0;
    while d < n
        invariant
            d <= n,
            v < n,
            n == rows.len(),
            t == table(rows@),
            square(t, n as nat),
            forall|e: int| 0 <= e < d ==> !idom_candidate(t, v as int, e),
        decreases n - d,
    {
        assert(t[v as int].len() == n);
        assert(t[v as int][d as int] == rows[v as int][d as int]);
        if d != v && rows[v][d] {
            let ghost b = between(t, v as int, d as int);
            let mut count: usize = 0;
            let mut x: usize = 0;
            assert(b.take(0) =~= Seq::empty());
            while x < n
                invariant
                    x <= n,
                    d < n,
                    v < n,
                    n == rows.len(),
                    t == table(rows@),
                    square(t, n as nat),
                    b == between(t, v as int, d as int),
                    count == count_true(b.take(x as int)),
                    count <= x,
                decreases n - x,
            {
                assert(t[x as int].len() == n);
                assert(t[x as int][d as int] == rows[x as int][d as int]);
                assert(t[v as int][x as int] == rows[v as int][x as int]);
                assert(b.take(x + 1).drop_last() =~= b.take(x as int));
                if rows[x][d] && rows[v][x] {
                    count += 1;
                }
                x += 1;
            }
            assert(b.take(n as int) =~= b);
            if count == 2 {
                return Some(d);
            }
        }
        d += 1;
    }
    None
}

/// The tree of immediate dominators.
fn build_tree(idoms: &Vec<Option<usize>>) -> (tree: Graph)
    ensures
        forall|a: usize, b: usize| #[trigger]
            graph_edges(tree).contains_key((a, b)) <==> b < idoms.len() && idoms[b as int] == Some(a),
        forall|x: usize|
            graph_nodes(tree).contains(x) <==> x == 0 || exists|b: int|
                0 <= b < idoms.len() && #[trigger] tree_joins(idoms@, b, x),
{
    let mut tree = graph_new();
    graph_add_node(&mut tree, 0);
    let mut b: usize = 0;
    while b < idoms.len()
        invariant
            b <= idoms.len(),
            forall|a: usize, c: usize| #[trigger]
                graph_edges(tree).contains_key((a, c)) <==> c < b && idoms[c as int] == Some(a),
            forall|x: usize|
                graph_nodes(tree).contains(x) <==> x == 0 || exists|c: int|
                    0 <= c < b && #[trigger] tree_joins(idoms@, c, x),
        decreases idoms.len() - b,
    {
        let ghost nodes0 = graph_nodes(tree);
        match idoms[b] {
            Some(a) => {
                graph_add_edge(&mut tree, a, b, 0);
                proof {
                    assert(tree_joins(idoms@, b as int, a));
                    assert(tree_joins(idoms@, b as int, b));
                    assert forall|x: usize|
                        graph_nodes(tree).contains(x) <==> x == 0 || exists|c: int|
                            0 <= c < b + 1 && #[trigger] tree_joins(idoms@, c, x) by {
                        if nodes0.contains(x) && x != 0 {
                            let c = choose|c: int| 0 <= c < b && #[trigger] tree_joins(idoms@, c, x);
                            assert(0 <= c < b + 1 && tree_joins(idoms@, c, x));
                        }
                        if exists|c: int| 0 <= c < b + 1 && #[trigger] tree_joins(idoms@, c, x) {
                            let c = choose|c: int| 0 <= c < b + 1 && #[trigger] tree_joins(idoms@, c, x);
                            if c < b {
                                assert(nodes0.contains(x));
                            }
                        }
                    }
                }
            },
            None => {
                proof {
                    assert forall|x: usize|
                        graph_nodes(tree).contains(x) <==> x == 0 || exists|c: int|
                            0 <= c < b + 1 && #[trigger] tree_joins(idoms@, c, x) by {
                        if nodes0.contains(x) && x != 0 {
                            let c = choose|c: int| 0 <= c < b && #[trigger] tree_joins(idoms@, c, x);
                            assert(0 <= c < b + 1 && tree_joins(idoms@, c, x));
                        }
                        if exists|c: int| 0 <= c < b + 1 && #[trigger] tree_joins(idoms@, c, x) {
                            let c = choose|c: int| 0 <= c < b + 1 && #[trigger] tree_joins(idoms@, c, x);
                            assert(c < b);
                        }
                    }
                }
            },
        }
        b += 1;
    }
    tree
}

/// The members of each row, in ascending order.
fn member_lists(rows: &Vec<Vec<bool>>) -> (r: Vec<Vec<usize>>)
    requires
        square(table(rows@), rows.len() as nat),
    ensures
        r.len() == rows.len(),
        forall|x: int| 0 <= x < rows.len() ==> ascending((#[trigger] r[x])@),
        forall|x: int, d: usize|
            0 <= x < rows.len() ==> (#[trigger] r[x]@.contains(d) <==> d < rows.len()
                && rows[x][d as int]),
{
    let n = rows.len();
    let mut r: Vec<Vec<usize>> = Vec::new();
    let mut x: usize = 0;
    while x < n
        invariant
            x <= n,
            n == rows.len(),
            square(table(rows@), n as nat),
            r.len() == x,
            forall|y: int| 0 <= y < x ==> ascending((#[trigger] r[y])@),
            forall|y: int, d: usize|
                0 <= y < x ==> (#[trigger] r[y]@.contains(d) <==> d < n && rows[y][d as int]),
        decreases n - x,
    {
        assert(table(rows@)[x as int].len() == n);
        r.push(members(&rows[x]));
        x += 1;
    }
    r
}

/// Finding the dominance result of a graph.
pub trait DominatorUtil {
    /// What `find_dominators` asks of the graph.
    spec fn sound(&self) -> bool;

    /// What `find_dominators` promises of its result.
    spec fn dominance(&self, r: &DomResult) -> bool;

    fn find_dominators(&self) -> (r: DomResult)
        requires
            self.sound(),
        ensures
            self.dominance(&r),
    ;
}

impl DominatorUtil for CFG {
    open spec fn sound(&self) -> bool {
        self.wf()
    }

    open spec fn dominance(&self, r: &DomResult) -> bool {
        r.is_result_for(self)
    }

    /// The dominance result of the graph, with the first block as the entry.
    fn find_dominators(&self) -> (r: DomResult) {
        let n = self.blocks.len();
        let rows = n + 1;
        let ghost edges = graph_edges(self.graph).dom();
        let ghost nodes = graph_nodes(self.graph);
        let succs = gather_succs(&self.graph, rows);
        let m = if n == 0 {
            let mut m: Vec<Vec<bool>> = Vec::new();
            m.push(filled_row(1, false));
            m
        } else {
            let preds = gather_preds(&self.graph, rows);
            let present = gather_present(&self.graph, rows);
            let order = reverse_postorder(&self.graph, 0);
            proof {
                let ps = Seq::new(preds.len() as nat, |i: int| preds[i]@);
                assert forall|b: int, j: int|
                    0 <= b < ps.len() && 0 <= j < ps[b].len() implies edges.contains(
                    (#[trigger] ps[b][j], b as usize),
                ) by {
                    assert(preds[b]@.contains(ps[b][j]));
                }
                assert forall|a: usize, b: usize| #[trigger] edges.contains((a, b)) implies a
                    < present.len() && b < present.len() && present[a as int] && present[b as int]
                    && ps[b as int].contains(a) by {
                    assert(graph_edges(self.graph).contains_key((a, b)));
                    assert(preds[b as int]@.contains(a));
                }
            }
            dominator_rows(&preds, &present, &order, Ghost(edges))
        };
        let cols = transpose(&m);
        let dominators = member_lists(&m);
        let dominated_by = member_lists(&cols);
        let mut fronts: Vec<Vec<bool>> = Vec::new();
        let mut immediate_dominator: Vec<Option<usize>> = Vec::new();
        let mut v: usize = 0;
        proof {
            assert forall|a: usize, b: usize| #[trigger] edges.contains((a, b)) implies b < rows by {
                assert(graph_edges(self.graph).contains_key((a, b)));
            }
        }
        while v < rows
            invariant
                v <= rows,
                rows == m.len(),
                succs.len() == rows,
                square(table(m@), rows as nat),
                forall|a: int, b: usize|
                    0 <= a < succs.len() ==> (#[trigger] succs[a]@.contains(b) <==> edges.contains(
                        (a as usize, b),
                    )),
                forall|a: usize, b: usize| #[trigger] edges.contains((a, b)) ==> b < rows,
                fronts.len() == v,
                immediate_dominator.len() == v,
                forall|u: int| 0 <= u < v ==> (#[trigger] fronts[u]).len() == rows,
                forall|u: int, s: int|
                    0 <= u < v && 0 <= s < rows ==> #[trigger] fronts[u][s] == frontier_bit(
                        table(m@),
                        edges,
                        u,
                        s,
                    ),
                forall|u: int|
                    0 <= u < v ==> is_least_candidate(table(m@), u, #[trigger] immediate_dominator[u]),
            decreases rows - v,
        {
            fronts.push(frontier_row(&m, &succs, v, Ghost(edges)));
            immediate_dominator.push(immediate(&m, v));
            v += 1;
        }
        assert(square(table(fronts@), rows as nat)) by {
            assert forall|u: int| 0 <= u < rows implies (#[trigger] table(fronts@)[u]).len() == rows by {
                assert(fronts[u].len() == rows);
            }
        }
        let dominance_frontier = member_lists(&fronts);
        let dominator_tree = build_tree(&immediate_dominator);
        let r = DomResult {
            dominators,
            dominated_by,
            dominance_frontier,
            immediate_dominator,
            dominator_tree,
        };
        proof {
            let t = r.table();
            assert(t =~~= table(m@)) by {
                assert forall|x: int| 0 <= x < rows implies #[trigger] t[x] =~= table(m@)[x] by {
                    assert(table(m@)[x].len() == rows);
                    assert forall|d: int| 0 <= d < rows implies t[x][d] == table(m@)[x][d] by {
                        assert(r.dominators[x]@.contains(d as usize) == (d < rows && m[x][d]));
                    }
                }
            }
            assert forall|x: int, d: int| 0 <= x < rows && 0 <= d < rows implies #[trigger] t[x][d] == (
            self.blocks.len() > 0 && dom_bit(edges, node_flags(nodes, rows as nat), x, d)) by {
                assert(table(m@)[x].len() == rows);
                assert(t[x][d] == m@[x]@[d]);
            }
            assert forall|x: int, d: int|
                0 <= x < rows && 0 <= d < rows implies r.dominated_by[d]@.contains(x as usize)
                == #[trigger] t[x][d] by {
                assert(table(m@)[x].len() == rows);
                assert(r.dominated_by[d]@.contains(x as usize) == (x < rows && cols[d][x]));
                assert(cols[d][x] == m[x][d]);
            }
            assert forall|v: int, s: int|
                0 <= v < rows && 0 <= s < rows implies #[trigger] r.dominance_frontier[v]@.contains(
                s as usize,
            ) == frontier_bit(t, edges, v, s) by {
                assert(r.dominance_frontier[v]@.contains(s as usize) == (s < rows && fronts[v][s]));
            }
        }
        r
    }
}

/// The dominators found are the right ones. Of a node `x` that the first
/// block reaches, `dominators[x]` holds exactly the nodes that lie on every
/// walk from the first block to `x`, which are the nodes that lie on every
/// such walk that visits no node twice; among them are `x` itself and the
/// first block.
pub proof fn lemma_dominators_correct(cfg: CFG, r: DomResult, x: usize)
    requires
        cfg.wf(),
        cfg.blocks.len() > 0,
        r.is_result_for(&cfg),
        reaches(graph_edges(cfg.graph).dom(), 0, x),
    ensures
        x <= cfg.blocks.len(),
        forall|d: usize|
            r.dominators[x as int]@.contains(d) <==> dominates(graph_edges(cfg.graph).dom(), d, x),
        forall|d: usize|
            r.dominators[x as int]@.contains(d) <==> on_simple_walks(
                graph_edges(cfg.graph).dom(),
                d,
                x,
            ),
        r.dominators[x as int]@.contains(x),
        r.dominators[x as int]@.contains(0),
{
    let edges = graph_edges(cfg.graph).dom();
    lemma_reached_in_range(cfg, x);
    assert forall|d: usize| r.dominators[x as int]@.contains(d) <==> dominates(edges, d, x) by {
        lemma_dominator_listed(cfg, r, x, d);
    }
    assert forall|d: usize|
        r.dominators[x as int]@.contains(d) <==> on_simple_walks(edges, d, x) by {
        lemma_dominator_listed(cfg, r, x, d);
        lemma_simple_walks_suffice(edges, d, x);
    }
    lemma_dominator_listed(cfg, r, x, x);
    lemma_dominator_listed(cfg, r, x, 0);
    assert(dominates(edges, x, x)) by {
        assert forall|v: Seq<usize>| #[trigger] entry_walk(edges, v, x) implies v.contains(x) by {
            assert(v[v.len() - 1] == x);
        }
    }
    assert(dominates(edges, 0, x)) by {
        assert forall|v: Seq<usize>| #[trigger] entry_walk(edges, v, x) implies v.contains(0) by {
            assert(v[0] == 0);
        }
    }
}

/// A node that the first block reaches is a block or the sink.
pub proof fn lemma_reached_in_range(cfg: CFG, x: usize)
    requires
        cfg.wf(),
        reaches(graph_edges(cfg.graph).dom(), 0, x),
    ensures
        x <= cfg.blocks.len(),
{
    let edges = graph_edges(cfg.graph).dom();
    let w = choose|w: Seq<usize>| is_walk(edges, w) && w.first() == 0 && w.last() == x;
    if w.len() > 1 {
        assert(linked(edges, w, w.len() - 2));
        assert(graph_edges(cfg.graph).contains_key((w[w.len() - 2], x)));
    }
}

/// Whether `d` is listed among the dominators of a reached node `x`.
proof fn lemma_dominator_listed(cfg: CFG, r: DomResult, x: usize, d: usize)
    requires
        cfg.wf(),
        cfg.blocks.len() > 0,
        r.is_result_for(&cfg),
        reaches(graph_edges(cfg.graph).dom(), 0, x),
    ensures
        r.dominators[x as int]@.contains(d) <==> dominates(graph_edges(cfg.graph).dom(), d, x),
{
    let edges = graph_edges(cfg.graph).dom();
    let rows = (cfg.blocks.len() + 1) as nat;
    let t = r.table();
    lemma_reached_in_range(cfg, x);
    if d < rows {
        assert(t[x as int][d as int] == dom_bit(
            edges,
            node_flags(graph_nodes(cfg.graph), rows),
            x as int,
            d as int,
        ));
    } else {
        if dominates(edges, d, x) {
            let w = choose|w: Seq<usize>| is_walk(edges, w) && w.first() == 0 && w.last() == x;
            assert(entry_walk(edges, w, x));
            assert(w.contains(d));
            let i = choose|i: int| 0 <= i < w.len() && w[i] == d;
            if i > 0 {
                assert(linked(edges, w, i - 1));
                assert(graph_edges(cfg.graph).contains_key((w[i - 1], d)));
            }
        }
    }
}

} // verus!
