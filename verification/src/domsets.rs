//! Dominator sets: what it means for one node to dominate another, and the
//! iteration that computes the dominators of every node. The entry is the
//! node 0.
use crate::bits::{
    filled_row, lemma_count_within, lemma_total_update, row_within, same_row, table,
    total_true,
};
use crate::graph::{is_walk, linked, reaches};
use vstd::prelude::*;

verus! {

/// A walk from the entry to `x`.
pub open spec fn entry_walk(edges: Set<(usize, usize)>, w: Seq<usize>, x: usize) -> bool {
    is_walk(edges, w) && w.first() == 0 && w.last() == x
}

/// `d` dominates `x`: every walk from the entry to `x` passes through `d`.
pub open spec fn dominates(edges: Set<(usize, usize)>, d: usize, x: usize) -> bool {
    forall|w: Seq<usize>| #[trigger] entry_walk(edges, w, x) ==> w.contains(d)
}

/// The dominator sets that the iteration arrives at: of a node that the
/// entry reaches, its dominators; of any other node of the graph, every node
/// of the graph.
pub open spec fn dom_bit(edges: Set<(usize, usize)>, present: Seq<bool>, x: int, d: int) -> bool {
    if reaches(edges, 0, x as usize) {
        dominates(edges, d as usize, x as usize)
    } else {
        present[x] && present[d]
    }
}

/// What the iteration works on: the predecessors of each node, which
/// numbers are nodes, and the nodes that the entry reaches, entry first.
pub open spec fn fits(
    edges: Set<(usize, usize)>,
    preds: Seq<Seq<usize>>,
    present: Seq<bool>,
    order: Seq<usize>,
) -> bool {
    &&& preds.len() == present.len()
    &&& present.len() >= 1
    &&& present.len() <= usize::MAX
    &&& present[0]
    &&& forall|b: int, j: int|
        0 <= b < preds.len() && 0 <= j < preds[b].len() ==> edges.contains(
            (#[trigger] preds[b][j], b as usize),
        )
    &&& forall|a: usize, b: usize| #[trigger]
        edges.contains((a, b)) ==> a < present.len() && b < present.len() && present[a as int]
            && present[b as int] && preds[b as int].contains(a)
    &&& order.no_duplicates()
    &&& order.len() >= 1
    &&& order[0] == 0
    &&& forall|x: usize| #[trigger] order.contains(x) <==> reaches(edges, 0, x)
}

/// All the predecessors in `ps` have `d` in their row.
pub open spec fn all_have(rows: Seq<Seq<bool>>, ps: Seq<usize>, d: int) -> bool {
    forall|j: int| 0 <= j < ps.len() ==> rows[#[trigger] ps[j] as int][d]
}

/// One step of the iteration: `d` stays a dominator of `v` if it is `v`, or
/// if it is a node and every predecessor of `v` has it.
pub open spec fn step_bit(
    rows: Seq<Seq<bool>>,
    preds: Seq<Seq<usize>>,
    present: Seq<bool>,
    v: int,
    d: int,
) -> bool {
    d == v || (present[d] && all_have(rows, preds[v], d))
}

/// The row that one step gives the node `v`.
pub open spec fn step_row(
    rows: Seq<Seq<bool>>,
    preds: Seq<Seq<usize>>,
    present: Seq<bool>,
    v: int,
) -> Seq<bool> {
    Seq::new(present.len(), |d: int| step_bit(rows, preds, present, v, d))
}

/// A square table with one row for each number.
pub open spec fn square(rows: Seq<Seq<bool>>, n: nat) -> bool {
    &&& rows.len() == n
    &&& forall|x: int| 0 <= x < n ==> (#[trigger] rows[x]).len() == n
}

/// What holds of the table throughout the iteration.
pub open spec fn keeps(
    edges: Set<(usize, usize)>,
    preds: Seq<Seq<usize>>,
    present: Seq<bool>,
    order: Seq<usize>,
    rows: Seq<Seq<bool>>,
) -> bool {
    let n = present.len();
    &&& square(rows, n)
    &&& forall|d: int| 0 <= d < n ==> rows[0][d] == (d == 0)
    &&& forall|x: int, d: int| 0 <= x < n && 0 <= d < n && #[trigger] rows[x][d] ==> present[d]
    &&& forall|x: int, d: int|
        0 <= x < n && 0 <= d < n && present[x] && present[d] && dominates(
            edges,
            d as usize,
            x as usize,
        ) ==> #[trigger] rows[x][d]
    &&& forall|k: int, d: int|
        1 <= k < order.len() && 0 <= d < n && step_bit(rows, preds, present, order[k] as int, d)
            ==> #[trigger] rows[order[k] as int][d]
    &&& forall|x: int, d: int|
        0 <= x < n && 0 <= d < n && !order.contains(x as usize) ==> #[trigger] rows[x][d] == (
        present[x] && present[d])
}

/// The table is at rest: a step changes the row of no reached node.
pub open spec fn at_rest(
    preds: Seq<Seq<usize>>,
    present: Seq<bool>,
    order: Seq<usize>,
    rows: Seq<Seq<bool>>,
    upto: int,
) -> bool {
    forall|k: int, d: int|
        1 <= k < upto && 0 <= d < present.len() ==> #[trigger] rows[order[k] as int][d] == step_bit(
            rows,
            preds,
            present,
            order[k] as int,
            d,
        )
}

/// A node that the entry reaches is a node of the graph.
pub proof fn lemma_reached_is_node(
    edges: Set<(usize, usize)>,
    preds: Seq<Seq<usize>>,
    present: Seq<bool>,
    order: Seq<usize>,
    x: usize,
)
    requires
        fits(edges, preds, present, order),
        reaches(edges, 0, x),
    ensures
        x < present.len(),
        present[x as int],
{
    let w = choose|w: Seq<usize>| is_walk(edges, w) && w.first() == 0 && w.last() == x;
    if w.len() > 1 {
        assert(linked(edges, w, w.len() - 2));
    }
}

/// A walk with one more edge at its end.
pub proof fn lemma_walk_push(edges: Set<(usize, usize)>, w: Seq<usize>, b: usize)
    requires
        is_walk(edges, w),
        edges.contains((w.last(), b)),
    ensures
        is_walk(edges, w.push(b)),
        w.push(b).first() == w.first(),
        w.push(b).last() == b,
{
    let e = w.push(b);
    assert forall|i: int| 0 <= i < e.len() - 1 implies #[trigger] linked(edges, e, i) by {
        if i < w.len() - 1 {
            assert(linked(edges, w, i));
        }
    }
}

/// A walk without its last node, if it has more than one.
pub proof fn lemma_walk_drop_last(edges: Set<(usize, usize)>, w: Seq<usize>)
    requires
        is_walk(edges, w),
        w.len() > 1,
    ensures
        is_walk(edges, w.drop_last()),
        w.drop_last().first() == w.first(),
        edges.contains((w.drop_last().last(), w.last())),
{
    let p = w.drop_last();
    assert forall|i: int| 0 <= i < p.len() - 1 implies #[trigger] linked(edges, p, i) by {
        assert(linked(edges, w, i));
    }
    assert(linked(edges, w, w.len() - 2));
}

/// A dominator of `v` other than `v` dominates every predecessor of `v`.
pub proof fn lemma_dominates_pred(edges: Set<(usize, usize)>, d: usize, p: usize, v: usize)
    requires
        dominates(edges, d, v),
        d != v,
        edges.contains((p, v)),
    ensures
        dominates(edges, d, p),
{
    assert forall|w: Seq<usize>| #[trigger] entry_walk(edges, w, p) implies w.contains(d) by {
        lemma_walk_push(edges, w, v);
        assert(entry_walk(edges, w.push(v), v));
        assert(w.push(v).contains(d));
        let i = choose|i: int| 0 <= i < w.push(v).len() && w.push(v)[i] == d;
        assert(w[i] == d);
    }
}

/// Only the entry dominates the entry.
pub proof fn lemma_entry_dominators(edges: Set<(usize, usize)>, d: usize)
    requires
        dominates(edges, d, 0),
    ensures
        d == 0,
{
    let w = seq![0usize];
    assert(entry_walk(edges, w, 0));
    assert(w.contains(d));
}

/// The state before the first step is one that the iteration keeps.
pub proof fn lemma_start_keeps(
    edges: Set<(usize, usize)>,
    preds: Seq<Seq<usize>>,
    present: Seq<bool>,
    order: Seq<usize>,
    rows: Seq<Seq<bool>>,
)
    requires
        fits(edges, preds, present, order),
        square(rows, present.len()),
        forall|d: int| 0 <= d < present.len() ==> rows[0][d] == (d == 0),
        forall|x: int, d: int|
            1 <= x < present.len() && 0 <= d < present.len() ==> #[trigger] rows[x][d] == (
            present[x] && present[d]),
    ensures
        keeps(edges, preds, present, order, rows),
{
    let n = present.len();
    assert forall|x: int, d: int|
        0 <= x < n && 0 <= d < n && present[x] && present[d] && dominates(
            edges,
            d as usize,
            x as usize,
        ) implies #[trigger] rows[x][d] by {
        if x == 0 {
            lemma_entry_dominators(edges, d as usize);
        }
    }
    assert forall|k: int, d: int|
        1 <= k < order.len() && 0 <= d < n && step_bit(
            rows,
            preds,
            present,
            order[k] as int,
            d,
        ) implies #[trigger] rows[order[k] as int][d] by {
        let v = order[k];
        assert(order.contains(v));
        lemma_reached_is_node(edges, preds, present, order, v);
        assert(v != 0) by {
            if v == 0 {
                assert(order[0] == order[k]);
            }
        }
    }
    assert forall|x: int, d: int|
        0 <= x < n && 0 <= d < n && !order.contains(x as usize) implies #[trigger] rows[x][d] == (
    present[x] && present[d]) by {
        if x == 0 {
            assert(order[0] == 0);
            assert(order.contains(0usize));
        }
    }
}

/// A step on a reached node other than the entry keeps what the iteration
/// keeps, and takes nothing into the row of that node.
pub proof fn lemma_step_keeps(
    edges: Set<(usize, usize)>,
    preds: Seq<Seq<usize>>,
    present: Seq<bool>,
    order: Seq<usize>,
    rows: Seq<Seq<bool>>,
    k: int,
)
    requires
        fits(edges, preds, present, order),
        keeps(edges, preds, present, order, rows),
        1 <= k < order.len(),
    ensures
        order[k] < present.len(),
        order[k] != 0,
        keeps(
            edges,
            preds,
            present,
            order,
            rows.update(order[k] as int, step_row(rows, preds, present, order[k] as int)),
        ),
        row_within(step_row(rows, preds, present, order[k] as int), rows[order[k] as int]),
{
    let n = present.len();
    let v = order[k];
    assert(order.contains(v));
    lemma_reached_is_node(edges, preds, present, order, v);
    assert(v != 0) by {
        if v == 0 {
            assert(order[0] == order[k]);
        }
    }
    let new_row = step_row(rows, preds, present, v as int);
    let next = rows.update(v as int, new_row);
    assert(row_within(new_row, rows[v as int])) by {
        assert forall|d: int| 0 <= d < new_row.len() && #[trigger] new_row[d] implies rows[v as int][d] by {
            assert(step_bit(rows, preds, present, order[k] as int, d));
            assert(rows[order[k] as int][d]);
        }
    }
    // the table only shrinks
    assert forall|x: int, d: int| 0 <= x < n && 0 <= d < n && #[trigger] next[x][d] implies rows[x][d] by {
        if x == v {
            assert(new_row[d] ==> rows[v as int][d]);
        }
    }
    assert forall|x: int, d: int|
        0 <= x < n && 0 <= d < n && present[x] && present[d] && dominates(
            edges,
            d as usize,
            x as usize,
        ) implies #[trigger] next[x][d] by {
        assert(rows[x][d]);
        if x == v && d != v {
            assert forall|j: int| 0 <= j < preds[v as int].len() implies rows[#[trigger] preds[v as int][j] as int][d] by {
                let p = preds[v as int][j];
                assert(edges.contains((p, v)));
                lemma_dominates_pred(edges, d as usize, p, v);
                assert(rows[p as int][d]);
            }
            assert(step_bit(rows, preds, present, v as int, d));
        }
    }
    assert forall|j: int, d: int|
        1 <= j < order.len() && 0 <= d < n && step_bit(
            next,
            preds,
            present,
            order[j] as int,
            d,
        ) implies #[trigger] next[order[j] as int][d] by {
        let u = order[j];
        assert(order.contains(u));
        lemma_reached_is_node(edges, preds, present, order, u);
        // a step on the smaller table gives no more than on the larger
        assert(step_bit(rows, preds, present, u as int, d)) by {
            if d != u {
                assert forall|i: int| 0 <= i < preds[u as int].len() implies rows[#[trigger] preds[u as int][i] as int][d] by {
                    let p = preds[u as int][i];
                    assert(edges.contains((p, u)));
                    assert(next[p as int][d]);
                }
            }
        }
        assert(rows[order[j] as int][d]);
    }
    assert forall|x: int, d: int|
        0 <= x < n && 0 <= d < n && !order.contains(x as usize) implies #[trigger] next[x][d] == (
    present[x] && present[d]) by {
        assert(rows[x][d] == (present[x] && present[d]));
    }
    assert forall|x: int, d: int| 0 <= x < n && 0 <= d < n && #[trigger] next[x][d] implies present[d] by {
        assert(rows[x][d]);
    }
}

/// At rest, the row of the last node of a walk from the entry holds only
/// nodes of that walk.
pub proof fn lemma_rest_walk(
    edges: Set<(usize, usize)>,
    preds: Seq<Seq<usize>>,
    present: Seq<bool>,
    order: Seq<usize>,
    rows: Seq<Seq<bool>>,
    w: Seq<usize>,
    d: int,
)
    requires
        fits(edges, preds, present, order),
        keeps(edges, preds, present, order, rows),
        at_rest(preds, present, order, rows, order.len() as int),
        is_walk(edges, w),
        w.first() == 0,
        0 <= d < present.len(),
        w.last() < present.len(),
        rows[w.last() as int][d],
    ensures
        w.contains(d as usize),
    decreases w.len(),
{
    let v = w.last();
    if v == 0 {
        assert(w[0] == d);
    } else {
        assert(reaches(edges, 0, v));
        assert(order.contains(v));
        let k = choose|k: int| 0 <= k < order.len() && order[k] == v;
        assert(rows[order[k] as int][d] == step_bit(rows, preds, present, order[k] as int, d));
        if d == v {
            assert(w[w.len() - 1] == d);
        } else {
            lemma_walk_drop_last(edges, w);
            let p = w.drop_last();
            let q = p.last();
            assert(edges.contains((q, v)));
            assert(preds[v as int].contains(q));
            let j = choose|j: int| 0 <= j < preds[v as int].len() && preds[v as int][j] == q;
            assert(rows[preds[v as int][j] as int][d]);
            lemma_rest_walk(edges, preds, present, order, rows, p, d);
            let i = choose|i: int| 0 <= i < p.len() && p[i] == d as usize;
            assert(w[i] == d as usize);
        }
    }
}

/// At rest the table holds the dominator sets.
pub proof fn lemma_rest_is_dominators(
    edges: Set<(usize, usize)>,
    preds: Seq<Seq<usize>>,
    present: Seq<bool>,
    order: Seq<usize>,
    rows: Seq<Seq<bool>>,
    x: int,
    d: int,
)
    requires
        fits(edges, preds, present, order),
        keeps(edges, preds, present, order, rows),
        at_rest(preds, present, order, rows, order.len() as int),
        0 <= x < present.len(),
        0 <= d < present.len(),
    ensures
        rows[x][d] == dom_bit(edges, present, x, d),
{
    if reaches(edges, 0, x as usize) {
        lemma_reached_is_node(edges, preds, present, order, x as usize);
        if rows[x][d] {
            assert forall|w: Seq<usize>| #[trigger] entry_walk(edges, w, x as usize) implies w.contains(
                d as usize,
            ) by {
                lemma_rest_walk(edges, preds, present, order, rows, w, d);
            }
        }
        if dominates(edges, d as usize, x as usize) {
            lemma_dominator_is_node(edges, preds, present, order, d as usize, x as usize);
            assert(rows[x][d]);
        }
    } else {
        assert(!order.contains(x as usize));
    }
}

/// What dominates a reached node is itself a node that the entry reaches.
pub proof fn lemma_dominator_is_node(
    edges: Set<(usize, usize)>,
    preds: Seq<Seq<usize>>,
    present: Seq<bool>,
    order: Seq<usize>,
    d: usize,
    x: usize,
)
    requires
        fits(edges, preds, present, order),
        reaches(edges, 0, x),
        dominates(edges, d, x),
    ensures
        reaches(edges, 0, d),
        d < present.len(),
        present[d as int],
{
    let w = choose|w: Seq<usize>| is_walk(edges, w) && w.first() == 0 && w.last() == x;
    assert(entry_walk(edges, w, x));
    assert(w.contains(d));
    let i = choose|i: int| 0 <= i < w.len() && w[i] == d;
    let p = w.take(i + 1);
    assert(is_walk(edges, p)) by {
        assert forall|j: int| 0 <= j < p.len() - 1 implies #[trigger] linked(edges, p, j) by {
            assert(linked(edges, w, j));
        }
    }
    assert(p.first() == 0 && p.last() == d);
    lemma_reached_is_node(edges, preds, present, order, d);
}

/// The dominator sets of a graph, one row for each number: the entry is
/// dominated by itself alone; each reached node by itself and by what
/// dominates all its predecessors. The rows start full and shrink until a
/// sweep over the reached nodes changes none.
pub(crate) fn dominator_rows(
    preds: &Vec<Vec<usize>>,
    present: &Vec<bool>,
    order: &Vec<usize>,
    Ghost(edges): Ghost<Set<(usize, usize)>>,
) -> (rows: Vec<Vec<bool>>)
    requires
        fits(edges, Seq::new(preds.len() as nat, |i: int| preds[i]@), present@, order@),
    ensures
        square(table(rows@), present.len() as nat),
        forall|x: int, d: int|
            0 <= x < present.len() && 0 <= d < present.len() ==> #[trigger] rows@[x]@[d] == dom_bit(
                edges,
                present@,
                x,
                d,
            ),
{
    let n = present.len();
    let ghost ps = Seq::new(preds.len() as nat, |i: int| preds[i]@);
    let mut rows: Vec<Vec<bool>> = Vec::new();
    let mut first = filled_row(n, false);
    first[0] = true;
    rows.push(first);
    let mut x: usize = 1;
    while x < n
        invariant
            1 <= x <= n,
            n == present.len(),
            rows.len() == x,
            forall|y: int| 0 <= y < x ==> (#[trigger] rows[y]).len() == n,
            forall|d: int| 0 <= d < n ==> rows[0][d] == (d == 0),
            forall|y: int, d: int|
                1 <= y < x && 0 <= d < n ==> #[trigger] rows[y][d] == (present[y] && present[d]),
        decreases n - x,
    {
        let mut row: Vec<bool> = Vec::new();
        let here = present[x];
        let mut d: usize = 0;
        while d < n
            invariant
                d <= n,
                n == present.len(),
                row.len() == d,
                forall|e: int| 0 <= e < d ==> row[e] == (here && present[e]),
            decreases n - d,
        {
            row.push(here && present[d]);
            d += 1;
        }
        rows.push(row);
        x += 1;
    }
    proof {
        lemma_start_keeps(edges, ps, present@, order@, table(rows@));
    }
    loop
        invariant
            n == present.len(),
            ps == Seq::new(preds.len() as nat, |i: int| preds[i]@),
            fits(edges, ps, present@, order@),
            keeps(edges, ps, present@, order@, table(rows@)),
        ensures
            at_rest(ps, present@, order@, table(rows@), order.len() as int),
            keeps(edges, ps, present@, order@, table(rows@)),
        decreases total_true(table(rows@)),
    {
        let ghost start = table(rows@);
        let mut changed = false;
        let mut k: usize = 1;
        while k < order.len()
            invariant
                1 <= k <= order.len(),
                n == present.len(),
                ps == Seq::new(preds.len() as nat, |i: int| preds[i]@),
                fits(edges, ps, present@, order@),
                keeps(edges, ps, present@, order@, table(rows@)),
                total_true(table(rows@)) <= total_true(start),
                changed ==> total_true(table(rows@)) < total_true(start),
                !changed ==> table(rows@) == start,
                !changed ==> at_rest(ps, present@, order@, table(rows@), k as int),
            decreases order.len() - k,
        {
            let v = order[k];
            let ghost before = table(rows@);
            proof {
                lemma_step_keeps(edges, ps, present@, order@, before, k as int);
                assert forall|j: int| 0 <= j < preds[v as int].len() implies #[trigger] preds[v as int][j]
                    < present.len() by {
                    assert(edges.contains((ps[v as int][j], v)));
                }
            }
            let row = next_row(preds, present, &rows, v);
            proof {
                assert(row@ =~= step_row(before, ps, present@, v as int));
            }
            if !same_row(&row, &rows[v]) {
                proof {
                    lemma_count_within(row@, before[v as int]);
                    lemma_total_update(before, v as int, row@);
                }
                rows[v] = row;
                changed = true;
                proof {
                    assert(table(rows@) =~= before.update(v as int, row@));
                }
            } else {
                proof {
                    assert(before.update(v as int, row@) =~= before);
                    if !changed {
                        assert forall|j: int, d: int|
                            1 <= j < k + 1 && 0 <= d < n implies #[trigger] before[order[j] as int][d]
                            == step_bit(before, ps, present@, order[j] as int, d) by {
                            if j == k {
                                assert(row@[d] == step_bit(before, ps, present@, v as int, d));
                            }
                        }
                    }
                }
            }
            k += 1;
        }
        if !changed {
            break ;
        }
    }
    proof {
        assert forall|x: int, d: int| 0 <= x < n && 0 <= d < n implies #[trigger] rows[x][d] == dom_bit(
            edges,
            present@,
            x,
            d,
        ) by {
            lemma_rest_is_dominators(edges, ps, present@, order@, table(rows@), x, d);
            assert(table(rows@)[x][d] == rows[x][d]);
        }
    }
    rows
}

/// The row that one step gives the node `v`.
fn next_row(preds: &Vec<Vec<usize>>, present: &Vec<bool>, rows: &Vec<Vec<bool>>, v: usize) -> (row:
    Vec<bool>)
    requires
        v < present.len(),
        preds.len() == present.len(),
        square(table(rows@), present.len() as nat),
        forall|j: int| 0 <= j < preds[v as int].len() ==> #[trigger] preds[v as int][j] < present.len(),
    ensures
        row.len() == present.len(),
        forall|d: int|
            0 <= d < present.len() ==> row[d] == step_bit(
                table(rows@),
                Seq::new(preds.len() as nat, |i: int| preds[i]@),
                present@,
                v as int,
                d,
            ),
{
    let n = present.len();
    let ghost ps = Seq::new(preds.len() as nat, |i: int| preds[i]@);
    let mut row: Vec<bool> = Vec::new();
    let mut d: usize = 0;
    while d < n
        invariant
            d <= n,
            n == present.len(),
            v < n,
            preds.len() == n,
            ps == Seq::new(preds.len() as nat, |i: int| preds[i]@),
            square(table(rows@), n as nat),
            forall|j: int| 0 <= j < preds[v as int].len() ==> #[trigger] preds[v as int][j] < n,
            row.len() == d,
            forall|e: int| 0 <= e < d ==> row[e] == step_bit(table(rows@), ps, present@, v as int, e),
        decreases n - d,
    {
        let mut all = present[d];
        let mut j: usize = 0;
        while j < preds[v].len()
            invariant
                j <= preds[v as int].len(),
                d < n,
                v < n,
                preds.len() == n,
                n == present.len(),
                square(table(rows@), n as nat),
                forall|i: int| 0 <= i < preds[v as int].len() ==> #[trigger] preds[v as int][i] < n,
                all == (present[d as int] && forall|i: int|
                    0 <= i < j ==> table(rows@)[#[trigger] preds[v as int][i] as int][d as int]),
            decreases preds[v as int].len() - j,
        {
            let p = preds[v][j];
            assert(table(rows@)[p as int].len() == n);
            assert(table(rows@)[p as int][d as int] == rows[p as int][d as int]);
            if !rows[p][d] {
                all = false;
            }
            j += 1;
        }
        assert(ps[v as int] == preds[v as int]@);
        assert(all == (present[d as int] && all_have(table(rows@), ps[v as int], d as int)));
        row.push(d == v || all);
        d += 1;
    }
    row
}

/// `d` lies on every walk from the entry to `x` that visits no node twice.
pub open spec fn on_simple_walks(edges: Set<(usize, usize)>, d: usize, x: usize) -> bool {
    forall|w: Seq<usize>| #[trigger] entry_walk(edges, w, x) && w.no_duplicates() ==> w.contains(d)
}

/// `s` is a walk with the ends of `w` that visits no node twice and no node
/// that `w` does not visit.
pub open spec fn shortcut_of(edges: Set<(usize, usize)>, s: Seq<usize>, w: Seq<usize>) -> bool {
    &&& is_walk(edges, s)
    &&& s.first() == w.first()
    &&& s.last() == w.last()
    &&& s.no_duplicates()
    &&& forall|x: usize| s.contains(x) ==> w.contains(x)
}

/// A walk that comes back to a node, without the round between the two
/// visits.
pub proof fn lemma_cut(edges: Set<(usize, usize)>, w: Seq<usize>, a: int, b: int)
    requires
        is_walk(edges, w),
        0 <= a < b < w.len(),
        w[a] == w[b],
    ensures
        is_walk(edges, w.take(a + 1) + w.skip(b + 1)),
        (w.take(a + 1) + w.skip(b + 1)).first() == w.first(),
        (w.take(a + 1) + w.skip(b + 1)).last() == w.last(),
        (w.take(a + 1) + w.skip(b + 1)).len() < w.len(),
        forall|x: usize| (w.take(a + 1) + w.skip(b + 1)).contains(x) ==> w.contains(x),
{
    let cut = w.take(a + 1) + w.skip(b + 1);
    assert forall|k: int| 0 <= k < cut.len() - 1 implies #[trigger] linked(edges, cut, k) by {
        if k < a {
            assert(linked(edges, w, k));
        } else if k == a {
            assert(cut[k] == w[b]);
            assert(cut[k + 1] == w[b + 1]);
            assert(linked(edges, w, b));
        } else {
            assert(cut[k] == w[k + (b - a)]);
            assert(cut[k + 1] == w[k + (b - a) + 1]);
            assert(linked(edges, w, k + (b - a)));
        }
    }
    assert(cut[0] == w[0]);
    if b + 1 < w.len() {
        assert(cut[cut.len() - 1] == w[w.len() - 1]);
    } else {
        assert(cut[cut.len() - 1] == w[a]);
    }
    assert forall|x: usize| cut.contains(x) implies w.contains(x) by {
        let k = choose|k: int| 0 <= k < cut.len() && cut[k] == x;
        if k <= a {
            assert(w[k] == x);
        } else {
            assert(w[k + (b - a)] == x);
        }
    }
}

/// Every walk can be cut short to one that visits no node twice.
pub proof fn lemma_shortcut(edges: Set<(usize, usize)>, w: Seq<usize>)
    requires
        is_walk(edges, w),
    ensures
        exists|s: Seq<usize>| shortcut_of(edges, s, w),
    decreases w.len(),
{
    if w.no_duplicates() {
        assert(shortcut_of(edges, w, w));
    } else {
        let (i, j) = choose|i: int, j: int|
            0 <= i < w.len() && 0 <= j < w.len() && i != j && w[i] == w[j];
        let a = if i < j {
            i
        } else {
            j
        };
        let b = if i < j {
            j
        } else {
            i
        };
        let cut = w.take(a + 1) + w.skip(b + 1);
        lemma_cut(edges, w, a, b);
        lemma_shortcut(edges, cut);
        let s = choose|s: Seq<usize>| shortcut_of(edges, s, cut);
        assert forall|x: usize| s.contains(x) implies w.contains(x) by {
            assert(cut.contains(x));
        }
        assert(shortcut_of(edges, s, w));
    }
}

/// To lie on every walk from the entry is to lie on every such walk that
/// visits no node twice.
pub proof fn lemma_simple_walks_suffice(edges: Set<(usize, usize)>, d: usize, x: usize)
    ensures
        dominates(edges, d, x) <==> on_simple_walks(edges, d, x),
{
    if on_simple_walks(edges, d, x) {
        assert forall|w: Seq<usize>| #[trigger] entry_walk(edges, w, x) implies w.contains(d) by {
            lemma_shortcut(edges, w);
            let s = choose|s: Seq<usize>| shortcut_of(edges, s, w);
            assert(entry_walk(edges, s, x));
            assert(s.contains(d));
        }
    }
    if dominates(edges, d, x) {
        assert forall|w: Seq<usize>| #[trigger] entry_walk(edges, w, x) && w.no_duplicates() implies w.contains(
            d,
        ) by {}
    }
}

} // verus!
