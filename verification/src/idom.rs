//! Immediate dominators: the dominators of a node that the entry reaches
//! form a chain, so that every such node but the entry has one dominator
//! nearest to it.
use crate::bits::{lemma_count_two};
use crate::cfg::CFG;
use crate::dom::{
    between, idom_candidate, is_least_candidate, lemma_reached_in_range, node_flags, DomResult,
};
use crate::domsets::{dom_bit, dominates, entry_walk};
use crate::graph::{graph_edges, graph_nodes, is_walk, linked, reaches};
use crate::ir::lemma_has_last;
use vstd::prelude::*;

verus! {

/// The first part of a walk is a walk.
pub proof fn lemma_walk_prefix(edges: Set<(usize, usize)>, w: Seq<usize>, i: int)
    requires
        is_walk(edges, w),
        0 <= i < w.len(),
    ensures
        is_walk(edges, w.take(i + 1)),
        w.take(i + 1).first() == w.first(),
        w.take(i + 1).last() == w[i],
{
    let p = w.take(i + 1);
    assert forall|k: int| 0 <= k < p.len() - 1 implies #[trigger] linked(edges, p, k) by {
        assert(linked(edges, w, k));
    }
}

/// The last part of a walk is a walk.
pub proof fn lemma_walk_suffix(edges: Set<(usize, usize)>, w: Seq<usize>, i: int)
    requires
        is_walk(edges, w),
        0 <= i < w.len(),
    ensures
        is_walk(edges, w.skip(i)),
        w.skip(i).first() == w[i],
        w.skip(i).last() == w.last(),
{
    let s = w.skip(i);
    assert forall|k: int| 0 <= k < s.len() - 1 implies #[trigger] linked(edges, s, k) by {
        assert(linked(edges, w, k + i));
    }
}

/// Two walks, the second from where the first ends, make one walk.
pub proof fn lemma_walk_join(edges: Set<(usize, usize)>, p: Seq<usize>, q: Seq<usize>)
    requires
        is_walk(edges, p),
        is_walk(edges, q),
        p.last() == q.first(),
    ensures
        is_walk(edges, p + q.skip(1)),
        (p + q.skip(1)).first() == p.first(),
        (p + q.skip(1)).last() == q.last(),
        forall|x: usize| (p + q.skip(1)).contains(x) ==> p.contains(x) || q.contains(x),
{
    let j = p + q.skip(1);
    assert forall|k: int| 0 <= k < j.len() - 1 implies #[trigger] linked(edges, j, k) by {
        if k < p.len() - 1 {
            assert(linked(edges, p, k));
        } else if k == p.len() - 1 {
            assert(linked(edges, q, 0));
            assert(j[k] == q[0]);
            assert(j[k + 1] == q[1]);
        } else {
            assert(linked(edges, q, k - p.len() + 1));
        }
    }
    if q.len() == 1 {
        assert(j =~= p);
    }
    assert forall|x: usize| j.contains(x) implies p.contains(x) || q.contains(x) by {
        let k = choose|k: int| 0 <= k < j.len() && j[k] == x;
        if k < p.len() {
            assert(p[k] == x);
        } else {
            assert(q[k - p.len() + 1] == x);
        }
    }
}

/// Every node dominates itself.
pub proof fn lemma_dominates_itself(edges: Set<(usize, usize)>, x: usize)
    ensures
        dominates(edges, x, x),
{
    assert forall|w: Seq<usize>| #[trigger] entry_walk(edges, w, x) implies w.contains(x) by {
        assert(w[w.len() - 1] == x);
    }
}

/// What dominates a dominator of a node dominates the node.
pub proof fn lemma_dominates_transitive(edges: Set<(usize, usize)>, a: usize, b: usize, c: usize)
    requires
        dominates(edges, a, b),
        dominates(edges, b, c),
    ensures
        dominates(edges, a, c),
{
    assert forall|w: Seq<usize>| #[trigger] entry_walk(edges, w, c) implies w.contains(a) by {
        assert(w.contains(b));
        let i = choose|i: int| 0 <= i < w.len() && w[i] == b;
        lemma_walk_prefix(edges, w, i);
        let p = w.take(i + 1);
        assert(entry_walk(edges, p, b));
        assert(p.contains(a));
        let k = choose|k: int| 0 <= k < p.len() && p[k] == a;
        assert(w[k] == a);
    }
}

/// Two nodes that dominate each other, one of them at the end of a walk
/// from the entry, are one.
proof fn lemma_same_on_walk(edges: Set<(usize, usize)>, a: usize, b: usize, w: Seq<usize>)
    requires
        dominates(edges, a, b),
        dominates(edges, b, a),
        entry_walk(edges, w, a),
    ensures
        a == b,
    decreases w.len(),
{
    if a != b {
        assert(w.contains(b));
        let i = choose|i: int| 0 <= i < w.len() && w[i] == b;
        lemma_walk_prefix(edges, w, i);
        let p = w.take(i + 1);
        assert(entry_walk(edges, p, b));
        assert(p.contains(a));
        let k = choose|k: int| 0 <= k < p.len() && p[k] == a;
        assert(k != i);
        lemma_walk_prefix(edges, w, k);
        let q = w.take(k + 1);
        assert(entry_walk(edges, q, a));
        lemma_same_on_walk(edges, a, b, q);
    }
}

/// Of the nodes that the entry reaches, two that dominate each other are
/// one.
pub proof fn lemma_dominates_antisymmetric(edges: Set<(usize, usize)>, a: usize, b: usize)
    requires
        reaches(edges, 0, a),
        dominates(edges, a, b),
        dominates(edges, b, a),
    ensures
        a == b,
{
    let w = choose|w: Seq<usize>| is_walk(edges, w) && w.first() == 0 && w.last() == a;
    assert(entry_walk(edges, w, a));
    lemma_same_on_walk(edges, a, b, w);
}

/// A dominator of a reached node is reached.
pub proof fn lemma_dominator_reached(edges: Set<(usize, usize)>, d: usize, x: usize)
    requires
        reaches(edges, 0, x),
        dominates(edges, d, x),
    ensures
        reaches(edges, 0, d),
{
    let w = choose|w: Seq<usize>| is_walk(edges, w) && w.first() == 0 && w.last() == x;
    assert(entry_walk(edges, w, x));
    assert(w.contains(d));
    let i = choose|i: int| 0 <= i < w.len() && w[i] == d;
    lemma_walk_prefix(edges, w, i);
    let p = w.take(i + 1);
    assert(is_walk(edges, p) && p.first() == 0 && p.last() == d);
}

/// If the last visit of a walk to `b` comes after its last visit to `a`,
/// and both dominate the end of the walk, then `a` dominates `b`.
proof fn lemma_later_is_dominated(
    edges: Set<(usize, usize)>,
    a: usize,
    b: usize,
    v: usize,
    q: Seq<usize>,
    i: int,
    j: int,
)
    requires
        entry_walk(edges, q, v),
        dominates(edges, a, v),
        0 <= i < j < q.len(),
        q[j] == b,
        forall|k: int| i < k < q.len() ==> q[k] != a,
    ensures
        dominates(edges, a, b),
{
    assert forall|p: Seq<usize>| #[trigger] entry_walk(edges, p, b) implies p.contains(a) by {
        lemma_walk_suffix(edges, q, j);
        let tail = q.skip(j);
        lemma_walk_join(edges, p, tail);
        let joined = p + tail.skip(1);
        assert(entry_walk(edges, joined, v));
        assert(joined.contains(a));
        if !p.contains(a) {
            assert(tail.contains(a));
            let k = choose|k: int| 0 <= k < tail.len() && tail[k] == a;
            assert(q[k + j] == a);
        }
    }
}

/// Of two dominators of a reached node one dominates the other.
pub proof fn lemma_dominators_chain(edges: Set<(usize, usize)>, a: usize, b: usize, v: usize)
    requires
        reaches(edges, 0, v),
        dominates(edges, a, v),
        dominates(edges, b, v),
    ensures
        dominates(edges, a, b) || dominates(edges, b, a),
{
    if a == b {
        lemma_dominates_itself(edges, a);
    } else {
        let q = choose|q: Seq<usize>| is_walk(edges, q) && q.first() == 0 && q.last() == v;
        assert(entry_walk(edges, q, v));
        assert(q.contains(a));
        assert(q.contains(b));
        let ia = choose|k: int| 0 <= k < q.len() && q[k] == a;
        let ib = choose|k: int| 0 <= k < q.len() && q[k] == b;
        lemma_has_last(q, a, ia);
        lemma_has_last(q, b, ib);
        let i = choose|i: int|
            0 <= i < q.len() && q[i] == a && (forall|k: int| i < k < q.len() ==> q[k] != a);
        let j = choose|j: int|
            0 <= j < q.len() && q[j] == b && (forall|k: int| j < k < q.len() ==> q[k] != b);
        if i < j {
            lemma_later_is_dominated(edges, a, b, v, q, i, j);
        } else {
            assert(i != j);
            lemma_later_is_dominated(edges, b, a, v, q, j, i);
        }
    }
}

/// `d` dominates `v` and is not `v`.
pub open spec fn strictly_dominates(edges: Set<(usize, usize)>, d: usize, v: usize) -> bool {
    d != v && dominates(edges, d, v)
}

/// `c` is the nearest of the strict dominators of `v` below `upto`: it is
/// one, and every one of them dominates it.
pub open spec fn nearest_below(edges: Set<(usize, usize)>, c: usize, v: usize, upto: int) -> bool {
    &&& c < upto
    &&& strictly_dominates(edges, c, v)
    &&& forall|e: usize| e < upto && strictly_dominates(edges, e, v) ==> dominates(edges, e, c)
}

/// Among the strict dominators of a reached node below `upto` there is a
/// nearest one, if there is any.
pub proof fn lemma_nearest(edges: Set<(usize, usize)>, v: usize, upto: nat) -> (c: Option<usize>)
    requires
        reaches(edges, 0, v),
        upto <= usize::MAX + 1,
    ensures
        match c {
            Some(x) => nearest_below(edges, x, v, upto as int),
            None => forall|e: usize| e < upto ==> !strictly_dominates(edges, e, v),
        },
    decreases upto,
{
    if upto == 0 {
        None
    } else {
        let prev = lemma_nearest(edges, v, (upto - 1) as nat);
        let d = (upto - 1) as usize;
        if !strictly_dominates(edges, d, v) {
            match prev {
                Some(x) => {
                    assert(nearest_below(edges, x, v, upto as int));
                },
                None => {},
            }
            prev
        } else {
            lemma_dominates_itself(edges, d);
            match prev {
                None => {
                    assert(nearest_below(edges, d, v, upto as int));
                    Some(d)
                },
                Some(b) => {
                    lemma_dominators_chain(edges, b, d, v);
                    if dominates(edges, b, d) {
                        assert forall|e: usize|
                            e < upto && strictly_dominates(edges, e, v) implies dominates(
                            edges,
                            e,
                            d,
                        ) by {
                            if e != d {
                                lemma_dominates_transitive(edges, e, b, d);
                            }
                        }
                        Some(d)
                    } else {
                        assert(nearest_below(edges, b, v, upto as int));
                        Some(b)
                    }
                },
            }
        }
    }
}

/// Every reached node but the first block has exactly one immediate
/// dominator. It strictly dominates the node, and every node that strictly
/// dominates the node dominates it. It is the only candidate, and it is
/// what `immediate_dominator` holds for the node.
pub proof fn lemma_one_immediate_dominator(cfg: CFG, r: DomResult, v: usize) -> (d: usize)
    requires
        cfg.wf(),
        cfg.blocks.len() > 0,
        r.is_result_for(&cfg),
        reaches(graph_edges(cfg.graph).dom(), 0, v),
        v != 0,
    ensures
        v <= cfg.blocks.len(),
        d <= cfg.blocks.len(),
        r.immediate_dominator[v as int] == Some(d),
        strictly_dominates(graph_edges(cfg.graph).dom(), d, v),
        forall|e: usize|
            strictly_dominates(graph_edges(cfg.graph).dom(), e, v) ==> dominates(
                graph_edges(cfg.graph).dom(),
                e,
                d,
            ),
        forall|e: int| idom_candidate(r.table(), v as int, e) ==> e == d,
{
    let edges = graph_edges(cfg.graph).dom();
    let rows = (cfg.blocks.len() + 1) as nat;
    let flags = node_flags(graph_nodes(cfg.graph), rows);
    let t = r.table();
    lemma_reached_in_range(cfg, v);
    // the first block strictly dominates the node, so there is a nearest
    assert(strictly_dominates(edges, 0, v)) by {
        assert forall|w: Seq<usize>| #[trigger] entry_walk(edges, w, v) implies w.contains(0) by {
            assert(w[0] == 0);
        }
    }
    let found = lemma_nearest(edges, v, rows);
    let c = found.unwrap();
    // what the table says of the nodes that are reached
    assert forall|x: usize, e: usize| x < rows && e < rows && reaches(edges, 0, x) implies (
    #[trigger] t[x as int][e as int] <==> dominates(edges, e, x)) by {
        assert(t[x as int][e as int] == dom_bit(edges, flags, x as int, e as int));
    }
    // every strict dominator is in range, so the nearest below the bound is the nearest
    assert forall|e: usize| strictly_dominates(edges, e, v) implies dominates(edges, e, c) by {
        lemma_dominator_reached(edges, e, v);
        lemma_reached_in_range(cfg, e);
    }
    lemma_dominator_reached(edges, c, v);
    lemma_dominates_itself(edges, c);
    lemma_dominates_itself(edges, v);
    // the nearest is a candidate
    let row = between(t, v as int, c as int);
    assert forall|k: int| 0 <= k < row.len() && k != c && k != v implies !row[k] by {
        if row[k] {
            let x = k as usize;
            assert(t[v as int][k]);
            assert(dominates(edges, x, v));
            lemma_dominator_reached(edges, x, v);
            assert(t[k][c as int]);
            assert(dominates(edges, c, x));
            assert(dominates(edges, x, c));
            lemma_dominates_antisymmetric(edges, c, x);
        }
    }
    assert(row[c as int]);
    assert(row[v as int]);
    lemma_count_two(row, c as int, v as int);
    assert(idom_candidate(t, v as int, c as int));
    // and the only one
    assert forall|e: int| idom_candidate(t, v as int, e) implies e == c by {
        let eu = e as usize;
        assert(t[v as int][e]);
        assert(dominates(edges, eu, v));
        lemma_dominator_reached(edges, eu, v);
        lemma_dominates_itself(edges, eu);
        let other = between(t, v as int, e);
        assert(other[e]);
        assert(other[v as int]);
        lemma_count_two(other, e, v as int);
        assert(dominates(edges, eu, c));
        assert(t[c as int][e]);
        assert(other[c as int]);
    }
    assert(is_least_candidate(t, v as int, r.immediate_dominator[v as int]));
    match r.immediate_dominator[v as int] {
        Some(x) => {
            assert(idom_candidate(t, v as int, x as int));
        },
        None => {
            assert(!idom_candidate(t, v as int, c as int));
        },
    }
    c
}

} // verus!
