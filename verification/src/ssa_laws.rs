//! What holds of a function in static single assignment form, in the
//! blocks that the first block reaches: every name is defined by one
//! instruction; an operand that got another name got one that is defined
//! on every way to it; and an operand whose variable is written on every
//! way to it is a parameter or got such a name.
use crate::bits::{count_true, lemma_count_bound, lemma_count_within, row_within};
use crate::blocks::block_views;
use crate::bril2ssa::number_lists;
use crate::cfg::CFG;
use crate::dom::{idom_candidate, node_flags, DomResult};
use crate::domsets::{dom_bit, dominates, entry_walk};
use crate::graph::{graph_edges, graph_nodes, is_walk, linked, reaches};
use crate::idom::{
    lemma_dominates_antisymmetric, lemma_dominates_itself, lemma_dominates_transitive,
    lemma_dominator_reached, lemma_one_immediate_dominator, strictly_dominates,
};
use crate::ir::{arg_names, arg_types};
use crate::order::{is_listing, lemma_range_listing, listing};
use crate::rename::targets;
use crate::single::{
    defined_once, has_room, instr_dest, instr_seen, lemma_from_defines_once, lemma_from_grows,
    phi_dest, phi_seen, shaped, visited_children, visited_from,
};
use crate::ssa::{phi_instrs, ssa_blocks, ssa_renamed, ssa_start};
use crate::ssa_paths::{lemma_phi_on_way, setting_of, written_on_way};
use crate::ssa_reads::{
    kept_ok, lemma_from_reads, own_names, reads_ready, unwritten, written_above, written_by,
};
use crate::ssa_uses::{
    defined_above, defines, lemma_from_uses, names_instr, names_phi, ready, same_form, use_ok,
    use_seen,
};
use crate::ssa_walk::{is_dominator_tree, lemma_from_frame, listed, nearest_above};
use crate::stack::{initial_stacks, stack_of};
use vstd::prelude::*;

verus! {

/// The tree has an edge from the node at position `k` of `c` to the next.
pub open spec fn steps_down(tree: Map<(usize, usize), u8>, c: Seq<usize>, k: int) -> bool {
    tree.contains_key((c[k], c[k + 1]))
}

/// A way down the tree.
pub open spec fn descends(tree: Map<(usize, usize), u8>, c: Seq<usize>) -> bool {
    &&& c.len() >= 1
    &&& forall|k: int| 0 <= k < c.len() - 1 ==> #[trigger] steps_down(tree, c, k)
}

/// What the walk through one child goes through, the walk through all of
/// them goes through.
proof fn lemma_visited_child(
    tree: Map<(usize, usize), u8>,
    n: nat,
    kids: Seq<usize>,
    from: nat,
    depth: nat,
    i: int,
    x: int,
)
    requires
        from <= i < kids.len(),
        visited_from(tree, n, kids[i], depth).contains(x),
    ensures
        visited_children(tree, n, kids, from, depth).contains(x),
    decreases i - from,
{
    if from < i {
        lemma_visited_child(tree, n, kids, from + 1, depth, i, x);
    }
}

/// The walk goes through the end of every way down the tree that is not
/// longer than the walk may go deep.
pub proof fn lemma_chain_visited(tree: Map<(usize, usize), u8>, n: nat, c: Seq<usize>, depth: nat)
    requires
        descends(tree, c),
        forall|k: int| 0 <= k < c.len() ==> c[k] < n,
        c.len() <= depth,
        listed(tree),
    ensures
        visited_from(tree, n, c[0], depth).contains(c.last() as int),
    decreases c.len(),
{
    if c.len() > 1 {
        let kids = listing(targets(tree, c[0]));
        assert(is_listing(kids, targets(tree, c[0])));
        assert(steps_down(tree, c, 0));
        assert(targets(tree, c[0]).contains(c[1]));
        assert(kids.contains(c[1]));
        let i = choose|i: int| 0 <= i < kids.len() && kids[i] == c[1];
        let rest = c.skip(1);
        assert(descends(tree, rest)) by {
            assert forall|k: int| 0 <= k < rest.len() - 1 implies #[trigger] steps_down(
                tree,
                rest,
                k,
            ) by {
                assert(steps_down(tree, c, k + 1));
            }
        }
        assert forall|k: int| 0 <= k < rest.len() implies rest[k] < n by {
            assert(c[k + 1] < n);
        }
        lemma_chain_visited(tree, n, rest, (depth - 1) as nat);
        lemma_visited_child(tree, n, kids, 0, (depth - 1) as nat, i, c.last() as int);
    }
}

/// A node that strictly dominates a reached node is a block.
proof fn lemma_strict_dominator_is_block(cfg: CFG, d: usize, v: usize)
    requires
        cfg.wf(),
        reaches(graph_edges(cfg.graph).dom(), 0, v),
        strictly_dominates(graph_edges(cfg.graph).dom(), d, v),
    ensures
        d < cfg.blocks.len(),
{
    let edges = graph_edges(cfg.graph).dom();
    let w = choose|w: Seq<usize>| is_walk(edges, w) && w.first() == 0 && w.last() == v;
    assert(entry_walk(edges, w, v));
    assert(w.contains(d));
    let i = choose|i: int| 0 <= i < w.len() && w[i] == d;
    assert(i < w.len() - 1);
    assert(linked(edges, w, i));
    assert(graph_edges(cfg.graph).contains_key((d, w[i + 1])));
}

/// From the first block a way leads down the dominator tree to every block
/// that is reached, through blocks only, and it is no longer than the
/// block has dominators.
pub proof fn lemma_chain_exists(cfg: CFG, r: DomResult, v: usize) -> (c: Seq<usize>)
    requires
        cfg.wf(),
        cfg.blocks.len() > 0,
        r.is_result_for(&cfg),
        reaches(graph_edges(cfg.graph).dom(), 0, v),
        v < cfg.blocks.len(),
    ensures
        descends(graph_edges(r.dominator_tree), c),
        c[0] == 0,
        c.last() == v,
        forall|k: int| 0 <= k < c.len() ==> c[k] < cfg.blocks.len(),
        c.len() <= count_true(r.table()[v as int]),
        c.len() <= cfg.blocks.len() + 1,
    decreases count_true(r.table()[v as int]),
{
    let edges = graph_edges(cfg.graph).dom();
    let rows = (cfg.blocks.len() + 1) as nat;
    let flags = node_flags(graph_nodes(cfg.graph), rows);
    let t = r.table();
    let tree = graph_edges(r.dominator_tree);
    lemma_count_bound(t[v as int]);
    assert forall|x: usize, e: usize| x < rows && e < rows && reaches(edges, 0, x) implies (
    #[trigger] t[x as int][e as int] <==> dominates(edges, e, x)) by {
        assert(t[x as int][e as int] == dom_bit(edges, flags, x as int, e as int));
    }
    lemma_dominates_itself(edges, v);
    assert(t[v as int][v as int]);
    assert(count_true(t[v as int]) >= 1) by {
        crate::bits::lemma_count_none(t[v as int]);
    }
    if v == 0 {
        let c = seq![0usize];
        assert(descends(tree, c));
        c
    } else {
        let d = lemma_one_immediate_dominator(cfg, r, v);
        lemma_dominator_reached(edges, d, v);
        lemma_strict_dominator_is_block(cfg, d, v);
        assert(row_within(t[d as int], t[v as int])) by {
            assert forall|e: int| 0 <= e < t[d as int].len() && #[trigger] t[d as int][e] implies t[v as int][e] by {
                assert(dominates(edges, e as usize, d));
                lemma_dominates_transitive(edges, e as usize, d, v);
            }
        }
        assert(t[d as int] != t[v as int]) by {
            if t[d as int][v as int] {
                assert(dominates(edges, v, d));
                lemma_dominates_antisymmetric(edges, d, v);
            }
        }
        lemma_count_within(t[d as int], t[v as int]);
        let up = lemma_chain_exists(cfg, r, d);
        let c = up.push(v);
        assert(descends(tree, c)) by {
            assert forall|k: int| 0 <= k < c.len() - 1 implies #[trigger] steps_down(tree, c, k) by {
                if k < up.len() - 1 {
                    assert(steps_down(tree, up, k));
                } else {
                    assert(tree.contains_key((d, v)));
                }
            }
        }
        c
    }
}

/// The children of every node of the dominator tree can be listed.
pub proof fn lemma_tree_listed(cfg: CFG, r: DomResult)
    requires
        r.is_result_for(&cfg),
        cfg.blocks.len() < usize::MAX,
    ensures
        listed(graph_edges(r.dominator_tree)),
{
    let tree = graph_edges(r.dominator_tree);
    let rows = (cfg.blocks.len() + 1) as nat;
    assert forall|x: usize| #[trigger] is_listing(listing(targets(tree, x)), targets(tree, x)) by {
        assert forall|b: usize| targets(tree, x).contains(b) implies b < rows by {
            assert(tree.contains_key((x, b)));
        }
        lemma_range_listing(targets(tree, x), rows);
    }
}

/// Single assignment. In a function brought into static single assignment
/// form, whatever its graph, no two instructions of blocks that the first
/// block reaches define the same name, as long as no count of names has
/// come to the largest number. A block that the first does not reach may
/// stay as it was, and then defines what it defined.
pub proof fn lemma_single_assignment(cfg: CFG, r: DomResult, x: int, i: int, y: int, j: int)
    requires
        cfg.wf(),
        cfg.blocks.len() > 0,
        r.is_result_for(&cfg),
        0 <= x < cfg.blocks.len(),
        0 <= y < cfg.blocks.len(),
        reaches(graph_edges(cfg.graph).dom(), 0, x as usize),
        reaches(graph_edges(cfg.graph).dom(), 0, y as usize),
        has_room(
            ssa_renamed(
                block_views(cfg.blocks@),
                arg_names(cfg.args@),
                arg_types(cfg.args@),
                graph_edges(cfg.graph),
                number_lists(r.dominance_frontier@),
                graph_edges(r.dominator_tree),
            ).names.counter,
        ),
        x != y || i != j,
    ensures
        ({
            let out = ssa_blocks(
                block_views(cfg.blocks@),
                arg_names(cfg.args@),
                arg_types(cfg.args@),
                graph_edges(cfg.graph),
                number_lists(r.dominance_frontier@),
                graph_edges(r.dominator_tree),
            );
            out.len() == cfg.blocks.len() && (0 <= i < out[x].instrs.len() && 0 <= j
                < out[y].instrs.len() && out[x].instrs[i].dest() is Some ==> out[x].instrs[i].dest()
                != out[y].instrs[j].dest())
        }),
{
    let blocks = block_views(cfg.blocks@);
    let n = blocks.len();
    let flow = graph_edges(cfg.graph);
    let tree = graph_edges(r.dominator_tree);
    let start = ssa_start(
        blocks,
        arg_names(cfg.args@),
        arg_types(cfg.args@),
        flow,
        number_lists(r.dominance_frontier@),
    );
    let st = ssa_renamed(
        blocks,
        arg_names(cfg.args@),
        arg_types(cfg.args@),
        flow,
        number_lists(r.dominance_frontier@),
        tree,
    );
    let out = ssa_blocks(
        blocks,
        arg_names(cfg.args@),
        arg_types(cfg.args@),
        flow,
        number_lists(r.dominance_frontier@),
        tree,
    );
    let none = Set::<int>::empty();
    assert(shaped(start, n));
    assert(defined_once(start, none));
    lemma_from_grows(start, flow, tree, 0, n + 1, n);
    lemma_from_defines_once(start, flow, tree, 0, n + 1, n, none);
    let seen = none.union(visited_from(tree, n, 0, n + 1));
    lemma_tree_listed(cfg, r);
    let cx = lemma_chain_exists(cfg, r, x as usize);
    lemma_chain_visited(tree, n, cx, n + 1);
    let cy = lemma_chain_exists(cfg, r, y as usize);
    lemma_chain_visited(tree, n, cy, n + 1);
    assert(seen.contains(x) && seen.contains(y));
    if 0 <= i < out[x].instrs.len() && 0 <= j < out[y].instrs.len() && out[x].instrs[i].dest()
        is Some {
        let px = st.phis[x].len() as int;
        let py = st.phis[y].len() as int;
        if i < px {
            assert(phi_seen(st, seen, x, i));
            assert(out[x].instrs[i].dest() == phi_dest(st, x, i));
            if j < py {
                assert(phi_seen(st, seen, y, j));
                assert(out[y].instrs[j].dest() == phi_dest(st, y, j));
            } else {
                assert(out[y].instrs[j].dest() == instr_dest(st, y, j - py));
                if instr_dest(st, y, j - py) is Some {
                    assert(instr_seen(st, seen, y, j - py));
                }
            }
        } else {
            assert(out[x].instrs[i].dest() == instr_dest(st, x, i - px));
            assert(instr_seen(st, seen, x, i - px));
            if j < py {
                assert(phi_seen(st, seen, y, j));
                assert(out[y].instrs[j].dest() == phi_dest(st, y, j));
            } else {
                assert(out[y].instrs[j].dest() == instr_dest(st, y, j - py));
                if instr_dest(st, y, j - py) is Some {
                    assert(instr_seen(st, seen, y, j - py));
                }
            }
        }
    }
}

/// The dominator tree of a graph leads to each block that the entry
/// reaches from the nearest strict dominator of the block.
pub proof fn lemma_tree_is_nearest(cfg: CFG, r: DomResult)
    requires
        cfg.wf(),
        cfg.blocks.len() > 0,
        r.is_result_for(&cfg),
    ensures
        is_dominator_tree(
            graph_edges(cfg.graph).dom(),
            graph_edges(r.dominator_tree),
            cfg.blocks.len() as nat,
        ),
{
    let edges = graph_edges(cfg.graph).dom();
    let tree = graph_edges(r.dominator_tree);
    let rows = (cfg.blocks.len() + 1) as nat;
    let t = r.table();
    lemma_tree_listed(cfg, r);
    assert forall|a: usize, b: usize| #[trigger]
        tree.contains_key((a, b)) && b < cfg.blocks.len() && reaches(edges, 0, b) implies nearest_above(
        edges,
        a,
        b,
    ) by {
        assert(r.immediate_dominator[b as int] == Some(a));
        if b == 0 {
            assert(idom_candidate(t, 0, a as int));
            assert(t[0][a as int]);
            assert(dom_bit(edges, node_flags(graph_nodes(cfg.graph), rows), 0, a as int));
            let w = seq![0usize];
            assert(is_walk(edges, w) && w.first() == 0 && w.last() == 0);
            assert(entry_walk(edges, w, 0));
            assert(w.contains(a));
        } else {
            let d = lemma_one_immediate_dominator(cfg, r, b);
        }
    }
}

/// At the start every name on a stack is its variable, a parameter.
proof fn lemma_initial_stacks(init: Seq<Seq<char>>, v: Seq<char>, k: int)
    requires
        0 <= k < stack_of(initial_stacks(init), v).len(),
    ensures
        stack_of(initial_stacks(init), v)[k] == v,
        init.contains(v),
    decreases init.len(),
{
    assert(init.contains(init.last()));
    if init.last() != v {
        lemma_initial_stacks(init.drop_last(), v, k);
        let j = choose|j: int| 0 <= j < init.drop_last().len() && init.drop_last()[j] == v;
        assert(init[j] == v);
    }
}

/// Uses are defined. In a function brought into static single assignment
/// form, whatever its graph, take a block that the first block reaches and
/// an operand of an instruction of it that is not one of the phi nodes
/// placed at its head. It kept the name that it had before, as a parameter does and a
/// variable that nothing defines on the way; or it has the name that an
/// earlier instruction of its block defines, a phi node at the head or
/// another; or the name that an instruction defines in a block that
/// strictly dominates its block.
pub proof fn lemma_uses_are_defined(cfg: CFG, r: DomResult, x: int, i: int, k: int)
    requires
        cfg.wf(),
        cfg.blocks.len() > 0,
        r.is_result_for(&cfg),
        0 <= x < cfg.blocks.len(),
        reaches(graph_edges(cfg.graph).dom(), 0, x as usize),
    ensures
        ({
            let before = block_views(cfg.blocks@);
            let edges = graph_edges(cfg.graph).dom();
            let heads = ssa_renamed(
                before,
                arg_names(cfg.args@),
                arg_types(cfg.args@),
                graph_edges(cfg.graph),
                number_lists(r.dominance_frontier@),
                graph_edges(r.dominator_tree),
            ).phis;
            let out = ssa_blocks(
                before,
                arg_names(cfg.args@),
                arg_types(cfg.args@),
                graph_edges(cfg.graph),
                number_lists(r.dominance_frontier@),
                graph_edges(r.dominator_tree),
            );
            let at = i - heads[x].len();
            &&& out.len() == cfg.blocks.len()
            &&& out[x].instrs.len() == heads[x].len() + before[x].instrs.len()
            &&& 0 <= at < before[x].instrs.len() ==> out[x].instrs[i].uses().len()
                == before[x].instrs[at].uses().len()
            &&& 0 <= at < before[x].instrs.len() && 0 <= k < out[x].instrs[i].uses().len() ==> {
                let a = out[x].instrs[i].uses()[k];
                ||| a == before[x].instrs[at].uses()[k]
                ||| names_instr(out[x].instrs, i, a)
                ||| exists|y: int|
                    0 <= y < out.len() && strictly_dominates(edges, y as usize, x as usize)
                        && #[trigger] names_instr(out[y].instrs, out[y].instrs.len() as int, a)
            }
        }),
{
    let blocks = block_views(cfg.blocks@);
    let n = blocks.len();
    let flow = graph_edges(cfg.graph);
    let edges = flow.dom();
    let tree = graph_edges(r.dominator_tree);
    let start = ssa_start(
        blocks,
        arg_names(cfg.args@),
        arg_types(cfg.args@),
        flow,
        number_lists(r.dominance_frontier@),
    );
    let st = ssa_renamed(
        blocks,
        arg_names(cfg.args@),
        arg_types(cfg.args@),
        flow,
        number_lists(r.dominance_frontier@),
        tree,
    );
    let out = ssa_blocks(
        blocks,
        arg_names(cfg.args@),
        arg_types(cfg.args@),
        flow,
        number_lists(r.dominance_frontier@),
        tree,
    );
    let none = Set::<int>::empty();
    lemma_tree_is_nearest(cfg, r);
    assert(shaped(start, n));
    assert(ready(start, blocks, edges, n, none)) by {
        assert forall|y: int| 0 <= y < n implies same_form(#[trigger] start.blocks[y], blocks[y]) by {}
    }
    assert forall|v: Seq<char>, j: int| 0 <= j < stack_of(start.names.stack, v).len() implies (
    #[trigger] stack_of(start.names.stack, v)[j]) == v || defined_above(
        start,
        edges,
        0,
        stack_of(start.names.stack, v)[j],
    ) by {
        lemma_initial_stacks(arg_names(cfg.args@), v, j);
    }
    lemma_from_grows(start, flow, tree, 0, n + 1, n);
    lemma_from_uses(start, flow, tree, 0, n + 1, n, blocks, edges, none);
    let seen = none.union(visited_from(tree, n, 0, n + 1));
    let cx = lemma_chain_exists(cfg, r, x as usize);
    lemma_chain_visited(tree, n, cx, n + 1);
    assert(seen.contains(x));
    assert(ready(st, blocks, edges, n, seen));
    let px = st.phis[x].len() as int;
    let at = i - px;
    assert(same_form(st.blocks[x], blocks[x]));
    assert(out[x].instrs =~= phi_instrs(st.phis[x]) + st.blocks[x].instrs);
    if 0 <= at < blocks[x].instrs.len() {
        assert(out[x].instrs[i] == st.blocks[x].instrs[at]);
        assert(st.blocks[x].instrs[at].uses().len() == blocks[x].instrs[at].uses().len());
        if 0 <= k < out[x].instrs[i].uses().len() {
            let a = out[x].instrs[i].uses()[k];
            assert(use_seen(st, seen, x, at, k));
            assert(use_ok(st, blocks, edges, x, at, k));
            if names_phi(st.phis[x], a) {
                let j = choose|j: int| 0 <= j < st.phis[x].len() && (#[trigger] st.phis[x][j]).dest == Some(a);
                assert(out[x].instrs[j].dest() == Some(a));
                assert(names_instr(out[x].instrs, i, a));
            } else if names_instr(st.blocks[x].instrs, at, a) {
                let j = choose|j: int|
                    0 <= j < at && j < st.blocks[x].instrs.len() && (
                    #[trigger] st.blocks[x].instrs[j]).dest() == Some(a);
                assert(out[x].instrs[px + j].dest() == Some(a));
                assert(names_instr(out[x].instrs, i, a));
            } else if defined_above(st, edges, x as usize, a) {
                let y = choose|y: int| #[trigger]
                    defines(st, y, a) && strictly_dominates(edges, y as usize, x as usize);
                assert(out[y].instrs =~= phi_instrs(st.phis[y]) + st.blocks[y].instrs);
                let py = st.phis[y].len() as int;
                if names_phi(st.phis[y], a) {
                    let j = choose|j: int|
                        0 <= j < st.phis[y].len() && (#[trigger] st.phis[y][j]).dest == Some(a);
                    assert(out[y].instrs[j].dest() == Some(a));
                } else {
                    let j = choose|j: int|
                        0 <= j < st.blocks[y].instrs.len() && (
                        #[trigger] st.blocks[y].instrs[j]).dest() == Some(a);
                    assert(out[y].instrs[py + j].dest() == Some(a));
                }
                assert(names_instr(out[y].instrs, out[y].instrs.len() as int, a));
            }
        }
    }
}

/// Names are kept rightly. In a function brought into static single
/// assignment form, whatever its graph, an operand in a block that the
/// first block reaches that has the name that it had before is a parameter, or nothing writes
/// its variable on the way to it: no block that strictly dominates its
/// block writes the variable or has a phi node for it, its block has no phi
/// node for it, and no earlier instruction of its block writes it.
pub proof fn lemma_kept_names(cfg: CFG, r: DomResult, x: int, at: int, k: int)
    requires
        cfg.wf(),
        cfg.blocks.len() > 0,
        r.is_result_for(&cfg),
        0 <= x < cfg.blocks.len(),
        reaches(graph_edges(cfg.graph).dom(), 0, x as usize),
        0 <= at < cfg.blocks[x]@.instrs.len(),
        0 <= k < cfg.blocks[x]@.instrs[at].uses().len(),
    ensures
        ({
            let st = ssa_renamed(
                block_views(cfg.blocks@),
                arg_names(cfg.args@),
                arg_types(cfg.args@),
                graph_edges(cfg.graph),
                number_lists(r.dominance_frontier@),
                graph_edges(r.dominator_tree),
            );
            let c = setting_of(cfg, r);
            let v = c.source[x].instrs[at].uses()[k];
            &&& st.blocks[x].instrs.len() == c.source[x].instrs.len()
            &&& st.blocks[x].instrs[at].uses().len() == c.source[x].instrs[at].uses().len()
            &&& st.blocks[x].instrs[at].uses()[k] == v ==> c.params.contains(v) || unwritten(
                c,
                x,
                at,
                v,
            )
        }),
{
    let c = setting_of(cfg, r);
    let blocks = c.source;
    let n = blocks.len();
    let flow = graph_edges(cfg.graph);
    let edges = c.edges;
    let tree = graph_edges(r.dominator_tree);
    let start = ssa_start(
        blocks,
        arg_names(cfg.args@),
        arg_types(cfg.args@),
        flow,
        number_lists(r.dominance_frontier@),
    );
    let st = ssa_renamed(
        blocks,
        arg_names(cfg.args@),
        arg_types(cfg.args@),
        flow,
        number_lists(r.dominance_frontier@),
        tree,
    );
    let none = Set::<int>::empty();
    lemma_tree_is_nearest(cfg, r);
    assert(blocks[x] == cfg.blocks[x]@);
    assert(shaped(start, n));
    assert(own_names(start.names.stack, c.params)) by {
        assert forall|v: Seq<char>, j: int|
            0 <= j < stack_of(start.names.stack, v).len() && (#[trigger] stack_of(
                start.names.stack,
                v,
            )[j]) == v implies c.params.contains(v) by {
            lemma_initial_stacks(arg_names(cfg.args@), v, j);
        }
    }
    assert(reads_ready(start, c, n, none));
    assert forall|v: Seq<char>| #[trigger] written_above(c, 0, v) implies stack_of(
        start.names.stack,
        v,
    ).len() > 0 by {
        let y = choose|y: int| #[trigger] written_by(c, y, v) && strictly_dominates(edges, y as usize, 0);
        let w = seq![0usize];
        assert(is_walk(edges, w) && w.first() == 0 && w.last() == 0);
        assert(entry_walk(edges, w, 0));
        assert(w.contains(y as usize));
    }
    lemma_from_grows(start, flow, tree, 0, n + 1, n);
    lemma_from_reads(start, flow, tree, 0, n + 1, n, c, none);
    let seen = none.union(visited_from(tree, n, 0, n + 1));
    let cx = lemma_chain_exists(cfg, r, x as usize);
    lemma_chain_visited(tree, n, cx, n + 1);
    assert(seen.contains(x));
    assert(reads_ready(st, c, n, seen));
    assert(st.blocks[x].instrs.len() == c.source[x].instrs.len());
    assert(st.blocks[x].instrs[at].uses().len() == c.source[x].instrs[at].uses().len());
    assert(use_seen(st, seen, x, at, k));
    assert(kept_ok(st, c, x, at, k));
}

/// Operands are defined. In a function brought into static single
/// assignment form, whatever its graph, take a block that the first block
/// reaches and an operand of an instruction of it that is not one of the
/// phi nodes placed at its head, and let its variable be a parameter, or written by an
/// earlier instruction of the block, or written on every way from the
/// entry to the block. Then the operand is a parameter, or has the name
/// that an earlier instruction of its block defines, a phi node at the head
/// or another, or the name that an instruction defines in a block that
/// strictly dominates its block.
pub proof fn lemma_operands_are_defined(cfg: CFG, r: DomResult, x: int, i: int, k: int)
    requires
        cfg.wf(),
        cfg.blocks.len() > 0,
        r.is_result_for(&cfg),
        0 <= x < cfg.blocks.len(),
        reaches(graph_edges(cfg.graph).dom(), 0, x as usize),
        ({
            let before = block_views(cfg.blocks@);
            let at = i - setting_of(cfg, r).heads[x].len();
            &&& 0 <= at < before[x].instrs.len()
            &&& 0 <= k < before[x].instrs[at].uses().len()
            &&& arg_names(cfg.args@).contains(before[x].instrs[at].uses()[k]) || names_instr(
                before[x].instrs,
                at,
                before[x].instrs[at].uses()[k],
            ) || written_on_way(
                before,
                graph_edges(cfg.graph).dom(),
                x as usize,
                before[x].instrs[at].uses()[k],
            )
        }),
    ensures
        ({
            let edges = graph_edges(cfg.graph).dom();
            let out = ssa_blocks(
                block_views(cfg.blocks@),
                arg_names(cfg.args@),
                arg_types(cfg.args@),
                graph_edges(cfg.graph),
                number_lists(r.dominance_frontier@),
                graph_edges(r.dominator_tree),
            );
            let a = out[x].instrs[i].uses()[k];
            &&& 0 <= i < out[x].instrs.len()
            &&& 0 <= k < out[x].instrs[i].uses().len()
            &&& {
                ||| arg_names(cfg.args@).contains(a)
                ||| names_instr(out[x].instrs, i, a)
                ||| exists|y: int|
                    0 <= y < out.len() && strictly_dominates(edges, y as usize, x as usize)
                        && #[trigger] names_instr(out[y].instrs, out[y].instrs.len() as int, a)
            }
        }),
{
    let c = setting_of(cfg, r);
    let before = c.source;
    let flow = graph_edges(cfg.graph);
    let st = ssa_renamed(
        before,
        arg_names(cfg.args@),
        arg_types(cfg.args@),
        flow,
        number_lists(r.dominance_frontier@),
        graph_edges(r.dominator_tree),
    );
    let out = ssa_blocks(
        before,
        arg_names(cfg.args@),
        arg_types(cfg.args@),
        flow,
        number_lists(r.dominance_frontier@),
        graph_edges(r.dominator_tree),
    );
    let start = ssa_start(
        before,
        arg_names(cfg.args@),
        arg_types(cfg.args@),
        flow,
        number_lists(r.dominance_frontier@),
    );
    let n = before.len();
    let at = i - c.heads[x].len();
    let v = before[x].instrs[at].uses()[k];
    assert(before[x] == cfg.blocks[x]@);
    lemma_from_grows(start, flow, graph_edges(r.dominator_tree), 0, n + 1, n);
    lemma_from_frame(start, flow, graph_edges(r.dominator_tree), 0, n + 1, n);
    assert(st.phis[x].len() == c.heads[x].len());
    lemma_uses_are_defined(cfg, r, x, i, k);
    lemma_kept_names(cfg, r, x, at, k);
    assert(out[x].instrs =~= phi_instrs(st.phis[x]) + st.blocks[x].instrs);
    assert(out[x].instrs[i] == st.blocks[x].instrs[at]);
    let a = out[x].instrs[i].uses()[k];
    if a == v && !arg_names(cfg.args@).contains(v) {
        assert(unwritten(c, x, at, v));
        if written_on_way(before, c.edges, x as usize, v) {
            lemma_phi_on_way(cfg, r, x as usize, v);
        }
    }
}

} // verus!
