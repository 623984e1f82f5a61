//! What the walk down the dominator tree keeps: it leaves the stacks as it
//! found them, changes only the blocks that it goes through, and goes only
//! through blocks that the block it starts from dominates.
use crate::blocks::dests;
use crate::domsets::dominates;
use crate::graph::reaches;
use crate::idom::{
    lemma_dominator_reached, lemma_dominates_antisymmetric, lemma_dominates_itself,
    lemma_dominates_transitive, strictly_dominates,
};
use crate::ir::InstrView;
use crate::order::{is_listing, listing};
use crate::phi::PhiView;
use crate::rename::{
    after_fresh, canonicals, current_args, fresh_name, pushed_by, renamed_block,
    renamed_children, renamed_from, renamed_instr, renamed_instrs, renamed_phis, row_of, targets,
    unwound, Names, RenameView,
};
use crate::single::{
    lemma_block_grows, lemma_filled_keeps, lemma_from_grows, phi_dest, shaped,
    visited_children, visited_from,
};
use crate::stack::{popped, stack_of};
use vstd::prelude::*;

verus! {

/// A new name goes on top of the stack of its variable; the other stacks
/// stay.
pub proof fn lemma_fresh_stack(names: Names, v: Seq<char>, w: Seq<char>)
    ensures
        stack_of(after_fresh(names, v).stack, w) == if w == v {
            stack_of(names.stack, v).push(fresh_name(names, v))
        } else {
            stack_of(names.stack, w)
        },
{
}

/// What renaming makes of one instruction: it reads, for each operand, the
/// name on top of the stack of the operand, or the operand itself if its
/// stack is empty, and it keeps whether it writes.
pub proof fn lemma_renamed_instr_shape(instr: InstrView, names: Names)
    ensures
        renamed_instr(instr, names).0.uses() == current_args(names.stack, instr.uses()),
        renamed_instr(instr, names).0.dest() is Some <==> instr.dest() is Some,
        instr.dest() is Some ==> renamed_instr(instr, names).0.dest() == Some(
            fresh_name(names, instr.dest().unwrap()),
        ) && renamed_instr(instr, names).1 == after_fresh(names, instr.dest().unwrap()),
        instr.dest() is None ==> renamed_instr(instr, names).1 == names,
{
    match instr.args() {
        Some(a) => {},
        None => {
            assert(current_args(names.stack, instr.uses()) =~= Seq::<Seq<char>>::empty());
        },
    }
}

/// How often `v` is among the first `upto` entries of `log`.
pub open spec fn times(log: Seq<Seq<char>>, v: Seq<char>, upto: nat) -> nat
    decreases upto,
{
    if upto == 0 {
        0
    } else {
        times(log, v, (upto - 1) as nat) + if log[upto - 1] == v {
            1nat
        } else {
            0nat
        }
    }
}

/// `later` is `sooner` with `more` names on top.
pub open spec fn grown_by(sooner: Seq<Seq<char>>, later: Seq<Seq<char>>, more: nat) -> bool {
    later.len() == sooner.len() + more && later.take(sooner.len() as int) == sooner
}

/// Taking one name off for each entry of the log takes off of each stack as
/// many names as the log names its variable, or all.
pub proof fn lemma_unwound(
    stack: Map<Seq<char>, Seq<Seq<char>>>,
    log: Seq<Seq<char>>,
    upto: nat,
    v: Seq<char>,
)
    requires
        upto <= log.len(),
    ensures
        stack_of(unwound(stack, log, upto), v) == stack_of(stack, v).take(
            if stack_of(stack, v).len() >= times(log, v, upto) {
                stack_of(stack, v).len() - times(log, v, upto)
            } else {
                0
            },
        ),
    decreases upto,
{
    let s = stack_of(stack, v);
    if upto == 0 {
        assert(s.take(s.len() as int) =~= s);
    } else {
        lemma_unwound(stack, log, (upto - 1) as nat, v);
        let prev = unwound(stack, log, (upto - 1) as nat);
        let w = log[upto - 1];
        let t = times(log, v, (upto - 1) as nat);
        let kept: int = if s.len() >= t {
            s.len() - t
        } else {
            0
        };
        assert(stack_of(prev, v) == s.take(kept));
        if w == v {
            if prev.contains_key(v) {
                let now: int = if kept >= 1 {
                    kept - 1
                } else {
                    0
                };
                assert(s.take(kept).take(now) =~= s.take(now));
            } else {
                assert(s.take(kept) =~= Seq::<Seq<char>>::empty());
                assert(s.take(0) =~= Seq::<Seq<char>>::empty());
            }
        } else {
            if prev.contains_key(w) {
                assert(stack_of(popped(prev, w, 1), v) == stack_of(prev, v));
            }
        }
    }
}

/// Renaming phi nodes puts on each stack one name for each phi node of
/// its variable.
pub proof fn lemma_phis_push(ps: Seq<PhiView>, names: Names, v: Seq<char>)
    ensures
        grown_by(
            stack_of(names.stack, v),
            stack_of(renamed_phis(ps, names).1.stack, v),
            times(canonicals(ps), v, ps.len()),
        ),
    decreases ps.len(),
{
    let s = stack_of(names.stack, v);
    if ps.len() == 0 {
        assert(s.take(s.len() as int) =~= s);
    } else {
        lemma_phis_push(ps.drop_last(), names, v);
        let at = renamed_phis(ps.drop_last(), names).1;
        lemma_fresh_stack(at, ps.last().canonical, v);
        lemma_times_prefix(canonicals(ps), canonicals(ps.drop_last()), v, (ps.len() - 1) as nat);
        let mid = stack_of(at.stack, v);
        let fin = stack_of(renamed_phis(ps, names).1.stack, v);
        assert(fin.take(s.len() as int) =~= mid.take(s.len() as int));
    }
}

/// The count over a log depends on the entries counted only.
pub proof fn lemma_times_prefix(a: Seq<Seq<char>>, b: Seq<Seq<char>>, v: Seq<char>, upto: nat)
    requires
        upto <= a.len(),
        upto <= b.len(),
        forall|k: int| 0 <= k < upto ==> a[k] == b[k],
    ensures
        times(a, v, upto) == times(b, v, upto),
    decreases upto,
{
    if upto > 0 {
        lemma_times_prefix(a, b, v, (upto - 1) as nat);
    }
}

/// The count over two logs, one after the other, is the sum of the counts.
pub proof fn lemma_times_add(a: Seq<Seq<char>>, b: Seq<Seq<char>>, v: Seq<char>, upto: nat)
    requires
        upto <= b.len(),
    ensures
        times(a + b, v, a.len() + upto) == times(a, v, a.len()) + times(b, v, upto),
    decreases upto,
{
    if upto == 0 {
        lemma_times_prefix(a + b, a, v, a.len());
    } else {
        lemma_times_add(a, b, v, (upto - 1) as nat);
        assert((a + b)[a.len() + upto - 1] == b[upto - 1]);
    }
}

/// Renaming instructions puts on each stack one name for each instruction
/// that writes its variable.
pub proof fn lemma_instrs_push(instrs: Seq<InstrView>, names: Names, v: Seq<char>)
    ensures
        grown_by(
            stack_of(names.stack, v),
            stack_of(renamed_instrs(instrs, names).1.stack, v),
            times(dests(instrs), v, dests(instrs).len()),
        ),
    decreases instrs.len(),
{
    let s = stack_of(names.stack, v);
    if instrs.len() == 0 {
        assert(s.take(s.len() as int) =~= s);
    } else {
        lemma_instrs_push(instrs.drop_last(), names, v);
        let at = renamed_instrs(instrs.drop_last(), names).1;
        lemma_renamed_instr_shape(instrs.last(), at);
        let mid = stack_of(at.stack, v);
        let fin = stack_of(renamed_instrs(instrs, names).1.stack, v);
        let before = dests(instrs.drop_last());
        match instrs.last().dest() {
            Some(d) => {
                lemma_fresh_stack(at, d, v);
                lemma_times_prefix(dests(instrs), before, v, before.len());
                assert(fin.take(s.len() as int) =~= mid.take(s.len() as int));
            },
            None => {},
        }
    }
}

/// The walk leaves every stack as it found it.
pub proof fn lemma_from_restores(
    st: RenameView,
    flow: Map<(usize, usize), u8>,
    tree: Map<(usize, usize), u8>,
    x: usize,
    depth: nat,
    v: Seq<char>,
)
    ensures
        stack_of(renamed_from(st, flow, tree, x, depth).names.stack, v) == stack_of(
            st.names.stack,
            v,
        ),
    decreases depth, 0nat,
{
    if depth == 0 || x >= st.blocks.len() {
    } else {
        let kids = listing(targets(tree, x));
        let mid = renamed_block(st, flow, x);
        let below = renamed_children(mid, flow, tree, kids, 0, (depth - 1) as nat);
        let log = pushed_by(st, x);
        let (ps, at) = renamed_phis(row_of(st.phis, x), st.names);
        let (instrs, next) = renamed_instrs(st.blocks[x as int].instrs, at);
        let a = canonicals(row_of(st.phis, x));
        let b = dests(st.blocks[x as int].instrs);
        lemma_phis_push(row_of(st.phis, x), st.names, v);
        lemma_instrs_push(st.blocks[x as int].instrs, at, v);
        lemma_children_restore(mid, flow, tree, kids, 0, (depth - 1) as nat, v);
        lemma_times_add(a, b, v, b.len());
        lemma_unwound(below.names.stack, log, log.len(), v);
        let s0 = stack_of(st.names.stack, v);
        let s1 = stack_of(at.stack, v);
        let s2 = stack_of(next.stack, v);
        assert(s2.take(s0.len() as int) =~= s2.take(s1.len() as int).take(s0.len() as int));
    }
}

/// The walk through children leaves every stack as it found it.
pub proof fn lemma_children_restore(
    st: RenameView,
    flow: Map<(usize, usize), u8>,
    tree: Map<(usize, usize), u8>,
    kids: Seq<usize>,
    from: nat,
    depth: nat,
    v: Seq<char>,
)
    ensures
        stack_of(renamed_children(st, flow, tree, kids, from, depth).names.stack, v) == stack_of(
            st.names.stack,
            v,
        ),
    decreases depth, 1 + kids.len() - from,
{
    if from < kids.len() {
        let one = renamed_from(st, flow, tree, kids[from as int], depth);
        lemma_from_restores(st, flow, tree, kids[from as int], depth, v);
        lemma_children_restore(one, flow, tree, kids, from + 1, depth, v);
    }
}

/// `b` is `a` but for the blocks in `changed` and their phi nodes; no list
/// of phi nodes has another length.
pub open spec fn same_outside(a: RenameView, b: RenameView, changed: Set<int>) -> bool {
    &&& b.blocks.len() == a.blocks.len()
    &&& b.phis.len() == a.phis.len()
    &&& forall|y: int|
        0 <= y < a.blocks.len() && !changed.contains(y) ==> #[trigger] b.blocks[y] == a.blocks[y]
    &&& forall|y: int| 0 <= y < a.phis.len() ==> (#[trigger] b.phis[y]).len() == a.phis[y].len()
    &&& forall|y: int, i: int|
        0 <= y < a.phis.len() && !changed.contains(y) && 0 <= i < a.phis[y].len()
            ==> #[trigger] phi_dest(b, y, i) == phi_dest(a, y, i)
}

/// What is the same outside one set and then outside another is the same
/// outside both.
pub proof fn lemma_same_outside_twice(
    a: RenameView,
    b: RenameView,
    c: RenameView,
    first: Set<int>,
    second: Set<int>,
)
    requires
        same_outside(a, b, first),
        same_outside(b, c, second),
    ensures
        same_outside(a, c, first.union(second)),
{
    let both = first.union(second);
    assert forall|y: int| 0 <= y < a.blocks.len() && !both.contains(y) implies #[trigger] c.blocks[y]
        == a.blocks[y] by {
        assert(b.blocks[y] == a.blocks[y]);
    }
    assert forall|y: int| 0 <= y < a.phis.len() implies (#[trigger] c.phis[y]).len()
        == a.phis[y].len() by {
        assert(b.phis[y].len() == a.phis[y].len());
    }
    assert forall|y: int, i: int|
        0 <= y < a.phis.len() && !both.contains(y) && 0 <= i < a.phis[y].len() implies #[trigger] phi_dest(
        c,
        y,
        i,
    ) == phi_dest(a, y, i) by {
        assert(b.phis[y].len() == a.phis[y].len());
        assert(phi_dest(b, y, i) == phi_dest(a, y, i));
    }
}

/// Renaming keeps the number of phi nodes.
pub proof fn lemma_phis_length(ps: Seq<PhiView>, names: Names)
    ensures
        renamed_phis(ps, names).0.len() == ps.len(),
    decreases ps.len(),
{
    if ps.len() > 0 {
        lemma_phis_length(ps.drop_last(), names);
    }
}

/// Renaming a block changes that block only.
pub proof fn lemma_block_frame(st: RenameView, flow: Map<(usize, usize), u8>, x: usize, n: nat)
    requires
        shaped(st, n),
        x < n,
    ensures
        same_outside(st, renamed_block(st, flow, x), Set::<int>::empty().insert(x as int)),
{
    let mid = renamed_block(st, flow, x);
    let (ps, at) = renamed_phis(st.phis[x as int], st.names);
    let (instrs, next) = renamed_instrs(st.blocks[x as int].instrs, at);
    let succs = listing(targets(flow, x));
    let label = st.blocks[x as int].label;
    let base = st.phis.update(x as int, ps);
    lemma_phis_length(st.phis[x as int], st.names);
    lemma_filled_keeps(base, succs, succs.len(), label, next.stack);
    assert forall|y: int| 0 <= y < st.phis.len() implies (#[trigger] mid.phis[y]).len()
        == st.phis[y].len() by {
        assert(mid.phis[y].len() == base[y].len());
    }
    assert forall|y: int, i: int|
        0 <= y < st.phis.len() && y != x && 0 <= i < st.phis[y].len() implies #[trigger] phi_dest(
        mid,
        y,
        i,
    ) == phi_dest(st, y, i) by {
        assert(mid.phis[y][i].dest == base[y][i].dest);
    }
}

/// The walk changes the blocks that it goes through only.
pub proof fn lemma_from_frame(
    st: RenameView,
    flow: Map<(usize, usize), u8>,
    tree: Map<(usize, usize), u8>,
    x: usize,
    depth: nat,
    n: nat,
)
    requires
        shaped(st, n),
    ensures
        same_outside(st, renamed_from(st, flow, tree, x, depth), visited_from(tree, n, x, depth)),
    decreases depth, 0nat,
{
    if depth == 0 || x >= st.blocks.len() || x >= st.phis.len() {
    } else {
        let kids = listing(targets(tree, x));
        let mid = renamed_block(st, flow, x);
        let below = renamed_children(mid, flow, tree, kids, 0, (depth - 1) as nat);
        let out = renamed_from(st, flow, tree, x, depth);
        let own = Set::<int>::empty().insert(x as int);
        let under = visited_children(tree, n, kids, 0, (depth - 1) as nat);
        lemma_block_grows(st, flow, x, n);
        lemma_block_frame(st, flow, x, n);
        lemma_children_frame(mid, flow, tree, kids, 0, (depth - 1) as nat, n);
        lemma_same_outside_twice(st, mid, below, own, under);
        assert(own.union(under) =~= visited_from(tree, n, x, depth));
        assert(same_outside(st, out, visited_from(tree, n, x, depth))) by {
            assert forall|y: int, i: int|
                0 <= y < st.phis.len() && !visited_from(tree, n, x, depth).contains(y) && 0 <= i
                    < st.phis[y].len() implies #[trigger] phi_dest(out, y, i) == phi_dest(st, y, i) by {
                assert(phi_dest(below, y, i) == phi_dest(st, y, i));
            }
        }
    }
}

/// The walk through children changes the blocks that it goes through only.
pub proof fn lemma_children_frame(
    st: RenameView,
    flow: Map<(usize, usize), u8>,
    tree: Map<(usize, usize), u8>,
    kids: Seq<usize>,
    from: nat,
    depth: nat,
    n: nat,
)
    requires
        shaped(st, n),
    ensures
        same_outside(
            st,
            renamed_children(st, flow, tree, kids, from, depth),
            visited_children(tree, n, kids, from, depth),
        ),
    decreases depth, 1 + kids.len() - from,
{
    if from < kids.len() {
        let one = renamed_from(st, flow, tree, kids[from as int], depth);
        lemma_from_grows(st, flow, tree, kids[from as int], depth, n);
        lemma_from_frame(st, flow, tree, kids[from as int], depth, n);
        lemma_children_frame(one, flow, tree, kids, from + 1, depth, n);
        lemma_same_outside_twice(
            st,
            one,
            renamed_children(one, flow, tree, kids, from + 1, depth),
            visited_from(tree, n, kids[from as int], depth),
            visited_children(tree, n, kids, from + 1, depth),
        );
    }
}

/// The children of every node can be listed.
pub open spec fn listed(tree: Map<(usize, usize), u8>) -> bool {
    forall|x: usize| #[trigger] is_listing(listing(targets(tree, x)), targets(tree, x))
}

/// `a` is the nearest of the nodes that strictly dominate `b`: every other
/// one dominates it.
pub open spec fn nearest_above(edges: Set<(usize, usize)>, a: usize, b: usize) -> bool {
    strictly_dominates(edges, a, b) && forall|e: usize|
        strictly_dominates(edges, e, b) ==> dominates(edges, e, a)
}

/// `tree` is a dominator tree over the `n` blocks of a graph: an edge to a
/// block that the entry reaches comes from the nearest strict dominator of
/// the block.
pub open spec fn is_dominator_tree(
    edges: Set<(usize, usize)>,
    tree: Map<(usize, usize), u8>,
    n: nat,
) -> bool {
    &&& listed(tree)
    &&& forall|a: usize, b: usize| #[trigger]
        tree.contains_key((a, b)) && b < n && reaches(edges, 0, b) ==> nearest_above(edges, a, b)
}

/// A node that the entry does not reach dominates no node that it reaches.
pub proof fn lemma_unreached_dominates_not(edges: Set<(usize, usize)>, y: usize, z: usize)
    requires
        reaches(edges, 0, z),
        !reaches(edges, 0, y),
    ensures
        !dominates(edges, y, z),
{
    if dominates(edges, y, z) {
        lemma_dominator_reached(edges, y, z);
    }
}

/// The walk goes through blocks only.
pub proof fn lemma_visited_are_blocks(
    tree: Map<(usize, usize), u8>,
    n: nat,
    x: usize,
    depth: nat,
    y: int,
)
    requires
        visited_from(tree, n, x, depth).contains(y),
    ensures
        0 <= y < n,
    decreases depth, 0nat,
{
    if y != x {
        lemma_visited_kids_are_blocks(tree, n, listing(targets(tree, x)), 0, (depth - 1) as nat, y);
    }
}

/// The walk through children goes through blocks only.
pub proof fn lemma_visited_kids_are_blocks(
    tree: Map<(usize, usize), u8>,
    n: nat,
    kids: Seq<usize>,
    from: nat,
    depth: nat,
    y: int,
)
    requires
        visited_children(tree, n, kids, from, depth).contains(y),
    ensures
        0 <= y < n,
    decreases depth, 1 + kids.len() - from,
{
    if visited_from(tree, n, kids[from as int], depth).contains(y) {
        lemma_visited_are_blocks(tree, n, kids[from as int], depth, y);
    } else {
        lemma_visited_kids_are_blocks(tree, n, kids, from + 1, depth, y);
    }
}

/// Of two children of one node neither dominates the other.
pub proof fn lemma_siblings(edges: Set<(usize, usize)>, x: usize, c: usize, d: usize)
    requires
        nearest_above(edges, x, c),
        nearest_above(edges, x, d),
        reaches(edges, 0, c),
        dominates(edges, c, d),
    ensures
        c == d,
{
    if c != d {
        assert(strictly_dominates(edges, c, d));
        assert(dominates(edges, c, x));
        lemma_dominator_reached(edges, x, c);
        lemma_dominates_antisymmetric(edges, x, c);
    }
}

/// A block that the entry reaches and the walk from a node goes through is
/// dominated by the node, and the entry reaches the node.
pub proof fn lemma_visited_dominated(
    edges: Set<(usize, usize)>,
    tree: Map<(usize, usize), u8>,
    n: nat,
    x: usize,
    depth: nat,
    y: int,
)
    requires
        is_dominator_tree(edges, tree, n),
        visited_from(tree, n, x, depth).contains(y),
        0 <= y <= usize::MAX,
        reaches(edges, 0, y as usize),
    ensures
        0 <= y < n,
        dominates(edges, x, y as usize),
        reaches(edges, 0, x),
    decreases depth, 0nat,
{
    if y == x {
        lemma_dominates_itself(edges, x);
    } else {
        let kids = listing(targets(tree, x));
        assert(is_listing(kids, targets(tree, x)));
        let j = lemma_visited_below(edges, tree, n, kids, 0, (depth - 1) as nat, y);
        assert(kids.contains(kids[j]));
        assert(targets(tree, x).contains(kids[j]));
        assert(tree.contains_key((x, kids[j])));
        lemma_dominates_transitive(edges, x, kids[j], y as usize);
        lemma_dominator_reached(edges, x, kids[j]);
    }
}

/// A block that the entry reaches and the walk through children goes
/// through is dominated by one of them, which the entry reaches.
pub proof fn lemma_visited_below(
    edges: Set<(usize, usize)>,
    tree: Map<(usize, usize), u8>,
    n: nat,
    kids: Seq<usize>,
    from: nat,
    depth: nat,
    y: int,
) -> (j: int)
    requires
        is_dominator_tree(edges, tree, n),
        visited_children(tree, n, kids, from, depth).contains(y),
        0 <= y <= usize::MAX,
        reaches(edges, 0, y as usize),
    ensures
        from <= j < kids.len(),
        kids[j] < n,
        0 <= y < n,
        dominates(edges, kids[j], y as usize),
        reaches(edges, 0, kids[j]),
    decreases depth, 1 + kids.len() - from,
{
    if visited_from(tree, n, kids[from as int], depth).contains(y) {
        lemma_visited_dominated(edges, tree, n, kids[from as int], depth, y);
        from as int
    } else {
        lemma_visited_below(edges, tree, n, kids, from + 1, depth, y)
    }
}

} // verus!
