//! Operands that renaming leaves under their own name: such an operand is a
//! parameter, or nothing on the way to it writes its variable.
use crate::blocks::{dests, lemma_dests, BlockView};
use crate::bril2ssa::writes;
use crate::domsets::dominates;
use crate::idom::{
    lemma_dominates_antisymmetric, lemma_dominates_itself, lemma_dominates_transitive,
    lemma_dominators_chain, strictly_dominates,
};
use crate::ir::InstrView;
use crate::labels::decimal_digits;
use crate::order::{is_listing, listing};
use crate::phi::PhiView;
use crate::rename::{
    after_fresh, canonicals, current_args, filled_successors, numbered, renamed_block,
    renamed_children, renamed_from, renamed_instrs, renamed_phis, targets, with_row, Names,
    RenameView,
};
use crate::single::{
    lemma_block_grows, lemma_from_grows, shaped, visited_children, visited_from,
};
use crate::graph::reaches;
use crate::idom::lemma_dominator_reached;
use crate::ssa_uses::{lemma_instrs_came, names_instr, reached, use_seen};
use crate::stack::count_of;
use crate::ssa_walk::{
    is_dominator_tree, lemma_block_frame, lemma_fresh_stack, lemma_from_frame,
    lemma_from_restores, lemma_instrs_push, lemma_phis_length, lemma_phis_push,
    lemma_renamed_instr_shape, lemma_siblings, lemma_visited_are_blocks,
    lemma_visited_dominated, nearest_above, times,
};
use crate::stack::{stack_of, top_of};
use vstd::prelude::*;

verus! {

/// What renaming starts from: the blocks, the phi nodes placed at their
/// heads, the parameters, and the edges of the graph.
pub struct Setting {
    pub source: Seq<BlockView>,
    pub heads: Seq<Seq<PhiView>>,
    pub params: Seq<Seq<char>>,
    pub edges: Set<(usize, usize)>,
}

/// Renaming phi nodes leaves each with its variable.
pub proof fn lemma_phis_canonicals(ps: Seq<PhiView>, names: Names)
    ensures
        canonicals(renamed_phis(ps, names).0) == canonicals(ps),
    decreases ps.len(),
{
    lemma_phis_length(ps, names);
    if ps.len() > 0 {
        lemma_phis_canonicals(ps.drop_last(), names);
        lemma_phis_length(ps.drop_last(), names);
        let done = renamed_phis(ps.drop_last(), names).0;
        let out = renamed_phis(ps, names).0;
        assert forall|i: int| 0 <= i < ps.len() implies canonicals(out)[i] == canonicals(ps)[i] by {
            if i < ps.len() - 1 {
                assert(out[i] == done[i]);
                assert(canonicals(done)[i] == canonicals(ps.drop_last())[i]);
            }
        }
    }
    assert(canonicals(renamed_phis(ps, names).0) =~= canonicals(ps));
}

/// Filling the phi nodes of successors leaves each with its variable.
pub proof fn lemma_filled_canonicals(
    phis: Seq<Seq<PhiView>>,
    succs: Seq<usize>,
    upto: nat,
    label: Seq<char>,
    stack: Map<Seq<char>, Seq<Seq<char>>>,
)
    ensures
        filled_successors(phis, succs, upto, label, stack).len() == phis.len(),
        forall|x: int|
            0 <= x < phis.len() ==> canonicals(
                #[trigger] filled_successors(phis, succs, upto, label, stack)[x],
            ) == canonicals(phis[x]),
    decreases upto,
{
    if upto > 0 {
        lemma_filled_canonicals(phis, succs, (upto - 1) as nat, label, stack);
        let done = filled_successors(phis, succs, (upto - 1) as nat, label, stack);
        let out = filled_successors(phis, succs, upto, label, stack);
        let s = succs[upto - 1];
        assert forall|x: int| 0 <= x < phis.len() implies canonicals(#[trigger] out[x])
            == canonicals(phis[x]) by {
            assert(canonicals(done[x]) == canonicals(phis[x]));
            if s < done.len() && x == s {
                assert(canonicals(out[x]) =~= canonicals(done[x]));
            }
        }
    }
}

/// The phi nodes of the state are for the variables for which they were
/// placed.
pub open spec fn same_heads(st: RenameView, heads: Seq<Seq<PhiView>>) -> bool {
    &&& st.phis.len() == heads.len()
    &&& forall|y: int|
        0 <= y < heads.len() ==> canonicals(#[trigger] st.phis[y]) == canonicals(heads[y])
}

/// Renaming a block leaves the phi nodes with their variables.
pub proof fn lemma_block_heads(
    st: RenameView,
    flow: Map<(usize, usize), u8>,
    x: usize,
    n: nat,
    heads: Seq<Seq<PhiView>>,
)
    requires
        shaped(st, n),
        x < n,
        same_heads(st, heads),
    ensures
        same_heads(renamed_block(st, flow, x), heads),
{
    let mid = renamed_block(st, flow, x);
    let (ps, at) = renamed_phis(st.phis[x as int], st.names);
    let (instrs, next) = renamed_instrs(st.blocks[x as int].instrs, at);
    let succs = listing(targets(flow, x));
    let base = with_row(st.phis, x, ps);
    lemma_phis_canonicals(st.phis[x as int], st.names);
    lemma_filled_canonicals(base, succs, succs.len(), st.blocks[x as int].label, next.stack);
    assert forall|y: int| 0 <= y < heads.len() implies canonicals(#[trigger] mid.phis[y])
        == canonicals(heads[y]) by {
        assert(canonicals(mid.phis[y]) == canonicals(base[y]));
        assert(canonicals(st.phis[y]) == canonicals(heads[y]));
    }
}

/// The walk leaves the phi nodes with their variables.
pub proof fn lemma_from_heads(
    st: RenameView,
    flow: Map<(usize, usize), u8>,
    tree: Map<(usize, usize), u8>,
    x: usize,
    depth: nat,
    n: nat,
    heads: Seq<Seq<PhiView>>,
)
    requires
        shaped(st, n),
        same_heads(st, heads),
    ensures
        same_heads(renamed_from(st, flow, tree, x, depth), heads),
    decreases depth, 0nat,
{
    if depth == 0 || x >= st.blocks.len() {
    } else {
        let mid = renamed_block(st, flow, x);
        lemma_block_grows(st, flow, x, n);
        lemma_block_heads(st, flow, x, n, heads);
        lemma_children_heads(
            mid,
            flow,
            tree,
            listing(targets(tree, x)),
            0,
            (depth - 1) as nat,
            n,
            heads,
        );
    }
}

/// The walk through children leaves the phi nodes with their variables.
pub proof fn lemma_children_heads(
    st: RenameView,
    flow: Map<(usize, usize), u8>,
    tree: Map<(usize, usize), u8>,
    kids: Seq<usize>,
    from: nat,
    depth: nat,
    n: nat,
    heads: Seq<Seq<PhiView>>,
)
    requires
        shaped(st, n),
        same_heads(st, heads),
    ensures
        same_heads(renamed_children(st, flow, tree, kids, from, depth), heads),
    decreases depth, 1 + kids.len() - from,
{
    if from < kids.len() {
        let one = renamed_from(st, flow, tree, kids[from as int], depth);
        lemma_from_grows(st, flow, tree, kids[from as int], depth, n);
        lemma_from_heads(st, flow, tree, kids[from as int], depth, n, heads);
        lemma_children_heads(one, flow, tree, kids, from + 1, depth, n, heads);
    }
}

/// A name that renaming gives out is not the variable itself.
pub proof fn lemma_numbered_differs(v: Seq<char>, k: nat)
    ensures
        numbered(v, k) != v,
{
    reveal_strlit(".");
    assert(numbered(v, k).len() == v.len() + 1 + decimal_digits(k).len());
}

/// Only a parameter stands for itself: a name on the stack of a variable
/// that is the variable is a parameter.
pub open spec fn own_names(stack: Map<Seq<char>, Seq<Seq<char>>>, params: Seq<Seq<char>>) -> bool {
    forall|v: Seq<char>, k: int|
        0 <= k < stack_of(stack, v).len() && (#[trigger] stack_of(stack, v)[k]) == v
            ==> params.contains(v)
}

/// A new name leaves it so that only a parameter stands for itself.
pub proof fn lemma_fresh_own(names: Names, v: Seq<char>, params: Seq<Seq<char>>)
    requires
        own_names(names.stack, params),
    ensures
        own_names(after_fresh(names, v).stack, params),
{
    let after = after_fresh(names, v).stack;
    assert forall|w: Seq<char>, k: int|
        0 <= k < stack_of(after, w).len() && (#[trigger] stack_of(after, w)[k]) == w implies params.contains(
        w,
    ) by {
        lemma_fresh_stack(names, v, w);
        if w == v && k == stack_of(names.stack, v).len() {
            lemma_numbered_differs(v, count_of(names.counter, v) as nat);
        } else {
            assert(stack_of(names.stack, w)[k] == w);
        }
    }
}

/// Renaming phi nodes leaves it so that only a parameter stands for
/// itself.
pub proof fn lemma_phis_own(ps: Seq<PhiView>, names: Names, params: Seq<Seq<char>>)
    requires
        own_names(names.stack, params),
    ensures
        own_names(renamed_phis(ps, names).1.stack, params),
    decreases ps.len(),
{
    if ps.len() > 0 {
        lemma_phis_own(ps.drop_last(), names, params);
        lemma_fresh_own(renamed_phis(ps.drop_last(), names).1, ps.last().canonical, params);
    }
}

/// Renaming instructions leaves it so that only a parameter stands for
/// itself.
pub proof fn lemma_instrs_own(instrs: Seq<InstrView>, names: Names, params: Seq<Seq<char>>)
    requires
        own_names(names.stack, params),
    ensures
        own_names(renamed_instrs(instrs, names).1.stack, params),
    decreases instrs.len(),
{
    if instrs.len() > 0 {
        lemma_instrs_own(instrs.drop_last(), names, params);
        let at = renamed_instrs(instrs.drop_last(), names).1;
        lemma_renamed_instr_shape(instrs.last(), at);
        match instrs.last().dest() {
            Some(d) => {
                lemma_fresh_own(at, d, params);
            },
            None => {},
        }
    }
}

/// A log that names a variable no time does not hold it.
pub proof fn lemma_times_none(log: Seq<Seq<char>>, v: Seq<char>, upto: nat)
    requires
        upto <= log.len(),
        times(log, v, upto) == 0,
    ensures
        forall|k: int| 0 <= k < upto ==> log[k] != v,
    decreases upto,
{
    if upto > 0 {
        lemma_times_none(log, v, (upto - 1) as nat);
    }
}

/// An operand that renaming the instructions leaves under its own name is
/// a parameter, or nothing stood for its variable before the instructions
/// and none of the earlier ones writes it.
pub proof fn lemma_instrs_kept(
    instrs: Seq<InstrView>,
    names: Names,
    params: Seq<Seq<char>>,
    i: int,
    k: int,
)
    requires
        own_names(names.stack, params),
        0 <= i < instrs.len(),
        0 <= k < instrs[i].uses().len(),
        renamed_instrs(instrs, names).0[i].uses()[k] == instrs[i].uses()[k],
    ensures
        params.contains(instrs[i].uses()[k]) || (stack_of(names.stack, instrs[i].uses()[k]).len()
            == 0 && !names_instr(instrs, i, instrs[i].uses()[k])),
    decreases instrs.len(),
{
    let first = instrs.drop_last();
    let m = first.len() as int;
    let v = instrs[i].uses()[k];
    let (done, at) = renamed_instrs(first, names);
    lemma_instrs_came(
        names.stack,
        Seq::empty(),
        first,
        names,
    );
    if i < m {
        assert(renamed_instrs(instrs, names).0[i] == done[i]);
        assert(first[i] == instrs[i]);
        lemma_instrs_kept(first, names, params, i, k);
        if names_instr(instrs, i, v) {
            let j = choose|j: int| 0 <= j < i && j < instrs.len() && (#[trigger] instrs[j]).dest() == Some(v);
            assert(first[j].dest() == Some(v));
        }
    } else {
        lemma_instrs_own(first, names, params);
        lemma_renamed_instr_shape(instrs.last(), at);
        lemma_instrs_push(first, names, v);
        let s = stack_of(at.stack, v);
        assert(renamed_instrs(instrs, names).0[i].uses()[k] == current_args(
            at.stack,
            instrs.last().uses(),
        )[k]);
        if top_of(at.stack, v) is Some {
            assert(s[s.len() - 1] == v);
        } else {
            lemma_times_none(dests(first), v, dests(first).len());
            if names_instr(instrs, i, v) {
                let j = choose|j: int| 0 <= j < i && j < instrs.len() && (#[trigger] instrs[j]).dest() == Some(v);
                assert(first[j].dest() == Some(v));
                lemma_dests(first, v);
                let q = choose|q: int| 0 <= q < dests(first).len() && dests(first)[q] == v;
                assert(dests(first)[q] != v);
            }
        }
    }
}

/// The block `y` writes `v`, or has a phi node for it.
pub open spec fn written_by(c: Setting, y: int, v: Seq<char>) -> bool {
    0 <= y < c.source.len() && y < c.heads.len() && (writes(c.source[y], v) || canonicals(
        c.heads[y],
    ).contains(v))
}

/// A block that strictly dominates `x` writes `v`, or has a phi node for
/// it.
pub open spec fn written_above(c: Setting, x: usize, v: Seq<char>) -> bool {
    exists|y: int| #[trigger] written_by(c, y, v) && strictly_dominates(c.edges, y as usize, x)
}

/// Nothing writes `v` on the way to the instruction at position `i` of the
/// block `x`: no block that strictly dominates `x` writes it or has a phi
/// node for it, `x` has no phi node for it, and no earlier instruction of
/// `x` writes it.
pub open spec fn unwritten(c: Setting, x: int, i: int, v: Seq<char>) -> bool {
    !written_above(c, x as usize, v) && !canonicals(c.heads[x]).contains(v) && !names_instr(
        c.source[x].instrs,
        i,
        v,
    )
}

/// A name stands for every variable that is written above `x`.
pub open spec fn stack_full(st: RenameView, c: Setting, x: usize) -> bool {
    forall|v: Seq<char>| #[trigger]
        written_above(c, x, v) ==> stack_of(st.names.stack, v).len() > 0
}

/// A name stands for every variable that is written in `x` or above it.
pub open spec fn stack_full_at(st: RenameView, c: Setting, x: usize) -> bool {
    &&& stack_full(st, c, x)
    &&& forall|v: Seq<char>| #[trigger]
        written_by(c, x as int, v) ==> stack_of(st.names.stack, v).len() > 0
}

/// The operand at position `k` of the instruction at position `i` of the
/// block `x`, if it has the name that it had, is a parameter, or nothing
/// writes its variable on the way to it.
pub open spec fn kept_ok(st: RenameView, c: Setting, x: int, i: int, k: int) -> bool {
    let v = c.source[x].instrs[i].uses()[k];
    st.blocks[x].instrs[i].uses()[k] == v ==> c.params.contains(v) || unwritten(c, x, i, v)
}

/// Each block that the entry reaches has as many instructions as it had,
/// and each instruction as many operands.
pub open spec fn formed_as(st: RenameView, c: Setting) -> bool {
    forall|y: int|
        0 <= y < c.source.len() && reached(c.edges, y) ==> (#[trigger] st.blocks[y]).instrs.len()
            == c.source[y].instrs.len() && forall|i: int|
            0 <= i < c.source[y].instrs.len() ==> (#[trigger] st.blocks[y].instrs[i]).uses().len()
                == c.source[y].instrs[i].uses().len()
}

/// Where the walk stands: the blocks in `seen` are renamed, and in those
/// that the entry reaches every operand that kept its name did so rightly;
/// the other blocks are as they were.
pub open spec fn reads_ready(st: RenameView, c: Setting, n: nat, seen: Set<int>) -> bool {
    &&& shaped(st, n)
    &&& c.source.len() == n
    &&& same_heads(st, c.heads)
    &&& own_names(st.names.stack, c.params)
    &&& formed_as(st, c)
    &&& forall|z: int| #[trigger] seen.contains(z) ==> 0 <= z < n
    &&& forall|y: int| 0 <= y < n && !seen.contains(y) ==> #[trigger] st.blocks[y] == c.source[y]
    &&& forall|x: int, i: int, k: int| #[trigger]
        use_seen(st, seen, x, i, k) && reached(c.edges, x) ==> kept_ok(st, c, x, i, k)
}

/// A log that holds a variable names it at least once.
pub proof fn lemma_times_some(log: Seq<Seq<char>>, v: Seq<char>)
    requires
        log.contains(v),
    ensures
        times(log, v, log.len()) > 0,
{
    if times(log, v, log.len()) == 0 {
        lemma_times_none(log, v, log.len());
        let k = choose|k: int| 0 <= k < log.len() && log[k] == v;
        assert(log[k] != v);
    }
}

/// Renaming a block, with a name standing for every variable written
/// above it, leaves every operand of the block that keeps its name
/// rightly so, and a name standing for every variable written in the block
/// or above it.
pub proof fn lemma_block_reads(
    st: RenameView,
    flow: Map<(usize, usize), u8>,
    x: usize,
    n: nat,
    c: Setting,
    seen: Set<int>,
)
    requires
        reads_ready(st, c, n, seen),
        x < n,
        !seen.contains(x as int),
        stack_full(st, c, x),
    ensures
        reads_ready(renamed_block(st, flow, x), c, n, seen.insert(x as int)),
        stack_full_at(renamed_block(st, flow, x), c, x),
{
    let mid = renamed_block(st, flow, x);
    let now = seen.insert(x as int);
    let row = st.phis[x as int];
    let src = st.blocks[x as int].instrs;
    let (ps, at) = renamed_phis(row, st.names);
    let (instrs, next) = renamed_instrs(src, at);
    assert(st.blocks[x as int] == c.source[x as int]);
    assert(canonicals(row) == canonicals(c.heads[x as int]));
    lemma_block_grows(st, flow, x, n);
    lemma_block_frame(st, flow, x, n);
    lemma_block_heads(st, flow, x, n, c.heads);
    lemma_phis_own(row, st.names, c.params);
    lemma_instrs_own(src, at, c.params);
    lemma_instrs_came(at.stack, Seq::empty(), src, at);
    assert forall|y: int| 0 <= y < n && reached(c.edges, y) implies (
    #[trigger] mid.blocks[y]).instrs.len() == c.source[y].instrs.len() && forall|i: int|
        0 <= i < c.source[y].instrs.len() ==> (#[trigger] mid.blocks[y].instrs[i]).uses().len()
            == c.source[y].instrs[i].uses().len() by {
        if y != x {
            assert(mid.blocks[y] == st.blocks[y]);
            assert(st.blocks[y].instrs.len() == c.source[y].instrs.len());
        }
    }
    assert forall|z: int, i: int, k: int| #[trigger]
        use_seen(mid, now, z, i, k) && reached(c.edges, z) implies kept_ok(mid, c, z, i, k) by {
        if z == x {
            let v = src[i].uses()[k];
            if instrs[i].uses()[k] == v {
                lemma_instrs_kept(src, at, c.params, i, k);
                if !c.params.contains(v) {
                    lemma_phis_push(row, st.names, v);
                    lemma_times_none(canonicals(row), v, row.len());
                    if canonicals(row).contains(v) {
                        let q = choose|q: int| 0 <= q < row.len() && canonicals(row)[q] == v;
                        assert(canonicals(row)[q] != v);
                    }
                }
            }
        } else {
            assert(mid.blocks[z] == st.blocks[z]);
            assert(use_seen(st, seen, z, i, k));
            assert(kept_ok(st, c, z, i, k));
        }
    }
    assert forall|v: Seq<char>| #[trigger] written_above(c, x, v) implies stack_of(
        mid.names.stack,
        v,
    ).len() > 0 by {
        lemma_phis_push(row, st.names, v);
        lemma_instrs_push(src, at, v);
    }
    assert forall|v: Seq<char>| #[trigger] written_by(c, x as int, v) implies stack_of(
        mid.names.stack,
        v,
    ).len() > 0 by {
        lemma_phis_push(row, st.names, v);
        lemma_instrs_push(src, at, v);
        if canonicals(row).contains(v) {
            lemma_times_some(canonicals(row), v);
        } else {
            lemma_times_some(dests(src), v);
        }
    }
}

/// Where the walk stands does not depend on names that were taken off the
/// stacks again.
proof fn lemma_reads_same(a: RenameView, b: RenameView, was: RenameView, c: Setting, n: nat, seen: Set<int>)
    requires
        a.blocks == b.blocks,
        a.phis == b.phis,
        reads_ready(a, c, n, seen),
        own_names(was.names.stack, c.params),
        forall|v: Seq<char>| stack_of(b.names.stack, v) == stack_of(was.names.stack, v),
    ensures
        reads_ready(b, c, n, seen),
{
    assert forall|v: Seq<char>, k: int|
        0 <= k < stack_of(b.names.stack, v).len() && (#[trigger] stack_of(b.names.stack, v)[k])
            == v implies c.params.contains(v) by {
        assert(stack_of(was.names.stack, v)[k] == v);
    }
    assert forall|x: int, i: int, k: int| #[trigger]
        use_seen(b, seen, x, i, k) && reached(c.edges, x) implies kept_ok(b, c, x, i, k) by {
        assert(use_seen(a, seen, x, i, k));
        assert(kept_ok(a, c, x, i, k));
    }
    assert forall|y: int| 0 <= y < c.heads.len() implies canonicals(#[trigger] b.phis[y])
        == canonicals(c.heads[y]) by {
        assert(canonicals(a.phis[y]) == canonicals(c.heads[y]));
    }
    assert forall|y: int| 0 <= y < n && !seen.contains(y) implies #[trigger] b.blocks[y]
        == c.source[y] by {
        assert(a.blocks[y] == c.source[y]);
    }
    assert(formed_as(b, c)) by {
        assert forall|y: int| 0 <= y < c.source.len() && reached(c.edges, y) implies (
        #[trigger] b.blocks[y]).instrs.len() == c.source[y].instrs.len() && forall|i: int|
            0 <= i < c.source[y].instrs.len() ==> (#[trigger] b.blocks[y].instrs[i]).uses().len()
                == c.source[y].instrs[i].uses().len() by {
            assert(a.blocks[y].instrs.len() == c.source[y].instrs.len());
        }
    }
}

/// The walk leaves every operand that keeps its name rightly so, in the
/// blocks that it goes through.
pub proof fn lemma_from_reads(
    st: RenameView,
    flow: Map<(usize, usize), u8>,
    tree: Map<(usize, usize), u8>,
    x: usize,
    depth: nat,
    n: nat,
    c: Setting,
    seen: Set<int>,
)
    requires
        is_dominator_tree(c.edges, tree, n),
        n <= usize::MAX,
        reads_ready(st, c, n, seen),
        x < n && reaches(c.edges, 0, x) ==> stack_full(st, c, x),
        x < n && reaches(c.edges, 0, x) ==> forall|z: int| #[trigger]
            seen.contains(z) && reached(c.edges, z) ==> !dominates(c.edges, x, z as usize),
    ensures
        reads_ready(
            renamed_from(st, flow, tree, x, depth),
            c,
            n,
            seen.union(visited_from(tree, n, x, depth)),
        ),
    decreases depth, 0nat,
{
    if depth == 0 || x >= st.blocks.len() {
        assert(seen.union(visited_from(tree, n, x, depth)) =~= seen);
    } else if !reaches(c.edges, 0, x) {
        // the walk goes through blocks that the entry does not reach
        let out = renamed_from(st, flow, tree, x, depth);
        let went = visited_from(tree, n, x, depth);
        let all = seen.union(went);
        lemma_from_grows(st, flow, tree, x, depth, n);
        lemma_from_frame(st, flow, tree, x, depth, n);
        lemma_from_heads(st, flow, tree, x, depth, n, c.heads);
        assert forall|y: int| #[trigger] went.contains(y) implies 0 <= y < n && !reached(
            c.edges,
            y,
        ) by {
            lemma_visited_are_blocks(tree, n, x, depth, y);
            if reached(c.edges, y) {
                lemma_visited_dominated(c.edges, tree, n, x, depth, y);
            }
        }
        assert forall|v: Seq<char>, k: int|
            0 <= k < stack_of(out.names.stack, v).len() && (#[trigger] stack_of(
                out.names.stack,
                v,
            )[k]) == v implies c.params.contains(v) by {
            lemma_from_restores(st, flow, tree, x, depth, v);
            assert(stack_of(st.names.stack, v)[k] == v);
        }
        assert forall|y: int| 0 <= y < n && reached(c.edges, y) implies #[trigger] out.blocks[y]
            == st.blocks[y] by {
            assert(!went.contains(y));
        }
        assert forall|y: int| 0 <= y < c.source.len() && reached(c.edges, y) implies (
        #[trigger] out.blocks[y]).instrs.len() == c.source[y].instrs.len() && forall|i: int|
            0 <= i < c.source[y].instrs.len() ==> (#[trigger] out.blocks[y].instrs[i]).uses().len()
                == c.source[y].instrs[i].uses().len() by {
            assert(out.blocks[y] == st.blocks[y]);
            assert(st.blocks[y].instrs.len() == c.source[y].instrs.len());
        }
        assert forall|y: int| 0 <= y < n && !all.contains(y) implies #[trigger] out.blocks[y]
            == c.source[y] by {
            assert(st.blocks[y] == c.source[y]);
        }
        assert forall|z: int, i: int, k: int| #[trigger]
            use_seen(out, all, z, i, k) && reached(c.edges, z) implies kept_ok(out, c, z, i, k) by {
            assert(!went.contains(z));
            assert(out.blocks[z] == st.blocks[z]);
            assert(use_seen(st, seen, z, i, k));
            assert(kept_ok(st, c, z, i, k));
        }
    } else {
        let edges = c.edges;
        let kids = listing(targets(tree, x));
        let mid = renamed_block(st, flow, x);
        let below = renamed_children(mid, flow, tree, kids, 0, (depth - 1) as nat);
        let out = renamed_from(st, flow, tree, x, depth);
        let now = seen.insert(x as int);
        lemma_dominates_itself(edges, x);
        lemma_block_reads(st, flow, x, n, c, seen);
        assert(is_listing(kids, targets(tree, x)));
        assert forall|j: int| 0 <= j < kids.len() implies tree.contains_key((x, #[trigger] kids[j])) by {
            assert(kids.contains(kids[j]));
            assert(targets(tree, x).contains(kids[j]));
        }
        assert forall|z: int, j: int|
            now.contains(z) && reached(edges, z) && 0 <= j < kids.len() && kids[j] < n && reaches(
                edges,
                0,
                kids[j],
            ) implies !dominates(edges, #[trigger] kids[j], #[trigger] (z as usize)) by {
            assert(tree.contains_key((x, kids[j])));
            lemma_child_below(edges, x, kids[j]);
            if z != x && dominates(edges, kids[j], z as usize) {
                assert(seen.contains(z));
                lemma_dominates_transitive(edges, x, kids[j], z as usize);
            }
        }
        lemma_children_reads(mid, flow, tree, kids, 0, (depth - 1) as nat, n, c, now, x);
        let all = now.union(visited_children(tree, n, kids, 0, (depth - 1) as nat));
        assert(all =~= seen.union(visited_from(tree, n, x, depth)));
        assert forall|v: Seq<char>| stack_of(out.names.stack, v) == stack_of(st.names.stack, v) by {
            lemma_from_restores(st, flow, tree, x, depth, v);
        }
        lemma_reads_same(below, out, st, c, n, all);
    }
}

/// A child does not dominate its parent.
proof fn lemma_child_below(edges: Set<(usize, usize)>, x: usize, k: usize)
    requires
        nearest_above(edges, x, k),
        reaches(edges, 0, k),
    ensures
        !dominates(edges, k, x),
        reaches(edges, 0, x),
{
    lemma_dominator_reached(edges, x, k);
    if dominates(edges, k, x) {
        lemma_dominates_antisymmetric(edges, x, k);
    }
}

/// The walk through the children of `x` leaves every operand that keeps
/// its name rightly so, in the blocks that it goes through.
pub proof fn lemma_children_reads(
    st: RenameView,
    flow: Map<(usize, usize), u8>,
    tree: Map<(usize, usize), u8>,
    kids: Seq<usize>,
    from: nat,
    depth: nat,
    n: nat,
    c: Setting,
    seen: Set<int>,
    x: usize,
)
    requires
        is_dominator_tree(c.edges, tree, n),
        n <= usize::MAX,
        reads_ready(st, c, n, seen),
        x < n,
        reaches(c.edges, 0, x),
        stack_full_at(st, c, x),
        forall|j: int| 0 <= j < kids.len() ==> tree.contains_key((x, #[trigger] kids[j])),
        forall|i: int, j: int| 0 <= i < j < kids.len() ==> kids[i] < kids[j],
        forall|z: int, j: int|
            seen.contains(z) && reached(c.edges, z) && from <= j < kids.len() && kids[j] < n
                && reaches(c.edges, 0, kids[j]) ==> !dominates(
                c.edges,
                #[trigger] kids[j],
                #[trigger] (z as usize),
            ),
    ensures
        reads_ready(
            renamed_children(st, flow, tree, kids, from, depth),
            c,
            n,
            seen.union(visited_children(tree, n, kids, from, depth)),
        ),
    decreases depth, 1 + kids.len() - from,
{
    if from >= kids.len() {
        assert(seen.union(visited_children(tree, n, kids, from, depth)) =~= seen);
    } else {
        let edges = c.edges;
        let k = kids[from as int];
        let one = renamed_from(st, flow, tree, k, depth);
        let went = visited_from(tree, n, k, depth);
        let now = seen.union(went);
        assert(tree.contains_key((x, k)));
        if k < n && reaches(edges, 0, k) {
            lemma_child_below(edges, x, k);
            assert forall|v: Seq<char>| #[trigger] written_above(c, k, v) implies stack_of(
                st.names.stack,
                v,
            ).len() > 0 by {
                let y = choose|y: int| #[trigger]
                    written_by(c, y, v) && strictly_dominates(edges, y as usize, k);
                assert(dominates(edges, y as usize, x));
                if y == x {
                    assert(written_by(c, x as int, v));
                } else {
                    assert(strictly_dominates(edges, y as usize, x));
                    assert(written_above(c, x, v));
                }
            }
            assert forall|z: int| #[trigger] seen.contains(z) && reached(edges, z) implies !dominates(
                edges,
                k,
                z as usize,
            ) by {
                assert(!dominates(edges, kids[from as int], z as usize));
            }
        }
        lemma_from_reads(st, flow, tree, k, depth, n, c, seen);
        assert forall|v: Seq<char>| stack_of(one.names.stack, v) == stack_of(st.names.stack, v) by {
            lemma_from_restores(st, flow, tree, k, depth, v);
        }
        assert(stack_full_at(one, c, x)) by {
            assert forall|v: Seq<char>| #[trigger] written_above(c, x, v) implies stack_of(
                one.names.stack,
                v,
            ).len() > 0 by {
                assert(stack_of(st.names.stack, v).len() > 0);
            }
            assert forall|v: Seq<char>| #[trigger] written_by(c, x as int, v) implies stack_of(
                one.names.stack,
                v,
            ).len() > 0 by {
                assert(stack_of(st.names.stack, v).len() > 0);
            }
        }
        assert forall|z: int, j: int|
            now.contains(z) && reached(edges, z) && from + 1 <= j < kids.len() && kids[j] < n
                && reaches(edges, 0, kids[j]) implies !dominates(
            edges,
            #[trigger] kids[j],
            #[trigger] (z as usize),
        ) by {
            if went.contains(z) && dominates(edges, kids[j], z as usize) {
                lemma_visited_dominated(edges, tree, n, k, depth, z);
                assert(tree.contains_key((x, kids[j])));
                lemma_dominators_chain(edges, k, kids[j], z as usize);
                if dominates(edges, k, kids[j]) {
                    lemma_siblings(edges, x, k, kids[j]);
                } else {
                    lemma_siblings(edges, x, kids[j], k);
                }
                assert(kids[from as int] < kids[j]);
            }
        }
        lemma_children_reads(one, flow, tree, kids, from + 1, depth, n, c, now, x);
        assert(now.union(visited_children(tree, n, kids, from + 1, depth)) =~= seen.union(
            visited_children(tree, n, kids, from, depth),
        ));
    }
}

} // verus!
