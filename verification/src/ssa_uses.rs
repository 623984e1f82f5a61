//! Uses in static single assignment form: an operand that renaming gave
//! another name has the name that a phi node or an earlier instruction of
//! its block defines, or an instruction of a block that strictly dominates
//! its block.
use crate::blocks::BlockView;
use crate::domsets::dominates;
use crate::graph::reaches;
use crate::idom::{
    lemma_dominates_antisymmetric, lemma_dominates_itself, lemma_dominates_transitive,
    lemma_dominator_reached, lemma_dominators_chain, strictly_dominates,
};
use crate::ir::InstrView;
use crate::order::{is_listing, listing};
use crate::phi::PhiView;
use crate::rename::{
    current_args, renamed_block, renamed_children, renamed_from, renamed_instrs, renamed_phis,
    targets, Names, RenameView,
};
use crate::single::{
    lemma_block_grows, lemma_filled_keeps, lemma_from_grows, phi_dest, shaped,
    visited_children, visited_from,
};
use crate::ssa_walk::{
    is_dominator_tree, lemma_block_frame, lemma_fresh_stack, lemma_from_frame,
    lemma_from_restores, lemma_phis_length, lemma_renamed_instr_shape,
    lemma_siblings, lemma_unreached_dominates_not, lemma_visited_are_blocks,
    lemma_visited_dominated, nearest_above, same_outside,
};
use crate::stack::{stack_of, top_of};
use vstd::prelude::*;

verus! {

/// One of the phi nodes defines `a`.
pub open spec fn names_phi(ps: Seq<PhiView>, a: Seq<char>) -> bool {
    exists|j: int| 0 <= j < ps.len() && (#[trigger] ps[j]).dest == Some(a)
}

/// One of the first `upto` instructions defines `a`.
pub open spec fn names_instr(instrs: Seq<InstrView>, upto: int, a: Seq<char>) -> bool {
    exists|j: int| 0 <= j < upto && j < instrs.len() && (#[trigger] instrs[j]).dest() == Some(a)
}

/// Every name on the stacks `now` was there at `entry`, in the same place,
/// or is defined by one of the phi nodes or one of the first `upto`
/// instructions.
pub open spec fn came(
    entry: Map<Seq<char>, Seq<Seq<char>>>,
    now: Map<Seq<char>, Seq<Seq<char>>>,
    ps: Seq<PhiView>,
    instrs: Seq<InstrView>,
    upto: int,
) -> bool {
    forall|v: Seq<char>, k: int|
        0 <= k < stack_of(now, v).len() ==> (k < stack_of(entry, v).len() && (#[trigger] stack_of(
            now,
            v,
        )[k]) == stack_of(entry, v)[k]) || names_phi(ps, stack_of(now, v)[k]) || names_instr(
            instrs,
            upto,
            stack_of(now, v)[k],
        )
}

/// The renamed phi nodes define the names that renaming them put on the
/// stacks.
pub proof fn lemma_phis_came(ps: Seq<PhiView>, names: Names)
    ensures
        came(
            names.stack,
            renamed_phis(ps, names).1.stack,
            renamed_phis(ps, names).0,
            Seq::empty(),
            0,
        ),
    decreases ps.len(),
{
    let (out, fin) = renamed_phis(ps, names);
    let none = Seq::<InstrView>::empty();
    if ps.len() > 0 {
        lemma_phis_came(ps.drop_last(), names);
        lemma_phis_length(ps.drop_last(), names);
        let (done, at) = renamed_phis(ps.drop_last(), names);
        let c = ps.last().canonical;
        assert forall|v: Seq<char>, k: int| 0 <= k < stack_of(fin.stack, v).len() implies (k
            < stack_of(names.stack, v).len() && (#[trigger] stack_of(fin.stack, v)[k]) == stack_of(
            names.stack,
            v,
        )[k]) || names_phi(out, stack_of(fin.stack, v)[k]) || names_instr(
            none,
            0,
            stack_of(fin.stack, v)[k],
        ) by {
            lemma_fresh_stack(at, c, v);
            let a = stack_of(fin.stack, v)[k];
            if v == c && k == stack_of(at.stack, v).len() {
                assert(out[out.len() - 1].dest == Some(a));
            } else {
                assert(a == stack_of(at.stack, v)[k]);
                if names_phi(done, a) {
                    let j = choose|j: int| 0 <= j < done.len() && (#[trigger] done[j]).dest == Some(a);
                    assert(out[j].dest == Some(a));
                }
            }
        }
    }
}

/// The operand at position `k` of the instruction at position `i` kept its
/// name, or has a name that was on the stack of its variable at `entry`, or
/// one that a phi node or an earlier instruction defines.
pub open spec fn use_came(
    entry: Map<Seq<char>, Seq<Seq<char>>>,
    ps: Seq<PhiView>,
    before: Seq<InstrView>,
    after: Seq<InstrView>,
    i: int,
    k: int,
) -> bool {
    let v = before[i].uses()[k];
    let a = after[i].uses()[k];
    a == v || stack_of(entry, v).contains(a) || names_phi(ps, a) || names_instr(after, i, a)
}

/// What renaming the instructions of a block reads and leaves on the
/// stacks.
pub proof fn lemma_instrs_came(
    entry: Map<Seq<char>, Seq<Seq<char>>>,
    ps: Seq<PhiView>,
    instrs: Seq<InstrView>,
    names: Names,
)
    requires
        came(entry, names.stack, ps, Seq::empty(), 0),
    ensures
        renamed_instrs(instrs, names).0.len() == instrs.len(),
        forall|i: int|
            0 <= i < instrs.len() ==> (#[trigger] renamed_instrs(instrs, names).0[i]).uses().len()
                == instrs[i].uses().len(),
        came(
            entry,
            renamed_instrs(instrs, names).1.stack,
            ps,
            renamed_instrs(instrs, names).0,
            instrs.len() as int,
        ),
        forall|i: int, k: int|
            0 <= i < instrs.len() && 0 <= k < instrs[i].uses().len() ==> #[trigger] use_came(
                entry,
                ps,
                instrs,
                renamed_instrs(instrs, names).0,
                i,
                k,
            ),
    decreases instrs.len(),
{
    let (out, fin) = renamed_instrs(instrs, names);
    if instrs.len() == 0 {
        assert forall|v: Seq<char>, k: int| 0 <= k < stack_of(fin.stack, v).len() implies (k
            < stack_of(entry, v).len() && (#[trigger] stack_of(fin.stack, v)[k]) == stack_of(
            entry,
            v,
        )[k]) || names_phi(ps, stack_of(fin.stack, v)[k]) || names_instr(
            out,
            0,
            stack_of(fin.stack, v)[k],
        ) by {
            let a = stack_of(names.stack, v)[k];
            assert(!names_instr(Seq::<InstrView>::empty(), 0, a));
        }
    } else {
        let first = instrs.drop_last();
        lemma_instrs_came(entry, ps, first, names);
        let (done, at) = renamed_instrs(first, names);
        let last = instrs.last();
        let m = first.len() as int;
        lemma_renamed_instr_shape(last, at);
        assert forall|i: int| 0 <= i < instrs.len() implies (#[trigger] out[i]).uses().len()
            == instrs[i].uses().len() by {
            if i < m {
                assert(out[i] == done[i]);
                assert(first[i] == instrs[i]);
            }
        }
        // what the last instruction reads
        assert forall|i: int, k: int|
            0 <= i < instrs.len() && 0 <= k < instrs[i].uses().len() implies #[trigger] use_came(
            entry,
            ps,
            instrs,
            out,
            i,
            k,
        ) by {
            if i < m {
                assert(use_came(entry, ps, first, done, i, k));
                assert(out[i] == done[i]);
                assert(first[i] == instrs[i]);
                let a = done[i].uses()[k];
                if names_instr(done, i, a) {
                    let j = choose|j: int|
                        0 <= j < i && j < done.len() && (#[trigger] done[j]).dest() == Some(a);
                    assert(out[j].dest() == Some(a));
                }
            } else {
                let v = last.uses()[k];
                let a = out[m].uses()[k];
                assert(a == current_args(at.stack, last.uses())[k]);
                if top_of(at.stack, v) is Some {
                    let s = stack_of(at.stack, v);
                    let top = s.len() - 1;
                    assert(a == stack_of(at.stack, v)[top]);
                    if top < stack_of(entry, v).len() && a == stack_of(entry, v)[top] {
                        assert(stack_of(entry, v).contains(a));
                    } else if names_instr(done, m, a) {
                        let j = choose|j: int|
                            0 <= j < m && j < done.len() && (#[trigger] done[j]).dest() == Some(a);
                        assert(out[j].dest() == Some(a));
                    }
                }
            }
        }
        // what is on the stacks after it
        assert forall|v: Seq<char>, k: int| 0 <= k < stack_of(fin.stack, v).len() implies (k
            < stack_of(entry, v).len() && (#[trigger] stack_of(fin.stack, v)[k]) == stack_of(
            entry,
            v,
        )[k]) || names_phi(ps, stack_of(fin.stack, v)[k]) || names_instr(
            out,
            instrs.len() as int,
            stack_of(fin.stack, v)[k],
        ) by {
            let a = stack_of(fin.stack, v)[k];
            match last.dest() {
                Some(d) => {
                    lemma_fresh_stack(at, d, v);
                    if v == d && k == stack_of(at.stack, v).len() {
                        assert(out[m].dest() == Some(a));
                    } else {
                        assert(a == stack_of(at.stack, v)[k]);
                    }
                },
                None => {
                    assert(a == stack_of(at.stack, v)[k]);
                },
            }
            if names_instr(done, m, a) {
                let j = choose|j: int|
                    0 <= j < m && j < done.len() && (#[trigger] done[j]).dest() == Some(a);
                assert(out[j].dest() == Some(a));
            }
        }
    }
}

/// A phi node or an instruction of the block `y` defines `a`.
pub open spec fn defines(st: RenameView, y: int, a: Seq<char>) -> bool {
    0 <= y < st.blocks.len() && y < st.phis.len() && (names_phi(st.phis[y], a) || names_instr(
        st.blocks[y].instrs,
        st.blocks[y].instrs.len() as int,
        a,
    ))
}

/// A block that strictly dominates `x` defines `a`.
pub open spec fn defined_above(
    st: RenameView,
    edges: Set<(usize, usize)>,
    x: usize,
    a: Seq<char>,
) -> bool {
    exists|y: int| #[trigger] defines(st, y, a) && strictly_dominates(edges, y as usize, x)
}

/// Every name on a stack is the variable itself or is defined by a block
/// that strictly dominates `x`.
pub open spec fn stack_above(st: RenameView, edges: Set<(usize, usize)>, x: usize) -> bool {
    forall|v: Seq<char>, k: int|
        0 <= k < stack_of(st.names.stack, v).len() ==> (#[trigger] stack_of(st.names.stack, v)[k])
            == v || defined_above(st, edges, x, stack_of(st.names.stack, v)[k])
}

/// Every name on a stack is the variable itself or is defined by `x` or by
/// a block that strictly dominates `x`.
pub open spec fn stack_at(st: RenameView, edges: Set<(usize, usize)>, x: usize) -> bool {
    forall|v: Seq<char>, k: int|
        0 <= k < stack_of(st.names.stack, v).len() ==> (#[trigger] stack_of(st.names.stack, v)[k])
            == v || defines(st, x as int, stack_of(st.names.stack, v)[k]) || defined_above(
            st,
            edges,
            x,
            stack_of(st.names.stack, v)[k],
        )
}

/// The operand at position `k` of the instruction at position `i` of the
/// block `x` has the name that it had in `source`, or one that a phi node or
/// an earlier instruction of the block defines, or one that a block defines
/// that strictly dominates `x`.
pub open spec fn use_ok(
    st: RenameView,
    source: Seq<BlockView>,
    edges: Set<(usize, usize)>,
    x: int,
    i: int,
    k: int,
) -> bool {
    let a = st.blocks[x].instrs[i].uses()[k];
    a == source[x].instrs[i].uses()[k] || names_phi(st.phis[x], a) || names_instr(
        st.blocks[x].instrs,
        i,
        a,
    ) || defined_above(st, edges, x as usize, a)
}

/// The operand at position `k` of the instruction at position `i` of the
/// block `x`, a block in `seen`.
pub open spec fn use_seen(st: RenameView, seen: Set<int>, x: int, i: int, k: int) -> bool {
    seen.contains(x) && 0 <= x < st.blocks.len() && x < st.phis.len() && 0 <= i
        < st.blocks[x].instrs.len() && 0 <= k < st.blocks[x].instrs[i].uses().len()
}

/// The two blocks have as many instructions, and each instruction of the
/// one as many operands as that of the other.
pub open spec fn same_form(a: BlockView, b: BlockView) -> bool {
    &&& a.instrs.len() == b.instrs.len()
    &&& forall|i: int|
        0 <= i < a.instrs.len() ==> (#[trigger] a.instrs[i]).uses().len() == b.instrs[i].uses().len()
}

/// The entry reaches the block `z`.
pub open spec fn reached(edges: Set<(usize, usize)>, z: int) -> bool {
    0 <= z <= usize::MAX && reaches(edges, 0, z as usize)
}

/// Where the walk stands: the blocks in `seen` are renamed, and in those
/// that the entry reaches every operand is as it should be; the other
/// blocks are as in `source`.
pub open spec fn ready(
    st: RenameView,
    source: Seq<BlockView>,
    edges: Set<(usize, usize)>,
    n: nat,
    seen: Set<int>,
) -> bool {
    &&& shaped(st, n)
    &&& source.len() == n
    &&& forall|z: int| #[trigger] seen.contains(z) ==> 0 <= z < n
    &&& forall|y: int| 0 <= y < n && !seen.contains(y) ==> #[trigger] st.blocks[y] == source[y]
    &&& forall|y: int|
        0 <= y < n && reached(edges, y) ==> same_form(#[trigger] st.blocks[y], source[y])
    &&& forall|x: int, i: int, k: int| #[trigger]
        use_seen(st, seen, x, i, k) && reached(edges, x) ==> use_ok(st, source, edges, x, i, k)
}

/// What a block defines it defines still, if the block is not changed.
pub proof fn lemma_defines_stays(
    a: RenameView,
    b: RenameView,
    changed: Set<int>,
    y: int,
    name: Seq<char>,
)
    requires
        same_outside(a, b, changed),
        !changed.contains(y),
        defines(a, y, name),
    ensures
        defines(b, y, name),
{
    assert(b.blocks[y] == a.blocks[y]);
    assert(b.phis[y].len() == a.phis[y].len());
    if names_phi(a.phis[y], name) {
        let j = choose|j: int| 0 <= j < a.phis[y].len() && (#[trigger] a.phis[y][j]).dest == Some(name);
        assert(phi_dest(b, y, j) == phi_dest(a, y, j));
        assert(b.phis[y][j].dest == Some(name));
    }
}

/// What a block above `x` defines it defines still, if no block that
/// strictly dominates `x` is changed.
pub proof fn lemma_above_stays(
    a: RenameView,
    b: RenameView,
    edges: Set<(usize, usize)>,
    changed: Set<int>,
    x: usize,
    name: Seq<char>,
)
    requires
        same_outside(a, b, changed),
        forall|y: int| #[trigger]
            changed.contains(y) ==> 0 <= y <= usize::MAX && !strictly_dominates(
                edges,
                y as usize,
                x,
            ),
        defined_above(a, edges, x, name),
    ensures
        defined_above(b, edges, x, name),
{
    let y = choose|y: int| #[trigger] defines(a, y, name) && strictly_dominates(edges, y as usize, x);
    if changed.contains(y) {
        assert(!strictly_dominates(edges, y as usize, x));
    }
    lemma_defines_stays(a, b, changed, y, name);
}

/// The operands of the blocks seen stay as they should be when no block
/// that dominates one of them is changed.
pub proof fn lemma_uses_stay(
    a: RenameView,
    b: RenameView,
    source: Seq<BlockView>,
    edges: Set<(usize, usize)>,
    n: nat,
    seen: Set<int>,
    changed: Set<int>,
)
    requires
        ready(a, source, edges, n, seen),
        n <= usize::MAX,
        same_outside(a, b, changed),
        forall|y: int| #[trigger] changed.contains(y) ==> 0 <= y < n,
        forall|y: int, z: int| #[trigger]
            changed.contains(y) && #[trigger] seen.contains(z) && reached(edges, z) ==> !dominates(
                edges,
                y as usize,
                z as usize,
            ),
    ensures
        forall|x: int, i: int, k: int| #[trigger]
            use_seen(b, seen, x, i, k) && reached(edges, x) ==> use_ok(b, source, edges, x, i, k),
        forall|y: int|
            0 <= y < n && reached(edges, y) && seen.contains(y) ==> same_form(
                #[trigger] b.blocks[y],
                source[y],
            ),
{
    assert forall|y: int| 0 <= y < n && reached(edges, y) && seen.contains(y) implies same_form(
        #[trigger] b.blocks[y],
        source[y],
    ) by {
        lemma_dominates_itself(edges, y as usize);
        assert(!changed.contains(y));
        assert(b.blocks[y] == a.blocks[y]);
        assert(same_form(a.blocks[y], source[y]));
    }
    assert forall|x: int, i: int, k: int| #[trigger]
        use_seen(b, seen, x, i, k) && reached(edges, x) implies use_ok(b, source, edges, x, i, k) by {
        lemma_dominates_itself(edges, x as usize);
        assert(!changed.contains(x));
        assert(b.blocks[x] == a.blocks[x]);
        assert(b.phis[x].len() == a.phis[x].len());
        assert(use_seen(a, seen, x, i, k));
        assert(use_ok(a, source, edges, x, i, k));
        let name = a.blocks[x].instrs[i].uses()[k];
        if names_phi(a.phis[x], name) {
            let j = choose|j: int|
                0 <= j < a.phis[x].len() && (#[trigger] a.phis[x][j]).dest == Some(name);
            assert(phi_dest(b, x, j) == phi_dest(a, x, j));
            assert(b.phis[x][j].dest == Some(name));
        }
        if defined_above(a, edges, x as usize, name) {
            assert forall|y: int| #[trigger] changed.contains(y) implies 0 <= y <= usize::MAX
                && !strictly_dominates(edges, y as usize, x as usize) by {
                assert(seen.contains(x));
            }
            lemma_above_stays(a, b, edges, changed, x as usize, name);
        }
    }
}

/// Renaming a block whose stacks hold names from above leaves every operand
/// of the block as it should be, and on the stacks names from the block and
/// from above.
pub proof fn lemma_block_uses(
    st: RenameView,
    flow: Map<(usize, usize), u8>,
    x: usize,
    n: nat,
    source: Seq<BlockView>,
    edges: Set<(usize, usize)>,
    seen: Set<int>,
)
    requires
        ready(st, source, edges, n, seen),
        n <= usize::MAX,
        x < n,
        reaches(edges, 0, x),
        stack_above(st, edges, x),
        forall|z: int| #[trigger]
            seen.contains(z) && reached(edges, z) ==> !dominates(edges, x, z as usize),
    ensures
        ready(renamed_block(st, flow, x), source, edges, n, seen.insert(x as int)),
        stack_at(renamed_block(st, flow, x), edges, x),
{
    let mid = renamed_block(st, flow, x);
    let now = seen.insert(x as int);
    let own = Set::<int>::empty().insert(x as int);
    let (ps, at) = renamed_phis(st.phis[x as int], st.names);
    let before = st.blocks[x as int].instrs;
    let (instrs, next) = renamed_instrs(before, at);
    let entry = st.names.stack;
    lemma_dominates_itself(edges, x);
    assert(!seen.contains(x as int));
    assert(st.blocks[x as int] == source[x as int]);
    lemma_block_grows(st, flow, x, n);
    lemma_block_frame(st, flow, x, n);
    lemma_phis_length(st.phis[x as int], st.names);
    lemma_phis_came(st.phis[x as int], st.names);
    lemma_instrs_came(entry, ps, before, at);
    lemma_uses_stay(st, mid, source, edges, n, seen, own);
    // the phi nodes of the block define what the renamed ones define
    lemma_filled_keeps(
        st.phis.update(x as int, ps),
        listing(targets(flow, x)),
        listing(targets(flow, x)).len(),
        st.blocks[x as int].label,
        next.stack,
    );
    assert forall|a: Seq<char>| names_phi(ps, a) implies names_phi(mid.phis[x as int], a) by {
        let j = choose|j: int| 0 <= j < ps.len() && (#[trigger] ps[j]).dest == Some(a);
        assert(mid.phis[x as int][j].dest == st.phis.update(x as int, ps)[x as int][j].dest);
    }
    // what was defined above is defined above still
    assert forall|a: Seq<char>| defined_above(st, edges, x, a) implies defined_above(
        mid,
        edges,
        x,
        a,
    ) by {
        lemma_above_stays(st, mid, edges, own, x, a);
    }
    assert forall|y: int| 0 <= y < n && reached(edges, y) implies same_form(
        #[trigger] mid.blocks[y],
        source[y],
    ) by {
        if y != x {
            assert(mid.blocks[y] == st.blocks[y]);
            assert(same_form(st.blocks[y], source[y]));
        }
    }
    assert forall|y: int, i: int, k: int| #[trigger]
        use_seen(mid, now, y, i, k) && reached(edges, y) implies use_ok(mid, source, edges, y, i, k) by {
        if y == x {
            assert(use_came(entry, ps, before, instrs, i, k));
            let v = before[i].uses()[k];
            let a = instrs[i].uses()[k];
            if stack_of(entry, v).contains(a) {
                let pos = choose|pos: int| 0 <= pos < stack_of(entry, v).len() && stack_of(entry, v)[pos] == a;
                assert(stack_of(st.names.stack, v)[pos] == v || defined_above(
                    st,
                    edges,
                    x,
                    stack_of(st.names.stack, v)[pos],
                ));
            }
        } else {
            assert(use_seen(mid, seen, y, i, k));
        }
    }
    assert forall|v: Seq<char>, k: int| 0 <= k < stack_of(mid.names.stack, v).len() implies (
    #[trigger] stack_of(mid.names.stack, v)[k]) == v || defines(
        mid,
        x as int,
        stack_of(mid.names.stack, v)[k],
    ) || defined_above(mid, edges, x, stack_of(mid.names.stack, v)[k]) by {
        let a = stack_of(next.stack, v)[k];
        if k < stack_of(entry, v).len() && a == stack_of(entry, v)[k] {
            assert(stack_of(st.names.stack, v)[k] == v || defined_above(
                st,
                edges,
                x,
                stack_of(st.names.stack, v)[k],
            ));
        }
    }
}

/// Where the walk stands does not depend on the stacks.
proof fn lemma_ready_same(
    a: RenameView,
    b: RenameView,
    source: Seq<BlockView>,
    edges: Set<(usize, usize)>,
    n: nat,
    seen: Set<int>,
)
    requires
        a.blocks == b.blocks,
        a.phis == b.phis,
        ready(a, source, edges, n, seen),
    ensures
        ready(b, source, edges, n, seen),
{
    assert forall|x: int, i: int, k: int| #[trigger]
        use_seen(b, seen, x, i, k) && reached(edges, x) implies use_ok(b, source, edges, x, i, k) by {
        assert(use_seen(a, seen, x, i, k));
        let name = a.blocks[x].instrs[i].uses()[k];
        if defined_above(a, edges, x as usize, name) {
            let y = choose|y: int| #[trigger]
                defines(a, y, name) && strictly_dominates(edges, y as usize, x as usize);
            assert(defines(b, y, name));
        }
    }
    assert forall|y: int| 0 <= y < n && reached(edges, y) implies same_form(
        #[trigger] b.blocks[y],
        source[y],
    ) by {
        assert(same_form(a.blocks[y], source[y]));
    }
}

/// A child does not dominate its parent.
proof fn lemma_child_is_below(edges: Set<(usize, usize)>, x: usize, c: usize)
    requires
        nearest_above(edges, x, c),
        reaches(edges, 0, c),
    ensures
        !dominates(edges, c, x),
        reaches(edges, 0, x),
{
    lemma_dominator_reached(edges, x, c);
    if dominates(edges, c, x) {
        lemma_dominates_antisymmetric(edges, x, c);
    }
}

/// The walk leaves every operand of the blocks that it goes through as it
/// should be.
pub proof fn lemma_from_uses(
    st: RenameView,
    flow: Map<(usize, usize), u8>,
    tree: Map<(usize, usize), u8>,
    x: usize,
    depth: nat,
    n: nat,
    source: Seq<BlockView>,
    edges: Set<(usize, usize)>,
    seen: Set<int>,
)
    requires
        is_dominator_tree(edges, tree, n),
        n <= usize::MAX,
        ready(st, source, edges, n, seen),
        x < n && reaches(edges, 0, x) ==> stack_above(st, edges, x),
        x < n && reaches(edges, 0, x) ==> forall|z: int| #[trigger]
            seen.contains(z) && reached(edges, z) ==> !dominates(edges, x, z as usize),
    ensures
        ready(
            renamed_from(st, flow, tree, x, depth),
            source,
            edges,
            n,
            seen.union(visited_from(tree, n, x, depth)),
        ),
    decreases depth, 0nat,
{
    if depth == 0 || x >= st.blocks.len() || x >= st.phis.len() {
        assert(seen.union(visited_from(tree, n, x, depth)) =~= seen);
    } else if !reaches(edges, 0, x) {
        // the walk goes through blocks that the entry does not reach
        let out = renamed_from(st, flow, tree, x, depth);
        let went = visited_from(tree, n, x, depth);
        lemma_from_grows(st, flow, tree, x, depth, n);
        lemma_from_frame(st, flow, tree, x, depth, n);
        assert forall|y: int| #[trigger] went.contains(y) implies 0 <= y < n && !reached(
            edges,
            y,
        ) by {
            lemma_visited_are_blocks(tree, n, x, depth, y);
            if reached(edges, y) {
                lemma_visited_dominated(edges, tree, n, x, depth, y);
            }
        }
        assert forall|y: int, z: int| #[trigger]
            went.contains(y) && #[trigger] seen.contains(z) && reached(edges, z) implies !dominates(
            edges,
            y as usize,
            z as usize,
        ) by {
            lemma_unreached_dominates_not(edges, y as usize, z as usize);
        }
        lemma_uses_stay(st, out, source, edges, n, seen, went);
        let all = seen.union(went);
        assert forall|y: int| 0 <= y < n && reached(edges, y) implies same_form(
            #[trigger] out.blocks[y],
            source[y],
        ) by {
            assert(!went.contains(y));
            assert(out.blocks[y] == st.blocks[y]);
            assert(same_form(st.blocks[y], source[y]));
        }
        assert forall|z: int, i: int, k: int| #[trigger]
            use_seen(out, all, z, i, k) && reached(edges, z) implies use_ok(
            out,
            source,
            edges,
            z,
            i,
            k,
        ) by {
            assert(!went.contains(z));
            assert(use_seen(out, seen, z, i, k));
        }
    } else {
        let kids = listing(targets(tree, x));
        let mid = renamed_block(st, flow, x);
        let below = renamed_children(mid, flow, tree, kids, 0, (depth - 1) as nat);
        let out = renamed_from(st, flow, tree, x, depth);
        let now = seen.insert(x as int);
        lemma_block_uses(st, flow, x, n, source, edges, seen);
        assert(is_listing(kids, targets(tree, x)));
        assert forall|j: int| 0 <= j < kids.len() implies tree.contains_key((x, #[trigger] kids[j])) by {
            assert(kids.contains(kids[j]));
            assert(targets(tree, x).contains(kids[j]));
        }
        assert forall|z: int, j: int|
            now.contains(z) && reached(edges, z) && 0 <= j < kids.len() && kids[j] < n && reaches(
                edges,
                0,
                kids[j],
            ) implies !dominates(edges, #[trigger] kids[j], #[trigger] (z as usize)) by {
            assert(tree.contains_key((x, kids[j])));
            lemma_child_is_below(edges, x, kids[j]);
            if z != x && dominates(edges, kids[j], z as usize) {
                assert(seen.contains(z));
                lemma_dominates_transitive(edges, x, kids[j], z as usize);
            }
        }
        lemma_children_uses(mid, flow, tree, kids, 0, (depth - 1) as nat, n, source, edges, now, x);
        let all = now.union(visited_children(tree, n, kids, 0, (depth - 1) as nat));
        assert(all =~= seen.union(visited_from(tree, n, x, depth)));
        lemma_ready_same(below, out, source, edges, n, all);
    }
}

/// The walk through the children of `x` leaves every operand of the blocks
/// that it goes through as it should be.
pub proof fn lemma_children_uses(
    st: RenameView,
    flow: Map<(usize, usize), u8>,
    tree: Map<(usize, usize), u8>,
    kids: Seq<usize>,
    from: nat,
    depth: nat,
    n: nat,
    source: Seq<BlockView>,
    edges: Set<(usize, usize)>,
    seen: Set<int>,
    x: usize,
)
    requires
        is_dominator_tree(edges, tree, n),
        n <= usize::MAX,
        ready(st, source, edges, n, seen),
        x < n,
        reaches(edges, 0, x),
        stack_at(st, edges, x),
        forall|j: int| 0 <= j < kids.len() ==> tree.contains_key((x, #[trigger] kids[j])),
        forall|i: int, j: int| 0 <= i < j < kids.len() ==> kids[i] < kids[j],
        forall|z: int, j: int|
            seen.contains(z) && reached(edges, z) && from <= j < kids.len() && kids[j] < n
                && reaches(edges, 0, kids[j]) ==> !dominates(
                edges,
                #[trigger] kids[j],
                #[trigger] (z as usize),
            ),
    ensures
        ready(
            renamed_children(st, flow, tree, kids, from, depth),
            source,
            edges,
            n,
            seen.union(visited_children(tree, n, kids, from, depth)),
        ),
    decreases depth, 1 + kids.len() - from,
{
    if from >= kids.len() {
        assert(seen.union(visited_children(tree, n, kids, from, depth)) =~= seen);
    } else {
        let c = kids[from as int];
        let one = renamed_from(st, flow, tree, c, depth);
        let went = visited_from(tree, n, c, depth);
        let now = seen.union(went);
        assert(tree.contains_key((x, c)));
        if c < n && reaches(edges, 0, c) {
            lemma_child_is_below(edges, x, c);
            // what is on the stacks is defined above the child
            assert forall|v: Seq<char>, k: int| 0 <= k < stack_of(st.names.stack, v).len() implies (
            #[trigger] stack_of(st.names.stack, v)[k]) == v || defined_above(
                st,
                edges,
                c,
                stack_of(st.names.stack, v)[k],
            ) by {
                let a = stack_of(st.names.stack, v)[k];
                if a != v {
                    if defines(st, x as int, a) {
                        assert(strictly_dominates(edges, x, c));
                    } else {
                        let y = choose|y: int| #[trigger]
                            defines(st, y, a) && strictly_dominates(edges, y as usize, x);
                        lemma_dominates_transitive(edges, y as usize, x, c);
                        assert(strictly_dominates(edges, y as usize, c));
                    }
                }
            }
            assert forall|z: int| #[trigger] seen.contains(z) && reached(edges, z) implies !dominates(
                edges,
                c,
                z as usize,
            ) by {
                assert(!dominates(edges, kids[from as int], z as usize));
            }
        }
        lemma_from_uses(st, flow, tree, c, depth, n, source, edges, seen);
        lemma_from_grows(st, flow, tree, c, depth, n);
        lemma_from_frame(st, flow, tree, c, depth, n);
        // no block that the walk went through dominates the parent
        assert forall|y: int| #[trigger] went.contains(y) implies 0 <= y < n && !dominates(
            edges,
            y as usize,
            x,
        ) by {
            lemma_visited_are_blocks(tree, n, c, depth, y);
            if reached(edges, y) {
                lemma_visited_dominated(edges, tree, n, c, depth, y);
                if dominates(edges, y as usize, x) {
                    lemma_child_is_below(edges, x, c);
                    lemma_dominates_transitive(edges, c, y as usize, x);
                }
            } else {
                lemma_unreached_dominates_not(edges, y as usize, x);
            }
        }
        // so the names on the stacks are defined where they were
        assert forall|v: Seq<char>, k: int| 0 <= k < stack_of(one.names.stack, v).len() implies (
        #[trigger] stack_of(one.names.stack, v)[k]) == v || defines(
            one,
            x as int,
            stack_of(one.names.stack, v)[k],
        ) || defined_above(one, edges, x, stack_of(one.names.stack, v)[k]) by {
            lemma_from_restores(st, flow, tree, c, depth, v);
            let a = stack_of(st.names.stack, v)[k];
            if a != v {
                if defines(st, x as int, a) {
                    lemma_dominates_itself(edges, x);
                    lemma_defines_stays(st, one, went, x as int, a);
                } else {
                    lemma_above_stays(st, one, edges, went, x, a);
                }
            }
        }
        // and the later children dominate nothing that the walk went through
        assert forall|z: int, j: int|
            now.contains(z) && reached(edges, z) && from + 1 <= j < kids.len() && kids[j] < n
                && reaches(edges, 0, kids[j]) implies !dominates(
            edges,
            #[trigger] kids[j],
            #[trigger] (z as usize),
        ) by {
            if went.contains(z) && dominates(edges, kids[j], z as usize) {
                lemma_visited_dominated(edges, tree, n, c, depth, z);
                assert(tree.contains_key((x, kids[j])));
                lemma_dominators_chain(edges, c, kids[j], z as usize);
                if dominates(edges, c, kids[j]) {
                    lemma_siblings(edges, x, c, kids[j]);
                } else {
                    lemma_siblings(edges, x, kids[j], c);
                }
                assert(kids[from as int] < kids[j]);
            }
        }
        lemma_children_uses(one, flow, tree, kids, from + 1, depth, n, source, edges, now, x);
        assert(now.union(visited_children(tree, n, kids, from + 1, depth)) =~= seen.union(
            visited_children(tree, n, kids, from, depth),
        ));
    }
}

} // verus!
