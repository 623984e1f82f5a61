//! Single assignment: the names that renaming gives out are all different,
//! so that in a function whose blocks are all reached every name is
//! defined by one instruction.
use crate::ir::InstrView;
use crate::labels::{decimal_digits, lemma_decimal_injective, lemma_decimal_shape};
use crate::phi::PhiView;
use crate::order::listing;
use crate::rename::{
    after_fresh, filled_successors, fresh_name, numbered, renamed_block,
    renamed_children, renamed_from, renamed_instr, renamed_instrs, renamed_phis, targets, Names,
    RenameView,
};
use crate::stack::count_of;
use vstd::prelude::*;

verus! {

/// A name tells the variable and the number that it was made of.
pub proof fn lemma_numbered_injective(v: Seq<char>, k: nat, w: Seq<char>, j: nat)
    requires
        numbered(v, k) == numbered(w, j),
    ensures
        v == w,
        k == j,
{
    reveal_strlit(".");
    let dot = "."@;
    assert(dot.len() == 1 && dot[0] == '.');
    let a = decimal_digits(k);
    let b = decimal_digits(j);
    lemma_decimal_shape(k);
    lemma_decimal_shape(j);
    let s = numbered(v, k);
    assert(s.len() == v.len() + 1 + a.len());
    assert(s.len() == w.len() + 1 + b.len());
    assert(s[v.len() as int] == '.');
    assert(numbered(w, j)[w.len() as int] == '.');
    if v.len() < w.len() {
        let i = w.len() - v.len() - 1;
        assert(s[w.len() as int] == a[i]);
        assert(a.contains(a[i]));
    }
    if w.len() < v.len() {
        let i = v.len() - w.len() - 1;
        assert(numbered(w, j)[v.len() as int] == b[i]);
        assert(b.contains(b[i]));
    }
    assert(v =~= w) by {
        assert forall|i: int| 0 <= i < v.len() implies v[i] == w[i] by {
            assert(s[i] == v[i]);
            assert(numbered(w, j)[i] == w[i]);
        }
    }
    assert(a =~= b) by {
        assert forall|i: int| 0 <= i < a.len() implies a[i] == b[i] by {
            assert(s[v.len() + 1 + i] == a[i]);
            assert(numbered(w, j)[w.len() + 1 + i] == b[i]);
        }
    }
    lemma_decimal_injective(k, j);
}

/// The name has been given out: it is a name of some variable with a
/// number below the count of that variable.
pub open spec fn given(counter: Map<Seq<char>, usize>, name: Seq<char>) -> bool {
    exists|v: Seq<char>, k: nat| k < count_of(counter, v) && #[trigger] numbered(v, k) == name
}

/// No count of `b` is below that of `a`.
pub open spec fn grown(a: Map<Seq<char>, usize>, b: Map<Seq<char>, usize>) -> bool {
    forall|v: Seq<char>| count_of(a, v) <= #[trigger] count_of(b, v)
}

/// No count has come to the largest number.
pub open spec fn has_room(c: Map<Seq<char>, usize>) -> bool {
    forall|v: Seq<char>| #[trigger] count_of(c, v) < usize::MAX
}

/// What was given out stays given out as the counts grow.
pub proof fn lemma_given_stays(a: Map<Seq<char>, usize>, b: Map<Seq<char>, usize>, name: Seq<char>)
    requires
        grown(a, b),
        given(a, name),
    ensures
        given(b, name),
{
    let (v, k) = choose|v: Seq<char>, k: nat| k < count_of(a, v) && #[trigger] numbered(v, k) == name;
    assert(count_of(a, v) <= count_of(b, v));
    assert(k < count_of(b, v) && numbered(v, k) == name);
}

/// Counts that have room had room while they grew.
pub proof fn lemma_room_before(a: Map<Seq<char>, usize>, b: Map<Seq<char>, usize>)
    requires
        grown(a, b),
        has_room(b),
    ensures
        has_room(a),
{
    assert forall|v: Seq<char>| #[trigger] count_of(a, v) < usize::MAX by {
        assert(count_of(a, v) <= count_of(b, v));
    }
}

pub proof fn lemma_grown_twice(
    a: Map<Seq<char>, usize>,
    b: Map<Seq<char>, usize>,
    c: Map<Seq<char>, usize>,
)
    requires
        grown(a, b),
        grown(b, c),
    ensures
        grown(a, c),
{
    assert forall|v: Seq<char>| count_of(a, v) <= #[trigger] count_of(c, v) by {
        assert(count_of(a, v) <= count_of(b, v));
    }
}

/// A new name only makes the counts grow.
pub proof fn lemma_fresh_grows(names: Names, v: Seq<char>)
    ensures
        grown(names.counter, after_fresh(names, v).counter),
{
    let next = after_fresh(names, v).counter;
    assert forall|w: Seq<char>| count_of(names.counter, w) <= #[trigger] count_of(next, w) by {
        if w == v {
        } else {
            assert(next.contains_key(w) == names.counter.contains_key(w));
        }
    }
}

/// While there is room, a new name is one that was not given out before,
/// and it is given out after.
pub proof fn lemma_fresh_is_new(names: Names, v: Seq<char>)
    requires
        count_of(names.counter, v) < usize::MAX,
    ensures
        !given(names.counter, fresh_name(names, v)),
        given(after_fresh(names, v).counter, fresh_name(names, v)),
{
    let c = count_of(names.counter, v);
    let name = fresh_name(names, v);
    if given(names.counter, name) {
        let (w, k) = choose|w: Seq<char>, k: nat|
            k < count_of(names.counter, w) && #[trigger] numbered(w, k) == name;
        lemma_numbered_injective(w, k, v, c as nat);
    }
    let next = after_fresh(names, v).counter;
    assert(count_of(next, v) == c + 1);
    assert((c as nat) < count_of(next, v) && numbered(v, c as nat) == name);
}

/// The destinations of `out` are names that were given out between
/// `before` and `after`, each another.
pub open spec fn phis_are_new(
    out: Seq<PhiView>,
    before: Map<Seq<char>, usize>,
    after: Map<Seq<char>, usize>,
) -> bool {
    &&& forall|j: int|
        0 <= j < out.len() ==> (#[trigger] out[j]).dest is Some && given(after, out[j].dest.unwrap())
            && !given(before, out[j].dest.unwrap())
    &&& forall|i: int, j: int|
        0 <= i < out.len() && 0 <= j < out.len() && i != j ==> (#[trigger] out[i]).dest != (
        #[trigger] out[j]).dest
}

/// Renaming phi nodes only makes the counts grow.
pub proof fn lemma_phis_grow(ps: Seq<PhiView>, names: Names)
    ensures
        grown(names.counter, renamed_phis(ps, names).1.counter),
        renamed_phis(ps, names).0.len() == ps.len(),
        forall|j: int|
            0 <= j < ps.len() ==> (#[trigger] renamed_phis(ps, names).0[j]).canonical
                == ps[j].canonical,
    decreases ps.len(),
{
    if ps.len() > 0 {
        lemma_phis_grow(ps.drop_last(), names);
        let at = renamed_phis(ps.drop_last(), names).1;
        lemma_fresh_grows(at, ps.last().canonical);
        lemma_grown_twice(
            names.counter,
            at.counter,
            after_fresh(at, ps.last().canonical).counter,
        );
        let out = renamed_phis(ps, names).0;
        let done = renamed_phis(ps.drop_last(), names).0;
        assert forall|j: int| 0 <= j < ps.len() implies (#[trigger] out[j]).canonical
            == ps[j].canonical by {
            if j < ps.len() - 1 {
                assert(out[j] == done[j]);
                assert(ps.drop_last()[j] == ps[j]);
            }
        }
    } else {
        assert forall|v: Seq<char>| count_of(names.counter, v) <= #[trigger] count_of(
            names.counter,
            v,
        ) by {}
    }
}

/// While there is room, renaming gives the phi nodes new names, each
/// another.
pub proof fn lemma_phis_new(ps: Seq<PhiView>, names: Names)
    requires
        has_room(renamed_phis(ps, names).1.counter),
    ensures
        phis_are_new(renamed_phis(ps, names).0, names.counter, renamed_phis(ps, names).1.counter),
    decreases ps.len(),
{
    let (out, fin) = renamed_phis(ps, names);
    if ps.len() > 0 {
        let (done, at) = renamed_phis(ps.drop_last(), names);
        let v = ps.last().canonical;
        lemma_phis_grow(ps.drop_last(), names);
        lemma_fresh_grows(at, v);
        lemma_room_before(at.counter, fin.counter);
        lemma_phis_new(ps.drop_last(), names);
        lemma_fresh_is_new(at, v);
        let name = fresh_name(at, v);
        assert(!given(names.counter, name)) by {
            if given(names.counter, name) {
                lemma_given_stays(names.counter, at.counter, name);
            }
        }
        assert forall|j: int| 0 <= j < out.len() implies (#[trigger] out[j]).dest is Some && given(
            fin.counter,
            out[j].dest.unwrap(),
        ) && !given(names.counter, out[j].dest.unwrap()) by {
            if j < done.len() {
                assert(out[j] == done[j]);
                lemma_given_stays(at.counter, fin.counter, done[j].dest.unwrap());
            }
        }
        assert forall|i: int, j: int|
            0 <= i < out.len() && 0 <= j < out.len() && i != j implies (#[trigger] out[i]).dest != (
        #[trigger] out[j]).dest by {
            if i < done.len() && j < done.len() {
                assert(out[i] == done[i] && out[j] == done[j]);
            } else if i < done.len() {
                assert(out[i] == done[i]);
                assert(given(at.counter, done[i].dest.unwrap()));
            } else {
                assert(out[j] == done[j]);
                assert(given(at.counter, done[j].dest.unwrap()));
            }
        }
    }
}

/// The destinations of `out` are names that were given out between
/// `before` and `after`, each another.
pub open spec fn instrs_are_new(
    out: Seq<InstrView>,
    before: Map<Seq<char>, usize>,
    after: Map<Seq<char>, usize>,
) -> bool {
    &&& forall|j: int|
        0 <= j < out.len() && (#[trigger] out[j]).dest() is Some ==> given(
            after,
            out[j].dest().unwrap(),
        ) && !given(before, out[j].dest().unwrap())
    &&& forall|i: int, j: int|
        0 <= i < out.len() && 0 <= j < out.len() && i != j && (#[trigger] out[i]).dest() is Some
            ==> out[i].dest() != (#[trigger] out[j]).dest()
}

/// Renaming one instruction only makes the counts grow.
pub proof fn lemma_instr_grows(instr: InstrView, names: Names)
    ensures
        grown(names.counter, renamed_instr(instr, names).1.counter),
{
    let read = match instr.args() {
        Some(a) => instr.with_args(crate::rename::current_args(names.stack, a)),
        None => instr,
    };
    match read.dest() {
        Some(d) => {
            lemma_fresh_grows(names, d);
        },
        None => {
            assert forall|v: Seq<char>| count_of(names.counter, v) <= #[trigger] count_of(
                names.counter,
                v,
            ) by {}
        },
    }
}

/// Renaming instructions only makes the counts grow.
pub proof fn lemma_instrs_grow(instrs: Seq<InstrView>, names: Names)
    ensures
        grown(names.counter, renamed_instrs(instrs, names).1.counter),
        renamed_instrs(instrs, names).0.len() == instrs.len(),
    decreases instrs.len(),
{
    if instrs.len() > 0 {
        lemma_instrs_grow(instrs.drop_last(), names);
        let at = renamed_instrs(instrs.drop_last(), names).1;
        lemma_instr_grows(instrs.last(), at);
        lemma_grown_twice(names.counter, at.counter, renamed_instr(instrs.last(), at).1.counter);
    } else {
        assert forall|v: Seq<char>| count_of(names.counter, v) <= #[trigger] count_of(
            names.counter,
            v,
        ) by {}
    }
}

/// While there is room, renaming gives the instructions that write a
/// variable new names, each another.
pub proof fn lemma_instrs_new(instrs: Seq<InstrView>, names: Names)
    requires
        has_room(renamed_instrs(instrs, names).1.counter),
    ensures
        instrs_are_new(
            renamed_instrs(instrs, names).0,
            names.counter,
            renamed_instrs(instrs, names).1.counter,
        ),
    decreases instrs.len(),
{
    let (out, fin) = renamed_instrs(instrs, names);
    if instrs.len() > 0 {
        let (done, at) = renamed_instrs(instrs.drop_last(), names);
        let (instr, next) = renamed_instr(instrs.last(), at);
        lemma_instrs_grow(instrs.drop_last(), names);
        lemma_instr_grows(instrs.last(), at);
        lemma_room_before(at.counter, fin.counter);
        lemma_instrs_new(instrs.drop_last(), names);
        let read = match instrs.last().args() {
            Some(a) => instrs.last().with_args(crate::rename::current_args(at.stack, a)),
            None => instrs.last(),
        };
        match read.dest() {
            Some(d) => {
                lemma_fresh_is_new(at, d);
                let name = fresh_name(at, d);
                assert(instr.dest() == Some(name));
                assert(!given(names.counter, name)) by {
                    if given(names.counter, name) {
                        lemma_given_stays(names.counter, at.counter, name);
                    }
                }
            },
            None => {
                assert(instr.dest() is None);
            },
        }
        assert forall|j: int| 0 <= j < out.len() && (#[trigger] out[j]).dest() is Some implies given(
            fin.counter,
            out[j].dest().unwrap(),
        ) && !given(names.counter, out[j].dest().unwrap()) by {
            if j < done.len() {
                assert(out[j] == done[j]);
                lemma_given_stays(at.counter, fin.counter, done[j].dest().unwrap());
            }
        }
        assert forall|i: int, j: int|
            0 <= i < out.len() && 0 <= j < out.len() && i != j && (#[trigger] out[i]).dest()
                is Some implies out[i].dest() != (#[trigger] out[j]).dest() by {
            if i < done.len() && j < done.len() {
                assert(out[i] == done[i] && out[j] == done[j]);
            } else if i < done.len() {
                assert(out[i] == done[i]);
                assert(given(at.counter, done[i].dest().unwrap()));
            } else {
                assert(out[j] == done[j]);
                if out[j].dest() is Some {
                    assert(given(at.counter, done[j].dest().unwrap()));
                }
            }
        }
    }
}

/// The state has `n` blocks and a list of phi nodes for each block and for
/// the sink.
pub open spec fn shaped(st: RenameView, n: nat) -> bool {
    st.blocks.len() == n && st.phis.len() == n + 1
}

/// The blocks that the walk from `x` goes through.
pub open spec fn visited_from(tree: Map<(usize, usize), u8>, n: nat, x: usize, depth: nat) -> Set<
    int,
>
    decreases depth, 0nat,
{
    if depth == 0 || x >= n {
        Set::empty()
    } else {
        visited_children(tree, n, listing(targets(tree, x)), 0, (depth - 1) as nat).insert(x as int)
    }
}

/// The blocks that the walk through the children `kids` from position
/// `from` on goes through.
pub open spec fn visited_children(
    tree: Map<(usize, usize), u8>,
    n: nat,
    kids: Seq<usize>,
    from: nat,
    depth: nat,
) -> Set<int>
    decreases depth, 1 + kids.len() - from,
{
    if from >= kids.len() {
        Set::empty()
    } else {
        visited_from(tree, n, kids[from as int], depth).union(
            visited_children(tree, n, kids, from + 1, depth),
        )
    }
}

/// What the phi node at position `i` of the node `x` defines.
pub open spec fn phi_dest(st: RenameView, x: int, i: int) -> Option<Seq<char>> {
    st.phis[x][i].dest
}

/// What the instruction at position `i` of the block `x` defines.
pub open spec fn instr_dest(st: RenameView, x: int, i: int) -> Option<Seq<char>> {
    st.blocks[x].instrs[i].dest()
}

/// The phi node at position `i` of the node `x` is one of a block in `seen`.
pub open spec fn phi_seen(st: RenameView, seen: Set<int>, x: int, i: int) -> bool {
    seen.contains(x) && 0 <= x < st.blocks.len() && x < st.phis.len() && 0 <= i < st.phis[x].len()
}

/// The instruction at position `i` of the block `x` is one of a block in
/// `seen` and defines a name.
pub open spec fn instr_seen(st: RenameView, seen: Set<int>, x: int, i: int) -> bool {
    seen.contains(x) && 0 <= x < st.blocks.len() && 0 <= i < st.blocks[x].instrs.len()
        && st.blocks[x].instrs[i].dest() is Some
}

/// In the blocks `seen` every phi node and every instruction that writes
/// defines a name that was given out, and no two define the same.
pub open spec fn defined_once(st: RenameView, seen: Set<int>) -> bool {
    &&& forall|x: int, i: int| #[trigger]
        phi_seen(st, seen, x, i) ==> phi_dest(st, x, i) is Some && given(
            st.names.counter,
            phi_dest(st, x, i).unwrap(),
        )
    &&& forall|x: int, i: int| #[trigger]
        instr_seen(st, seen, x, i) ==> given(st.names.counter, instr_dest(st, x, i).unwrap())
    &&& forall|x: int, i: int, y: int, j: int|
        #![trigger phi_seen(st, seen, x, i), phi_seen(st, seen, y, j)]
        phi_seen(st, seen, x, i) && phi_seen(st, seen, y, j) && (x != y || i != j) ==> phi_dest(
            st,
            x,
            i,
        ) != phi_dest(st, y, j)
    &&& forall|x: int, i: int, y: int, j: int|
        #![trigger phi_seen(st, seen, x, i), instr_seen(st, seen, y, j)]
        phi_seen(st, seen, x, i) && instr_seen(st, seen, y, j) ==> phi_dest(st, x, i) != instr_dest(
            st,
            y,
            j,
        )
    &&& forall|x: int, i: int, y: int, j: int|
        #![trigger instr_seen(st, seen, x, i), instr_seen(st, seen, y, j)]
        instr_seen(st, seen, x, i) && instr_seen(st, seen, y, j) && (x != y || i != j)
            ==> instr_dest(st, x, i) != instr_dest(st, y, j)
}

/// Filling the phi nodes of successors changes no destination.
pub proof fn lemma_filled_keeps(
    phis: Seq<Seq<PhiView>>,
    succs: Seq<usize>,
    upto: nat,
    label: Seq<char>,
    stack: Map<Seq<char>, Seq<Seq<char>>>,
)
    ensures
        filled_successors(phis, succs, upto, label, stack).len() == phis.len(),
        forall|x: int|
            0 <= x < phis.len() ==> (#[trigger] filled_successors(
                phis,
                succs,
                upto,
                label,
                stack,
            )[x]).len() == phis[x].len(),
        forall|x: int, i: int|
            0 <= x < phis.len() && 0 <= i < phis[x].len() ==> (#[trigger] filled_successors(
                phis,
                succs,
                upto,
                label,
                stack,
            )[x][i]).dest == phis[x][i].dest,
    decreases upto,
{
    if upto > 0 {
        lemma_filled_keeps(phis, succs, (upto - 1) as nat, label, stack);
        let done = filled_successors(phis, succs, (upto - 1) as nat, label, stack);
        let out = filled_successors(phis, succs, upto, label, stack);
        let s = succs[upto - 1];
        assert forall|x: int| 0 <= x < phis.len() implies (#[trigger] out[x]).len() == phis[x].len() by {
            assert(done[x].len() == phis[x].len());
        }
        assert forall|x: int, i: int| 0 <= x < phis.len() && 0 <= i < phis[x].len() implies (
        #[trigger] out[x][i]).dest == phis[x][i].dest by {
            assert(done[x].len() == phis[x].len());
            assert(done[x][i].dest == phis[x][i].dest);
            if s < done.len() && x == s {
                assert(out[x][i] == crate::rename::filled_phi(done[x][i], label, stack));
            }
        }
    }
}

/// Renaming a block only makes the counts grow, and keeps the shape.
pub proof fn lemma_block_grows(st: RenameView, flow: Map<(usize, usize), u8>, x: usize, n: nat)
    requires
        shaped(st, n),
        x < n,
    ensures
        shaped(renamed_block(st, flow, x), n),
        grown(st.names.counter, renamed_block(st, flow, x).names.counter),
{
    let (ps, at) = renamed_phis(st.phis[x as int], st.names);
    let (instrs, next) = renamed_instrs(st.blocks[x as int].instrs, at);
    lemma_phis_grow(st.phis[x as int], st.names);
    lemma_instrs_grow(st.blocks[x as int].instrs, at);
    lemma_grown_twice(st.names.counter, at.counter, next.counter);
    let succs = listing(targets(flow, x));
    lemma_filled_keeps(
        st.phis.update(x as int, ps),
        succs,
        succs.len(),
        st.blocks[x as int].label,
        next.stack,
    );
}

/// The walk only makes the counts grow, and keeps the shape.
pub proof fn lemma_from_grows(
    st: RenameView,
    flow: Map<(usize, usize), u8>,
    tree: Map<(usize, usize), u8>,
    x: usize,
    depth: nat,
    n: nat,
)
    requires
        shaped(st, n),
    ensures
        shaped(renamed_from(st, flow, tree, x, depth), n),
        grown(st.names.counter, renamed_from(st, flow, tree, x, depth).names.counter),
    decreases depth, 0nat,
{
    if depth == 0 || x >= st.blocks.len() || x >= st.phis.len() {
        assert forall|v: Seq<char>| count_of(st.names.counter, v) <= #[trigger] count_of(
            st.names.counter,
            v,
        ) by {}
    } else {
        let mid = renamed_block(st, flow, x);
        lemma_block_grows(st, flow, x, n);
        lemma_children_grow(mid, flow, tree, listing(targets(tree, x)), 0, (depth - 1) as nat, n);
        let below = renamed_children(
            mid,
            flow,
            tree,
            listing(targets(tree, x)),
            0,
            (depth - 1) as nat,
        );
        lemma_grown_twice(st.names.counter, mid.names.counter, below.names.counter);
    }
}

/// The walk through children only makes the counts grow, and keeps the
/// shape.
pub proof fn lemma_children_grow(
    st: RenameView,
    flow: Map<(usize, usize), u8>,
    tree: Map<(usize, usize), u8>,
    kids: Seq<usize>,
    from: nat,
    depth: nat,
    n: nat,
)
    requires
        shaped(st, n),
    ensures
        shaped(renamed_children(st, flow, tree, kids, from, depth), n),
        grown(st.names.counter, renamed_children(st, flow, tree, kids, from, depth).names.counter),
    decreases depth, 1 + kids.len() - from,
{
    if from >= kids.len() {
        assert forall|v: Seq<char>| count_of(st.names.counter, v) <= #[trigger] count_of(
            st.names.counter,
            v,
        ) by {}
    } else {
        let one = renamed_from(st, flow, tree, kids[from as int], depth);
        lemma_from_grows(st, flow, tree, kids[from as int], depth, n);
        lemma_children_grow(one, flow, tree, kids, from + 1, depth, n);
        lemma_grown_twice(
            st.names.counter,
            one.names.counter,
            renamed_children(one, flow, tree, kids, from + 1, depth).names.counter,
        );
    }
}

/// Renaming a block keeps every name defined once: the block gets names
/// that were not given out before, and the other blocks keep theirs.
pub proof fn lemma_block_step(
    st: RenameView,
    flow: Map<(usize, usize), u8>,
    x: usize,
    n: nat,
    seen: Set<int>,
)
    requires
        shaped(st, n),
        x < n,
        defined_once(st, seen),
        has_room(renamed_block(st, flow, x).names.counter),
    ensures
        defined_once(renamed_block(st, flow, x), seen.insert(x as int)),
{
    let out = renamed_block(st, flow, x);
    let now = seen.insert(x as int);
    let (ps, at) = renamed_phis(st.phis[x as int], st.names);
    let (instrs, next) = renamed_instrs(st.blocks[x as int].instrs, at);
    let succs = listing(targets(flow, x));
    let label = st.blocks[x as int].label;
    let before = st.names.counter;
    lemma_phis_grow(st.phis[x as int], st.names);
    lemma_instrs_grow(st.blocks[x as int].instrs, at);
    lemma_grown_twice(before, at.counter, next.counter);
    lemma_room_before(at.counter, next.counter);
    lemma_phis_new(st.phis[x as int], st.names);
    lemma_instrs_new(st.blocks[x as int].instrs, at);
    lemma_filled_keeps(st.phis.update(x as int, ps), succs, succs.len(), label, next.stack);
    // what each place defines after the step
    assert forall|y: int, i: int| #[trigger] phi_seen(out, now, y, i) implies if y == x {
        0 <= i < ps.len() && phi_dest(out, y, i) == ps[i].dest
    } else {
        phi_seen(st, seen, y, i) && phi_dest(out, y, i) == phi_dest(st, y, i)
    } by {
        assert(out.phis[y].len() == st.phis.update(x as int, ps)[y].len());
        assert(out.phis[y][i].dest == st.phis.update(x as int, ps)[y][i].dest);
    }
    assert forall|y: int, i: int| #[trigger] instr_seen(out, now, y, i) implies if y == x {
        0 <= i < instrs.len() && instr_dest(out, y, i) == instrs[i].dest()
    } else {
        instr_seen(st, seen, y, i) && instr_dest(out, y, i) == instr_dest(st, y, i)
    } by {}
    assert forall|y: int, i: int| #[trigger] phi_seen(out, now, y, i) implies phi_dest(out, y, i)
        is Some && given(next.counter, phi_dest(out, y, i).unwrap()) by {
        if y == x {
            lemma_given_stays(at.counter, next.counter, ps[i].dest.unwrap());
        } else {
            assert(phi_seen(st, seen, y, i));
            lemma_given_stays(before, next.counter, phi_dest(st, y, i).unwrap());
        }
    }
    assert forall|y: int, i: int| #[trigger] instr_seen(out, now, y, i) implies given(
        next.counter,
        instr_dest(out, y, i).unwrap(),
    ) by {
        if y == x {
        } else {
            assert(instr_seen(st, seen, y, i));
            lemma_given_stays(before, next.counter, instr_dest(st, y, i).unwrap());
        }
    }
    // a name of the block is new; a name of another block was given out before
    assert forall|y: int, i: int| #[trigger] phi_seen(out, now, y, i) implies (y == x ==> !given(
        before,
        phi_dest(out, y, i).unwrap(),
    ) && given(at.counter, phi_dest(out, y, i).unwrap())) && (y != x ==> given(
        before,
        phi_dest(out, y, i).unwrap(),
    )) by {
        if y != x {
            assert(phi_seen(st, seen, y, i));
        }
    }
    assert forall|y: int, i: int| #[trigger] instr_seen(out, now, y, i) implies (y == x ==> !given(
        at.counter,
        instr_dest(out, y, i).unwrap(),
    )) && (y != x ==> given(before, instr_dest(out, y, i).unwrap())) by {
        if y != x {
            assert(instr_seen(st, seen, y, i));
        }
    }
    assert forall|y: int, i: int, z: int, j: int|
        #![trigger phi_seen(out, now, y, i), phi_seen(out, now, z, j)]
        phi_seen(out, now, y, i) && phi_seen(out, now, z, j) && (y != z || i != j) implies phi_dest(
        out,
        y,
        i,
    ) != phi_dest(out, z, j) by {
        if y == x && z == x {
            assert(ps[i].dest != ps[j].dest);
        } else if y != x && z != x {
            assert(phi_seen(st, seen, y, i) && phi_seen(st, seen, z, j));
        }
    }
    assert forall|y: int, i: int, z: int, j: int|
        #![trigger phi_seen(out, now, y, i), instr_seen(out, now, z, j)]
        phi_seen(out, now, y, i) && instr_seen(out, now, z, j) implies phi_dest(out, y, i)
        != instr_dest(out, z, j) by {
        if y != x && z != x {
            assert(phi_seen(st, seen, y, i) && instr_seen(st, seen, z, j));
        } else if y != x && z == x {
            lemma_given_stays(before, at.counter, phi_dest(out, y, i).unwrap());
        } else if y == x && z != x {
        } else {
        }
    }
    assert forall|y: int, i: int, z: int, j: int|
        #![trigger instr_seen(out, now, y, i), instr_seen(out, now, z, j)]
        instr_seen(out, now, y, i) && instr_seen(out, now, z, j) && (y != z || i != j) implies instr_dest(
        out,
        y,
        i,
    ) != instr_dest(out, z, j) by {
        if y == x && z == x {
            assert(instrs[i].dest() != instrs[j].dest());
        } else if y != x && z != x {
            assert(instr_seen(st, seen, y, i) && instr_seen(st, seen, z, j));
        } else if y != x {
            lemma_given_stays(before, at.counter, instr_dest(out, y, i).unwrap());
        } else {
            lemma_given_stays(before, at.counter, instr_dest(out, z, j).unwrap());
        }
    }
}

/// Taking names off the stacks changes nothing that is defined.
proof fn lemma_same_definitions(a: RenameView, b: RenameView, seen: Set<int>)
    requires
        a.blocks == b.blocks,
        a.phis == b.phis,
        a.names.counter == b.names.counter,
        defined_once(a, seen),
    ensures
        defined_once(b, seen),
{
    assert forall|x: int, i: int| #[trigger] phi_seen(b, seen, x, i) implies phi_seen(a, seen, x, i)
        && phi_dest(a, x, i) == phi_dest(b, x, i) by {}
    assert forall|x: int, i: int| #[trigger] instr_seen(b, seen, x, i) implies instr_seen(
        a,
        seen,
        x,
        i,
    ) && instr_dest(a, x, i) == instr_dest(b, x, i) by {}
}

/// The walk keeps every name defined once, in the blocks seen before and
/// in those that it goes through.
pub proof fn lemma_from_defines_once(
    st: RenameView,
    flow: Map<(usize, usize), u8>,
    tree: Map<(usize, usize), u8>,
    x: usize,
    depth: nat,
    n: nat,
    seen: Set<int>,
)
    requires
        shaped(st, n),
        defined_once(st, seen),
        has_room(renamed_from(st, flow, tree, x, depth).names.counter),
    ensures
        defined_once(
            renamed_from(st, flow, tree, x, depth),
            seen.union(visited_from(tree, n, x, depth)),
        ),
    decreases depth, 0nat,
{
    if depth == 0 || x >= st.blocks.len() || x >= st.phis.len() {
        assert(seen.union(visited_from(tree, n, x, depth)) =~= seen);
    } else {
        let kids = listing(targets(tree, x));
        let mid = renamed_block(st, flow, x);
        let below = renamed_children(mid, flow, tree, kids, 0, (depth - 1) as nat);
        let out = renamed_from(st, flow, tree, x, depth);
        lemma_block_grows(st, flow, x, n);
        lemma_children_grow(mid, flow, tree, kids, 0, (depth - 1) as nat, n);
        lemma_room_before(mid.names.counter, below.names.counter);
        lemma_block_step(st, flow, x, n, seen);
        lemma_children_define_once(
            mid,
            flow,
            tree,
            kids,
            0,
            (depth - 1) as nat,
            n,
            seen.insert(x as int),
        );
        let all = seen.insert(x as int).union(
            visited_children(tree, n, kids, 0, (depth - 1) as nat),
        );
        assert(all =~= seen.union(visited_from(tree, n, x, depth)));
        lemma_same_definitions(below, out, all);
    }
}

/// The walk through children keeps every name defined once.
pub proof fn lemma_children_define_once(
    st: RenameView,
    flow: Map<(usize, usize), u8>,
    tree: Map<(usize, usize), u8>,
    kids: Seq<usize>,
    from: nat,
    depth: nat,
    n: nat,
    seen: Set<int>,
)
    requires
        shaped(st, n),
        defined_once(st, seen),
        has_room(renamed_children(st, flow, tree, kids, from, depth).names.counter),
    ensures
        defined_once(
            renamed_children(st, flow, tree, kids, from, depth),
            seen.union(visited_children(tree, n, kids, from, depth)),
        ),
    decreases depth, 1 + kids.len() - from,
{
    if from >= kids.len() {
        assert(seen.union(visited_children(tree, n, kids, from, depth)) =~= seen);
    } else {
        let one = renamed_from(st, flow, tree, kids[from as int], depth);
        let rest = renamed_children(one, flow, tree, kids, from + 1, depth);
        lemma_from_grows(st, flow, tree, kids[from as int], depth, n);
        lemma_children_grow(one, flow, tree, kids, from + 1, depth, n);
        lemma_room_before(one.names.counter, rest.names.counter);
        lemma_from_defines_once(st, flow, tree, kids[from as int], depth, n, seen);
        let first = seen.union(visited_from(tree, n, kids[from as int], depth));
        lemma_children_define_once(one, flow, tree, kids, from + 1, depth, n, first);
        assert(first.union(visited_children(tree, n, kids, from + 1, depth)) =~= seen.union(
            visited_children(tree, n, kids, from, depth),
        ));
    }
}

} // verus!
