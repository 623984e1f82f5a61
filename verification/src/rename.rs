//! Renaming into static single assignment form: a walk down the dominator
//! tree that gives every definition a name of its own and lets every use
//! read the name that stands for its variable where it is reached.
use crate::blocks::{block_views, dests, Block, BlockView};
use crate::bril2ssa::{PhiResult, SSAConverter};
use crate::graph::{graph_edges, graph_successors, Graph};
use crate::ir::{
    find_name, first_index, lemma_first_index_found, names, InstrView, Instruction,
    SafeAccess,
};
use crate::labels::{decimal, decimal_digits};
use crate::order::{list_ascending, listing};
use crate::cfg::CFGNode;
use crate::phi::{name_views, phi_views, Phi, PhiView};
use crate::stack::{
    count_of, next_count, popped, pushed, top_of, VariableCounter, VariableStack,
};
use vstd::prelude::*;

verus! {

/// The name number `k` of `variable`.
pub open spec fn numbered(variable: Seq<char>, k: nat) -> Seq<char> {
    variable + "."@ + decimal_digits(k)
}

/// The names in use and the names given out.
pub struct Names {
    pub stack: Map<Seq<char>, Seq<Seq<char>>>,
    pub counter: Map<Seq<char>, usize>,
}

/// The next name of `variable`.
pub open spec fn fresh_name(names: Names, variable: Seq<char>) -> Seq<char> {
    numbered(variable, count_of(names.counter, variable) as nat)
}

/// The names after `variable` got its next name, which now stands for it.
pub open spec fn after_fresh(names: Names, variable: Seq<char>) -> Names {
    Names {
        stack: pushed(names.stack, variable, fresh_name(names, variable)),
        counter: names.counter.insert(variable, next_count(count_of(names.counter, variable))),
    }
}

/// The phi nodes, each with a new name of its variable as destination.
pub open spec fn renamed_phis(ps: Seq<PhiView>, names: Names) -> (Seq<PhiView>, Names)
    decreases ps.len(),
{
    if ps.len() == 0 {
        (Seq::empty(), names)
    } else {
        let (done, at) = renamed_phis(ps.drop_last(), names);
        let p = ps.last();
        (
            done.push(
                PhiView {
                    canonical: p.canonical,
                    dest: Some(fresh_name(at, p.canonical)),
                    op_type: p.op_type,
                    labels: p.labels,
                    args: p.args,
                },
            ),
            after_fresh(at, p.canonical),
        )
    }
}

/// The arguments, each replaced by the name that stands for it now; one
/// that nothing stands for stays.
pub open spec fn current_args(stack: Map<Seq<char>, Seq<Seq<char>>>, args: Seq<Seq<char>>) -> Seq<
    Seq<char>,
> {
    Seq::new(
        args.len(),
        |i: int|
            match top_of(stack, args[i]) {
                Some(n) => n,
                None => args[i],
            },
    )
}

/// One instruction renamed: its arguments read the current names, and its
/// destination gets the next name of its variable.
pub open spec fn renamed_instr(instr: InstrView, names: Names) -> (InstrView, Names) {
    let read = match instr.args() {
        Some(a) => instr.with_args(current_args(names.stack, a)),
        None => instr,
    };
    match read.dest() {
        Some(d) => (read.with_dest(fresh_name(names, d)), after_fresh(names, d)),
        None => (read, names),
    }
}

/// The instructions renamed one after the other.
pub open spec fn renamed_instrs(instrs: Seq<InstrView>, names: Names) -> (Seq<InstrView>, Names)
    decreases instrs.len(),
{
    if instrs.len() == 0 {
        (Seq::empty(), names)
    } else {
        let (done, at) = renamed_instrs(instrs.drop_last(), names);
        let (instr, next) = renamed_instr(instrs.last(), at);
        (done.push(instr), next)
    }
}

/// The phi node with the slot of the predecessor `label` filled with the
/// name that stands for its variable now; unchanged if nothing does, or if
/// it has no such slot.
pub open spec fn filled_phi(p: PhiView, label: Seq<char>, stack: Map<Seq<char>, Seq<Seq<char>>>) -> PhiView {
    match (top_of(stack, p.canonical), first_index(p.labels, label)) {
        (Some(name), Some(i)) => if i < p.args.len() {
            PhiView {
                canonical: p.canonical,
                dest: p.dest,
                op_type: p.op_type,
                labels: p.labels,
                args: p.args.update(i as int, Some(name)),
            }
        } else {
            p
        },
        _ => p,
    }
}

/// The phi nodes of one node, each filled.
pub open spec fn filled_phis(
    ps: Seq<PhiView>,
    label: Seq<char>,
    stack: Map<Seq<char>, Seq<Seq<char>>>,
) -> Seq<PhiView> {
    Seq::new(ps.len(), |i: int| filled_phi(ps[i], label, stack))
}

/// The phi nodes of the first `upto` of the successors `succs` filled.
pub open spec fn filled_successors(
    phis: Seq<Seq<PhiView>>,
    succs: Seq<usize>,
    upto: nat,
    label: Seq<char>,
    stack: Map<Seq<char>, Seq<Seq<char>>>,
) -> Seq<Seq<PhiView>>
    decreases upto,
{
    if upto == 0 {
        phis
    } else {
        let done = filled_successors(phis, succs, (upto - 1) as nat, label, stack);
        let s = succs[upto - 1];
        if s < done.len() {
            done.update(s as int, filled_phis(done[s as int], label, stack))
        } else {
            done
        }
    }
}

/// The stacks with one name taken for each entry of the first `upto` of
/// `log`.
pub open spec fn unwound(stack: Map<Seq<char>, Seq<Seq<char>>>, log: Seq<Seq<char>>, upto: nat) -> Map<
    Seq<char>,
    Seq<Seq<char>>,
>
    decreases upto,
{
    if upto == 0 {
        stack
    } else {
        popped(unwound(stack, log, (upto - 1) as nat), log[upto - 1], 1)
    }
}

/// The variables of a list of phi nodes.
pub open spec fn canonicals(ps: Seq<PhiView>) -> Seq<Seq<char>> {
    Seq::new(ps.len(), |i: int| ps[i].canonical)
}

/// The nodes that an edge from `x` leads to.
pub open spec fn targets(edges: Map<(usize, usize), u8>, x: usize) -> Set<usize> {
    Set::new(|b: usize| edges.contains_key((x, b)))
}

/// The state of renaming.
pub struct RenameView {
    pub blocks: Seq<BlockView>,
    pub phis: Seq<Seq<PhiView>>,
    pub names: Names,
}

/// The phi nodes of the node `x`; a node for which the table has no row
/// has none.
pub open spec fn row_of(phis: Seq<Seq<PhiView>>, x: usize) -> Seq<PhiView> {
    if x < phis.len() {
        phis[x as int]
    } else {
        Seq::empty()
    }
}

/// The table with `ps` as the phi nodes of the node `x`, if it has a row
/// for `x`.
pub open spec fn with_row(phis: Seq<Seq<PhiView>>, x: usize, ps: Seq<PhiView>) -> Seq<Seq<PhiView>> {
    if x < phis.len() {
        phis.update(x as int, ps)
    } else {
        phis
    }
}

/// The state after the block `x` itself is renamed: its phi nodes and its
/// instructions have new names, and the phi nodes of its successors have
/// the names that leave it.
pub open spec fn renamed_block(st: RenameView, flow: Map<(usize, usize), u8>, x: usize) -> RenameView {
    let (ps, at) = renamed_phis(row_of(st.phis, x), st.names);
    let (instrs, next) = renamed_instrs(st.blocks[x as int].instrs, at);
    let label = st.blocks[x as int].label;
    let succs = listing(targets(flow, x));
    RenameView {
        blocks: st.blocks.update(x as int, BlockView { label, instrs }),
        phis: filled_successors(with_row(st.phis, x, ps), succs, succs.len(), label, next.stack),
        names: next,
    }
}

/// The names that renaming the block `x` puts on the stacks, in the order
/// in which it does.
pub open spec fn pushed_by(st: RenameView, x: usize) -> Seq<Seq<char>> {
    canonicals(row_of(st.phis, x)) + dests(st.blocks[x as int].instrs)
}

/// The state after the walk has gone through the node `x` and what is
/// below it in the tree; `depth` is how far down it may still go. The sink
/// is passed over. A block is renamed, whether the table of phi nodes has
/// a row for it or not, then the walk goes through its
/// children in ascending order, then the names that the block put on the
/// stacks are taken off again.
pub open spec fn renamed_from(
    st: RenameView,
    flow: Map<(usize, usize), u8>,
    tree: Map<(usize, usize), u8>,
    x: usize,
    depth: nat,
) -> RenameView
    decreases depth, 0nat,
{
    if depth == 0 || x >= st.blocks.len() {
        st
    } else {
        let log = pushed_by(st, x);
        let below = renamed_children(
            renamed_block(st, flow, x),
            flow,
            tree,
            listing(targets(tree, x)),
            0,
            (depth - 1) as nat,
        );
        RenameView {
            blocks: below.blocks,
            phis: below.phis,
            names: Names {
                stack: unwound(below.names.stack, log, log.len()),
                counter: below.names.counter,
            },
        }
    }
}

/// The state after the walk has gone through the children `kids` from
/// position `from` on.
pub open spec fn renamed_children(
    st: RenameView,
    flow: Map<(usize, usize), u8>,
    tree: Map<(usize, usize), u8>,
    kids: Seq<usize>,
    from: nat,
    depth: nat,
) -> RenameView
    decreases depth, 1 + kids.len() - from,
{
    if from >= kids.len() {
        st
    } else {
        renamed_children(
            renamed_from(st, flow, tree, kids[from as int], depth),
            flow,
            tree,
            kids,
            from + 1,
            depth,
        )
    }
}

/// The views of a table of phi nodes.
pub open spec fn phi_table(v: Seq<Vec<Phi>>) -> Seq<Seq<PhiView>> {
    Seq::new(v.len(), |i: int| phi_views(v[i]@))
}

/// Gives `variable` its next name, which now stands for it.
fn register_name(stack: &mut VariableStack, counter: &mut VariableCounter, variable: &String) -> (r:
    String)
    requires
        old(stack).wf(),
        old(counter).wf(),
    ensures
        final(stack).wf(),
        final(counter).wf(),
        r@ == fresh_name(Names { stack: old(stack)@, counter: old(counter)@ }, variable@),
        (Names { stack: final(stack)@, counter: final(counter)@ }) == after_fresh(
            Names { stack: old(stack)@, counter: old(counter)@ },
            variable@,
        ),
{
    let count = counter.inc(variable.clone());
    let name = variable.clone().concat(".").concat(decimal(count).as_str());
    stack.push(variable, name.clone());
    name
}

/// Renames the phi nodes at the head of a block.
fn rename_phis(phis: &mut Vec<Phi>, stack: &mut VariableStack, counter: &mut VariableCounter)
    requires
        old(stack).wf(),
        old(counter).wf(),
    ensures
        final(stack).wf(),
        final(counter).wf(),
        (phi_views(final(phis)@), Names { stack: final(stack)@, counter: final(counter)@ })
            == renamed_phis(
            phi_views(old(phis)@),
            Names { stack: old(stack)@, counter: old(counter)@ },
        ),
{
    let ghost ps = phi_views(phis@);
    let ghost start = Names { stack: stack@, counter: counter@ };
    let mut i: usize = 0;
    proof {
        assert(ps.take(0) =~= Seq::empty());
    }
    while i < phis.len()
        invariant
            i <= phis.len(),
            phis.len() == ps.len(),
            stack.wf(),
            counter.wf(),
            forall|k: int| i <= k < phis.len() ==> (#[trigger] phis[k])@ == ps[k],
            (phi_views(phis@).take(i as int), Names { stack: stack@, counter: counter@ })
                == renamed_phis(ps.take(i as int), start),
        decreases phis.len() - i,
    {
        let ghost before = phi_views(phis@);
        proof {
            assert(ps.take(i + 1).drop_last() =~= ps.take(i as int));
            assert(ps.take(i + 1).last() == ps[i as int]);
        }
        let name = register_name(stack, counter, &phis[i].canonical);
        phis[i].dest = Some(name);
        proof {
            let now = phi_views(phis@);
            assert(now.take(i + 1) =~= before.take(i as int).push(now[i as int]));
        }
        i += 1;
    }
    proof {
        assert(ps.take(i as int) =~= ps);
        assert(phi_views(phis@).take(i as int) =~= phi_views(phis@));
    }
}

/// Renames one instruction.
fn rename_instr(instr: &mut Instruction, stack: &mut VariableStack, counter: &mut VariableCounter)
    requires
        old(stack).wf(),
        old(counter).wf(),
    ensures
        final(stack).wf(),
        final(counter).wf(),
        (final(instr)@, Names { stack: final(stack)@, counter: final(counter)@ }) == renamed_instr(
            old(instr)@,
            Names { stack: old(stack)@, counter: old(counter)@ },
        ),
{
    match instr.get_args() {
        Some(args) => {
            let mut read: Vec<String> = Vec::new();
            let mut i: usize = 0;
            let ghost was = names(args@);
            while i < args.len()
                invariant
                    i <= args.len(),
                    stack.wf(),
                    was == names(args@),
                    read.len() == i,
                    forall|k: int|
                        0 <= k < i ==> #[trigger] read[k]@ == current_args(stack@, was)[k],
                decreases args.len() - i,
            {
                assert(was[i as int] == args[i as int]@);
                match stack.get_last(&args[i]) {
                    Some(n) => {
                        read.push(n);
                    },
                    None => {
                        read.push(args[i].clone());
                    },
                }
                i += 1;
            }
            assert(names(read@) =~= current_args(stack@, was));
            instr.set_args(read);
        },
        None => {},
    }
    match instr.get_dest() {
        Some(d) => {
            let name = register_name(stack, counter, &d);
            instr.set_dest(name);
        },
        None => {},
    }
}

/// Renames the instructions of a block.
fn rename_instrs(block: &mut Block, stack: &mut VariableStack, counter: &mut VariableCounter)
    requires
        old(stack).wf(),
        old(counter).wf(),
    ensures
        final(stack).wf(),
        final(counter).wf(),
        final(block)@.label == old(block)@.label,
        (final(block)@.instrs, Names { stack: final(stack)@, counter: final(counter)@ })
            == renamed_instrs(
            old(block)@.instrs,
            Names { stack: old(stack)@, counter: old(counter)@ },
        ),
{
    let ghost instrs = block@.instrs;
    let ghost start = Names { stack: stack@, counter: counter@ };
    let mut i: usize = 0;
    proof {
        assert(instrs.take(0) =~= Seq::empty());
    }
    while i < block.instrs.len()
        invariant
            i <= block.instrs.len(),
            block.instrs.len() == instrs.len(),
            block@.label == old(block)@.label,
            stack.wf(),
            counter.wf(),
            forall|k: int| i <= k < instrs.len() ==> (#[trigger] block.instrs[k])@ == instrs[k],
            (block@.instrs.take(i as int), Names { stack: stack@, counter: counter@ })
                == renamed_instrs(instrs.take(i as int), start),
        decreases block.instrs.len() - i,
    {
        let ghost before = block@.instrs;
        proof {
            assert(instrs.take(i + 1).drop_last() =~= instrs.take(i as int));
            assert(instrs.take(i + 1).last() == instrs[i as int]);
        }
        rename_instr(&mut block.instrs[i], stack, counter);
        proof {
            let now = block@.instrs;
            assert(now.take(i + 1) =~= before.take(i as int).push(now[i as int]));
        }
        i += 1;
    }
    proof {
        assert(instrs.take(i as int) =~= instrs);
        assert(block@.instrs.take(i as int) =~= block@.instrs);
    }
}

/// Fills the slot of the predecessor `label` in each phi node.
fn fill_phis(phis: &mut Vec<Phi>, label: &String, stack: &VariableStack)
    requires
        stack.wf(),
    ensures
        phi_views(final(phis)@) == filled_phis(phi_views(old(phis)@), label@, stack@),
{
    let ghost ps = phi_views(phis@);
    let mut i: usize = 0;
    while i < phis.len()
        invariant
            i <= phis.len(),
            phis.len() == ps.len(),
            stack.wf(),
            forall|k: int| i <= k < phis.len() ==> (#[trigger] phis[k])@ == ps[k],
            forall|k: int|
                0 <= k < i ==> (#[trigger] phis[k])@ == filled_phi(ps[k], label@, stack@),
        decreases phis.len() - i,
    {
        proof {
            assert(names(phis[i as int].labels@).len() == phis[i as int].labels.len());
            lemma_first_index_found(names(phis[i as int].labels@), label@);
        }
        match stack.get_last(&phis[i].canonical) {
            Some(name) => {
                match find_name(&phis[i].labels, label) {
                    Some(slot) => {
                        if slot < phis[i].args.len() {
                            let ghost args0 = name_views(phis[i as int].args@);
                            phis[i].args[slot] = Some(name);
                            assert(name_views(phis[i as int].args@) =~= args0.update(
                                slot as int,
                                Some(name@),
                            ));
                        }
                    },
                    None => {},
                }
            },
            None => {},
        }
        i += 1;
    }
    assert(phi_views(phis@) =~= filled_phis(ps, label@, stack@));
}

impl SSAConverter {
    /// The state of renaming.
    pub open spec fn renaming(&self, phi_nodes: &PhiResult) -> RenameView {
        RenameView {
            blocks: block_views(self.cfg.blocks@),
            phis: phi_table(phi_nodes@),
            names: Names { stack: self.stack@, counter: self.counter@ },
        }
    }

    /// The conversion is in order.
    pub open spec fn wf(&self) -> bool {
        self.cfg.wf() && self.stack.wf() && self.counter.wf()
    }

    /// Renames the block `x` itself.
    fn rename_block(&mut self, x: usize, phi_nodes: &mut PhiResult) -> (log: Vec<String>)
        requires
            old(self).wf(),
            x < old(self).cfg.blocks.len(),
        ensures
            final(self).wf(),
            final(self).cfg.graph == old(self).cfg.graph,
            final(self).cfg.args == old(self).cfg.args,
            final(self).cfg.blocks.len() == old(self).cfg.blocks.len(),
            final(phi_nodes).len() == old(phi_nodes).len(),
            final(self).renaming(final(phi_nodes)) == renamed_block(
                old(self).renaming(old(phi_nodes)),
                graph_edges(old(self).cfg.graph),
                x,
            ),
            names(log@) == pushed_by(old(self).renaming(old(phi_nodes)), x),
    {
        let ghost st = self.renaming(phi_nodes);
        let ghost flow = graph_edges(self.cfg.graph);
        let mut log: Vec<String> = Vec::new();
        let mut k: usize = 0;
        let heads: usize = if x < phi_nodes.len() {
            phi_nodes[x].len()
        } else {
            0
        };
        while k < heads
            invariant
                k <= heads,
                heads == row_of(st.phis, x).len(),
                x < phi_nodes.len() ==> heads == phi_nodes[x as int].len(),
                heads > 0 ==> x < phi_nodes.len(),
                log.len() == k,
                forall|q: int| 0 <= q < k ==> log[q]@ == phi_nodes[x as int][q].canonical@,
            decreases heads - k,
        {
            log.push(phi_nodes[x][k].canonical.clone());
            k += 1;
        }
        let ghost first = names(log@);
        assert(first =~= canonicals(row_of(st.phis, x)));
        let mut j: usize = 0;
        proof {
            assert(st.blocks[x as int].instrs.take(0) =~= Seq::empty());
            assert(first + Seq::<Seq<char>>::empty() =~= first);
        }
        while j < self.cfg.blocks[x].instrs.len()
            invariant
                j <= self.cfg.blocks[x as int].instrs.len(),
                x < self.cfg.blocks.len(),
                self.cfg.blocks[x as int]@ == st.blocks[x as int],
                names(log@) == first + dests(st.blocks[x as int].instrs.take(j as int)),
            decreases self.cfg.blocks[x as int].instrs.len() - j,
        {
            let ghost before = names(log@);
            let ghost instrs = st.blocks[x as int].instrs;
            proof {
                assert(instrs.take(j + 1).drop_last() =~= instrs.take(j as int));
                assert(instrs.take(j + 1).last() == self.cfg.blocks[x as int].instrs[j as int]@);
            }
            match self.cfg.blocks[x].instrs[j].get_dest() {
                Some(d) => {
                    log.push(d);
                    assert(names(log@) =~= before.push(instrs[j as int].dest().unwrap()));
                },
                None => {},
            }
            j += 1;
        }
        assert(st.blocks[x as int].instrs.take(j as int) =~= st.blocks[x as int].instrs);
        if x < phi_nodes.len() {
            rename_phis(&mut phi_nodes[x], &mut self.stack, &mut self.counter);
        }
        rename_instrs(&mut self.cfg.blocks[x], &mut self.stack, &mut self.counter);
        let label = self.cfg.blocks[x].label.clone();
        let found = graph_successors(&self.cfg.graph, x);
        let succs = list_ascending(found, Ghost(targets(flow, x)));
        let ghost mid = phi_table(phi_nodes@);
        let mut i: usize = 0;
        proof {
            assert(mid =~= with_row(st.phis, x, renamed_phis(row_of(st.phis, x), st.names).0));
        }
        while i < succs.len()
            invariant
                i <= succs.len(),
                self.stack.wf(),
                phi_nodes.len() == mid.len(),
                phi_table(phi_nodes@) == filled_successors(
                    mid,
                    succs@,
                    i as nat,
                    label@,
                    self.stack@,
                ),
            decreases succs.len() - i,
        {
            let s = succs[i];
            if s < phi_nodes.len() {
                let ghost before = phi_table(phi_nodes@);
                fill_phis(&mut phi_nodes[s], &label, &self.stack);
                assert(phi_table(phi_nodes@) =~= before.update(
                    s as int,
                    filled_phis(before[s as int], label@, self.stack@),
                ));
            }
            i += 1;
        }
        proof {
            assert(block_views(self.cfg.blocks@) =~= st.blocks.update(
                x as int,
                self.cfg.blocks[x as int]@,
            ));
        }
        log
    }

    /// The walk through the node `x` and what is below it in the tree.
    fn rename_from(&mut self, x: usize, phi_nodes: &mut PhiResult, dominator_tree: &Graph, depth: usize)
        requires
            old(self).wf(),
        ensures
            final(self).wf(),
            final(self).cfg.graph == old(self).cfg.graph,
            final(self).cfg.args == old(self).cfg.args,
            final(self).cfg.blocks.len() == old(self).cfg.blocks.len(),
            final(phi_nodes).len() == old(phi_nodes).len(),
            final(self).renaming(final(phi_nodes)) == renamed_from(
                old(self).renaming(old(phi_nodes)),
                graph_edges(old(self).cfg.graph),
                graph_edges(*dominator_tree),
                x,
                depth as nat,
            ),
        decreases depth, 0nat,
    {
        if depth == 0 || x >= self.cfg.blocks.len() {
            return ;
        }
        let ghost st = self.renaming(phi_nodes);
        let ghost flow = graph_edges(self.cfg.graph);
        let ghost tree = graph_edges(*dominator_tree);
        let log = self.rename_block(x, phi_nodes);
        let found = graph_successors(dominator_tree, x);
        let kids = list_ascending(found, Ghost(targets(tree, x)));
        self.rename_children(&kids, 0, phi_nodes, dominator_tree, depth - 1);
        let ghost below = self.renaming(phi_nodes);
        let mut i: usize = 0;
        while i < log.len()
            invariant
                i <= log.len(),
                self.wf(),
                self.cfg.graph == old(self).cfg.graph,
                self.cfg.args == old(self).cfg.args,
                self.cfg.blocks.len() == old(self).cfg.blocks.len(),
                phi_nodes.len() == old(phi_nodes).len(),
                block_views(self.cfg.blocks@) == below.blocks,
                phi_table(phi_nodes@) == below.phis,
                self.counter@ == below.names.counter,
                self.stack@ == unwound(below.names.stack, names(log@), i as nat),
            decreases log.len() - i,
        {
            assert(names(log@)[i as int] == log[i as int]@);
            self.stack.pop(&log[i], 1);
            i += 1;
        }
    }

    /// The walk through the children `kids` from position `from` on.
    fn rename_children(
        &mut self,
        kids: &Vec<usize>,
        from: usize,
        phi_nodes: &mut PhiResult,
        dominator_tree: &Graph,
        depth: usize,
    )
        requires
            old(self).wf(),
        ensures
            final(self).wf(),
            final(self).cfg.graph == old(self).cfg.graph,
            final(self).cfg.args == old(self).cfg.args,
            final(self).cfg.blocks.len() == old(self).cfg.blocks.len(),
            final(phi_nodes).len() == old(phi_nodes).len(),
            final(self).renaming(final(phi_nodes)) == renamed_children(
                old(self).renaming(old(phi_nodes)),
                graph_edges(old(self).cfg.graph),
                graph_edges(*dominator_tree),
                kids@,
                from as nat,
                depth as nat,
            ),
        decreases depth, 1 + kids.len() - from,
    {
        if from >= kids.len() {
            return ;
        }
        self.rename_from(kids[from], phi_nodes, dominator_tree, depth);
        self.rename_children(kids, from + 1, phi_nodes, dominator_tree, depth);
    }

    /// Renames the variables of the function, from `node` down the
    /// dominator tree. The phi nodes get their destinations and their
    /// incoming names; the instructions of the blocks get their new names.
    /// A block for which `phi_nodes` has no row is renamed as one without
    /// phi nodes. The walk goes no deeper than the graph has nodes.
    pub fn rename(&mut self, node: CFGNode, phi_nodes: &mut PhiResult, dominator_tree: &Graph)
        requires
            old(self).wf(),
        ensures
            final(self).wf(),
            final(self).cfg.graph == old(self).cfg.graph,
            final(self).cfg.args == old(self).cfg.args,
            final(self).cfg.blocks.len() == old(self).cfg.blocks.len(),
            final(phi_nodes).len() == old(phi_nodes).len(),
            final(self).renaming(final(phi_nodes)) == renamed_from(
                old(self).renaming(old(phi_nodes)),
                graph_edges(old(self).cfg.graph),
                graph_edges(*dominator_tree),
                old(self).cfg.id_of(node),
                (old(self).cfg.blocks.len() + 1) as nat,
            ),
    {
        let x = self.cfg.node_id(node);
        let depth = self.cfg.blocks.len() + 1;
        self.rename_from(x, phi_nodes, dominator_tree, depth);
    }
}

} // verus!
