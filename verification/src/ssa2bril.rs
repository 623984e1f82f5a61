//! Out of static single assignment form: every phi node becomes a copy at
//! the end of each predecessor, and the phi nodes go.
use crate::blocks::{block_views, Block, BlockView};
use crate::bril2ssa::sources;
use crate::cfg::CFG;
use crate::graph::{graph_edges, graph_predecessors};
use crate::ir::{
    find_name, first_index, instr_views, lemma_first_index_found, names, InstrView, Instruction,
    Literal, Type, ValueOps,
};
use crate::lvn::copy_instr;
use crate::order::{list_ascending, listing};
use crate::phi::undefined_name;
use vstd::prelude::*;

verus! {

/// The value that a variable of the type has before anything is written to
/// it: zero, false, the float zero, the character zero, the null pointer.
pub open spec fn default_literal(ty: Type) -> Literal {
    match ty {
        Type::Int => Literal::Int(0),
        Type::Bool => Literal::Bool(false),
        Type::Float => Literal::Float(0),
        Type::Char => Literal::Char('\0'),
        Type::Pointer(_) => Literal::Int(0),
    }
}

/// The instruction that gives `dest` the default value of its type.
pub open spec fn default_instr(dest: Seq<char>, ty: Type) -> InstrView {
    InstrView::Constant { dest, const_type: ty, value: default_literal(ty) }
}

/// Giving a variable the default value of a type.
pub trait DefaultValue {
    spec fn default_for(&self, dest: Seq<char>) -> InstrView;

    fn generate_default(&self, dest: String) -> (r: Instruction)
        ensures
            r@ == self.default_for(dest@),
    ;
}

impl DefaultValue for Type {
    open spec fn default_for(&self, dest: Seq<char>) -> InstrView {
        default_instr(dest, *self)
    }

    fn generate_default(&self, dest: String) -> (r: Instruction) {
        let value = match self {
            Type::Int => Literal::Int(0),
            Type::Bool => Literal::Bool(false),
            Type::Float => Literal::Float(0),
            Type::Char => Literal::Char('\0'),
            Type::Pointer(_) => Literal::Int(0),
        };
        Instruction::Constant { dest, const_type: self.clone(), value }
    }
}

/// What takes the place of the phi `dest = phi args labels` at the end of
/// the predecessor with the given label: a copy of the argument that
/// belongs to that label, or the default value if that argument is
/// undefined; nothing if the phi has no argument for the label.
pub open spec fn lowered(
    dest: Seq<char>,
    ty: Type,
    args: Seq<Seq<char>>,
    labels: Seq<Seq<char>>,
    label: Seq<char>,
) -> Option<InstrView> {
    match first_index(labels, label) {
        Some(i) => if i < args.len() {
            if args[i as int] == undefined_name() {
                Some(default_instr(dest, ty))
            } else {
                Some(copy_instr(dest, ty, args[i as int]))
            }
        } else {
            None
        },
        None => None,
    }
}

/// The instructions with `instr` before the last of them.
pub open spec fn before_last(instrs: Seq<InstrView>, instr: InstrView) -> Seq<InstrView> {
    if instrs.len() == 0 {
        seq![instr]
    } else {
        instrs.insert(instrs.len() - 1, instr)
    }
}

/// The blocks after one phi instruction is lowered into the first `upto`
/// of the predecessors `preds`.
pub open spec fn lowered_phi(
    blocks: Seq<BlockView>,
    preds: Seq<usize>,
    upto: nat,
    phi: InstrView,
) -> Seq<BlockView>
    decreases upto,
{
    if upto == 0 {
        blocks
    } else {
        let done = lowered_phi(blocks, preds, (upto - 1) as nat, phi);
        let p = preds[upto - 1];
        match phi {
            InstrView::Value { dest, op_type, op, args, labels, .. } => if p < done.len() {
                match lowered(dest, op_type, args, labels, done[p as int].label) {
                    Some(instr) => done.update(
                        p as int,
                        BlockView {
                            label: done[p as int].label,
                            instrs: before_last(done[p as int].instrs, instr),
                        },
                    ),
                    None => done,
                }
            } else {
                done
            },
            _ => done,
        }
    }
}

/// The blocks after the phi instructions among the first `upto` of
/// `instrs` are lowered into the predecessors `preds`.
pub open spec fn lowered_instrs(
    blocks: Seq<BlockView>,
    preds: Seq<usize>,
    instrs: Seq<InstrView>,
    upto: nat,
) -> Seq<BlockView>
    decreases upto,
{
    if upto == 0 {
        blocks
    } else {
        let done = lowered_instrs(blocks, preds, instrs, (upto - 1) as nat);
        if instrs[upto - 1].is_phi() {
            lowered_phi(done, preds, preds.len(), instrs[upto - 1])
        } else {
            done
        }
    }
}

/// The blocks after the phi instructions of the blocks from the second to
/// the one before `upto` are lowered, block by block. The phi instructions
/// of a block are those that it holds when its turn comes.
pub open spec fn lowered_blocks(blocks: Seq<BlockView>, flow: Map<(usize, usize), u8>, upto: nat) -> Seq<
    BlockView,
>
    decreases upto,
{
    if upto <= 1 {
        blocks
    } else {
        let done = lowered_blocks(blocks, flow, (upto - 1) as nat);
        let i = (upto - 1) as usize;
        lowered_instrs(
            done,
            listing(sources(flow, i)),
            done[i as int].instrs,
            done[i as int].instrs.len(),
        )
    }
}

/// The instructions that are not phi instructions.
pub open spec fn without_phis(instrs: Seq<InstrView>) -> Seq<InstrView>
    decreases instrs.len(),
{
    if instrs.len() == 0 {
        Seq::empty()
    } else if instrs.last().is_phi() {
        without_phis(instrs.drop_last())
    } else {
        without_phis(instrs.drop_last()).push(instrs.last())
    }
}

/// The blocks out of static single assignment form.
pub open spec fn phi_free(blocks: Seq<BlockView>, flow: Map<(usize, usize), u8>) -> Seq<BlockView> {
    Seq::new(
        blocks.len(),
        |i: int|
            BlockView {
                label: blocks[i].label,
                instrs: without_phis(lowered_blocks(blocks, flow, blocks.len())[i].instrs),
            },
    )
}

/// Lowering keeps the number of blocks and their labels.
proof fn lemma_lowered_phi_shape(blocks: Seq<BlockView>, preds: Seq<usize>, upto: nat, phi: InstrView)
    ensures
        lowered_phi(blocks, preds, upto, phi).len() == blocks.len(),
        forall|i: int|
            0 <= i < blocks.len() ==> (#[trigger] lowered_phi(blocks, preds, upto, phi)[i]).label
                == blocks[i].label,
    decreases upto,
{
    if upto > 0 {
        lemma_lowered_phi_shape(blocks, preds, (upto - 1) as nat, phi);
    }
}

/// `instr` is the phi instruction with these parts.
pub open spec fn is_phi_of(
    instr: InstrView,
    dest: Seq<char>,
    ty: Type,
    args: Seq<Seq<char>>,
    labels: Seq<Seq<char>>,
) -> bool {
    match instr {
        InstrView::Value { dest: d, op_type: t, op, args: a, labels: l, .. } => op == ValueOps::Phi
            && d == dest && t == ty && a == args && l == labels,
        _ => false,
    }
}

/// The parts of a phi instruction: what it defines, its type, its
/// arguments and its labels.
fn phi_parts(instr: &Instruction) -> (r: Option<(String, Type, Vec<String>, Vec<String>)>)
    ensures
        match r {
            Some((dest, ty, args, labels)) => is_phi_of(
                instr@,
                dest@,
                ty,
                names(args@),
                names(labels@),
            ),
            None => !instr@.is_phi(),
        },
{
    match instr {
        Instruction::Value { dest, op_type, op, args, labels, .. } => {
            if *op == ValueOps::Phi {
                Some(
                    (
                        dest.clone(),
                        op_type.clone(),
                        crate::ir::clone_names(args),
                        crate::ir::clone_names(labels),
                    ),
                )
            } else {
                None
            }
        },
        _ => None,
    }
}

/// What takes the place of a phi at the end of the predecessor `label`.
fn lower_one(dest: &String, ty: &Type, args: &Vec<String>, labels: &Vec<String>, label: &String) -> (r:
    Option<Instruction>)
    ensures
        match r {
            Some(i) => lowered(dest@, *ty, names(args@), names(labels@), label@) == Some(i@),
            None => lowered(dest@, *ty, names(args@), names(labels@), label@) is None,
        },
{
    proof {
        assert(names(labels@).len() == labels.len());
        lemma_first_index_found(names(labels@), label@);
    }
    let undefined = String::from_str("undefined");
    match find_name(labels, label) {
        Some(i) => {
            if i < args.len() {
                assert(names(args@)[i as int] == args[i as int]@);
                if args[i] == undefined {
                    let r = Instruction::Constant {
                        dest: dest.clone(),
                        const_type: ty.clone(),
                        value: default_of(ty),
                    };
                    Some(r)
                } else {
                    let mut from: Vec<String> = Vec::new();
                    from.push(args[i].clone());
                    let r = Instruction::Value {
                        dest: dest.clone(),
                        op_type: ty.clone(),
                        op: ValueOps::Id,
                        args: from,
                        funcs: Vec::new(),
                        labels: Vec::new(),
                    };
                    proof {
                        assert(names(from@) =~= seq![args[i as int]@]);
                        assert(names(Seq::<String>::empty()) =~= Seq::<Seq<char>>::empty());
                    }
                    Some(r)
                }
            } else {
                None
            }
        },
        None => None,
    }
}

/// The default value of a type.
fn default_of(ty: &Type) -> (r: Literal)
    ensures
        r == default_literal(*ty),
{
    match ty {
        Type::Int => Literal::Int(0),
        Type::Bool => Literal::Bool(false),
        Type::Float => Literal::Float(0),
        Type::Char => Literal::Char('\0'),
        Type::Pointer(_) => Literal::Int(0),
    }
}

/// The instructions of a block that are not phi instructions.
fn strip_phis(block: &mut Block)
    ensures
        final(block)@.label == old(block)@.label,
        final(block)@.instrs == without_phis(old(block)@.instrs),
{
    let ghost instrs = block@.instrs;
    let mut kept: Vec<Instruction> = Vec::new();
    let mut i: usize = 0;
    proof {
        assert(instrs.take(0) =~= Seq::empty());
        assert(instr_views(kept@) =~= Seq::empty());
    }
    while i < block.instrs.len()
        invariant
            i <= block.instrs.len(),
            instrs == block@.instrs,
            block@.label == old(block)@.label,
            instr_views(kept@) == without_phis(instrs.take(i as int)),
        decreases block.instrs.len() - i,
    {
        let ghost before = instr_views(kept@);
        proof {
            assert(instrs.take(i + 1).drop_last() =~= instrs.take(i as int));
            assert(instrs.take(i + 1).last() == block.instrs[i as int]@);
        }
        let is_phi = match &block.instrs[i] {
            Instruction::Value { op, .. } => *op == ValueOps::Phi,
            _ => false,
        };
        if !is_phi {
            kept.push(block.instrs[i].clone());
            assert(instr_views(kept@) =~= before.push(block.instrs[i as int]@));
        }
        i += 1;
    }
    assert(instrs.take(i as int) =~= instrs);
    block.instrs = kept;
}

/// Takes a function out of static single assignment form. For each block
/// but the first, each phi instruction is lowered into every predecessor:
/// before the last instruction of the predecessor comes a copy of the
/// argument that belongs to its label, or the default value of the type
/// where that argument is undefined. Then every phi instruction is removed.
pub fn remove_phi_nodes(cfg: &mut CFG)
    requires
        old(cfg).wf(),
    ensures
        final(cfg).wf(),
        final(cfg).graph == old(cfg).graph,
        final(cfg).args == old(cfg).args,
        block_views(final(cfg).blocks@) == phi_free(
            block_views(old(cfg).blocks@),
            graph_edges(old(cfg).graph),
        ),
{
    let n = cfg.blocks.len();
    let ghost start = block_views(cfg.blocks@);
    let ghost flow = graph_edges(cfg.graph);
    let mut i: usize = 1;
    while i < n
        invariant
            1 <= i,
            n == cfg.blocks.len(),
            n == start.len(),
            cfg.wf(),
            cfg.graph == old(cfg).graph,
            cfg.args == old(cfg).args,
            flow == graph_edges(cfg.graph),
            block_views(cfg.blocks@) == lowered_blocks(
                start,
                flow,
                if i <= n {
                    i as nat
                } else {
                    n as nat
                },
            ),
        decreases n - i,
    {
        let found = graph_predecessors(&cfg.graph, i);
        let preds = list_ascending(found, Ghost(sources(flow, i)));
        let snapshot = cfg.blocks[i].clone();
        let ghost at_turn = block_views(cfg.blocks@);
        let ghost instrs = snapshot@.instrs;
        assert(instrs == at_turn[i as int].instrs);
        let mut k: usize = 0;
        while k < snapshot.instrs.len()
            invariant
                k <= snapshot.instrs.len(),
                n == cfg.blocks.len(),
                cfg.wf(),
                cfg.graph == old(cfg).graph,
                cfg.args == old(cfg).args,
                instrs == snapshot@.instrs,
                block_views(cfg.blocks@) == lowered_instrs(at_turn, preds@, instrs, k as nat),
            decreases snapshot.instrs.len() - k,
        {
            assert(instrs[k as int] == snapshot.instrs[k as int]@);
            match phi_parts(&snapshot.instrs[k]) {
                Some((dest, ty, args, labels)) => {
                    let ghost before_phi = block_views(cfg.blocks@);
                    let ghost phi = instrs[k as int];
                    let mut q: usize = 0;
                    while q < preds.len()
                        invariant
                            q <= preds.len(),
                            n == cfg.blocks.len(),
                            cfg.wf(),
                            cfg.graph == old(cfg).graph,
                            cfg.args == old(cfg).args,
                            is_phi_of(phi, dest@, ty, names(args@), names(labels@)),
                            block_views(cfg.blocks@) == lowered_phi(
                                before_phi,
                                preds@,
                                q as nat,
                                phi,
                            ),
                        decreases preds.len() - q,
                    {
                        let p = preds[q];
                        if p < cfg.blocks.len() {
                            let ghost done = block_views(cfg.blocks@);
                            match lower_one(&dest, &ty, &args, &labels, &cfg.blocks[p].label) {
                                Some(instr) => {
                                    let len = cfg.blocks[p].instrs.len();
                                    let at = if len == 0 {
                                        0
                                    } else {
                                        len - 1
                                    };
                                    let ghost was = cfg.blocks[p as int]@.instrs;
                                    cfg.blocks[p].instrs.insert(at, instr);
                                    proof {
                                        assert(cfg.blocks[p as int]@.instrs =~= before_last(was, instr@));
                                        assert(block_views(cfg.blocks@) =~= done.update(
                                            p as int,
                                            BlockView {
                                                label: done[p as int].label,
                                                instrs: before_last(done[p as int].instrs, instr@),
                                            },
                                        ));
                                    }
                                },
                                None => {},
                            }
                        }
                        q += 1;
                    }
                },
                None => {},
            }
            k += 1;
        }
        i += 1;
    }
    let ghost lowered_all = block_views(cfg.blocks@);
    proof {
        assert(lowered_all == lowered_blocks(start, flow, n as nat));
        lemma_lowered_blocks_shape(start, flow, n as nat);
    }
    let mut j: usize = 0;
    while j < n
        invariant
            j <= n,
            n == cfg.blocks.len(),
            n == lowered_all.len(),
            cfg.wf(),
            cfg.graph == old(cfg).graph,
            cfg.args == old(cfg).args,
            forall|b: int|
                0 <= b < j ==> (#[trigger] cfg.blocks[b])@ == (BlockView {
                    label: lowered_all[b].label,
                    instrs: without_phis(lowered_all[b].instrs),
                }),
            forall|b: int| j <= b < n ==> (#[trigger] cfg.blocks[b])@ == lowered_all[b],
        decreases n - j,
    {
        strip_phis(&mut cfg.blocks[j]);
        j += 1;
    }
    proof {
        assert(block_views(cfg.blocks@) =~= phi_free(start, flow));
    }
}

/// Lowering keeps the number of blocks and their labels.
proof fn lemma_lowered_instrs_shape(
    blocks: Seq<BlockView>,
    preds: Seq<usize>,
    instrs: Seq<InstrView>,
    upto: nat,
)
    ensures
        lowered_instrs(blocks, preds, instrs, upto).len() == blocks.len(),
        forall|i: int|
            0 <= i < blocks.len() ==> (#[trigger] lowered_instrs(blocks, preds, instrs, upto)[i]).label
                == blocks[i].label,
    decreases upto,
{
    if upto > 0 {
        lemma_lowered_instrs_shape(blocks, preds, instrs, (upto - 1) as nat);
        let done = lowered_instrs(blocks, preds, instrs, (upto - 1) as nat);
        lemma_lowered_phi_shape(done, preds, preds.len(), instrs[upto - 1]);
    }
}

/// Lowering keeps the number of blocks and their labels.
proof fn lemma_lowered_blocks_shape(blocks: Seq<BlockView>, flow: Map<(usize, usize), u8>, upto: nat)
    ensures
        lowered_blocks(blocks, flow, upto).len() == blocks.len(),
        forall|i: int|
            0 <= i < blocks.len() ==> (#[trigger] lowered_blocks(blocks, flow, upto)[i]).label
                == blocks[i].label,
    decreases upto,
{
    if upto > 1 {
        lemma_lowered_blocks_shape(blocks, flow, (upto - 1) as nat);
        let done = lowered_blocks(blocks, flow, (upto - 1) as nat);
        let i = (upto - 1) as usize;
        lemma_lowered_instrs_shape(
            done,
            listing(sources(flow, i)),
            done[i as int].instrs,
            done[i as int].instrs.len(),
        );
    }
}

} // verus!
