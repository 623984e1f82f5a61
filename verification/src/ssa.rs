//! Static single assignment form: into it and out of it.
use crate::blocks::{block_views, BlockView};
use crate::bril2ssa::{
    all_variables, number_lists, placed, pred_labels, PhiResult, SSAConverter,
};
use crate::cfg::{CFGNode, CFG};
use crate::dom::{DomResult, DominatorUtil};
use crate::graph::{graph_edges, graph_nodes};
use crate::ir::{arg_names, arg_types, instr_views, InstrView, Instruction, Type};
use crate::order::desc_listing;
use crate::phi::{phi_instr, PhiView};
use crate::rename::{phi_table, renamed_from, Names, RenameView};
use crate::ssa2bril::{phi_free, remove_phi_nodes};
use crate::stack::initial_stacks;
use vstd::prelude::*;

verus! {

/// The phi instructions of a list of phi nodes, in their order.
pub open spec fn phi_instrs(ps: Seq<PhiView>) -> Seq<InstrView> {
    Seq::new(ps.len(), |i: int| phi_instr(ps[i]))
}

/// The blocks, each with the phi instructions of its phi nodes at its head,
/// in the order in which the phi nodes were recorded.
pub open spec fn with_phis(blocks: Seq<BlockView>, phis: Seq<Seq<PhiView>>) -> Seq<BlockView> {
    Seq::new(
        blocks.len(),
        |x: int|
            BlockView {
                label: blocks[x].label,
                instrs: if x < phis.len() {
                    phi_instrs(phis[x]) + blocks[x].instrs
                } else {
                    blocks[x].instrs
                },
            },
    )
}

/// The state in which renaming starts: the phi nodes are placed, nothing is
/// renamed, and each parameter stands for itself.
pub open spec fn ssa_start(
    blocks: Seq<BlockView>,
    params: Seq<Seq<char>>,
    types: Seq<Type>,
    flow: Map<(usize, usize), u8>,
    frontier: Seq<Seq<usize>>,
) -> RenameView {
    RenameView {
        blocks,
        phis: Seq::new(
            blocks.len() + 1,
            |x: int|
                placed(
                    blocks,
                    params,
                    types,
                    frontier,
                    pred_labels(blocks, flow, x as usize),
                    desc_listing(all_variables(blocks, params)),
                    x as usize,
                ),
        ),
        names: Names { stack: initial_stacks(params), counter: Map::empty() },
    }
}

/// The state after renaming from the first block down the dominator tree.
pub open spec fn ssa_renamed(
    blocks: Seq<BlockView>,
    params: Seq<Seq<char>>,
    types: Seq<Type>,
    flow: Map<(usize, usize), u8>,
    frontier: Seq<Seq<usize>>,
    tree: Map<(usize, usize), u8>,
) -> RenameView {
    renamed_from(ssa_start(blocks, params, types, flow, frontier), flow, tree, 0, blocks.len() + 1)
}

/// The blocks of a function in static single assignment form, given the
/// dominance frontiers and the dominator tree of its graph: phi nodes are
/// placed, the variables renamed from the first block down the tree, and
/// the phi nodes written into their blocks.
pub open spec fn ssa_blocks(
    blocks: Seq<BlockView>,
    params: Seq<Seq<char>>,
    types: Seq<Type>,
    flow: Map<(usize, usize), u8>,
    frontier: Seq<Seq<usize>>,
    tree: Map<(usize, usize), u8>,
) -> Seq<BlockView> {
    with_phis(
        ssa_renamed(blocks, params, types, flow, frontier, tree).blocks,
        ssa_renamed(blocks, params, types, flow, frontier, tree).phis,
    )
}

impl SSAConverter {
    /// Writes the phi nodes into their blocks, as the first instructions
    /// of each block.
    pub fn insert_phi_nodes(&mut self, phi_nodes: &PhiResult)
        requires
            old(self).wf(),
        ensures
            final(self).wf(),
            final(self).cfg.graph == old(self).cfg.graph,
            final(self).cfg.args == old(self).cfg.args,
            final(self).stack == old(self).stack,
            final(self).counter == old(self).counter,
            block_views(final(self).cfg.blocks@) == with_phis(
                block_views(old(self).cfg.blocks@),
                phi_table(phi_nodes@),
            ),
    {
        let n = self.cfg.blocks.len();
        let ghost before = block_views(self.cfg.blocks@);
        let ghost phis = phi_table(phi_nodes@);
        let mut x: usize = 0;
        while x < n
            invariant
                x <= n,
                n == self.cfg.blocks.len(),
                n == before.len(),
                self.wf(),
                self.cfg.graph == old(self).cfg.graph,
                self.cfg.args == old(self).cfg.args,
                self.stack == old(self).stack,
                self.counter == old(self).counter,
                phis == phi_table(phi_nodes@),
                forall|b: int|
                    0 <= b < x ==> (#[trigger] self.cfg.blocks[b])@ == with_phis(before, phis)[b],
                forall|b: int| x <= b < n ==> (#[trigger] self.cfg.blocks[b])@ == before[b],
            decreases n - x,
        {
            if x < phi_nodes.len() {
                let mut head: Vec<Instruction> = Vec::new();
                let mut k: usize = 0;
                while k < phi_nodes[x].len()
                    invariant
                        k <= phi_nodes[x as int].len(),
                        x < phi_nodes.len(),
                        head.len() == k,
                        forall|q: int|
                            0 <= q < k ==> (#[trigger] head[q])@ == phi_instr(phi_nodes[x as int][q]@),
                    decreases phi_nodes[x as int].len() - k,
                {
                    head.push(phi_nodes[x][k].to_instr());
                    k += 1;
                }
                let ghost body = self.cfg.blocks[x as int]@.instrs;
                let ghost top = instr_views(head@);
                assert(top =~= phi_instrs(phis[x as int]));
                head.append(&mut self.cfg.blocks[x].instrs);
                assert(instr_views(head@) =~= top + body);
                self.cfg.blocks[x].instrs = head;
            }
            x += 1;
        }
        assert(block_views(self.cfg.blocks@) =~= with_phis(before, phis));
    }
}

/// The function in static single assignment form, given the dominance
/// result of its graph.
pub fn convert_with_dominance(source: &CFG, dom: &DomResult) -> (r: CFG)
    requires
        source.wf(),
        dom.is_result_for(source),
    ensures
        r.wf(),
        graph_nodes(r.graph) == graph_nodes(source.graph),
        graph_edges(r.graph) == graph_edges(source.graph),
        arg_names(r.args@) == arg_names(source.args@),
        arg_types(r.args@) == arg_types(source.args@),
        block_views(r.blocks@) == ssa_blocks(
            block_views(source.blocks@),
            arg_names(source.args@),
            arg_types(source.args@),
            graph_edges(source.graph),
            number_lists(dom.dominance_frontier@),
            graph_edges(dom.dominator_tree),
        ),
{
    let copy = source.clone();
    assert(copy.blocks.len() == block_views(copy.blocks@).len());
    assert(source.blocks.len() == block_views(source.blocks@).len());
    let mut converter = SSAConverter::new(copy);
    proof {
        assert(converter.cfg.blocks.len() == source.blocks.len());
        assert forall|d: int, j: int|
            0 <= d < dom.dominance_frontier.len() && 0 <= j < dom.dominance_frontier[d].len() implies #[trigger] dom.dominance_frontier[d][j]
            < dom.dominance_frontier.len() by {
            assert(dom.dominance_frontier[d]@.contains(dom.dominance_frontier[d][j]));
        }
    }
    let mut phi_nodes = converter.make_phi_nodes(&dom.dominance_frontier);
    proof {
        let blocks = block_views(source.blocks@);
        let params = arg_names(source.args@);
        let types = arg_types(source.args@);
        let flow = graph_edges(source.graph);
        let vars = desc_listing(all_variables(blocks, params));
        assert(phi_table(phi_nodes@) =~= Seq::new(
            blocks.len() + 1,
            |x: int|
                placed(
                    blocks,
                    params,
                    types,
                    number_lists(dom.dominance_frontier@),
                    pred_labels(blocks, flow, x as usize),
                    vars,
                    x as usize,
                ),
        ));
    }
    converter.rename(CFGNode::Block(0), &mut phi_nodes, &dom.dominator_tree);
    converter.insert_phi_nodes(&phi_nodes);
    converter.cfg
}

/// The function in static single assignment form: every variable is
/// written by one instruction, and where different definitions of a
/// variable meet a phi instruction chooses between them.
pub fn convert_to_ssa(source: &CFG) -> (r: CFG)
    requires
        source.wf(),
    ensures
        r.wf(),
        graph_nodes(r.graph) == graph_nodes(source.graph),
        graph_edges(r.graph) == graph_edges(source.graph),
        arg_names(r.args@) == arg_names(source.args@),
        arg_types(r.args@) == arg_types(source.args@),
        exists|dom: DomResult| #[trigger]
            dom.is_result_for(source) && block_views(r.blocks@) == ssa_blocks(
                block_views(source.blocks@),
                arg_names(source.args@),
                arg_types(source.args@),
                graph_edges(source.graph),
                number_lists(dom.dominance_frontier@),
                graph_edges(dom.dominator_tree),
            ),
{
    let dom = source.find_dominators();
    convert_with_dominance(source, &dom)
}

/// The function out of static single assignment form: the phi instructions
/// have become copies at the ends of the predecessors.
pub fn convert_from_ssa(source: &CFG) -> (r: CFG)
    requires
        source.wf(),
    ensures
        r.wf(),
        graph_nodes(r.graph) == graph_nodes(source.graph),
        graph_edges(r.graph) == graph_edges(source.graph),
        arg_names(r.args@) == arg_names(source.args@),
        arg_types(r.args@) == arg_types(source.args@),
        block_views(r.blocks@) == phi_free(block_views(source.blocks@), graph_edges(source.graph)),
{
    let mut cfg = source.clone();
    assert(cfg.blocks.len() == block_views(cfg.blocks@).len());
    assert(source.blocks.len() == block_views(source.blocks@).len());
    remove_phi_nodes(&mut cfg);
    cfg
}

} // verus!
