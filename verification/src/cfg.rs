//! Control-flow graphs: the blocks of a function joined by typed edges, with
//! one more node, `Return`, that every returning block leads to.
use crate::blocks::{
    block_views, clone_blocks, distinct, flat, holders, Block, BlockView, FunctionHelpers,
};
use crate::form::{form_blocks, form_blocks_spec};
use crate::graph::{
    graph_add_edge, graph_add_node, graph_clone, graph_edge_weight, graph_edges, graph_new,
    graph_node_list, graph_nodes, graph_predecessors, graph_successors, Graph,
};
use crate::ir::{
    arg_names, arg_types, clone_args, clone_names, code_views, find_last_name, last_index,
    lemma_last_index_found, names, Argument, EffectOps, Function, InstrView,
    Instruction,
};
use vstd::prelude::*;

verus! {

/// A node of a control-flow graph: a block, by its position, or the sink.
#[derive(Debug, Hash, Clone, Copy, PartialEq, Eq, PartialOrd, Ord, Structural)]
pub enum CFGNode {
    Block(usize),
    Return,
}

/// The kind of an edge: taken always, or on one outcome of a branch.
#[derive(Debug, Clone, Copy, PartialEq, Eq, Structural)]
pub enum Edge {
    Always,
    Bool(bool),
}

impl Edge {
    /// The weight that stands for the edge kind in the graph.
    pub open spec fn weight(self) -> u8 {
        match self {
            Edge::Always => 0,
            Edge::Bool(false) => 1,
            Edge::Bool(true) => 2,
        }
    }

    /// The edge kind that a weight stands for.
    pub open spec fn of_weight(w: u8) -> Edge {
        if w == 0 {
            Edge::Always
        } else if w == 1 {
            Edge::Bool(false)
        } else {
            Edge::Bool(true)
        }
    }

    pub fn to_weight(self) -> (w: u8)
        ensures
            w == self.weight(),
            Edge::of_weight(w) == self,
    {
        match self {
            Edge::Always => 0,
            Edge::Bool(false) => 1,
            Edge::Bool(true) => 2,
        }
    }

    pub fn from_weight(w: u8) -> (e: Edge)
        ensures
            e == Edge::of_weight(w),
    {
        if w == 0 {
            Edge::Always
        } else if w == 1 {
            Edge::Bool(false)
        } else {
            Edge::Bool(true)
        }
    }
}

/// A control-flow graph. In `graph` the block at position `i` is the node
/// `i`, and the sink is the node whose number is the number of blocks.
pub struct CFG {
    pub blocks: Vec<Block>,
    pub graph: Graph,
    pub args: Vec<Argument>,
}

/// Why no control-flow graph could be built.
#[derive(Debug, PartialEq, Eq)]
pub enum CfgError {
    /// The block ends in a jump without a label or a branch with fewer than two.
    MissingLabel { block: usize },
    /// The block ends in a jump or branch to a label that no block has.
    UnresolvedLabel { block: usize, label: String },
    /// There are so many blocks that the sink cannot be numbered after them.
    TooManyBlocks,
}

/// The mathematical view of a `CfgError`, without the block.
pub enum Fault {
    MissingLabel,
    UnresolvedLabel(Seq<char>),
    TooManyBlocks,
}

impl CfgError {
    /// The position of the offending block.
    pub open spec fn at(self) -> usize {
        match self {
            CfgError::MissingLabel { block } => block,
            CfgError::UnresolvedLabel { block, .. } => block,
            CfgError::TooManyBlocks => 0,
        }
    }

    /// What is wrong with that block.
    pub open spec fn fault(self) -> Fault {
        match self {
            CfgError::MissingLabel { .. } => Fault::MissingLabel,
            CfgError::UnresolvedLabel { label, .. } => Fault::UnresolvedLabel(label@),
            CfgError::TooManyBlocks => Fault::TooManyBlocks,
        }
    }
}

/// The labels of a run of blocks.
pub open spec fn block_labels(bs: Seq<BlockView>) -> Seq<Seq<char>> {
    Seq::new(bs.len(), |i: int| bs[i].label)
}

/// How a block ends, as written.
pub enum Ending {
    /// Without a terminator.
    Open,
    Return,
    Jump(Seq<Seq<char>>),
    Branch(Seq<Seq<char>>),
}

/// How the block ends.
pub open spec fn ending(b: BlockView) -> Ending {
    if b.instrs.len() == 0 {
        Ending::Open
    } else {
        match b.instrs.last() {
            InstrView::Effect { op, labels, .. } => if op == EffectOps::Return {
                Ending::Return
            } else if op == EffectOps::Jump {
                Ending::Jump(labels)
            } else if op == EffectOps::Branch {
                Ending::Branch(labels)
            } else {
                Ending::Open
            },
            _ => Ending::Open,
        }
    }
}

/// Where control goes when it leaves a block.
pub enum Exit {
    /// To the sink.
    Return,
    /// To one block.
    Jump(usize),
    /// To the first block if the condition holds, else to the second.
    Branch(usize, usize),
    /// To the block that follows in the text, or to the sink after the last.
    Next,
}

/// The block that carries `label`: the last one, if several do.
pub open spec fn label_target(all: Seq<Seq<char>>, label: Seq<char>) -> Option<usize> {
    last_index(all, label)
}

/// Where control goes from a block with the given ending, or what is wrong
/// with its labels.
pub open spec fn resolve(all: Seq<Seq<char>>, e: Ending) -> Result<Exit, Fault> {
    match e {
        Ending::Open => Ok(Exit::Next),
        Ending::Return => Ok(Exit::Return),
        Ending::Jump(labels) => if labels.len() < 1 {
            Err(Fault::MissingLabel)
        } else {
            match label_target(all, labels[0]) {
                Some(t) => Ok(Exit::Jump(t)),
                None => Err(Fault::UnresolvedLabel(labels[0])),
            }
        },
        Ending::Branch(labels) => if labels.len() < 2 {
            Err(Fault::MissingLabel)
        } else {
            match label_target(all, labels[0]) {
                Some(t) => match label_target(all, labels[1]) {
                    Some(f) => Ok(Exit::Branch(t, f)),
                    None => Err(Fault::UnresolvedLabel(labels[1])),
                },
                None => Err(Fault::UnresolvedLabel(labels[0])),
            }
        },
    }
}

/// Where control goes from block `i` of `bs`.
pub open spec fn exit_of(bs: Seq<BlockView>, i: int) -> Result<Exit, Fault> {
    resolve(block_labels(bs), ending(bs[i]))
}

/// Where control goes from block `i` of `bs`, if its labels are in order.
pub open spec fn way_out(bs: Seq<BlockView>, i: int) -> Exit {
    match exit_of(bs, i) {
        Ok(e) => e,
        Err(_) => Exit::Next,
    }
}

/// A jump to `label`.
pub open spec fn jump_to(label: Seq<char>) -> InstrView {
    InstrView::Effect {
        op: EffectOps::Jump,
        args: Seq::empty(),
        funcs: Seq::empty(),
        labels: seq![label],
    }
}

/// A return without a value.
pub open spec fn plain_return() -> InstrView {
    InstrView::Effect {
        op: EffectOps::Return,
        args: Seq::empty(),
        funcs: Seq::empty(),
        labels: Seq::empty(),
    }
}

/// Block `i` of `bs` with its way out made explicit: a block without a
/// terminator gets a jump to the block that follows it, the last block a
/// return.
pub open spec fn closed_block(bs: Seq<BlockView>, i: int) -> BlockView {
    if ending(bs[i]) is Open {
        BlockView {
            label: bs[i].label,
            instrs: bs[i].instrs.push(
                if i + 1 < bs.len() {
                    jump_to(bs[i + 1].label)
                } else {
                    plain_return()
                },
            ),
        }
    } else {
        bs[i]
    }
}

/// Every block of `bs` with its way out made explicit.
pub open spec fn closed_blocks(bs: Seq<BlockView>) -> Seq<BlockView> {
    Seq::new(bs.len(), |i: int| closed_block(bs, i))
}

/// The edges that leave block `i` of `n`, added to `edges` in the order in
/// which they are written; a second edge to the same block replaces the first.
pub open spec fn add_exit(edges: Map<(usize, usize), u8>, i: usize, n: usize, e: Exit) -> Map<
    (usize, usize),
    u8,
> {
    match e {
        Exit::Return => edges.insert((i, n), Edge::Always.weight()),
        Exit::Jump(t) => edges.insert((i, t), Edge::Always.weight()),
        Exit::Branch(t, f) => edges.insert((i, t), Edge::Bool(true).weight()).insert(
            (i, f),
            Edge::Bool(false).weight(),
        ),
        Exit::Next => if i + 1 < n {
            edges.insert((i, (i + 1) as usize), Edge::Always.weight())
        } else {
            edges.insert((i, n), Edge::Always.weight())
        },
    }
}

/// The nodes that block `i` of `n` and its way out bring into the graph.
pub open spec fn add_exit_nodes(nodes: Set<usize>, i: usize, n: usize, e: Exit) -> Set<usize> {
    match e {
        Exit::Return => nodes.insert(i).insert(n),
        Exit::Jump(t) => nodes.insert(i).insert(t),
        Exit::Branch(t, f) => nodes.insert(i).insert(t).insert(f),
        Exit::Next => if i + 1 < n {
            nodes.insert(i).insert((i + 1) as usize)
        } else {
            nodes.insert(i).insert(n)
        },
    }
}

/// The edges that leave the first `k` blocks of `bs`.
pub open spec fn edges_upto(bs: Seq<BlockView>, k: nat) -> Map<(usize, usize), u8>
    decreases k,
{
    if k == 0 {
        Map::empty()
    } else {
        match exit_of(bs, k - 1) {
            Ok(e) => add_exit(edges_upto(bs, (k - 1) as nat), (k - 1) as usize, bs.len() as usize, e),
            Err(_) => edges_upto(bs, (k - 1) as nat),
        }
    }
}

/// The nodes that the first `k` blocks of `bs` bring into the graph.
pub open spec fn nodes_upto(bs: Seq<BlockView>, k: nat) -> Set<usize>
    decreases k,
{
    if k == 0 {
        Set::empty()
    } else {
        match exit_of(bs, k - 1) {
            Ok(e) => add_exit_nodes(
                nodes_upto(bs, (k - 1) as nat),
                (k - 1) as usize,
                bs.len() as usize,
                e,
            ),
            Err(_) => nodes_upto(bs, (k - 1) as nat),
        }
    }
}

impl CFG {
    /// The number that stands for `node` in the graph.
    pub open spec fn id_of(&self, node: CFGNode) -> usize {
        match node {
            CFGNode::Block(i) => i,
            CFGNode::Return => self.blocks.len(),
        }
    }

    /// The node that a number of the graph stands for.
    pub open spec fn node_of(&self, id: usize) -> CFGNode {
        if id < self.blocks.len() {
            CFGNode::Block(id)
        } else {
            CFGNode::Return
        }
    }

    /// A block of this graph, or the sink.
    pub open spec fn holds(&self, node: CFGNode) -> bool {
        match node {
            CFGNode::Block(i) => i < self.blocks.len(),
            CFGNode::Return => true,
        }
    }

    /// Whether `node` is in the graph.
    pub open spec fn has_node(&self, node: CFGNode) -> bool {
        self.holds(node) && graph_nodes(self.graph).contains(self.id_of(node))
    }

    /// Whether an edge leads from `a` to `b`.
    pub open spec fn has_edge(&self, a: CFGNode, b: CFGNode) -> bool {
        self.holds(a) && self.holds(b) && graph_edges(self.graph).contains_key(
            (self.id_of(a), self.id_of(b)),
        )
    }

    /// The kind of the edge from `a` to `b`.
    pub open spec fn edge_kind(&self, a: CFGNode, b: CFGNode) -> Edge
        recommends
            self.has_edge(a, b),
    {
        Edge::of_weight(graph_edges(self.graph)[(self.id_of(a), self.id_of(b))])
    }

    /// The graph fits the blocks: every block is a node, no node is numbered
    /// beyond the sink, and every edge leaves a block.
    pub open spec fn wf(&self) -> bool {
        let n = self.blocks.len();
        &&& n < usize::MAX
        &&& forall|x: usize| graph_nodes(self.graph).contains(x) ==> x <= n
        &&& forall|i: usize| i < n ==> graph_nodes(self.graph).contains(i)
        &&& forall|a: usize, b: usize| #[trigger]
            graph_edges(self.graph).contains_key((a, b)) ==> a < n && b <= n && graph_nodes(
                self.graph,
            ).contains(b)
    }

    /// The graph is the control-flow graph of the blocks `raw`: its blocks
    /// are those with their ways out made explicit, and its nodes and edges
    /// are the ones that the ways out give.
    pub open spec fn is_graph_of(&self, raw: Seq<BlockView>) -> bool {
        &&& block_views(self.blocks@) == closed_blocks(raw)
        &&& graph_edges(self.graph) == edges_upto(raw, raw.len())
        &&& graph_nodes(self.graph) == nodes_upto(raw, raw.len())
    }

    /// The block of a node; none for the sink and for a block that does not
    /// exist.
    pub fn get_block(&self, node: CFGNode) -> (r: Option<&Block>)
        ensures
            r == match node {
                CFGNode::Block(i) => if i < self.blocks.len() {
                    Some(&self.blocks[i as int])
                } else {
                    None
                },
                CFGNode::Return => None,
            },
    {
        match node {
            CFGNode::Block(i) => if i < self.blocks.len() {
                Some(&self.blocks[i])
            } else {
                None
            },
            CFGNode::Return => None,
        }
    }

    /// The block of a node, to be changed in place.
    pub fn get_block_mut(&mut self, node: CFGNode) -> (r: Option<&mut Block>)
        ensures
            match r {
                Some(b) => match node {
                    CFGNode::Block(i) => {
                        &&& i < old(self).blocks.len()
                        &&& *b == old(self).blocks[i as int]
                        &&& final(self).blocks@ == old(self).blocks@.update(i as int, *final(b))
                        &&& final(self).graph == old(self).graph
                        &&& final(self).args == old(self).args
                    },
                    CFGNode::Return => false,
                },
                None => {
                    &&& *final(self) == *old(self)
                    &&& match node {
                        CFGNode::Block(i) => i >= old(self).blocks.len(),
                        CFGNode::Return => true,
                    }
                },
            },
    {
        match node {
            CFGNode::Block(i) => if i < self.blocks.len() {
                Some(&mut self.blocks[i])
            } else {
                None
            },
            CFGNode::Return => None,
        }
    }

    /// The number that stands for `node` in the graph.
    pub fn node_id(&self, node: CFGNode) -> (id: usize)
        ensures
            id == self.id_of(node),
    {
        match node {
            CFGNode::Block(i) => i,
            CFGNode::Return => self.blocks.len(),
        }
    }

    /// The node that a number of the graph stands for.
    pub fn node_at(&self, id: usize) -> (node: CFGNode)
        ensures
            node == self.node_of(id),
    {
        if id < self.blocks.len() {
            CFGNode::Block(id)
        } else {
            CFGNode::Return
        }
    }

    /// The kind of the edge from `a` to `b`, if there is one.
    pub fn edge(&self, a: CFGNode, b: CFGNode) -> (r: Option<Edge>)
        ensures
            r == if self.has_edge(a, b) {
                Some(self.edge_kind(a, b))
            } else {
                None
            },
    {
        let valid_a = match a {
            CFGNode::Block(i) => i < self.blocks.len(),
            CFGNode::Return => true,
        };
        let valid_b = match b {
            CFGNode::Block(i) => i < self.blocks.len(),
            CFGNode::Return => true,
        };
        if !valid_a || !valid_b {
            return None;
        }
        match graph_edge_weight(&self.graph, self.node_id(a), self.node_id(b)) {
            Some(w) => Some(Edge::from_weight(w)),
            None => None,
        }
    }

    /// The nodes that an edge from `node` leads to.
    pub fn successors(&self, node: CFGNode) -> (r: Vec<CFGNode>)
        requires
            self.wf(),
        ensures
            r@.no_duplicates(),
            forall|b: CFGNode| #[trigger] r@.contains(b) <==> self.has_edge(node, b),
    {
        let mut result: Vec<CFGNode> = Vec::new();
        let valid = match node {
            CFGNode::Block(i) => i < self.blocks.len(),
            CFGNode::Return => true,
        };
        if !valid {
            return result;
        }
        let a = self.node_id(node);
        let ids = graph_successors(&self.graph, a);
        let mut i: usize = 0;
        while i < ids.len()
            invariant
                i <= ids.len(),
                self.wf(),
                a == self.id_of(node),
                ids@.no_duplicates(),
                forall|b: usize| #[trigger]
                    ids@.contains(b) <==> graph_edges(self.graph).contains_key((a, b)),
                result.len() == i,
                forall|k: int| 0 <= k < i ==> result[k] == self.node_of(ids[k]),
            decreases ids.len() - i,
        {
            result.push(self.node_at(ids[i]));
            i += 1;
        }
        proof {
            assert forall|k: int| 0 <= k < ids.len() implies ids[k] <= self.blocks.len()
                && self.id_of(self.node_of(#[trigger] ids[k])) == ids[k] by {
                assert(ids@.contains(ids[k]));
            }
            assert forall|b: CFGNode| #[trigger] result@.contains(b) <==> self.has_edge(node, b) by {
                if result@.contains(b) {
                    let k = choose|k: int| 0 <= k < result.len() && result[k] == b;
                    assert(ids@.contains(ids[k]));
                }
                if self.has_edge(node, b) {
                    assert(ids@.contains(self.id_of(b)));
                    let k = choose|k: int| 0 <= k < ids.len() && ids[k] == self.id_of(b);
                    assert(result[k] == b);
                }
            }
        }
        result
    }

    /// The nodes from which an edge leads to `node`.
    pub fn predecessors(&self, node: CFGNode) -> (r: Vec<CFGNode>)
        requires
            self.wf(),
        ensures
            r@.no_duplicates(),
            forall|a: CFGNode| #[trigger] r@.contains(a) <==> self.has_edge(a, node),
    {
        let mut result: Vec<CFGNode> = Vec::new();
        let valid = match node {
            CFGNode::Block(i) => i < self.blocks.len(),
            CFGNode::Return => true,
        };
        if !valid {
            return result;
        }
        let b = self.node_id(node);
        let ids = graph_predecessors(&self.graph, b);
        let mut i: usize = 0;
        while i < ids.len()
            invariant
                i <= ids.len(),
                self.wf(),
                b == self.id_of(node),
                ids@.no_duplicates(),
                forall|a: usize| #[trigger]
                    ids@.contains(a) <==> graph_edges(self.graph).contains_key((a, b)),
                result.len() == i,
                forall|k: int| 0 <= k < i ==> result[k] == self.node_of(ids[k]),
            decreases ids.len() - i,
        {
            result.push(self.node_at(ids[i]));
            i += 1;
        }
        proof {
            assert forall|k: int| 0 <= k < ids.len() implies ids[k] < self.blocks.len()
                && self.id_of(self.node_of(#[trigger] ids[k])) == ids[k] by {
                assert(ids@.contains(ids[k]));
            }
            assert forall|a: CFGNode| #[trigger] result@.contains(a) <==> self.has_edge(a, node) by {
                if result@.contains(a) {
                    let k = choose|k: int| 0 <= k < result.len() && result[k] == a;
                    assert(ids@.contains(ids[k]));
                }
                if self.has_edge(a, node) {
                    assert(ids@.contains(self.id_of(a)));
                    let k = choose|k: int| 0 <= k < ids.len() && ids[k] == self.id_of(a);
                    assert(result[k] == a);
                }
            }
        }
        result
    }

    /// The nodes of the graph.
    pub fn nodes(&self) -> (r: Vec<CFGNode>)
        requires
            self.wf(),
        ensures
            r@.no_duplicates(),
            forall|a: CFGNode| #[trigger] r@.contains(a) <==> self.has_node(a),
    {
        let mut result: Vec<CFGNode> = Vec::new();
        let ids = graph_node_list(&self.graph);
        let mut i: usize = 0;
        while i < ids.len()
            invariant
                i <= ids.len(),
                result.len() == i,
                forall|k: int| 0 <= k < i ==> result[k] == self.node_of(ids[k]),
            decreases ids.len() - i,
        {
            result.push(self.node_at(ids[i]));
            i += 1;
        }
        proof {
            assert forall|k: int| 0 <= k < ids.len() implies ids[k] <= self.blocks.len()
                && self.id_of(self.node_of(#[trigger] ids[k])) == ids[k] by {
                assert(ids@.contains(ids[k]));
            }
            assert forall|a: CFGNode| #[trigger] result@.contains(a) <==> self.has_node(a) by {
                if result@.contains(a) {
                    let k = choose|k: int| 0 <= k < result.len() && result[k] == a;
                    assert(ids@.contains(ids[k]));
                }
                if self.has_node(a) {
                    assert(ids@.contains(self.id_of(a)));
                    let k = choose|k: int| 0 <= k < ids.len() && ids[k] == self.id_of(a);
                    assert(result[k] == a);
                }
            }
        }
        result
    }
}

impl Clone for CFG {
    fn clone(&self) -> (r: Self)
        ensures
            block_views(r.blocks@) == block_views(self.blocks@),
            graph_nodes(r.graph) == graph_nodes(self.graph),
            graph_edges(r.graph) == graph_edges(self.graph),
            arg_names(r.args@) == arg_names(self.args@),
            arg_types(r.args@) == arg_types(self.args@),
    {
        CFG {
            blocks: clone_blocks(&self.blocks),
            graph: graph_clone(&self.graph),
            args: clone_args(&self.args),
        }
    }
}

/// How a block ends, with the labels of its terminator.
enum Leave {
    Open,
    Return,
    Jump(Vec<String>),
    Branch(Vec<String>),
}

impl Leave {
    spec fn as_ending(self) -> Ending {
        match self {
            Leave::Open => Ending::Open,
            Leave::Return => Ending::Return,
            Leave::Jump(l) => Ending::Jump(names(l@)),
            Leave::Branch(l) => Ending::Branch(names(l@)),
        }
    }
}

fn leave_of(block: &Block) -> (r: Leave)
    ensures
        r.as_ending() == ending(block@),
{
    let n = block.instrs.len();
    if n == 0 {
        return Leave::Open;
    }
    match &block.instrs[n - 1] {
        Instruction::Effect { op, labels, .. } => {
            if *op == EffectOps::Return {
                Leave::Return
            } else if *op == EffectOps::Jump {
                Leave::Jump(clone_names(labels))
            } else if *op == EffectOps::Branch {
                Leave::Branch(clone_names(labels))
            } else {
                Leave::Open
            }
        },
        _ => Leave::Open,
    }
}

/// Where control goes from block `i`, if its labels are in order.
fn resolve_leave(labels: &Vec<String>, leave: Leave, i: usize) -> (r: Result<Exit, CfgError>)
    ensures
        match r {
            Ok(exit) => {
                &&& resolve(names(labels@), leave.as_ending()) == Ok::<Exit, Fault>(exit)
                &&& match exit {
                    Exit::Jump(t) => t < labels.len(),
                    Exit::Branch(t, f) => t < labels.len() && f < labels.len(),
                    _ => true,
                }
            },
            Err(e) => e.at() == i && !(e.fault() is TooManyBlocks) && resolve(
                names(labels@),
                leave.as_ending(),
            ) == Err::<Exit, Fault>(e.fault()),
        },
{
    match leave {
        Leave::Open => Ok(Exit::Next),
        Leave::Return => Ok(Exit::Return),
        Leave::Jump(targets) => {
            if targets.len() < 1 {
                return Err(CfgError::MissingLabel { block: i });
            }
            proof {
                assert(names(labels@).len() == labels.len());
                lemma_last_index_found(names(labels@), targets[0]@);
            }
            match find_last_name(labels, &targets[0]) {
                Some(t) => Ok(Exit::Jump(t)),
                None => Err(CfgError::UnresolvedLabel { block: i, label: targets[0].clone() }),
            }
        },
        Leave::Branch(targets) => {
            if targets.len() < 2 {
                return Err(CfgError::MissingLabel { block: i });
            }
            proof {
                assert(names(labels@).len() == labels.len());
                lemma_last_index_found(names(labels@), targets[0]@);
                lemma_last_index_found(names(labels@), targets[1]@);
            }
            match find_last_name(labels, &targets[0]) {
                Some(t) => match find_last_name(labels, &targets[1]) {
                    Some(f) => Ok(Exit::Branch(t, f)),
                    None => Err(CfgError::UnresolvedLabel { block: i, label: targets[1].clone() }),
                },
                None => Err(CfgError::UnresolvedLabel { block: i, label: targets[0].clone() }),
            }
        },
    }
}

/// Adds block `i` of `n` and the edges of its way out to the graph.
fn add_exit_edges(graph: &mut Graph, i: usize, n: usize, exit: Exit)
    requires
        i < n,
    ensures
        graph_edges(*final(graph)) == add_exit(graph_edges(*old(graph)), i, n, exit),
        graph_nodes(*final(graph)) == add_exit_nodes(graph_nodes(*old(graph)), i, n, exit),
{
    let ghost nodes0 = graph_nodes(*graph);
    graph_add_node(graph, i);
    match exit {
        Exit::Return => {
            graph_add_edge(graph, i, n, Edge::Always.to_weight());
        },
        Exit::Jump(t) => {
            graph_add_edge(graph, i, t, Edge::Always.to_weight());
        },
        Exit::Branch(t, f) => {
            graph_add_edge(graph, i, t, Edge::Bool(true).to_weight());
            graph_add_edge(graph, i, f, Edge::Bool(false).to_weight());
        },
        Exit::Next => {
            if i + 1 < n {
                graph_add_edge(graph, i, i + 1, Edge::Always.to_weight());
            } else {
                graph_add_edge(graph, i, n, Edge::Always.to_weight());
            }
        },
    }
    assert(graph_nodes(*graph) =~= add_exit_nodes(nodes0, i, n, exit));
}

/// Adding the way out of block `i` keeps the graph within the blocks.
proof fn lemma_exit_fits(nodes: Set<usize>, edges: Map<(usize, usize), u8>, i: usize, n: usize, exit: Exit)
    requires
        i < n,
        match exit {
            Exit::Jump(t) => t < n,
            Exit::Branch(t, f) => t < n && f < n,
            _ => true,
        },
        forall|x: usize| nodes.contains(x) ==> x <= n,
        forall|j: usize| j < i ==> nodes.contains(j),
        forall|a: usize, b: usize| #[trigger]
            edges.contains_key((a, b)) ==> a < n && b <= n && nodes.contains(b),
    ensures
        forall|x: usize| add_exit_nodes(nodes, i, n, exit).contains(x) ==> x <= n,
        forall|j: usize| j < i + 1 ==> add_exit_nodes(nodes, i, n, exit).contains(j),
        forall|a: usize, b: usize| #[trigger]
            add_exit(edges, i, n, exit).contains_key((a, b)) ==> a < n && b <= n && add_exit_nodes(
                nodes,
                i,
                n,
                exit,
            ).contains(b),
{
}

/// Ends block `i`, which has no terminator, with a jump to the next block
/// or, if it is the last, with a return.
fn close_block(blocks: &mut Vec<Block>, labels: &Vec<String>, i: usize)
    requires
        i < old(blocks).len(),
        labels.len() == old(blocks).len(),
        ending(old(blocks)[i as int]@) is Open,
    ensures
        final(blocks).len() == old(blocks).len(),
        forall|j: int| 0 <= j < old(blocks).len() && j != i ==> final(blocks)[j] == old(blocks)[j],
        final(blocks)[i as int]@ == (BlockView {
            label: old(blocks)[i as int]@.label,
            instrs: old(blocks)[i as int]@.instrs.push(
                if i + 1 < labels.len() {
                    jump_to(labels[i + 1]@)
                } else {
                    plain_return()
                },
            ),
        }),
{
    let ghost before = blocks[i as int]@;
    if i + 1 < blocks.len() {
        let mut to: Vec<String> = Vec::new();
        to.push(labels[i + 1].clone());
        let jump = Instruction::Effect {
            op: EffectOps::Jump,
            args: Vec::new(),
            funcs: Vec::new(),
            labels: to,
        };
        proof {
            assert(names(to@) =~= seq![labels[i + 1]@]);
            assert(names(Seq::<String>::empty()) =~= Seq::<Seq<char>>::empty());
        }
        blocks[i].instrs.push(jump);
        assert(blocks[i as int]@.instrs =~= before.instrs.push(jump_to(labels[i + 1]@)));
    } else {
        let ret = Instruction::Effect {
            op: EffectOps::Return,
            args: Vec::new(),
            funcs: Vec::new(),
            labels: Vec::new(),
        };
        proof {
            assert(names(Seq::<String>::empty()) =~= Seq::<Seq<char>>::empty());
        }
        blocks[i].instrs.push(ret);
        assert(blocks[i as int]@.instrs =~= before.instrs.push(plain_return()));
    }
}

/// The control-flow graph of a function. Its blocks are those of
/// `form_blocks`, each with its way out made explicit; a block that ends in
/// a return has an `Always` edge to the sink, one that ends in a jump an
/// `Always` edge to the block of that label, one that ends in a branch a
/// `Bool(true)` edge to the block of its first label and a `Bool(false)`
/// edge to that of its second. A label stands for the last block that
/// carries it. The call fails at the first block whose jump or branch lacks
/// a label or names a label that no block carries.
pub fn generate_cfg(function: &Function) -> (r: Result<CFG, CfgError>)
    ensures
        match r {
            Ok(cfg) => {
                let raw = form_blocks_spec(code_views(function.instrs@));
                &&& raw.len() < usize::MAX
                &&& forall|i: int| 0 <= i < raw.len() ==> exit_of(raw, i) is Ok
                &&& cfg.is_graph_of(raw)
                &&& cfg.wf()
                &&& arg_names(cfg.args@) == arg_names(function.args@)
                &&& arg_types(cfg.args@) == arg_types(function.args@)
            },
            Err(e) => {
                let raw = form_blocks_spec(code_views(function.instrs@));
                if raw.len() == usize::MAX {
                    e.fault() is TooManyBlocks
                } else {
                    &&& e.at() < raw.len()
                    &&& exit_of(raw, e.at() as int) == Err::<Exit, Fault>(e.fault())
                    &&& forall|i: int| 0 <= i < e.at() ==> exit_of(raw, i) is Ok
                }
            },
        },
{
    let mut blocks = form_blocks(function);
    let ghost raw = block_views(blocks@);
    let n = blocks.len();
    if n == usize::MAX {
        return Err(CfgError::TooManyBlocks);
    }
    let mut labels: Vec<String> = Vec::new();
    let mut k: usize = 0;
    while k < n
        invariant
            k <= n,
            n == blocks.len(),
            labels.len() == k,
            forall|j: int| 0 <= j < k ==> labels[j]@ == blocks[j].label@,
        decreases n - k,
    {
        labels.push(blocks[k].label.clone());
        k += 1;
    }
    assert(names(labels@) =~= block_labels(raw));
    let mut graph = graph_new();
    let mut i: usize = 0;
    proof {
        assert(graph_edges(graph) =~= edges_upto(raw, 0));
        assert(graph_nodes(graph) =~= nodes_upto(raw, 0));
    }
    while i < n
        invariant
            i <= n,
            n == blocks.len(),
            n == raw.len(),
            n == labels.len(),
            n < usize::MAX,
            raw == form_blocks_spec(code_views(function.instrs@)),
            names(labels@) == block_labels(raw),
            forall|j: int| 0 <= j < i ==> exit_of(raw, j) is Ok,
            forall|j: int| 0 <= j < i ==> blocks[j]@ == closed_block(raw, j),
            forall|j: int| i <= j < n ==> blocks[j]@ == raw[j],
            graph_edges(graph) == edges_upto(raw, i as nat),
            graph_nodes(graph) == nodes_upto(raw, i as nat),
            forall|x: usize| graph_nodes(graph).contains(x) ==> x <= n,
            forall|j: usize| j < i ==> graph_nodes(graph).contains(j),
            forall|a: usize, b: usize| #[trigger]
                graph_edges(graph).contains_key((a, b)) ==> a < n && b <= n && graph_nodes(
                    graph,
                ).contains(b),
        decreases n - i,
    {
        let leave = leave_of(&blocks[i]);
        let open = match leave {
            Leave::Open => true,
            _ => false,
        };
        assert(open == (ending(raw[i as int]) is Open));
        assert(exit_of(raw, i as int) == resolve(names(labels@), leave.as_ending()));
        let exit = match resolve_leave(&labels, leave, i) {
            Ok(exit) => exit,
            Err(e) => {
                return Err(e);
            },
        };
        proof {
            lemma_exit_fits(graph_nodes(graph), graph_edges(graph), i, n, exit);
        }
        add_exit_edges(&mut graph, i, n, exit);
        if open {
            close_block(&mut blocks, &labels, i);
            if i + 1 < n {
                assert(names(labels@)[i + 1] == labels[i + 1]@);
            }
            assert(blocks[i as int]@ == closed_block(raw, i as int));
        } else {
            assert(blocks[i as int]@ == closed_block(raw, i as int));
        }
        i += 1;
    }
    let cfg = CFG { blocks, graph, args: clone_args(&function.args) };
    proof {
        assert(block_views(cfg.blocks@) =~= closed_blocks(raw));
    }
    Ok(cfg)
}

/// The edges that leave block `i` of `n` when control goes where `e` says.
pub open spec fn exit_edges(i: usize, n: usize, e: Exit) -> Map<(usize, usize), u8> {
    add_exit(Map::empty(), i, n, e)
}

/// The edges of the first `k` blocks, block by block: an edge from `a` is
/// there exactly when `a` is among those blocks and its way out gives it.
pub proof fn lemma_edges_upto(bs: Seq<BlockView>, k: nat, a: usize, b: usize)
    requires
        k <= bs.len() <= usize::MAX,
        forall|i: int| 0 <= i < k ==> exit_of(bs, i) is Ok,
    ensures
        edges_upto(bs, k).contains_key((a, b)) <==> a < k && exit_edges(
            a,
            bs.len() as usize,
            way_out(bs, a as int),
        ).contains_key((a, b)),
        edges_upto(bs, k).contains_key((a, b)) ==> edges_upto(bs, k)[(a, b)] == exit_edges(
            a,
            bs.len() as usize,
            way_out(bs, a as int),
        )[(a, b)],
    decreases k,
{
    if k > 0 {
        lemma_edges_upto(bs, (k - 1) as nat, a, b);
    }
}

/// The nodes of the first `k` blocks hold each of those blocks.
pub proof fn lemma_nodes_upto(bs: Seq<BlockView>, k: nat, a: usize)
    requires
        k <= bs.len() <= usize::MAX,
        forall|i: int| 0 <= i < k ==> exit_of(bs, i) is Ok,
        a < k,
    ensures
        nodes_upto(bs, k).contains(a),
    decreases k,
{
    if k > 0 && a < k - 1 {
        lemma_nodes_upto(bs, (k - 1) as nat, a);
    }
}

/// A control-flow graph is complete. Every block has an edge that leaves
/// it, and the first block is a node. A block that ends in a return has one
/// edge: an `Always` edge to the sink. A block that ends in a branch whose
/// two labels stand for different blocks has two edges: a `Bool(true)` edge
/// to the block of the first label and a `Bool(false)` edge to that of the
/// second.
pub proof fn lemma_cfg_complete(cfg: CFG, raw: Seq<BlockView>)
    requires
        cfg.is_graph_of(raw),
        forall|i: int| 0 <= i < raw.len() ==> exit_of(raw, i) is Ok,
    ensures
        forall|i: usize| #[trigger]
            cfg.holds(CFGNode::Block(i)) ==> exists|b: CFGNode| cfg.has_edge(CFGNode::Block(i), b),
        cfg.blocks.len() > 0 ==> cfg.has_node(CFGNode::Block(0)),
        forall|i: usize|
            i < cfg.blocks.len() && ending(#[trigger] cfg.blocks[i as int]@) is Return ==> {
                &&& cfg.has_edge(CFGNode::Block(i), CFGNode::Return)
                &&& cfg.edge_kind(CFGNode::Block(i), CFGNode::Return) == Edge::Always
                &&& forall|b: CFGNode| cfg.has_edge(CFGNode::Block(i), b) ==> b == CFGNode::Return
            },
        forall|i: usize|
            i < cfg.blocks.len() ==> match ending(#[trigger] cfg.blocks[i as int]@) {
                Ending::Branch(labels) => {
                    let all = block_labels(block_views(cfg.blocks@));
                    labels.len() >= 2 && label_target(all, labels[0]) is Some && label_target(
                        all,
                        labels[1],
                    ) is Some && {
                        let t = CFGNode::Block(label_target(all, labels[0]).unwrap());
                        let f = CFGNode::Block(label_target(all, labels[1]).unwrap());
                        t != f ==> {
                            &&& cfg.has_edge(CFGNode::Block(i), t)
                            &&& cfg.edge_kind(CFGNode::Block(i), t) == Edge::Bool(true)
                            &&& cfg.has_edge(CFGNode::Block(i), f)
                            &&& cfg.edge_kind(CFGNode::Block(i), f) == Edge::Bool(false)
                            &&& forall|b: CFGNode|
                                cfg.has_edge(CFGNode::Block(i), b) ==> b == t || b == f
                        }
                    }
                },
                _ => true,
            },
{
    let n = cfg.blocks.len();
    let bs = block_views(cfg.blocks@);
    assert(bs.len() == raw.len());
    assert(block_labels(bs) =~= block_labels(raw)) by {
        assert forall|i: int| 0 <= i < raw.len() implies bs[i].label == raw[i].label by {
            assert(bs[i] == closed_block(raw, i));
        }
    }
    assert forall|i: usize| #[trigger] cfg.holds(CFGNode::Block(i)) implies exists|b: CFGNode|
        cfg.has_edge(CFGNode::Block(i), b) by {
        let e = way_out(raw, i as int);
        let target: usize = match e {
            Exit::Return => n as usize,
            Exit::Jump(t) => t,
            Exit::Branch(t, f) => f,
            Exit::Next => if i + 1 < n {
                (i + 1) as usize
            } else {
                n as usize
            },
        };
        lemma_edges_upto(raw, raw.len(), i, target);
        lemma_exit_targets(raw, i as int);
        assert(cfg.has_edge(CFGNode::Block(i), cfg.node_of(target)));
    }
    if n > 0 {
        lemma_nodes_upto(raw, raw.len(), 0);
    }
    assert forall|i: usize| i < n && ending(#[trigger] cfg.blocks[i as int]@) is Return implies {
        &&& cfg.has_edge(CFGNode::Block(i), CFGNode::Return)
        &&& cfg.edge_kind(CFGNode::Block(i), CFGNode::Return) == Edge::Always
        &&& forall|b: CFGNode| cfg.has_edge(CFGNode::Block(i), b) ==> b == CFGNode::Return
    } by {
        assert(bs[i as int] == closed_block(raw, i as int));
        lemma_edges_upto(raw, raw.len(), i, n as usize);
        assert forall|b: CFGNode| cfg.has_edge(CFGNode::Block(i), b) implies b == CFGNode::Return by {
            lemma_edges_upto(raw, raw.len(), i, cfg.id_of(b));
        }
    }
    assert forall|i: usize| i < n implies match ending(#[trigger] cfg.blocks[i as int]@) {
        Ending::Branch(labels) => {
            let all = block_labels(block_views(cfg.blocks@));
            labels.len() >= 2 && label_target(all, labels[0]) is Some && label_target(
                all,
                labels[1],
            ) is Some && {
                let t = CFGNode::Block(label_target(all, labels[0]).unwrap());
                let f = CFGNode::Block(label_target(all, labels[1]).unwrap());
                t != f ==> {
                    &&& cfg.has_edge(CFGNode::Block(i), t)
                    &&& cfg.edge_kind(CFGNode::Block(i), t) == Edge::Bool(true)
                    &&& cfg.has_edge(CFGNode::Block(i), f)
                    &&& cfg.edge_kind(CFGNode::Block(i), f) == Edge::Bool(false)
                    &&& forall|b: CFGNode| cfg.has_edge(CFGNode::Block(i), b) ==> b == t || b == f
                }
            }
        },
        _ => true,
    } by {
        assert(bs[i as int] == closed_block(raw, i as int));
        match ending(cfg.blocks[i as int]@) {
            Ending::Branch(labels) => {
                assert(ending(raw[i as int]) == Ending::Branch(labels));
                lemma_exit_targets(raw, i as int);
                let all = block_labels(raw);
                let tt = label_target(all, labels[0]).unwrap();
                let ff = label_target(all, labels[1]).unwrap();
                lemma_edges_upto(raw, raw.len(), i, tt);
                lemma_edges_upto(raw, raw.len(), i, ff);
                assert forall|b: CFGNode| cfg.has_edge(CFGNode::Block(i), b) implies b
                    == CFGNode::Block(tt) || b == CFGNode::Block(ff) by {
                    lemma_edges_upto(raw, raw.len(), i, cfg.id_of(b));
                }
            },
            _ => {},
        }
    }
}

/// A jump or branch that resolves leads to blocks that exist.
pub proof fn lemma_exit_targets(bs: Seq<BlockView>, i: int)
    requires
        0 <= i < bs.len() <= usize::MAX,
        exit_of(bs, i) is Ok,
    ensures
        match way_out(bs, i) {
            Exit::Jump(t) => t < bs.len(),
            Exit::Branch(t, f) => t < bs.len() && f < bs.len(),
            _ => true,
        },
{
    match ending(bs[i]) {
        Ending::Jump(labels) => {
            lemma_last_index_found(block_labels(bs), labels[0]);
        },
        Ending::Branch(labels) => {
            lemma_last_index_found(block_labels(bs), labels[0]);
            lemma_last_index_found(block_labels(bs), labels[1]);
        },
        _ => {},
    }
}

/// The variables of a table, each with the blocks in which it occurs.
pub open spec fn grouped_by_node(r: Seq<(String, Vec<CFGNode>)>, vs: Seq<Seq<Seq<char>>>) -> bool {
    &&& Seq::new(r.len(), |k: int| r[k].0@) == distinct(flat(vs))
    &&& forall|k: int|
        0 <= k < r.len() ==> (#[trigger] r[k]).1@ == Seq::new(
            holders(vs, r[k].0@).len(),
            |a: int| CFGNode::Block(holders(vs, r[k].0@)[a]),
        )
}

/// The variables that the blocks of a graph write and read, each with the
/// blocks that do.
pub trait DataFlowHelpers {
    spec fn defs_by_block(&self) -> Seq<Seq<Seq<char>>>;

    spec fn uses_by_block(&self) -> Seq<Seq<Seq<char>>>;

    fn get_defs(&self) -> (r: Vec<(String, Vec<CFGNode>)>)
        ensures
            grouped_by_node(r@, self.defs_by_block()),
    ;

    fn get_uses(&self) -> (r: Vec<(String, Vec<CFGNode>)>)
        ensures
            grouped_by_node(r@, self.uses_by_block()),
    ;
}

/// The same grouping with each position as a block node.
fn as_block_nodes(groups: Vec<(String, Vec<usize>)>, Ghost(vs): Ghost<Seq<Seq<Seq<char>>>>) -> (r:
    Vec<(String, Vec<CFGNode>)>)
    requires
        crate::blocks::grouped(groups@, vs),
    ensures
        grouped_by_node(r@, vs),
{
    let mut r: Vec<(String, Vec<CFGNode>)> = Vec::new();
    let mut k: usize = 0;
    while k < groups.len()
        invariant
            k <= groups.len(),
            crate::blocks::grouped(groups@, vs),
            r.len() == k,
            forall|q: int| 0 <= q < k ==> (#[trigger] r[q]).0@ == groups[q].0@,
            forall|q: int|
                0 <= q < k ==> (#[trigger] r[q]).1@ == Seq::new(
                    holders(vs, groups[q].0@).len(),
                    |a: int| CFGNode::Block(holders(vs, groups[q].0@)[a]),
                ),
        decreases groups.len() - k,
    {
        let mut nodes: Vec<CFGNode> = Vec::new();
        let mut a: usize = 0;
        let ghost positions = groups[k as int].1@;
        while a < groups[k].1.len()
            invariant
                a <= groups[k as int].1.len(),
                k < groups.len(),
                positions == groups[k as int].1@,
                nodes.len() == a,
                forall|b: int| 0 <= b < a ==> nodes[b] == CFGNode::Block(positions[b]),
            decreases groups[k as int].1.len() - a,
        {
            nodes.push(CFGNode::Block(groups[k].1[a]));
            a += 1;
        }
        proof {
            assert(positions == holders(vs, groups[k as int].0@));
            assert(nodes@ =~= Seq::new(positions.len(), |b: int| CFGNode::Block(positions[b])));
        }
        r.push((groups[k].0.clone(), nodes));
        k += 1;
    }
    proof {
        assert(Seq::new(r.len() as nat, |q: int| r[q].0@) =~= Seq::new(
            groups.len() as nat,
            |q: int| groups[q].0@,
        ));
    }
    r
}

impl DataFlowHelpers for CFG {
    open spec fn defs_by_block(&self) -> Seq<Seq<Seq<char>>> {
        self.blocks.defs_by_block()
    }

    open spec fn uses_by_block(&self) -> Seq<Seq<Seq<char>>> {
        self.blocks.uses_by_block()
    }

    fn get_defs(&self) -> (r: Vec<(String, Vec<CFGNode>)>) {
        as_block_nodes(self.blocks.get_defs(), Ghost(self.blocks.defs_by_block()))
    }

    fn get_uses(&self) -> (r: Vec<(String, Vec<CFGNode>)>) {
        as_block_nodes(self.blocks.get_uses(), Ghost(self.blocks.uses_by_block()))
    }
}

} // verus!
