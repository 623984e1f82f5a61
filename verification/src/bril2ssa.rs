//! Into static single assignment form: where the phi nodes go, how the
//! variables are renamed, and how the phi nodes become instructions.
use crate::blocks::{
    block_views, dests, distinct, flat, lemma_dests, lemma_distinct, lemma_flat_holds,
    push_distinct, Block, BlockView, FunctionHelpers,
};
use crate::cfg::CFG;
use crate::graph::{graph_edges, graph_predecessors};
use crate::idf::{idf_flags, in_idf};
use crate::ir::{
    arg_names, arg_types, clone_names, find_name, first_index, has_name, lemma_first_index_found,
    names, InstrView, SafeAccess, Type,
};
use crate::order::{desc_listing, list_ascending, list_descending, listing};
use crate::phi::{new_phi, phi_views, Phi, PhiView};
use crate::stack::{initial_stacks, VariableCounter, VariableStack};
use vstd::prelude::*;

verus! {

/// The phi nodes of a function: for each node of the graph, by its number,
/// the phi nodes at its head.
pub type PhiResult = Vec<Vec<Phi>>;

/// The state of a conversion into static single assignment form.
pub struct SSAConverter {
    pub cfg: CFG,
    pub stack: VariableStack,
    pub counter: VariableCounter,
}

/// The block writes `v`.
pub open spec fn writes(b: BlockView, v: Seq<char>) -> bool {
    dests(b.instrs).contains(v)
}

/// The nodes that define `v`: the blocks that write it, and the first block
/// if `v` is a parameter.
pub open spec fn def_flags(blocks: Seq<BlockView>, params: Seq<Seq<char>>, v: Seq<char>) -> Seq<bool> {
    Seq::new(
        blocks.len() + 1,
        |i: int|
            (i < blocks.len() && writes(blocks[i], v)) || (i == 0 && blocks.len() > 0
                && params.contains(v)),
    )
}

/// The type of the first instruction at or after `from` that writes `v`.
pub open spec fn write_type(instrs: Seq<InstrView>, v: Seq<char>, from: nat) -> Option<Type>
    decreases instrs.len() - from,
{
    if from >= instrs.len() {
        None
    } else if instrs[from as int].dest() == Some(v) {
        instrs[from as int].ty()
    } else {
        write_type(instrs, v, from + 1)
    }
}

/// The type of the first instruction, in the blocks at or after `from`,
/// that writes `v`.
pub open spec fn def_type_from(blocks: Seq<BlockView>, v: Seq<char>, from: nat) -> Option<Type>
    decreases blocks.len() - from,
{
    if from >= blocks.len() {
        None
    } else {
        match write_type(blocks[from as int].instrs, v, 0) {
            Some(t) => Some(t),
            None => def_type_from(blocks, v, from + 1),
        }
    }
}

/// The type of a variable: that of the first instruction that writes it;
/// that of the parameter, if it is a parameter that nothing writes.
pub open spec fn var_type(
    blocks: Seq<BlockView>,
    params: Seq<Seq<char>>,
    types: Seq<Type>,
    v: Seq<char>,
) -> Type {
    match def_type_from(blocks, v, 0) {
        Some(t) => t,
        None => match first_index(params, v) {
            Some(i) => types[i as int],
            None => Type::Int,
        },
    }
}

/// The variables of a function: its parameters and what its blocks write.
pub open spec fn all_variables(blocks: Seq<BlockView>, params: Seq<Seq<char>>) -> Set<Seq<char>> {
    Set::new(
        |v: Seq<char>|
            params.contains(v) || exists|i: int| 0 <= i < blocks.len() && writes(#[trigger] blocks[i], v),
    )
}

/// The nodes with an edge to `x`.
pub open spec fn sources(edges: Map<(usize, usize), u8>, x: usize) -> Set<usize> {
    Set::new(|a: usize| edges.contains_key((a, x)))
}

/// The labels of the predecessors of `x`, in the order of the blocks.
pub open spec fn pred_labels(blocks: Seq<BlockView>, edges: Map<(usize, usize), u8>, x: usize) -> Seq<
    Seq<char>,
> {
    Seq::new(
        listing(sources(edges, x)).len(),
        |k: int| blocks[listing(sources(edges, x))[k] as int].label,
    )
}

/// The phi nodes that the variables `vars`, one after the other, put at the
/// node `x`: one for each variable that has `x` on the iterated dominance
/// frontier of the nodes that define it.
pub open spec fn placed(
    blocks: Seq<BlockView>,
    params: Seq<Seq<char>>,
    types: Seq<Type>,
    frontier: Seq<Seq<usize>>,
    labels: Seq<Seq<char>>,
    vars: Seq<Seq<char>>,
    x: usize,
) -> Seq<PhiView>
    decreases vars.len(),
{
    if vars.len() == 0 {
        Seq::empty()
    } else {
        let prev = placed(blocks, params, types, frontier, labels, vars.drop_last(), x);
        if in_idf(frontier, blocks.len(), def_flags(blocks, params, vars.last()), x) {
            prev.push(new_phi(vars.last(), var_type(blocks, params, types, vars.last()), labels))
        } else {
            prev
        }
    }
}

/// The views of a table of numbers.
pub open spec fn number_lists(v: Seq<Vec<usize>>) -> Seq<Seq<usize>> {
    Seq::new(v.len(), |i: int| v[i]@)
}

impl SSAConverter {
    /// A conversion at its start: nothing renamed, and each parameter
    /// standing for itself.
    pub fn new(cfg: CFG) -> (r: Self)
        ensures
            r.cfg == cfg,
            r.stack.wf(),
            r.counter.wf(),
            r.stack@ == initial_stacks(arg_names(cfg.args@)),
            r.counter@ == Map::<Seq<char>, usize>::empty(),
    {
        let mut params: Vec<String> = Vec::new();
        let mut i: usize = 0;
        while i < cfg.args.len()
            invariant
                i <= cfg.args.len(),
                params.len() == i,
                forall|k: int| 0 <= k < i ==> params[k]@ == cfg.args[k].name@,
            decreases cfg.args.len() - i,
        {
            params.push(cfg.args[i].name.clone());
            i += 1;
        }
        assert(names(params@) =~= arg_names(cfg.args@));
        let stack = VariableStack::new(&params);
        SSAConverter { cfg, stack, counter: VariableCounter::new() }
    }

    /// The names of the parameters.
    fn param_names(&self) -> (r: Vec<String>)
        ensures
            names(r@) == arg_names(self.cfg.args@),
    {
        let mut params: Vec<String> = Vec::new();
        let mut i: usize = 0;
        while i < self.cfg.args.len()
            invariant
                i <= self.cfg.args.len(),
                params.len() == i,
                forall|k: int| 0 <= k < i ==> params[k]@ == self.cfg.args[k].name@,
            decreases self.cfg.args.len() - i,
        {
            params.push(self.cfg.args[i].name.clone());
            i += 1;
        }
        assert(names(params@) =~= arg_names(self.cfg.args@));
        params
    }

    /// The variables of the function in descending order.
    pub fn variables(&self) -> (r: Vec<String>)
        ensures
            names(r@) == desc_listing(
                all_variables(block_views(self.cfg.blocks@), arg_names(self.cfg.args@)),
            ),
    {
        let ghost blocks = block_views(self.cfg.blocks@);
        let ghost params = arg_names(self.cfg.args@);
        let groups = self.cfg.blocks.get_defs();
        let ghost per_block = self.cfg.blocks.defs_by_block();
        let mut all: Vec<String> = Vec::new();
        let mut k: usize = 0;
        while k < groups.len()
            invariant
                k <= groups.len(),
                all.len() == k,
                forall|q: int| 0 <= q < k ==> all[q]@ == groups[q].0@,
            decreases groups.len() - k,
        {
            all.push(groups[k].0.clone());
            k += 1;
        }
        let ghost written = names(all@);
        proof {
            assert(written =~= Seq::new(groups.len() as nat, |q: int| groups[q].0@));
            assert(written == distinct(flat(per_block)));
            lemma_distinct(flat(per_block));
        }
        let given = self.param_names();
        let mut i: usize = 0;
        while i < given.len()
            invariant
                i <= given.len(),
                names(given@) == params,
                names(all@).no_duplicates(),
                forall|x: Seq<char>| #[trigger]
                    names(all@).contains(x) <==> written.contains(x) || params.take(i as int).contains(
                        x,
                    ),
            decreases given.len() - i,
        {
            let ghost before = names(all@);
            assert(params[i as int] == given[i as int]@);
            push_distinct(&mut all, given[i].clone());
            proof {
                let after = names(all@);
                let g = given[i as int]@;
                assert forall|x: Seq<char>| after.contains(x) <==> before.contains(x) || x == g by {
                    if before.contains(g) {
                    } else {
                        if after.contains(x) {
                            let a = choose|a: int| 0 <= a < after.len() && after[a] == x;
                            if a < before.len() {
                                assert(before[a] == x);
                            }
                        }
                        if before.contains(x) {
                            let a = choose|a: int| 0 <= a < before.len() && before[a] == x;
                            assert(after[a] == x);
                        }
                        assert(after[before.len() as int] == g);
                    }
                }
                assert(after.no_duplicates()) by {
                    if !before.contains(g) {
                        assert forall|a: int, b: int|
                            0 <= a < after.len() && 0 <= b < after.len() && a != b implies after[a]
                            != after[b] by {
                            if a < before.len() && b < before.len() {
                                assert(before[a] != before[b]);
                            } else if a < before.len() {
                                assert(before.contains(before[a]));
                            } else {
                                assert(before.contains(before[b]));
                            }
                        }
                    }
                }
                let more = params.take(i + 1);
                let less = params.take(i as int);
                assert forall|x: Seq<char>| more.contains(x) <==> less.contains(x) || x == g by {
                    if more.contains(x) {
                        let a = choose|a: int| 0 <= a < more.len() && more[a] == x;
                        if a < i {
                            assert(less[a] == x);
                        }
                    }
                    if less.contains(x) {
                        let a = choose|a: int| 0 <= a < less.len() && less[a] == x;
                        assert(more[a] == x);
                    }
                    if x == g {
                        assert(more[i as int] == x);
                    }
                }
                assert forall|x: Seq<char>| #[trigger]
                    after.contains(x) <==> written.contains(x) || more.contains(x) by {
                    assert(before.contains(x) <==> written.contains(x) || less.contains(x));
                }
            }
            i += 1;
        }
        proof {
            let listed = names(all@);
            assert(listed.to_set() =~= all_variables(blocks, params)) by {
                assert forall|x: Seq<char>| listed.to_set().contains(x) <==> all_variables(
                    blocks,
                    params,
                ).contains(x) by {
                    lemma_flat_holds(per_block, x);
                    if written.contains(x) {
                        assert(flat(per_block).contains(x));
                        let b = choose|b: int|
                            0 <= b < per_block.len() && (#[trigger] per_block[b]).contains(x);
                        lemma_distinct(dests(blocks[b].instrs));
                        assert(writes(blocks[b], x));
                    }
                    if exists|b: int| 0 <= b < blocks.len() && writes(#[trigger] blocks[b], x) {
                        let b = choose|b: int| 0 <= b < blocks.len() && writes(#[trigger] blocks[b], x);
                        lemma_distinct(dests(blocks[b].instrs));
                        assert(per_block[b].contains(x));
                    }
                    assert(params.take(i as int) =~= params);
                }
            }
        }
        list_descending(all)
    }

    /// Whether the block writes `v`.
    fn block_writes(block: &Block, v: &String) -> (r: bool)
        ensures
            r == writes(block@, v@),
    {
        let mut i: usize = 0;
        while i < block.instrs.len()
            invariant
                i <= block.instrs.len(),
                forall|k: int| 0 <= k < i ==> (#[trigger] block@.instrs[k]).dest() != Some(v@),
            decreases block.instrs.len() - i,
        {
            match block.instrs[i].get_dest() {
                Some(d) => {
                    if d == *v {
                        proof {
                            assert(block@.instrs[i as int].dest() == Some(v@));
                            lemma_dests(block@.instrs, v@);
                        }
                        return true;
                    }
                },
                None => {},
            }
            i += 1;
        }
        proof {
            lemma_dests(block@.instrs, v@);
        }
        false
    }

    /// The nodes that define `v`.
    pub fn defining_nodes(&self, v: &String) -> (r: Vec<bool>)
        requires
            self.cfg.blocks.len() < usize::MAX,
        ensures
            r@ == def_flags(block_views(self.cfg.blocks@), arg_names(self.cfg.args@), v@),
    {
        let n = self.cfg.blocks.len();
        let params = self.param_names();
        let given = has_name(&params, v);
        let mut r: Vec<bool> = Vec::new();
        let mut i: usize = 0;
        let ghost want = def_flags(block_views(self.cfg.blocks@), arg_names(self.cfg.args@), v@);
        while i < n
            invariant
                i <= n,
                n == self.cfg.blocks.len(),
                given == arg_names(self.cfg.args@).contains(v@),
                want == def_flags(block_views(self.cfg.blocks@), arg_names(self.cfg.args@), v@),
                r.len() == i,
                forall|k: int| 0 <= k < i ==> r[k] == want[k],
            decreases n - i,
        {
            let w = Self::block_writes(&self.cfg.blocks[i], v);
            r.push(w || (i == 0 && given));
            i += 1;
        }
        r.push(false);
        assert(r@ =~= want);
        r
    }

    /// The type of the first instruction of the block that writes `v`.
    fn block_write_type(block: &Block, v: &String) -> (r: Option<Type>)
        ensures
            r == write_type(block@.instrs, v@, 0),
    {
        let mut i: usize = 0;
        while i < block.instrs.len()
            invariant
                i <= block.instrs.len(),
                write_type(block@.instrs, v@, 0) == write_type(block@.instrs, v@, i as nat),
            decreases block.instrs.len() - i,
        {
            match block.instrs[i].get_dest() {
                Some(d) => {
                    if d == *v {
                        return match block.instrs[i].get_type() {
                            Some(t) => Some(t.clone()),
                            None => None,
                        };
                    }
                },
                None => {},
            }
            i += 1;
        }
        None
    }

    /// The type of the variable `v`.
    pub fn variable_type(&self, v: &String) -> (r: Type)
        ensures
            r == var_type(
                block_views(self.cfg.blocks@),
                arg_names(self.cfg.args@),
                arg_types(self.cfg.args@),
                v@,
            ),
    {
        let ghost blocks = block_views(self.cfg.blocks@);
        let mut i: usize = 0;
        while i < self.cfg.blocks.len()
            invariant
                i <= self.cfg.blocks.len(),
                blocks == block_views(self.cfg.blocks@),
                def_type_from(blocks, v@, 0) == def_type_from(blocks, v@, i as nat),
            decreases self.cfg.blocks.len() - i,
        {
            match Self::block_write_type(&self.cfg.blocks[i], v) {
                Some(t) => {
                    return t;
                },
                None => {},
            }
            i += 1;
        }
        let params = self.param_names();
        proof {
            assert(names(params@).len() == params.len());
            lemma_first_index_found(names(params@), v@);
        }
        match find_name(&params, v) {
            Some(p) => self.cfg.args[p].arg_type.clone(),
            None => Type::Int,
        }
    }

    /// The labels of the predecessors of the node `x`.
    pub fn labels_into(&self, x: usize) -> (r: Vec<String>)
        requires
            self.cfg.wf(),
        ensures
            names(r@) == pred_labels(block_views(self.cfg.blocks@), graph_edges(self.cfg.graph), x),
    {
        let ghost edges = graph_edges(self.cfg.graph);
        let found = graph_predecessors(&self.cfg.graph, x);
        let preds = list_ascending(found, Ghost(sources(edges, x)));
        let mut r: Vec<String> = Vec::new();
        let mut k: usize = 0;
        while k < preds.len()
            invariant
                k <= preds.len(),
                self.cfg.wf(),
                edges == graph_edges(self.cfg.graph),
                preds@ == listing(sources(edges, x)),
                forall|a: usize| preds@.contains(a) <==> sources(edges, x).contains(a),
                r.len() == k,
                forall|q: int|
                    0 <= q < k ==> preds[q] < self.cfg.blocks.len() && r[q]@
                        == self.cfg.blocks[preds[q] as int].label@,
            decreases preds.len() - k,
        {
            let p = preds[k];
            assert(preds@.contains(p));
            assert(edges.contains_key((p, x)));
            r.push(self.cfg.blocks[p].label.clone());
            k += 1;
        }
        proof {
            assert(names(r@) =~= pred_labels(block_views(self.cfg.blocks@), edges, x));
        }
        r
    }

    /// The phi nodes of the function. A variable gets a phi node at every
    /// node on the iterated dominance frontier of the nodes that define it;
    /// the phi nodes of one node come in descending order of their
    /// variables. Each has the type of its variable, one slot for each
    /// predecessor of its node, none filled, and no destination yet.
    pub fn make_phi_nodes(&self, dominance_frontier: &Vec<Vec<usize>>) -> (r: PhiResult)
        requires
            self.cfg.wf(),
            dominance_frontier.len() == self.cfg.blocks.len() + 1,
            forall|d: int, j: int|
                0 <= d < dominance_frontier.len() && 0 <= j < dominance_frontier[d].len()
                    ==> #[trigger] dominance_frontier[d][j] < dominance_frontier.len(),
        ensures
            r.len() == self.cfg.blocks.len() + 1,
            forall|x: int|
                0 <= x < r.len() ==> phi_views((#[trigger] r[x])@) == placed(
                    block_views(self.cfg.blocks@),
                    arg_names(self.cfg.args@),
                    arg_types(self.cfg.args@),
                    number_lists(dominance_frontier@),
                    pred_labels(
                        block_views(self.cfg.blocks@),
                        graph_edges(self.cfg.graph),
                        x as usize,
                    ),
                    desc_listing(
                        all_variables(block_views(self.cfg.blocks@), arg_names(self.cfg.args@)),
                    ),
                    x as usize,
                ),
    {
        let n = self.cfg.blocks.len();
        let rows = n + 1;
        let ghost blocks = block_views(self.cfg.blocks@);
        let ghost params = arg_names(self.cfg.args@);
        let ghost types = arg_types(self.cfg.args@);
        let ghost frontier = number_lists(dominance_frontier@);
        let ghost edges = graph_edges(self.cfg.graph);
        let vars = self.variables();
        let ghost order = names(vars@);
        let mut labels: Vec<Vec<String>> = Vec::new();
        let mut result: Vec<Vec<Phi>> = Vec::new();
        let mut x: usize = 0;
        while x < rows
            invariant
                x <= rows,
                rows == self.cfg.blocks.len() + 1,
                self.cfg.wf(),
                blocks == block_views(self.cfg.blocks@),
                edges == graph_edges(self.cfg.graph),
                labels.len() == x,
                result.len() == x,
                forall|y: int|
                    0 <= y < x ==> names((#[trigger] labels[y])@) == pred_labels(
                        blocks,
                        edges,
                        y as usize,
                    ),
                forall|y: int| 0 <= y < x ==> (#[trigger] result[y])@.len() == 0,
            decreases rows - x,
        {
            labels.push(self.labels_into(x));
            result.push(Vec::new());
            x += 1;
        }
        let mut k: usize = 0;
        proof {
            assert(order.take(0) =~= Seq::empty());
            assert forall|y: int| 0 <= y < rows implies phi_views((#[trigger] result[y])@) == placed(
                blocks,
                params,
                types,
                frontier,
                pred_labels(blocks, edges, y as usize),
                order.take(0),
                y as usize,
            ) by {
                assert(phi_views(result[y]@) =~= Seq::empty());
            }
        }
        while k < vars.len()
            invariant
                k <= vars.len(),
                n == self.cfg.blocks.len(),
                rows == n + 1,
                self.cfg.wf(),
                blocks == block_views(self.cfg.blocks@),
                params == arg_names(self.cfg.args@),
                types == arg_types(self.cfg.args@),
                frontier == number_lists(dominance_frontier@),
                edges == graph_edges(self.cfg.graph),
                order == names(vars@),
                dominance_frontier.len() == rows,
                forall|d: int, j: int|
                    0 <= d < dominance_frontier.len() && 0 <= j < dominance_frontier[d].len()
                        ==> #[trigger] dominance_frontier[d][j] < dominance_frontier.len(),
                labels.len() == rows,
                result.len() == rows,
                forall|y: int|
                    0 <= y < rows ==> names((#[trigger] labels[y])@) == pred_labels(
                        blocks,
                        edges,
                        y as usize,
                    ),
                forall|y: int|
                    0 <= y < rows ==> phi_views((#[trigger] result[y])@) == placed(
                        blocks,
                        params,
                        types,
                        frontier,
                        pred_labels(blocks, edges, y as usize),
                        order.take(k as int),
                        y as usize,
                    ),
            decreases vars.len() - k,
        {
            let v = &vars[k];
            let flags = self.defining_nodes(v);
            let has_phi = idf_flags(dominance_frontier, n, &flags);
            let ty = self.variable_type(v);
            proof {
                assert(order.take(k + 1).drop_last() =~= order.take(k as int));
                assert(order.take(k + 1).last() == v@);
                assert(frontier =~= Seq::new(
                    dominance_frontier.len() as nat,
                    |i: int| dominance_frontier[i]@,
                ));
            }
            let mut y: usize = 0;
            while y < rows
                invariant
                    y <= rows,
                    rows == n + 1,
                    k < vars.len(),
                    order.len() == vars.len(),
                    v@ == order[k as int],
                    order.take(k + 1).drop_last() == order.take(k as int),
                    order.take(k + 1).last() == v@,
                    n == blocks.len(),
                    ty == var_type(blocks, params, types, v@),
                    has_phi.len() == rows,
                    forall|z: int|
                        0 <= z < rows ==> #[trigger] has_phi[z] == in_idf(
                            frontier,
                            n as nat,
                            def_flags(blocks, params, v@),
                            z as usize,
                        ),
                    labels.len() == rows,
                    result.len() == rows,
                    forall|z: int|
                        0 <= z < rows ==> names((#[trigger] labels[z])@) == pred_labels(
                            blocks,
                            edges,
                            z as usize,
                        ),
                    forall|z: int|
                        0 <= z < y ==> phi_views((#[trigger] result[z])@) == placed(
                            blocks,
                            params,
                            types,
                            frontier,
                            pred_labels(blocks, edges, z as usize),
                            order.take(k + 1),
                            z as usize,
                        ),
                    forall|z: int|
                        y <= z < rows ==> phi_views((#[trigger] result[z])@) == placed(
                            blocks,
                            params,
                            types,
                            frontier,
                            pred_labels(blocks, edges, z as usize),
                            order.take(k as int),
                            z as usize,
                        ),
                decreases rows - y,
            {
                let ghost before = phi_views(result[y as int]@);
                let ghost into = pred_labels(blocks, edges, y as usize);
                assert(before == placed(
                    blocks,
                    params,
                    types,
                    frontier,
                    into,
                    order.take(k as int),
                    y as usize,
                ));
                if has_phi[y] {
                    let phi = Phi::new(v.clone(), ty.clone(), clone_names(&labels[y]));
                    result[y].push(phi);
                    assert(phi_views(result[y as int]@) =~= before.push(phi@));
                }
                assert(phi_views(result[y as int]@) == placed(
                    blocks,
                    params,
                    types,
                    frontier,
                    into,
                    order.take(k + 1),
                    y as usize,
                ));
                y += 1;
            }
            k += 1;
        }
        assert(order.take(k as int) =~= order);
        result
    }
}

} // verus!
