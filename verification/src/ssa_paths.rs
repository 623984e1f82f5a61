//! Why the phi nodes stand where they are needed: a variable that is
//! written on every way from the entry to a block is written in a block
//! that strictly dominates the block, or has a phi node there or at the
//! head of the block itself.
use crate::blocks::{block_views, dests, flat, lemma_flat_holds, BlockView};
use crate::bril2ssa::{all_variables, def_flags, number_lists, placed, pred_labels, writes};
use crate::cfg::CFG;
use crate::dom::{frontier_bit, leaves, node_flags, DomResult};
use crate::domsets::{dom_bit, dominates, entry_walk};
use crate::graph::{graph_edges, graph_nodes, is_walk, linked, reaches};
use crate::idf::{hop, in_idf, leads_to, lemma_chain_push};
use crate::idom::{lemma_dominates_itself, lemma_walk_prefix, strictly_dominates};
use crate::ir::{arg_names, arg_types, Type};
use crate::order::{desc_listing, is_desc_listing, lemma_desc_listing_exists};
use crate::rename::canonicals;
use crate::ssa::ssa_start;
use crate::ssa_reads::{written_above, written_by, Setting};
use vstd::prelude::*;

verus! {

/// What the renaming of the function of `cfg` starts from.
pub open spec fn setting_of(cfg: CFG, r: DomResult) -> Setting {
    Setting {
        source: block_views(cfg.blocks@),
        heads: ssa_start(
            block_views(cfg.blocks@),
            arg_names(cfg.args@),
            arg_types(cfg.args@),
            graph_edges(cfg.graph),
            number_lists(r.dominance_frontier@),
        ).phis,
        params: arg_names(cfg.args@),
        edges: graph_edges(cfg.graph).dom(),
    }
}

/// The node at position `p` of `w` is a block that writes `v`.
pub open spec fn writes_at(source: Seq<BlockView>, w: Seq<usize>, p: int, v: Seq<char>) -> bool {
    w[p] < source.len() && writes(source[w[p] as int], v)
}

/// Every way from the entry to `x` passes, before it arrives, through a
/// block that writes `v`.
pub open spec fn written_on_way(
    source: Seq<BlockView>,
    edges: Set<(usize, usize)>,
    x: usize,
    v: Seq<char>,
) -> bool {
    forall|w: Seq<usize>| #[trigger]
        entry_walk(edges, w, x) ==> exists|p: int|
            0 <= p < w.len() - 1 && #[trigger] writes_at(source, w, p, v)
}

/// The variables that the blocks write, block after block.
pub open spec fn dest_lists(blocks: Seq<BlockView>) -> Seq<Seq<Seq<char>>> {
    Seq::new(blocks.len(), |i: int| dests(blocks[i].instrs))
}

/// The variables of a function can be listed in descending order.
pub proof fn lemma_variables_listed(blocks: Seq<BlockView>, params: Seq<Seq<char>>)
    ensures
        is_desc_listing(
            desc_listing(all_variables(blocks, params)),
            all_variables(blocks, params),
        ),
{
    let lists = dest_lists(blocks);
    let s = params + flat(lists);
    assert forall|x: Seq<char>| s.to_set().contains(x) <==> all_variables(blocks, params).contains(
        x,
    ) by {
        lemma_flat_holds(lists, x);
        if s.contains(x) {
            let k = choose|k: int| 0 <= k < s.len() && s[k] == x;
            if k < params.len() {
                assert(params[k] == x);
            } else {
                assert(flat(lists)[k - params.len()] == x);
                assert(flat(lists).contains(x));
                let i = choose|i: int| 0 <= i < lists.len() && (#[trigger] lists[i]).contains(x);
                assert(writes(blocks[i], x));
            }
        }
        if all_variables(blocks, params).contains(x) {
            if params.contains(x) {
                let k = choose|k: int| 0 <= k < params.len() && params[k] == x;
                assert(s[k] == x);
            } else {
                let i = choose|i: int| 0 <= i < blocks.len() && writes(#[trigger] blocks[i], x);
                assert(lists[i].contains(x));
                assert(flat(lists).contains(x));
                let k = choose|k: int| 0 <= k < flat(lists).len() && flat(lists)[k] == x;
                assert(s[params.len() + k] == x);
            }
        }
    }
    assert(s.to_set() =~= all_variables(blocks, params));
    lemma_desc_listing_exists(s);
}

/// A variable among `vars` that has `x` on the iterated dominance frontier
/// of the nodes that define it has a phi node at `x`.
pub proof fn lemma_placed_has(
    blocks: Seq<BlockView>,
    params: Seq<Seq<char>>,
    types: Seq<Type>,
    frontier: Seq<Seq<usize>>,
    labels: Seq<Seq<char>>,
    vars: Seq<Seq<char>>,
    x: usize,
    v: Seq<char>,
)
    requires
        vars.contains(v),
        in_idf(frontier, blocks.len(), def_flags(blocks, params, v), x),
    ensures
        canonicals(placed(blocks, params, types, frontier, labels, vars, x)).contains(v),
    decreases vars.len(),
{
    let out = placed(blocks, params, types, frontier, labels, vars, x);
    let prev = placed(blocks, params, types, frontier, labels, vars.drop_last(), x);
    if vars.last() == v {
        assert(canonicals(out)[out.len() - 1] == v);
    } else {
        let k = choose|k: int| 0 <= k < vars.len() && vars[k] == v;
        assert(vars.drop_last()[k] == v);
        lemma_placed_has(blocks, params, types, frontier, labels, vars.drop_last(), x, v);
        let j = choose|j: int| 0 <= j < canonicals(prev).len() && canonicals(prev)[j] == v;
        assert(canonicals(out)[j] == v);
    }
}

/// A phi node stands at `x` only for a variable that has `x` on the
/// iterated dominance frontier of the nodes that define it.
pub proof fn lemma_placed_only(
    blocks: Seq<BlockView>,
    params: Seq<Seq<char>>,
    types: Seq<Type>,
    frontier: Seq<Seq<usize>>,
    labels: Seq<Seq<char>>,
    vars: Seq<Seq<char>>,
    x: usize,
    v: Seq<char>,
)
    requires
        canonicals(placed(blocks, params, types, frontier, labels, vars, x)).contains(v),
    ensures
        in_idf(frontier, blocks.len(), def_flags(blocks, params, v), x),
    decreases vars.len(),
{
    let out = placed(blocks, params, types, frontier, labels, vars, x);
    if vars.len() > 0 {
        let prev = placed(blocks, params, types, frontier, labels, vars.drop_last(), x);
        let j = choose|j: int| 0 <= j < canonicals(out).len() && canonicals(out)[j] == v;
        if j < prev.len() {
            assert(canonicals(prev)[j] == v);
            lemma_placed_only(blocks, params, types, frontier, labels, vars.drop_last(), x, v);
        }
    }
}

/// The head of an edge from a node that `d` dominates is on the dominance
/// frontier of `d`, unless `d` strictly dominates it.
pub proof fn lemma_on_frontier(cfg: CFG, r: DomResult, d: usize, p: usize, z: usize)
    requires
        cfg.wf(),
        cfg.blocks.len() > 0,
        r.is_result_for(&cfg),
        d <= cfg.blocks.len(),
        reaches(graph_edges(cfg.graph).dom(), 0, p),
        reaches(graph_edges(cfg.graph).dom(), 0, z),
        dominates(graph_edges(cfg.graph).dom(), d, p),
        graph_edges(cfg.graph).contains_key((p, z)),
        !strictly_dominates(graph_edges(cfg.graph).dom(), d, z),
    ensures
        r.dominance_frontier[d as int]@.contains(z),
{
    let edges = graph_edges(cfg.graph).dom();
    let rows = (cfg.blocks.len() + 1) as nat;
    let flags = node_flags(graph_nodes(cfg.graph), rows);
    let t = r.table();
    assert(t[p as int][d as int] == dom_bit(edges, flags, p as int, d as int));
    assert(t[z as int][d as int] == dom_bit(edges, flags, z as int, d as int));
    assert(leaves(t, edges, d as int, p as int, z as int));
    assert(frontier_bit(t, edges, d as int, z as int));
}

/// The last position below `hi` at which `w` is at a block that writes `v`
/// or has a phi node for it.
proof fn lemma_last_site(c: Setting, w: Seq<usize>, v: Seq<char>, lo: int, hi: int) -> (p: int)
    requires
        0 <= lo < hi <= w.len(),
        written_by(c, w[lo] as int, v),
    ensures
        lo <= p < hi,
        written_by(c, w[p] as int, v),
        forall|q: int| p < q < hi ==> !written_by(c, #[trigger] w[q] as int, v),
    decreases hi - lo,
{
    if written_by(c, w[hi - 1] as int, v) {
        hi - 1
    } else {
        lemma_last_site(c, w, v, lo, hi - 1)
    }
}

/// The first position from `q` on at which `w` is at a node that `d` does
/// not strictly dominate.
proof fn lemma_first_out(edges: Set<(usize, usize)>, w: Seq<usize>, d: usize, p: int, q: int) -> (r:
    int)
    requires
        0 <= p < q < w.len(),
        forall|j: int| p < j < q ==> strictly_dominates(edges, d, #[trigger] w[j]),
        !strictly_dominates(edges, d, w[w.len() - 1]),
    ensures
        q <= r < w.len(),
        !strictly_dominates(edges, d, w[r]),
        forall|j: int| p < j < r ==> strictly_dominates(edges, d, #[trigger] w[j]),
    decreases w.len() - q,
{
    if !strictly_dominates(edges, d, w[q]) {
        q
    } else {
        lemma_first_out(edges, w, d, p, q + 1)
    }
}

/// Phi nodes stand where they are needed. A variable that is written on
/// every way from the entry to a block `x` that the entry reaches is
/// written in a block that strictly dominates `x`, or has a phi node in
/// such a block or at the head of `x`.
pub proof fn lemma_phi_on_way(cfg: CFG, r: DomResult, x: usize, v: Seq<char>)
    requires
        cfg.wf(),
        cfg.blocks.len() > 0,
        r.is_result_for(&cfg),
        x < cfg.blocks.len(),
        reaches(graph_edges(cfg.graph).dom(), 0, x),
        written_on_way(block_views(cfg.blocks@), graph_edges(cfg.graph).dom(), x, v),
    ensures
        written_above(setting_of(cfg, r), x, v) || canonicals(
            setting_of(cfg, r).heads[x as int],
        ).contains(v),
{
    let c = setting_of(cfg, r);
    let blocks = c.source;
    let params = c.params;
    let types = arg_types(cfg.args@);
    let flow = graph_edges(cfg.graph);
    let edges = c.edges;
    let n = blocks.len();
    let frontier = number_lists(r.dominance_frontier@);
    let vars = desc_listing(all_variables(blocks, params));
    let flags = def_flags(blocks, params, v);
    if !(written_above(c, x, v) || canonicals(c.heads[x as int]).contains(v)) {
        assert(reaches(edges, 0, x));
        let w = choose|w: Seq<usize>| is_walk(edges, w) && w.first() == 0 && w.last() == x;
        assert(entry_walk(edges, w, x));
        let p0 = choose|p: int| 0 <= p < w.len() - 1 && #[trigger] writes_at(blocks, w, p, v);
        assert(written_by(c, w[p0] as int, v));
        lemma_variables_listed(blocks, params);
        assert(all_variables(blocks, params).contains(v)) by {
            assert(writes(blocks[w[p0] as int], v));
        }
        assert(vars.contains(v));
        let p = lemma_last_site(c, w, v, p0, w.len() - 1);
        let d = w[p];
        if strictly_dominates(edges, d, x) {
            assert(written_by(c, d as int, v));
        }
        let q = lemma_first_out(edges, w, d, p, p + 1);
        let z = w[q];
        let pred = w[q - 1];
        lemma_dominates_itself(edges, d);
        assert(dominates(edges, d, pred));
        assert(linked(edges, w, q - 1));
        lemma_walk_prefix(edges, w, q);
        lemma_walk_prefix(edges, w, q - 1);
        assert(is_walk(edges, w.take(q + 1)) && w.take(q + 1).first() == 0 && w.take(q + 1).last()
            == z);
        assert(is_walk(edges, w.take(q)) && w.take(q).first() == 0 && w.take(q).last() == pred);
        assert(flow.contains_key((pred, z)));
        lemma_on_frontier(cfg, r, d, pred, z);
        assert(frontier[d as int] == r.dominance_frontier[d as int]@);
        // a chain of frontiers leads from a block that defines the variable to the node
        if writes(blocks[d as int], v) {
            let chain = seq![d, z];
            assert(hop(frontier, n, chain, 0));
            assert(leads_to(frontier, n, flags, chain, z));
        } else {
            lemma_placed_only(
                blocks,
                params,
                types,
                frontier,
                pred_labels(blocks, flow, d),
                vars,
                d,
                v,
            );
            let before = choose|k: Seq<usize>| leads_to(frontier, n, flags, k, d);
            lemma_chain_push(frontier, n, before, z);
            assert(leads_to(frontier, n, flags, before.push(z), z));
        }
        assert(in_idf(frontier, n, flags, z));
        lemma_placed_has(blocks, params, types, frontier, pred_labels(blocks, flow, z), vars, z, v);
        assert(canonicals(c.heads[z as int]).contains(v));
        if q < w.len() - 1 {
            assert(linked(edges, w, q));
            assert(flow.contains_key((z, w[q + 1])));
            assert(written_by(c, w[q] as int, v));
        }
    }
}

} // verus!
