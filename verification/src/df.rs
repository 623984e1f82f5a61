//! Data-flow analysis: a worklist that carries the facts of an analysis
//! around a control-flow graph until they no longer change.
use crate::blocks::{dests, distinct, reads, Block, BlockHelpers};
use crate::ir::names;
use crate::bril2ssa::sources;
use crate::cfg::{CFGNode, CFG};
use crate::graph::{
    graph_edges, graph_node_list, graph_nodes, graph_predecessors, graph_successors,
};
use crate::order::{list_ascending, listing};
use crate::rename::targets;
use vstd::prelude::*;

verus! {

/// The way in which facts flow: with the edges or against them.
#[derive(Debug, Clone, Copy, PartialEq, Eq, Structural)]
pub enum Direction {
    Forward,
    Backward,
}

/// The facts of an analysis at one point of the program, with the two
/// operations of the analysis: `meet` joins the facts that arrive over
/// several edges, `transfer` carries facts through a node.
pub trait Analysis: Sized + View {
    /// The direction of the analysis.
    spec fn flows() -> Direction;

    /// The facts without content, from which every meet starts.
    spec fn nothing() -> Self::V;

    /// The facts of `a` and `b` joined.
    spec fn met(a: Self::V, b: Self::V) -> Self::V;

    /// The facts of `a` carried through `node`.
    spec fn carried(a: Self::V, node: CFGNode, cfg: &CFG) -> Self::V;

    /// `a` is of the facts that the analysis can arrive at on `cfg`.
    spec fn within(a: Self::V, cfg: &CFG) -> bool;

    /// `a` says no more than `b`.
    spec fn below(a: Self::V, b: Self::V) -> bool;

    /// How much `a` says; it grows with the facts and does not go beyond
    /// `top`.
    spec fn height(a: Self::V, cfg: &CFG) -> nat;

    /// The most that facts on `cfg` can say.
    spec fn top(cfg: &CFG) -> nat;

    /// `below` is an order.
    proof fn lemma_order(a: Self::V, b: Self::V, c: Self::V)
        ensures
            Self::below(a, a),
            Self::below(a, b) && Self::below(b, c) ==> Self::below(a, c),
            Self::below(a, b) && Self::below(b, a) ==> a == b,
    ;

    /// The operations stay within the facts of the graph.
    proof fn lemma_within(a: Self::V, b: Self::V, node: CFGNode, cfg: &CFG)
        requires
            cfg.wf(),
        ensures
            Self::within(Self::nothing(), cfg),
            Self::within(a, cfg) && Self::within(b, cfg) ==> Self::within(Self::met(a, b), cfg),
            Self::within(a, cfg) ==> Self::within(Self::carried(a, node, cfg), cfg),
    ;

    /// The operations are monotone, and a meet says no less than what goes
    /// into it first.
    proof fn lemma_monotone(a: Self::V, a2: Self::V, b: Self::V, b2: Self::V, node: CFGNode, cfg: &CFG)
        ensures
            Self::below(a, Self::met(a, b)),
            Self::below(a, a2) && Self::below(b, b2) ==> Self::below(
                Self::met(a, b),
                Self::met(a2, b2),
            ),
            Self::below(a, a2) ==> Self::below(
                Self::carried(a, node, cfg),
                Self::carried(a2, node, cfg),
            ),
    ;

    /// Facts that say more are higher, and none is higher than `top`: no
    /// chain of growing facts is longer than that.
    proof fn lemma_height(a: Self::V, b: Self::V, cfg: &CFG)
        requires
            Self::within(a, cfg),
            Self::within(b, cfg),
            Self::below(a, b),
        ensures
            Self::height(a, cfg) <= Self::height(b, cfg) <= Self::top(cfg),
            a != b ==> Self::height(a, cfg) < Self::height(b, cfg),
    ;

    fn direction() -> (r: Direction)
        ensures
            r == Self::flows(),
    ;

    fn bottom() -> (r: Self)
        ensures
            r@ == Self::nothing(),
    ;

    fn duplicate(&self) -> (r: Self)
        ensures
            r@ == self@,
    ;

    fn same(&self, other: &Self) -> (r: bool)
        ensures
            r == (self@ == other@),
    ;

    fn meet(&self, other: &Self) -> (r: Self)
        ensures
            r@ == Self::met(self@, other@),
    ;

    fn transfer(&self, node: &CFGNode, cfg: &CFG) -> (r: Self)
        requires
            cfg.wf(),
        ensures
            r@ == Self::carried(self@, *node, cfg),
    ;
}

/// The result of an analysis: for each node of the graph, by its number,
/// the facts that enter it and the facts that leave it. A number that is no
/// node has none.
pub struct DataFlowResult<T> {
    pub in_map: Vec<Option<T>>,
    pub out_map: Vec<Option<T>>,
}

/// The views of a list of facts.
pub open spec fn fact_views<T: View>(v: Seq<Option<T>>) -> Seq<Option<T::V>> {
    Seq::new(
        v.len(),
        |i: int|
            match v[i] {
                Some(t) => Some(t@),
                None => None,
            },
    )
}

/// The nodes from which facts arrive at `x`.
pub open spec fn upstream(flow: Map<(usize, usize), u8>, d: Direction, x: usize) -> Seq<usize> {
    match d {
        Direction::Forward => listing(sources(flow, x)),
        Direction::Backward => listing(targets(flow, x)),
    }
}

/// The facts of the first `upto` of the nodes `ups` joined; a node without
/// facts is passed over.
pub open spec fn joined<T: Analysis>(after: Seq<Option<T::V>>, ups: Seq<usize>, upto: nat) -> T::V
    decreases upto,
{
    if upto == 0 {
        T::nothing()
    } else {
        let acc = joined::<T>(after, ups, (upto - 1) as nat);
        let p = ups[upto - 1];
        if p < after.len() {
            match after[p as int] {
                Some(v) => T::met(acc, v),
                None => acc,
            }
        } else {
            acc
        }
    }
}

/// The facts are at rest at the node `x`: what arrives at it is the meet of
/// what its upstream neighbours send, and what it sends is what arrives,
/// carried through it.
pub open spec fn at_rest<T: Analysis>(
    cfg: &CFG,
    before: Seq<Option<T::V>>,
    after: Seq<Option<T::V>>,
    x: usize,
) -> bool {
    let ups = upstream(graph_edges(cfg.graph), T::flows(), x);
    &&& before[x as int] == Some(joined::<T>(after, ups, ups.len()))
    &&& after[x as int] == Some(T::carried(before[x as int].unwrap(), cfg.node_of(x), cfg))
}

/// The facts are at rest on `cfg`: they are at rest at every node.
pub open spec fn rests<T: Analysis>(
    cfg: &CFG,
    before: Seq<Option<T::V>>,
    after: Seq<Option<T::V>>,
) -> bool {
    &&& before.len() == cfg.blocks.len() + 1
    &&& after.len() == cfg.blocks.len() + 1
    &&& forall|x: usize|
        x < cfg.blocks.len() + 1 && graph_nodes(cfg.graph).contains(x) ==> #[trigger] at_rest::<T>(
            cfg,
            before,
            after,
            x,
        )
}

/// At every node `later` has facts where `sooner` has, and they say no
/// less.
pub open spec fn no_less<T: Analysis>(sooner: Seq<Option<T::V>>, later: Seq<Option<T::V>>) -> bool {
    &&& sooner.len() == later.len()
    &&& forall|p: int|
        0 <= p < sooner.len() && (#[trigger] sooner[p]) is Some ==> later[p] is Some && T::below(
            sooner[p].unwrap(),
            later[p].unwrap(),
        )
}

impl<T: Analysis> DataFlowResult<T> {
    /// The facts that arrive at each node, in the direction of the analysis.
    pub open spec fn arriving(&self) -> Seq<Option<T::V>> {
        match T::flows() {
            Direction::Forward => fact_views(self.in_map@),
            Direction::Backward => fact_views(self.out_map@),
        }
    }

    /// The facts that each node sends on, in the direction of the analysis.
    pub open spec fn sent(&self) -> Seq<Option<T::V>> {
        match T::flows() {
            Direction::Forward => fact_views(self.out_map@),
            Direction::Backward => fact_views(self.in_map@),
        }
    }

    /// The result is a fixed point of the analysis on `cfg`: the facts are
    /// at rest at every node, and a number that is no node has no facts.
    pub open spec fn is_fixed_point(&self, cfg: &CFG) -> bool {
        let rows = cfg.blocks.len() + 1;
        &&& self.in_map.len() == rows
        &&& self.out_map.len() == rows
        &&& forall|x: usize|
            x < rows && graph_nodes(cfg.graph).contains(x) ==> #[trigger] at_rest::<T>(
                cfg,
                self.arriving(),
                self.sent(),
                x,
            )
        &&& forall|x: int|
            0 <= x < rows && !graph_nodes(cfg.graph).contains(x as usize) ==> (
            #[trigger] self.in_map[x]) is None && self.out_map[x] is None
    }

    /// The result is the least of the fixed points: whatever facts are at
    /// rest on `cfg`, at no node does the result say more than they.
    pub open spec fn is_least(&self, cfg: &CFG) -> bool {
        forall|before: Seq<Option<T::V>>, after: Seq<Option<T::V>>| #[trigger]
            rests::<T>(cfg, before, after) ==> no_less::<T>(self.arriving(), before) && no_less::<
                T,
            >(self.sent(), after)
    }
}

/// `x` waits in the queue at or after `head`.
pub open spec fn waiting(queue: Seq<usize>, head: int, x: usize) -> bool {
    exists|p: int| head <= p < queue.len() && #[trigger] queue[p] == x
}

/// A change at a node that is not among the first `upto` of `ups` does not
/// change their meet.
proof fn lemma_joined_elsewhere<T: Analysis>(
    after: Seq<Option<T::V>>,
    ups: Seq<usize>,
    upto: nat,
    n: int,
    v: Option<T::V>,
)
    requires
        0 <= n < after.len(),
        upto <= ups.len(),
        forall|k: int| 0 <= k < upto ==> ups[k] != n,
    ensures
        joined::<T>(after.update(n, v), ups, upto) == joined::<T>(after, ups, upto),
    decreases upto,
{
    if upto > 0 {
        lemma_joined_elsewhere::<T>(after, ups, (upto - 1) as nat, n, v);
    }
}

/// The meet of what the upstream neighbours of `x` send.
fn gather<T: Analysis>(after: &Vec<Option<T>>, ups: &Vec<usize>) -> (r: T)
    ensures
        r@ == joined::<T>(fact_views(after@), ups@, ups.len() as nat),
{
    let mut acc = T::bottom();
    let mut k: usize = 0;
    while k < ups.len()
        invariant
            k <= ups.len(),
            acc@ == joined::<T>(fact_views(after@), ups@, k as nat),
        decreases ups.len() - k,
    {
        let p = ups[k];
        if p < after.len() {
            match &after[p] {
                Some(v) => {
                    acc = acc.meet(v);
                },
                None => {},
            }
        }
        k += 1;
    }
    acc
}

/// The neighbours of `x` on one side, in ascending order.
fn neighbours(cfg: &CFG, x: usize, incoming: bool) -> (r: Vec<usize>)
    ensures
        r@ == if incoming {
            listing(sources(graph_edges(cfg.graph), x))
        } else {
            listing(targets(graph_edges(cfg.graph), x))
        },
        forall|y: usize|
            r@.contains(y) <==> if incoming {
                graph_edges(cfg.graph).contains_key((y, x))
            } else {
                graph_edges(cfg.graph).contains_key((x, y))
            },
{
    if incoming {
        let found = graph_predecessors(&cfg.graph, x);
        list_ascending(found, Ghost(sources(graph_edges(cfg.graph), x)))
    } else {
        let found = graph_successors(&cfg.graph, x);
        list_ascending(found, Ghost(targets(graph_edges(cfg.graph), x)))
    }
}

/// A list of `n` entries without facts.
fn no_facts<T>(n: usize) -> (r: Vec<Option<T>>)
    ensures
        r.len() == n,
        forall|i: int| 0 <= i < n ==> (#[trigger] r[i]) is None,
{
    let mut r: Vec<Option<T>> = Vec::new();
    let mut i: usize = 0;
    while i < n
        invariant
            i <= n,
            r.len() == i,
            forall|k: int| 0 <= k < i ==> (#[trigger] r[k]) is None,
        decreases n - i,
    {
        r.push(None);
        i += 1;
    }
    r
}

/// How far the facts at one node are from the top; a node without facts
/// is farther than any with facts.
pub open spec fn slack<T: Analysis>(f: Option<T::V>, cfg: &CFG) -> nat {
    match f {
        Some(v) => if T::height(v, cfg) <= T::top(cfg) {
            (T::top(cfg) - T::height(v, cfg)) as nat
        } else {
            0
        },
        None => T::top(cfg) + 1,
    }
}

/// How far the facts at all nodes together are from the top.
pub open spec fn potential<T: Analysis>(after: Seq<Option<T::V>>, cfg: &CFG) -> nat
    decreases after.len(),
{
    if after.len() == 0 {
        0
    } else {
        potential::<T>(after.drop_last(), cfg) + slack::<T>(after.last(), cfg)
    }
}

/// Other facts at one node change the potential by the change of slack.
proof fn lemma_potential_update<T: Analysis>(
    after: Seq<Option<T::V>>,
    n: int,
    f: Option<T::V>,
    cfg: &CFG,
)
    requires
        0 <= n < after.len(),
    ensures
        potential::<T>(after.update(n, f), cfg) + slack::<T>(after[n], cfg) == potential::<T>(
            after,
            cfg,
        ) + slack::<T>(f, cfg),
    decreases after.len(),
{
    if n == after.len() - 1 {
        assert(after.update(n, f).drop_last() =~= after.drop_last());
    } else {
        lemma_potential_update::<T>(after.drop_last(), n, f, cfg);
        assert(after.update(n, f).drop_last() =~= after.drop_last().update(n, f));
    }
}

/// All the facts are within the facts of the graph.
pub open spec fn all_within<T: Analysis>(after: Seq<Option<T::V>>, cfg: &CFG) -> bool {
    forall|p: int| 0 <= p < after.len() && (#[trigger] after[p]) is Some ==> T::within(after[p].unwrap(), cfg)
}

/// A meet of facts of the graph is of the facts of the graph.
proof fn lemma_joined_within<T: Analysis>(
    after: Seq<Option<T::V>>,
    ups: Seq<usize>,
    upto: nat,
    cfg: &CFG,
)
    requires
        cfg.wf(),
        all_within::<T>(after, cfg),
        upto <= ups.len(),
    ensures
        T::within(joined::<T>(after, ups, upto), cfg),
    decreases upto,
{
    if upto == 0 {
        T::lemma_within(T::nothing(), T::nothing(), CFGNode::Return, cfg);
    } else {
        lemma_joined_within::<T>(after, ups, (upto - 1) as nat, cfg);
        let acc = joined::<T>(after, ups, (upto - 1) as nat);
        let p = ups[upto - 1];
        if p < after.len() {
            match after[p as int] {
                Some(v) => {
                    T::lemma_within(acc, v, CFGNode::Return, cfg);
                },
                None => {},
            }
        }
    }
}

/// Where the facts say no less, their meet says no less.
proof fn lemma_joined_grows<T: Analysis>(
    sooner: Seq<Option<T::V>>,
    later: Seq<Option<T::V>>,
    ups: Seq<usize>,
    upto: nat,
    cfg: &CFG,
)
    requires
        no_less::<T>(sooner, later),
        upto <= ups.len(),
    ensures
        T::below(joined::<T>(sooner, ups, upto), joined::<T>(later, ups, upto)),
    decreases upto,
{
    if upto == 0 {
        T::lemma_order(T::nothing(), T::nothing(), T::nothing());
    } else {
        lemma_joined_grows::<T>(sooner, later, ups, (upto - 1) as nat, cfg);
        let a = joined::<T>(sooner, ups, (upto - 1) as nat);
        let a2 = joined::<T>(later, ups, (upto - 1) as nat);
        let p = ups[upto - 1];
        if p < sooner.len() {
            match (sooner[p as int], later[p as int]) {
                (Some(v), Some(v2)) => {
                    T::lemma_monotone(a, a2, v, v2, CFGNode::Return, cfg);
                },
                (None, Some(v2)) => {
                    T::lemma_monotone(a2, a2, v2, v2, CFGNode::Return, cfg);
                    T::lemma_order(a, a2, T::met(a2, v2));
                },
                (None, None) => {},
                (Some(v), None) => {
                    assert(sooner[p as int] is Some);
                },
            }
        }
    }
}

/// What holds of the facts while they flow: a node has facts on both
/// sides or on neither; what it sends is what arrived, carried through
/// it; and what arrived says no more than its upstream neighbours send
/// by now.
pub open spec fn flowing<T: Analysis>(
    cfg: &CFG,
    before: Seq<Option<T::V>>,
    after: Seq<Option<T::V>>,
) -> bool {
    &&& before.len() == after.len()
    &&& all_within::<T>(after, cfg)
    &&& forall|x: int|
        0 <= x < before.len() ==> ((#[trigger] before[x]) is Some <==> after[x] is Some)
    &&& forall|x: int|
        0 <= x < before.len() && (#[trigger] before[x]) is Some ==> {
            let ups = upstream(graph_edges(cfg.graph), T::flows(), x as usize);
            &&& T::within(before[x].unwrap(), cfg)
            &&& after[x] == Some(T::carried(before[x].unwrap(), cfg.node_of(x as usize), cfg))
            &&& T::below(before[x].unwrap(), joined::<T>(after, ups, ups.len()))
        }
}

/// A visit to the node `n` keeps the facts flowing and does not let the
/// potential grow; if the node sends on other facts than before, the
/// potential falls.
proof fn lemma_visit<T: Analysis>(
    cfg: &CFG,
    before: Seq<Option<T::V>>,
    after: Seq<Option<T::V>>,
    n: usize,
)
    requires
        cfg.wf(),
        flowing::<T>(cfg, before, after),
        n < before.len(),
    ensures
        ({
            let ups = upstream(graph_edges(cfg.graph), T::flows(), n);
            let arrived = joined::<T>(after, ups, ups.len());
            let sent = T::carried(arrived, cfg.node_of(n), cfg);
            &&& flowing::<T>(
                cfg,
                before.update(n as int, Some(arrived)),
                after.update(n as int, Some(sent)),
            )
            &&& potential::<T>(after.update(n as int, Some(sent)), cfg) <= potential::<T>(after, cfg)
            &&& after[n as int] != Some(sent) ==> potential::<T>(
                after.update(n as int, Some(sent)),
                cfg,
            ) < potential::<T>(after, cfg)
        }),
{
    let flow = graph_edges(cfg.graph);
    let ups = upstream(flow, T::flows(), n);
    let arrived = joined::<T>(after, ups, ups.len());
    let node = cfg.node_of(n);
    let sent = T::carried(arrived, node, cfg);
    let before2 = before.update(n as int, Some(arrived));
    let after2 = after.update(n as int, Some(sent));
    lemma_joined_within::<T>(after, ups, ups.len(), cfg);
    T::lemma_within(arrived, arrived, node, cfg);
    // what the node sends says no less than what it sent
    match after[n as int] {
        Some(old_sent) => {
            assert(before[n as int] is Some);
            let old_arrived = before[n as int].unwrap();
            T::lemma_monotone(old_arrived, arrived, arrived, arrived, node, cfg);
            T::lemma_height(old_sent, sent, cfg);
        },
        None => {
            T::lemma_order(sent, sent, sent);
            T::lemma_height(sent, sent, cfg);
        },
    }
    assert(no_less::<T>(after, after2)) by {
        assert forall|p: int| 0 <= p < after.len() && (#[trigger] after[p]) is Some implies after2[p]
            is Some && T::below(after[p].unwrap(), after2[p].unwrap()) by {
            if p == n {
            } else {
                T::lemma_order(after[p].unwrap(), after[p].unwrap(), after[p].unwrap());
            }
        }
    }
    assert(all_within::<T>(after2, cfg));
    assert forall|x: int| 0 <= x < before2.len() && (#[trigger] before2[x]) is Some implies {
        let xs = upstream(flow, T::flows(), x as usize);
        &&& T::within(before2[x].unwrap(), cfg)
        &&& after2[x] == Some(T::carried(before2[x].unwrap(), cfg.node_of(x as usize), cfg))
        &&& T::below(before2[x].unwrap(), joined::<T>(after2, xs, xs.len()))
    } by {
        let xs = upstream(flow, T::flows(), x as usize);
        lemma_joined_grows::<T>(after, after2, xs, xs.len(), cfg);
        if x != n {
            assert(before[x] is Some);
            T::lemma_order(
                before[x].unwrap(),
                joined::<T>(after, xs, xs.len()),
                joined::<T>(after2, xs, xs.len()),
            );
        }
    }
    lemma_potential_update::<T>(after, n as int, Some(sent), cfg);
}

/// A visit to the node `n` leaves the facts below any facts at rest that
/// they were below.
proof fn lemma_visit_below<T: Analysis>(
    cfg: &CFG,
    before: Seq<Option<T::V>>,
    after: Seq<Option<T::V>>,
    n: usize,
    rest_before: Seq<Option<T::V>>,
    rest_after: Seq<Option<T::V>>,
)
    requires
        cfg.wf(),
        n <= cfg.blocks.len(),
        graph_nodes(cfg.graph).contains(n),
        rests::<T>(cfg, rest_before, rest_after),
        no_less::<T>(before, rest_before),
        no_less::<T>(after, rest_after),
    ensures
        ({
            let ups = upstream(graph_edges(cfg.graph), T::flows(), n);
            let arrived = joined::<T>(after, ups, ups.len());
            let sent = T::carried(arrived, cfg.node_of(n), cfg);
            &&& no_less::<T>(before.update(n as int, Some(arrived)), rest_before)
            &&& no_less::<T>(after.update(n as int, Some(sent)), rest_after)
        }),
{
    let ups = upstream(graph_edges(cfg.graph), T::flows(), n);
    let arrived = joined::<T>(after, ups, ups.len());
    let node = cfg.node_of(n);
    assert(at_rest::<T>(cfg, rest_before, rest_after, n));
    lemma_joined_grows::<T>(after, rest_after, ups, ups.len(), cfg);
    T::lemma_monotone(arrived, rest_before[n as int].unwrap(), arrived, arrived, node, cfg);
}

/// There is one least fixed point: two results that are both have the same
/// facts at every node.
pub proof fn lemma_least_is_one<T: Analysis>(cfg: &CFG, a: DataFlowResult<T>, b: DataFlowResult<T>)
    requires
        a.is_fixed_point(cfg),
        a.is_least(cfg),
        b.is_fixed_point(cfg),
        b.is_least(cfg),
    ensures
        fact_views(a.in_map@) == fact_views(b.in_map@),
        fact_views(a.out_map@) == fact_views(b.out_map@),
{
    let rows = cfg.blocks.len() + 1;
    assert(rests::<T>(cfg, a.arriving(), a.sent()));
    assert(rests::<T>(cfg, b.arriving(), b.sent()));
    assert forall|x: int| 0 <= x < rows implies a.arriving()[x] == b.arriving()[x] && a.sent()[x]
        == b.sent()[x] by {
        if graph_nodes(cfg.graph).contains(x as usize) {
            assert(at_rest::<T>(cfg, a.arriving(), a.sent(), x as usize));
            assert(at_rest::<T>(cfg, b.arriving(), b.sent(), x as usize));
            let u = a.arriving()[x].unwrap();
            let v = b.arriving()[x].unwrap();
            T::lemma_order(u, v, u);
            let s = a.sent()[x].unwrap();
            let t = b.sent()[x].unwrap();
            T::lemma_order(s, t, s);
        } else {
            assert(a.in_map[x] is None && a.out_map[x] is None);
            assert(b.in_map[x] is None && b.out_map[x] is None);
        }
    }
    assert(a.arriving() =~= b.arriving());
    assert(a.sent() =~= b.sent());
}

/// Runs the analysis `T` on `cfg`. Every node is visited once, and again
/// whenever a neighbour upstream of it has sent on new facts, until no node
/// waits; then the facts are a fixed point of the analysis, and the least
/// one. The facts that enter a block are in `in_map` and those that leave
/// it in `out_map`, whatever the direction. That the facts come to rest
/// follows from what the analysis shows of its operations: they are
/// monotone, and facts can grow only so often.
pub fn run_worklist<T: Analysis>(cfg: &CFG) -> (r: DataFlowResult<T>)
    requires
        cfg.wf(),
    ensures
        r.is_fixed_point(cfg),
        r.is_least(cfg),
{
    let rows = cfg.blocks.len() + 1;
    let ghost flow = graph_edges(cfg.graph);
    let ghost nodes = graph_nodes(cfg.graph);
    let forward = match T::direction() {
        Direction::Forward => true,
        Direction::Backward => false,
    };
    let mut before: Vec<Option<T>> = no_facts(rows);
    let mut after: Vec<Option<T>> = no_facts(rows);
    let listed = graph_node_list(&cfg.graph);
    let mut queue = list_ascending(listed, Ghost(nodes));
    let mut head: usize = 0;
    proof {
        assert forall|x: usize| x < rows && nodes.contains(x) implies waiting(queue@, 0, x) by {
            assert(queue@.contains(x));
            let p = choose|p: int| 0 <= p < queue.len() && queue[p] == x;
            assert(queue[p] == x);
        }
        assert forall|p: int| 0 <= p < queue.len() implies nodes.contains(#[trigger] queue[p]) by {
            assert(queue@.contains(queue[p]));
        }
        assert(flowing::<T>(cfg, fact_views(before@), fact_views(after@)));
    }
    while head < queue.len()
        invariant
            forall|fb: Seq<Option<T::V>>, fa: Seq<Option<T::V>>| #[trigger]
                rests::<T>(cfg, fb, fa) ==> no_less::<T>(fact_views(before@), fb) && no_less::<T>(
                    fact_views(after@),
                    fa,
                ),
            cfg.wf(),
            rows == cfg.blocks.len() + 1,
            flow == graph_edges(cfg.graph),
            nodes == graph_nodes(cfg.graph),
            forward == (T::flows() == Direction::Forward),
            before.len() == rows,
            after.len() == rows,
            head <= queue.len(),
            flowing::<T>(cfg, fact_views(before@), fact_views(after@)),
            forall|p: int| 0 <= p < queue.len() ==> nodes.contains(#[trigger] queue[p]),
            forall|x: int|
                0 <= x < rows && !nodes.contains(x as usize) ==> (#[trigger] before[x]) is None
                    && after[x] is None,
            forall|x: usize|
                x < rows && nodes.contains(x) && !waiting(queue@, head as int, x)
                    ==> #[trigger] at_rest::<T>(cfg, fact_views(before@), fact_views(after@), x),
        decreases potential::<T>(fact_views(after@), cfg), queue.len() - head,
    {
        let n = queue[head];
        let ghost queue0 = queue@;
        let ghost head0 = head as int;
        let ghost before0 = fact_views(before@);
        let ghost after0 = fact_views(after@);
        head += 1;
        assert(nodes.contains(n));
        assert(n < rows);
        let ups = neighbours(cfg, n, forward);
        let downs = neighbours(cfg, n, !forward);
        proof {
            assert(ups@ == upstream(flow, T::flows(), n));
            lemma_visit::<T>(cfg, before0, after0, n);
        }
        let in_set = gather::<T>(&after, &ups);
        let out_set = in_set.transfer(&cfg.node_at(n), cfg);
        let changed = match &after[n] {
            Some(old_out) => !old_out.same(&out_set),
            None => true,
        };
        before[n] = Some(in_set);
        after[n] = Some(out_set);
        let ghost before1 = fact_views(before@);
        let ghost after1 = fact_views(after@);
        proof {
            assert(before1 =~= before0.update(n as int, before1[n as int]));
            assert(after1 =~= after0.update(n as int, after1[n as int]));
            assert(changed == (after0[n as int] != after1[n as int]));
            if !changed {
                assert(after1 =~= after0);
            }
            assert forall|fb: Seq<Option<T::V>>, fa: Seq<Option<T::V>>| #[trigger]
                rests::<T>(cfg, fb, fa) implies no_less::<T>(before1, fb) && no_less::<T>(
                after1,
                fa,
            ) by {
                lemma_visit_below::<T>(cfg, before0, after0, n, fb, fa);
            }
        }
        if changed {
            let mut k: usize = 0;
            while k < downs.len()
                invariant
                    k <= downs.len(),
                    head <= queue.len(),
                    queue.len() == queue0.len() + k,
                    forall|p: int| 0 <= p < queue0.len() ==> queue[p] == queue0[p],
                    forall|q: int| 0 <= q < k ==> queue[queue0.len() + q] == downs[q],
                decreases downs.len() - k,
            {
                queue.push(downs[k]);
                k += 1;
            }
        }
        proof {
            assert forall|p: int| 0 <= p < queue.len() implies nodes.contains(#[trigger] queue[p]) by {
                if p >= queue0.len() {
                    let y = downs[p - queue0.len()];
                    assert(downs@.contains(y));
                    assert(queue[p] == y);
                    if forward {
                        assert(flow.contains_key((n, y)));
                    } else {
                        assert(flow.contains_key((y, n)));
                    }
                } else {
                    assert(queue[p] == queue0[p]);
                }
            }
            assert forall|x: usize|
                x < rows && nodes.contains(x) && !waiting(queue@, head as int, x) implies #[trigger] at_rest::<
                T,
            >(cfg, before1, after1, x) by {
                let xs = upstream(flow, T::flows(), x);
                if x == n {
                    if changed {
                        // a node with an edge to itself waits again
                        if xs.contains(n) {
                            lemma_up_down(cfg, T::flows(), n, n);
                            assert(downs@.contains(n));
                            let q = choose|q: int| 0 <= q < downs.len() && downs[q] == n;
                            assert(queue[queue0.len() + q] == n);
                            assert(waiting(queue@, head as int, n));
                        }
                        if !xs.contains(n) {
                            assert forall|k: int| 0 <= k < xs.len() implies xs[k] != n by {
                                if xs[k] == n {
                                    assert(xs.contains(n));
                                }
                            }
                            lemma_joined_elsewhere::<T>(
                                after0,
                                xs,
                                xs.len(),
                                n as int,
                                after1[n as int],
                            );
                        }
                    }
                } else {
                    assert(!waiting(queue0, head0, x)) by {
                        if waiting(queue0, head0, x) {
                            let p = choose|p: int| head0 <= p < queue0.len() && #[trigger] queue0[p] == x;
                            assert(queue[p] == x);
                            assert(p != head0);
                            assert(waiting(queue@, head as int, x));
                        }
                    }
                    assert(at_rest::<T>(cfg, before0, after0, x));
                    if changed {
                        if xs.contains(n) {
                            lemma_up_down(cfg, T::flows(), x, n);
                            assert(downs@.contains(x));
                            let q = choose|q: int| 0 <= q < downs.len() && downs[q] == x;
                            assert(queue[queue0.len() + q] == x);
                            assert(waiting(queue@, head as int, x));
                        }
                        assert forall|k: int| 0 <= k < xs.len() implies xs[k] != n by {
                            if xs[k] == n {
                                assert(xs.contains(n));
                            }
                        }
                        lemma_joined_elsewhere::<T>(after0, xs, xs.len(), n as int, after1[n as int]);
                    }
                }
            }
        }
    }
    let result = if forward {
        DataFlowResult { in_map: before, out_map: after }
    } else {
        DataFlowResult { in_map: after, out_map: before }
    };
    proof {
        assert forall|x: usize| x < rows && nodes.contains(x) implies #[trigger] at_rest::<T>(
            cfg,
            result.arriving(),
            result.sent(),
            x,
        ) by {
            assert(!waiting(queue@, head as int, x));
        }
    }
    result
}

/// `n` is upstream of `x` exactly when `x` is downstream of `n`.
proof fn lemma_up_down(cfg: &CFG, d: Direction, x: usize, n: usize)
    requires
        cfg.wf(),
        upstream(graph_edges(cfg.graph), d, x).contains(n),
    ensures
        match d {
            Direction::Forward => graph_edges(cfg.graph).contains_key((n, x)),
            Direction::Backward => graph_edges(cfg.graph).contains_key((x, n)),
        },
{
    let flow = graph_edges(cfg.graph);
    lemma_listing_exists(cfg, x);
}

/// The neighbours of a node can be listed.
proof fn lemma_listing_exists(cfg: &CFG, x: usize)
    requires
        cfg.wf(),
    ensures
        crate::order::is_listing(
            listing(sources(graph_edges(cfg.graph), x)),
            sources(graph_edges(cfg.graph), x),
        ),
        crate::order::is_listing(
            listing(targets(graph_edges(cfg.graph), x)),
            targets(graph_edges(cfg.graph), x),
        ),
{
    let flow = graph_edges(cfg.graph);
    let n = cfg.blocks.len();
    crate::order::lemma_range_listing(sources(flow, x), (n + 1) as nat);
    crate::order::lemma_range_listing(targets(flow, x), (n + 1) as nat);
}

/// The variables that a block writes and reads, as the analyses need them.
pub trait DataFlowHelpers {
    spec fn written(&self) -> Seq<Seq<char>>;

    spec fn read(&self) -> Seq<Seq<char>>;

    /// Each variable that the block writes, once.
    fn get_defs(&self) -> (r: Vec<String>)
        ensures
            names(r@) == distinct(self.written()),
    ;

    /// Each variable that the block reads, once.
    fn get_uses(&self) -> (r: Vec<String>)
        ensures
            names(r@) == distinct(self.read()),
    ;
}

impl DataFlowHelpers for Block {
    open spec fn written(&self) -> Seq<Seq<char>> {
        dests(self@.instrs)
    }

    open spec fn read(&self) -> Seq<Seq<char>> {
        reads(self@.instrs)
    }

    fn get_defs(&self) -> (r: Vec<String>) {
        BlockHelpers::get_defs(self)
    }

    fn get_uses(&self) -> (r: Vec<String>) {
        BlockHelpers::get_uses(self)
    }
}

} // verus!
