//! Live variables: the variables whose value may still be read.
use crate::blocks::{
    block_views, dests, distinct, lemma_distinct, push_distinct, BlockHelpers, BlockView,
};
use crate::cfg::{CFGNode, CFG};
use crate::df::{Analysis, Direction};
use crate::ir::names;
use crate::lvn::{get_outside_vars, outside_vars};
use crate::order::{is_name_listing, list_names};
use crate::sets::{items, minus, same_set, set_of, union};
use vstd::prelude::*;

verus! {

/// A set of live variables.
#[derive(Debug)]
pub struct LiveVars(pub Vec<String>);

impl View for LiveVars {
    type V = Set<Seq<char>>;

    open spec fn view(&self) -> Set<Seq<char>> {
        set_of(self.0@)
    }
}

impl LiveVars {
    /// The live variables, each once, in ascending order.
    pub fn in_order(&self) -> (r: Vec<String>)
        ensures
            is_name_listing(names(r@), self@),
    {
        let mut found: Vec<String> = Vec::new();
        let mut i: usize = 0;
        assert(names(found@) =~= distinct(names(self.0@).take(0)));
        while i < self.0.len()
            invariant
                i <= self.0.len(),
                names(found@) == distinct(names(self.0@).take(i as int)),
            decreases self.0.len() - i,
        {
            proof {
                assert(names(self.0@).take(i + 1).drop_last() =~= names(self.0@).take(i as int));
            }
            push_distinct(&mut found, self.0[i].clone());
            i += 1;
        }
        proof {
            assert(names(self.0@).take(self.0.len() as int) =~= names(self.0@));
            lemma_distinct(names(self.0@));
            assert(items(self.0@) =~= names(self.0@));
        }
        list_names(found)
    }
}

/// The variables live before a block, given those live after it: those
/// that the block reads before it writes them, and those live after it
/// that it does not write.
pub open spec fn live_before(after: Set<Seq<char>>, node: CFGNode, cfg: &CFG) -> Set<Seq<char>> {
    match node {
        CFGNode::Block(i) => if i < cfg.blocks.len() {
            outside_vars(cfg.blocks[i as int]@.instrs).to_set().union(
                after.difference(dests(cfg.blocks[i as int]@.instrs).to_set()),
            )
        } else {
            after
        },
        CFGNode::Return => after,
    }
}

/// The variables that the blocks read before they write them, block
/// after block.
pub open spec fn all_outside(bs: Seq<BlockView>) -> Seq<Seq<char>>
    decreases bs.len(),
{
    if bs.len() == 0 {
        Seq::empty()
    } else {
        all_outside(bs.drop_last()) + outside_vars(bs.last().instrs)
    }
}

/// The variables that can be live in a graph.
pub open spec fn live_universe(cfg: &CFG) -> Set<Seq<char>> {
    all_outside(block_views(cfg.blocks@)).to_set()
}

/// What a block reads from outside is among what the blocks read from
/// outside.
pub proof fn lemma_all_outside(bs: Seq<BlockView>, i: int, x: Seq<char>)
    requires
        0 <= i < bs.len(),
        outside_vars(bs[i].instrs).contains(x),
    ensures
        all_outside(bs).contains(x),
    decreases bs.len(),
{
    let here = outside_vars(bs.last().instrs);
    let rest = all_outside(bs.drop_last());
    if i == bs.len() - 1 {
        let k = choose|k: int| 0 <= k < here.len() && here[k] == x;
        assert(all_outside(bs)[rest.len() + k] == x);
    } else {
        lemma_all_outside(bs.drop_last(), i, x);
        let k = choose|k: int| 0 <= k < rest.len() && rest[k] == x;
        assert(all_outside(bs)[k] == x);
    }
}

impl Analysis for LiveVars {
    open spec fn flows() -> Direction {
        Direction::Backward
    }

    open spec fn within(a: Set<Seq<char>>, cfg: &CFG) -> bool {
        a.subset_of(live_universe(cfg))
    }

    open spec fn below(a: Set<Seq<char>>, b: Set<Seq<char>>) -> bool {
        a.subset_of(b)
    }

    open spec fn height(a: Set<Seq<char>>, cfg: &CFG) -> nat {
        a.len()
    }

    open spec fn top(cfg: &CFG) -> nat {
        live_universe(cfg).len()
    }

    proof fn lemma_order(a: Set<Seq<char>>, b: Set<Seq<char>>, c: Set<Seq<char>>) {
        if a.subset_of(b) && b.subset_of(a) {
            assert(a =~= b);
        }
    }

    proof fn lemma_within(a: Set<Seq<char>>, b: Set<Seq<char>>, node: CFGNode, cfg: &CFG) {
        if a.subset_of(live_universe(cfg)) {
            match node {
                CFGNode::Block(i) => {
                    if i < cfg.blocks.len() {
                        let bs = block_views(cfg.blocks@);
                        let read = outside_vars(cfg.blocks[i as int]@.instrs);
                        assert forall|x: Seq<char>| read.to_set().contains(x) implies live_universe(
                            cfg,
                        ).contains(x) by {
                            assert(bs[i as int] == cfg.blocks[i as int]@);
                            lemma_all_outside(bs, i as int, x);
                        }
                    }
                },
                CFGNode::Return => {},
            }
        }
    }

    proof fn lemma_monotone(
        a: Set<Seq<char>>,
        a2: Set<Seq<char>>,
        b: Set<Seq<char>>,
        b2: Set<Seq<char>>,
        node: CFGNode,
        cfg: &CFG,
    ) {
    }

    proof fn lemma_height(a: Set<Seq<char>>, b: Set<Seq<char>>, cfg: &CFG) {
        let u = live_universe(cfg);
        vstd::seq_lib::seq_to_set_is_finite(all_outside(block_views(cfg.blocks@)));
        vstd::set_lib::lemma_len_subset(b, u);
        vstd::set_lib::lemma_len_subset(a, b);
        if a != b && a.len() == b.len() {
            vstd::set_lib::lemma_subset_equality(a, b);
        }
    }

    open spec fn nothing() -> Set<Seq<char>> {
        Set::empty()
    }

    open spec fn met(a: Set<Seq<char>>, b: Set<Seq<char>>) -> Set<Seq<char>> {
        a.union(b)
    }

    open spec fn carried(a: Set<Seq<char>>, node: CFGNode, cfg: &CFG) -> Set<Seq<char>> {
        live_before(a, node, cfg)
    }

    fn direction() -> (r: Direction) {
        Direction::Backward
    }

    fn bottom() -> (r: Self) {
        let r = LiveVars(Vec::new());
        assert(r@ =~= Set::<Seq<char>>::empty());
        r
    }

    fn duplicate(&self) -> (r: Self) {
        let empty: Vec<String> = Vec::new();
        assert(set_of(empty@) =~= Set::<Seq<char>>::empty());
        let r = LiveVars(union(&self.0, &empty));
        assert(r@ =~= self@);
        r
    }

    fn same(&self, other: &Self) -> (r: bool) {
        same_set(&self.0, &other.0)
    }

    fn meet(&self, other: &Self) -> (r: Self) {
        LiveVars(union(&self.0, &other.0))
    }

    fn transfer(&self, node: &CFGNode, cfg: &CFG) -> (r: Self) {
        match node {
            CFGNode::Block(i) => {
                if *i < cfg.blocks.len() {
                    let block = &cfg.blocks[*i];
                    let read = get_outside_vars(block);
                    let written = block.get_defs();
                    proof {
                        let d = dests(block@.instrs);
                        lemma_distinct(d);
                        assert(items(read@) =~= names(read@));
                        assert(items(written@) =~= names(written@));
                        assert(set_of(written@) =~= d.to_set());
                    }
                    LiveVars(union(&read, &minus(&self.0, &written)))
                } else {
                    self.duplicate()
                }
            },
            CFGNode::Return => self.duplicate(),
        }
    }
}

} // verus!
