//! Reaching definitions: the definitions of variables that may be the ones
//! in force.
use crate::blocks::{block_views, dests, lemma_distinct, BlockHelpers, BlockView};
use crate::cfg::{CFGNode, CFG};
use crate::df::{Analysis, Direction};
use crate::ir::{has_name, names};
use crate::order::{is_listing, is_name_listing, list_ascending, list_names};
use crate::sets::{items, lemma_set_of, same_set, set_of, union, Item};
use vstd::prelude::*;

verus! {

/// A definition: the variable and the block that writes it.
#[derive(Debug, PartialEq, Eq)]
pub struct Definition {
    pub variable: String,
    pub block_index: usize,
}

impl View for Definition {
    type V = (Seq<char>, usize);

    open spec fn view(&self) -> (Seq<char>, usize) {
        (self.variable@, self.block_index)
    }
}

impl Clone for Definition {
    fn clone(&self) -> (r: Self)
        ensures
            r@ == self@,
    {
        Definition { variable: self.variable.clone(), block_index: self.block_index }
    }
}

impl Item for Definition {
    fn same_item(&self, other: &Self) -> (r: bool) {
        self.variable == other.variable && self.block_index == other.block_index
    }

    fn copy_item(&self) -> (r: Self) {
        self.clone()
    }
}

/// A set of reaching definitions.
#[derive(Debug)]
pub struct ReachingDefs(pub Vec<Definition>);

impl View for ReachingDefs {
    type V = Set<(Seq<char>, usize)>;

    open spec fn view(&self) -> Set<(Seq<char>, usize)> {
        set_of(self.0@)
    }
}

/// The variables that have a definition among `s`.
pub open spec fn variables_of(s: Set<(Seq<char>, usize)>) -> Set<Seq<char>> {
    Set::new(|v: Seq<char>| exists|b: usize| s.contains((v, b)))
}

/// The blocks that define `v` according to `s`.
pub open spec fn blocks_of(s: Set<(Seq<char>, usize)>, v: Seq<char>) -> Set<usize> {
    Set::new(|b: usize| s.contains((v, b)))
}

/// The variables of a list of groups.
pub open spec fn group_names(groups: Seq<(String, Vec<usize>)>) -> Seq<Seq<char>> {
    Seq::new(groups.len(), |k: int| groups[k].0@)
}

impl ReachingDefs {
    /// The variables that have a definition, each once, in the order in
    /// which they first occur.
    fn variables(&self) -> (r: Vec<String>)
        ensures
            names(r@).no_duplicates(),
            names(r@).to_set() == variables_of(self@),
    {
        let mut found: Vec<String> = Vec::new();
        let mut i: usize = 0;
        while i < self.0.len()
            invariant
                i <= self.0.len(),
                names(found@).no_duplicates(),
                forall|x: Seq<char>|
                    names(found@).contains(x) <==> exists|k: int|
                        0 <= k < i && (#[trigger] self.0[k]).variable@ == x,
            decreases self.0.len() - i,
        {
            let ghost before = names(found@);
            if !has_name(&found, &self.0[i].variable) {
                found.push(self.0[i].variable.clone());
                proof {
                    assert(names(found@) =~= before.push(self.0[i as int].variable@));
                }
            }
            proof {
                let x0 = self.0[i as int].variable@;
                assert forall|x: Seq<char>|
                    names(found@).contains(x) <==> exists|k: int|
                        0 <= k < i + 1 && (#[trigger] self.0[k]).variable@ == x by {
                    if names(found@).contains(x) {
                        if before.contains(x) {
                            let k = choose|k: int| 0 <= k < i && (#[trigger] self.0[k]).variable@ == x;
                            assert(0 <= k < i + 1);
                        } else {
                            assert(x == x0);
                        }
                    }
                    if exists|k: int| 0 <= k < i + 1 && (#[trigger] self.0[k]).variable@ == x {
                        let k = choose|k: int|
                            0 <= k < i + 1 && (#[trigger] self.0[k]).variable@ == x;
                        if k < i {
                            assert(before.contains(x));
                            let m = choose|m: int| 0 <= m < before.len() && before[m] == x;
                            assert(names(found@)[m] == x);
                        } else {
                            if before.contains(x) {
                                let m = choose|m: int| 0 <= m < before.len() && before[m] == x;
                                assert(names(found@)[m] == x);
                            } else {
                                assert(names(found@)[before.len() as int] == x);
                            }
                        }
                    }
                }
            }
            i += 1;
        }
        proof {
            assert forall|x: Seq<char>| names(found@).to_set().contains(x) <==> variables_of(
                self@,
            ).contains(x) by {
                if names(found@).contains(x) {
                    let k = choose|k: int|
                        0 <= k < self.0.len() && (#[trigger] self.0[k]).variable@ == x;
                    assert(items(self.0@)[k] == (x, self.0[k].block_index));
                    assert(self@.contains((x, self.0[k].block_index)));
                }
                if variables_of(self@).contains(x) {
                    let b = choose|b: usize| self@.contains((x, b));
                    assert(items(self.0@).contains((x, b)));
                    let k = choose|k: int| 0 <= k < self.0.len() && items(self.0@)[k] == (x, b);
                    assert(self.0[k].variable@ == x);
                }
            }
            assert(names(found@).to_set() =~= variables_of(self@));
        }
        found
    }

    /// The blocks that define `variable`, in ascending order.
    fn blocks_defining(&self, variable: &String) -> (r: Vec<usize>)
        ensures
            is_listing(r@, blocks_of(self@, variable@)),
    {
        let mut found: Vec<usize> = Vec::new();
        let mut i: usize = 0;
        while i < self.0.len()
            invariant
                i <= self.0.len(),
                found@.no_duplicates(),
                forall|b: usize|
                    found@.contains(b) <==> exists|k: int|
                        0 <= k < i && (#[trigger] self.0[k])@ == (variable@, b),
            decreases self.0.len() - i,
        {
            let ghost before = found@;
            let here: usize = self.0[i].block_index;
            let mut known = false;
            if self.0[i].variable == *variable {
                let mut j: usize = 0;
                while j < found.len()
                    invariant
                        j <= found.len(),
                        known == exists|m: int| 0 <= m < j && found[m] == here,
                    decreases found.len() - j,
                {
                    if found[j] == here {
                        known = true;
                    }
                    j += 1;
                }
                if !known {
                    found.push(here);
                    proof {
                        assert(found@ =~= before.push(here));
                    }
                }
            }
            proof {
                assert forall|b: usize|
                    found@.contains(b) <==> exists|k: int|
                        0 <= k < i + 1 && (#[trigger] self.0[k])@ == (variable@, b) by {
                    if found@.contains(b) {
                        if before.contains(b) {
                            let k = choose|k: int|
                                0 <= k < i && (#[trigger] self.0[k])@ == (variable@, b);
                            assert(0 <= k < i + 1);
                        } else {
                            assert(b == here);
                            assert(self.0[i as int]@ == (variable@, b));
                        }
                    }
                    if exists|k: int| 0 <= k < i + 1 && (#[trigger] self.0[k])@ == (variable@, b) {
                        let k = choose|k: int|
                            0 <= k < i + 1 && (#[trigger] self.0[k])@ == (variable@, b);
                        if k < i {
                            assert(before.contains(b));
                            let m = choose|m: int| 0 <= m < before.len() && before[m] == b;
                            assert(found@[m] == b);
                        } else {
                            if known {
                                let m = choose|m: int| 0 <= m < before.len() && before[m] == here;
                                assert(found@[m] == b);
                            } else {
                                assert(found@[before.len() as int] == b);
                            }
                        }
                    }
                }
            }
            i += 1;
        }
        proof {
            assert forall|b: usize| found@.contains(b) <==> blocks_of(self@, variable@).contains(
                b,
            ) by {
                if found@.contains(b) {
                    let k = choose|k: int|
                        0 <= k < self.0.len() && (#[trigger] self.0[k])@ == (variable@, b);
                    assert(items(self.0@)[k] == (variable@, b));
                    assert(self@.contains((variable@, b)));
                }
                if blocks_of(self@, variable@).contains(b) {
                    assert(items(self.0@).contains((variable@, b)));
                    let k = choose|k: int|
                        0 <= k < self.0.len() && items(self.0@)[k] == (variable@, b);
                    assert(self.0[k]@ == (variable@, b));
                }
            }
        }
        list_ascending(found, Ghost(blocks_of(self@, variable@)))
    }

    /// The definitions by variable: the variables that have a definition,
    /// in ascending order, each with the blocks that define it, in
    /// ascending order.
    pub fn by_variable(&self) -> (r: Vec<(String, Vec<usize>)>)
        ensures
            is_name_listing(group_names(r@), variables_of(self@)),
            forall|k: int|
                0 <= k < r.len() ==> is_listing((#[trigger] r[k]).1@, blocks_of(self@, r[k].0@)),
    {
        let keys = list_names(self.variables());
        let mut r: Vec<(String, Vec<usize>)> = Vec::new();
        let mut i: usize = 0;
        while i < keys.len()
            invariant
                i <= keys.len(),
                r.len() == i,
                forall|k: int| 0 <= k < i ==> (#[trigger] r[k]).0@ == keys[k]@,
                forall|k: int|
                    0 <= k < i ==> is_listing((#[trigger] r[k]).1@, blocks_of(self@, r[k].0@)),
            decreases keys.len() - i,
        {
            let blocks = self.blocks_defining(&keys[i]);
            r.push((keys[i].clone(), blocks));
            i += 1;
        }
        proof {
            assert(group_names(r@) =~= names(keys@));
        }
        r
    }
}

/// The definitions that reach the end of a block, given those that reach
/// its start: its own definition of every variable that it writes, and the
/// definitions of the other variables that reach its start.
pub open spec fn reaching_after(before: Set<(Seq<char>, usize)>, node: CFGNode, cfg: &CFG) -> Set<
    (Seq<char>, usize),
> {
    match node {
        CFGNode::Block(i) => if i < cfg.blocks.len() {
            Set::new(
                |d: (Seq<char>, usize)|
                    {
                        let written = dests(cfg.blocks[i as int]@.instrs);
                        (d.1 == i && written.contains(d.0)) || (before.contains(d)
                            && !written.contains(d.0))
                    },
            )
        } else {
            before
        },
        CFGNode::Return => before,
    }
}

/// The definitions of a block: each variable that it writes, with the
/// position of the block.
pub open spec fn block_definitions(b: BlockView, at: usize) -> Seq<(Seq<char>, usize)> {
    Seq::new(dests(b.instrs).len(), |k: int| (dests(b.instrs)[k], at))
}

/// The definitions of the blocks, block after block.
pub open spec fn all_definitions(bs: Seq<BlockView>) -> Seq<(Seq<char>, usize)>
    decreases bs.len(),
{
    if bs.len() == 0 {
        Seq::empty()
    } else {
        all_definitions(bs.drop_last()) + block_definitions(bs.last(), (bs.len() - 1) as usize)
    }
}

/// The definitions that there are in a graph.
pub open spec fn definitions_universe(cfg: &CFG) -> Set<(Seq<char>, usize)> {
    all_definitions(block_views(cfg.blocks@)).to_set()
}

/// What a block writes is among the definitions of the blocks.
pub proof fn lemma_all_definitions(bs: Seq<BlockView>, i: usize, v: Seq<char>)
    requires
        i < bs.len(),
        dests(bs[i as int].instrs).contains(v),
    ensures
        all_definitions(bs).contains((v, i)),
    decreases bs.len(),
{
    let here = block_definitions(bs.last(), (bs.len() - 1) as usize);
    let rest = all_definitions(bs.drop_last());
    if i == bs.len() - 1 {
        let d = dests(bs.last().instrs);
        let k = choose|k: int| 0 <= k < d.len() && d[k] == v;
        assert(here[k] == (v, i));
        assert(all_definitions(bs)[rest.len() + k] == (v, i));
    } else {
        lemma_all_definitions(bs.drop_last(), i, v);
        let k = choose|k: int| 0 <= k < rest.len() && rest[k] == (v, i);
        assert(all_definitions(bs)[k] == (v, i));
    }
}

impl Analysis for ReachingDefs {
    open spec fn flows() -> Direction {
        Direction::Forward
    }

    open spec fn within(a: Set<(Seq<char>, usize)>, cfg: &CFG) -> bool {
        a.subset_of(definitions_universe(cfg))
    }

    open spec fn below(a: Set<(Seq<char>, usize)>, b: Set<(Seq<char>, usize)>) -> bool {
        a.subset_of(b)
    }

    open spec fn height(a: Set<(Seq<char>, usize)>, cfg: &CFG) -> nat {
        a.len()
    }

    open spec fn top(cfg: &CFG) -> nat {
        definitions_universe(cfg).len()
    }

    proof fn lemma_order(
        a: Set<(Seq<char>, usize)>,
        b: Set<(Seq<char>, usize)>,
        c: Set<(Seq<char>, usize)>,
    ) {
        if a.subset_of(b) && b.subset_of(a) {
            assert(a =~= b);
        }
    }

    proof fn lemma_within(
        a: Set<(Seq<char>, usize)>,
        b: Set<(Seq<char>, usize)>,
        node: CFGNode,
        cfg: &CFG,
    ) {
        if a.subset_of(definitions_universe(cfg)) {
            match node {
                CFGNode::Block(i) => {
                    if i < cfg.blocks.len() {
                        let bs = block_views(cfg.blocks@);
                        let out = reaching_after(a, node, cfg);
                        assert forall|d: (Seq<char>, usize)| out.contains(d) implies definitions_universe(
                            cfg,
                        ).contains(d) by {
                            let written = dests(cfg.blocks[i as int]@.instrs);
                            if d.1 == i && written.contains(d.0) {
                                assert(bs[i as int] == cfg.blocks[i as int]@);
                                lemma_all_definitions(bs, i, d.0);
                            }
                        }
                    }
                },
                CFGNode::Return => {},
            }
        }
    }

    proof fn lemma_monotone(
        a: Set<(Seq<char>, usize)>,
        a2: Set<(Seq<char>, usize)>,
        b: Set<(Seq<char>, usize)>,
        b2: Set<(Seq<char>, usize)>,
        node: CFGNode,
        cfg: &CFG,
    ) {
    }

    proof fn lemma_height(a: Set<(Seq<char>, usize)>, b: Set<(Seq<char>, usize)>, cfg: &CFG) {
        let u = definitions_universe(cfg);
        vstd::seq_lib::seq_to_set_is_finite(all_definitions(block_views(cfg.blocks@)));
        vstd::set_lib::lemma_len_subset(b, u);
        vstd::set_lib::lemma_len_subset(a, b);
        if a != b && a.len() == b.len() {
            vstd::set_lib::lemma_subset_equality(a, b);
        }
    }

    open spec fn nothing() -> Set<(Seq<char>, usize)> {
        Set::empty()
    }

    open spec fn met(a: Set<(Seq<char>, usize)>, b: Set<(Seq<char>, usize)>) -> Set<
        (Seq<char>, usize),
    > {
        a.union(b)
    }

    open spec fn carried(a: Set<(Seq<char>, usize)>, node: CFGNode, cfg: &CFG) -> Set<
        (Seq<char>, usize),
    > {
        reaching_after(a, node, cfg)
    }

    fn direction() -> (r: Direction) {
        Direction::Forward
    }

    fn bottom() -> (r: Self) {
        let r = ReachingDefs(Vec::new());
        assert(r@ =~= Set::<(Seq<char>, usize)>::empty());
        r
    }

    fn duplicate(&self) -> (r: Self) {
        let empty: Vec<Definition> = Vec::new();
        assert(set_of(empty@) =~= Set::<(Seq<char>, usize)>::empty());
        let r = ReachingDefs(union(&self.0, &empty));
        assert(r@ =~= self@);
        r
    }

    fn same(&self, other: &Self) -> (r: bool) {
        same_set(&self.0, &other.0)
    }

    fn meet(&self, other: &Self) -> (r: Self) {
        ReachingDefs(union(&self.0, &other.0))
    }

    fn transfer(&self, node: &CFGNode, cfg: &CFG) -> (r: Self) {
        match node {
            CFGNode::Block(at) => {
                if *at < cfg.blocks.len() {
                    let i = *at;
                    let block = &cfg.blocks[i];
                    let written = block.get_defs();
                    let own = own_definitions(&written, i);
                    let kept = surviving(&self.0, &written);
                    let r = ReachingDefs(union(&own, &kept));
                    proof {
                        let d = dests(block@.instrs);
                        lemma_distinct(d);
                        assert(r@ =~= reaching_after(self@, *node, cfg));
                    }
                    r
                } else {
                    self.duplicate()
                }
            },
            CFGNode::Return => self.duplicate(),
        }
    }
}

/// The definitions of the variables `written` in the block `i`.
fn own_definitions(written: &Vec<String>, i: usize) -> (r: Vec<Definition>)
    ensures
        forall|x: (Seq<char>, usize)| #[trigger]
            set_of(r@).contains(x) <==> x.1 == i && names(written@).contains(x.0),
{
    let mut out: Vec<Definition> = Vec::new();
    let mut k: usize = 0;
    while k < written.len()
        invariant
            k <= written.len(),
            out.len() == k,
            forall|q: int| 0 <= q < k ==> (#[trigger] out[q])@ == (written[q]@, i),
        decreases written.len() - k,
    {
        out.push(Definition { variable: written[k].clone(), block_index: i });
        k += 1;
    }
    proof {
        assert forall|x: (Seq<char>, usize)| #[trigger]
            set_of(out@).contains(x) <==> x.1 == i && names(written@).contains(x.0) by {
            lemma_set_of(out@, x);
            if set_of(out@).contains(x) {
                let q = choose|q: int| 0 <= q < out.len() && (#[trigger] out[q])@ == x;
                assert(names(written@)[q] == x.0);
            }
            if x.1 == i && names(written@).contains(x.0) {
                let q = choose|q: int| 0 <= q < written.len() && names(written@)[q] == x.0;
                assert(out[q]@ == x);
            }
        }
    }
    out
}

/// The entry at position `q` of `out` is a definition among the first `j`
/// of `defs` whose variable is not among `written`.
pub open spec fn kept_from(
    out: Seq<Definition>,
    q: int,
    defs: Seq<Definition>,
    j: int,
    written: Seq<Seq<char>>,
) -> bool {
    exists|p: int|
        0 <= p < j && out[q]@ == #[trigger] came_from(defs, p) && !written.contains(
            came_from(defs, p).0,
        )
}

/// The definition at position `p` of `defs` is in `out`.
pub open spec fn kept_in(out: Seq<Definition>, defs: Seq<Definition>, p: int) -> bool {
    exists|q: int| 0 <= q < out.len() && (#[trigger] out[q])@ == came_from(defs, p)
}

/// The definitions of the variables that are not among `written`.
fn surviving(defs: &Vec<Definition>, written: &Vec<String>) -> (r: Vec<Definition>)
    ensures
        forall|x: (Seq<char>, usize)| #[trigger]
            set_of(r@).contains(x) <==> set_of(defs@).contains(x) && !names(written@).contains(x.0),
{
    let mut out: Vec<Definition> = Vec::new();
    let mut j: usize = 0;
    let ghost w = names(written@);
    while j < defs.len()
        invariant
            j <= defs.len(),
            w == names(written@),
            forall|q: int| 0 <= q < out.len() ==> #[trigger] kept_from(out@, q, defs@, j as int, w),
            forall|p: int|
                0 <= p < j && !w.contains(came_from(defs@, p).0) ==> #[trigger] kept_in(
                    out@,
                    defs@,
                    p,
                ),
        decreases defs.len() - j,
    {
        let ghost out0 = out@;
        let keep = !has_name(written, &defs[j].variable);
        if keep {
            out.push(defs[j].clone());
        }
        proof {
            assert(keep == !w.contains(came_from(defs@, j as int).0));
            assert forall|q: int| 0 <= q < out.len() implies #[trigger] kept_from(
                out@,
                q,
                defs@,
                j + 1,
                w,
            ) by {
                if q < out0.len() {
                    assert(kept_from(out0, q, defs@, j as int, w));
                    let p = choose|p: int|
                        0 <= p < j && out0[q]@ == #[trigger] came_from(defs@, p) && !w.contains(
                            came_from(defs@, p).0,
                        );
                    assert(0 <= p < j + 1 && out[q]@ == came_from(defs@, p) && !w.contains(
                        came_from(defs@, p).0,
                    ));
                } else {
                    let p = j as int;
                    assert(0 <= p < j + 1 && out[q]@ == came_from(defs@, p) && !w.contains(
                        came_from(defs@, p).0,
                    ));
                }
            }
            assert forall|p: int|
                0 <= p < j + 1 && !w.contains(came_from(defs@, p).0) implies #[trigger] kept_in(
                out@,
                defs@,
                p,
            ) by {
                if p < j {
                    assert(kept_in(out0, defs@, p));
                    let q = choose|q: int|
                        0 <= q < out0.len() && (#[trigger] out0[q])@ == came_from(defs@, p);
                    assert(out[q]@ == came_from(defs@, p));
                } else {
                    assert(out[out.len() - 1]@ == came_from(defs@, p));
                }
            }
        }
        j += 1;
    }
    proof {
        assert forall|x: (Seq<char>, usize)| #[trigger]
            set_of(out@).contains(x) <==> set_of(defs@).contains(x) && !w.contains(x.0) by {
            lemma_set_of(out@, x);
            lemma_set_of(defs@, x);
            if set_of(out@).contains(x) {
                let q = choose|q: int| 0 <= q < out.len() && (#[trigger] out[q])@ == x;
                assert(kept_from(out@, q, defs@, j as int, w));
                let p = choose|p: int|
                    0 <= p < j && out[q]@ == #[trigger] came_from(defs@, p) && !w.contains(
                        came_from(defs@, p).0,
                    );
                assert(defs[p]@ == x);
            }
            if set_of(defs@).contains(x) && !w.contains(x.0) {
                let p = choose|p: int| 0 <= p < defs.len() && (#[trigger] defs[p])@ == x;
                assert(came_from(defs@, p) == x);
                assert(kept_in(out@, defs@, p));
            }
        }
    }
    out
}

/// The definition at position `p` of a list.
pub open spec fn came_from(defs: Seq<Definition>, p: int) -> (Seq<char>, usize) {
    defs[p]@
}

} // verus!
