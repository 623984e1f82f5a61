//! Basic blocks: the block type, the variables a block defines and uses, and
//! the conversion of blocks back to a flat body.
use crate::ir::{
    clone_instrs, code_views, has_name, instr_views, names, Code, CodeView, InstrView, Instruction,
    SafeAccess,
};
use vstd::prelude::*;

verus! {

/// The mathematical view of a block.
pub struct BlockView {
    pub label: Seq<char>,
    pub instrs: Seq<InstrView>,
}

/// A labelled straight-line run of instructions.
#[derive(Debug, PartialEq, Eq)]
pub struct Block {
    pub label: String,
    pub instrs: Vec<Instruction>,
}

impl View for Block {
    type V = BlockView;

    open spec fn view(&self) -> BlockView {
        BlockView { label: self.label@, instrs: instr_views(self.instrs@) }
    }
}

impl Clone for Block {
    fn clone(&self) -> (r: Self)
        ensures
            r@ == self@,
    {
        Block { label: self.label.clone(), instrs: clone_instrs(&self.instrs) }
    }
}

impl Default for Block {
    fn default() -> (r: Self)
        ensures
            r@ == empty_block(),
    {
        let r = Block { label: String::new(), instrs: Vec::new() };
        assert(r@.instrs =~= Seq::empty());
        r
    }
}

/// The block without a label and without instructions.
pub open spec fn empty_block() -> BlockView {
    BlockView { label: Seq::empty(), instrs: Seq::empty() }
}

/// The views of a sequence of blocks.
pub open spec fn block_views(v: Seq<Block>) -> Seq<BlockView> {
    Seq::new(v.len(), |i: int| v[i]@)
}

/// A copy of a list of blocks.
pub fn clone_blocks(v: &Vec<Block>) -> (r: Vec<Block>)
    ensures
        block_views(r@) == block_views(v@),
{
    let mut r: Vec<Block> = Vec::new();
    let mut i: usize = 0;
    while i < v.len()
        invariant
            i <= v.len(),
            r.len() == i,
            forall|k: int| 0 <= k < i ==> r[k]@ == v[k]@,
        decreases v.len() - i,
    {
        r.push(v[i].clone());
        i += 1;
    }
    assert(block_views(r@) =~= block_views(v@));
    r
}

/// The flat form of one block: its label, then its instructions.
pub open spec fn block_code(b: BlockView) -> Seq<CodeView> {
    seq![CodeView::Label { label: b.label }] + Seq::new(
        b.instrs.len(),
        |i: int| CodeView::Instruction(b.instrs[i]),
    )
}

/// The flat form of a run of blocks, in block order.
pub open spec fn blocks_code(bs: Seq<BlockView>) -> Seq<CodeView>
    decreases bs.len(),
{
    if bs.len() == 0 {
        Seq::empty()
    } else {
        blocks_code(bs.drop_last()) + block_code(bs.last())
    }
}

/// Turning blocks back into a flat body.
pub trait ToCode {
    spec fn code(&self) -> Seq<CodeView>;

    fn to_code(&self) -> (r: Vec<Code>)
        ensures
            code_views(r@) == self.code(),
    ;
}

impl ToCode for Block {
    open spec fn code(&self) -> Seq<CodeView> {
        block_code(self@)
    }

    fn to_code(&self) -> (r: Vec<Code>) {
        let mut result: Vec<Code> = Vec::new();
        result.push(Code::Label { label: self.label.clone() });
        let mut i: usize = 0;
        while i < self.instrs.len()
            invariant
                i <= self.instrs.len(),
                result.len() == i + 1,
                result[0]@ == (CodeView::Label { label: self.label@ }),
                forall|k: int| 0 <= k < i ==> result[k + 1]@ == CodeView::Instruction(self.instrs[k]@),
            decreases self.instrs.len() - i,
        {
            result.push(Code::Instruction(self.instrs[i].clone()));
            i += 1;
        }
        assert(code_views(result@) =~= block_code(self@));
        result
    }
}

impl ToCode for Vec<Block> {
    open spec fn code(&self) -> Seq<CodeView> {
        blocks_code(block_views(self@))
    }

    fn to_code(&self) -> (r: Vec<Code>) {
        let mut result: Vec<Code> = Vec::new();
        let mut i: usize = 0;
        assert(block_views(self@).take(0) =~= Seq::empty());
        while i < self.len()
            invariant
                i <= self.len(),
                code_views(result@) == blocks_code(block_views(self@).take(i as int)),
            decreases self.len() - i,
        {
            let ghost before = code_views(result@);
            let mut part = self[i].to_code();
            let ghost added = code_views(part@);
            result.append(&mut part);
            proof {
                let bs = block_views(self@);
                assert(bs.take(i + 1).drop_last() =~= bs.take(i as int));
                assert(bs.take(i + 1).last() == self[i as int]@);
                assert(code_views(result@) =~= before + added);
            }
            i += 1;
        }
        assert(block_views(self@).take(i as int) =~= block_views(self@));
        result
    }
}

/// The elements of `s`, each once, in the order in which they first occur.
pub open spec fn distinct<T>(s: Seq<T>) -> Seq<T>
    decreases s.len(),
{
    if s.len() == 0 {
        Seq::empty()
    } else if distinct(s.drop_last()).contains(s.last()) {
        distinct(s.drop_last())
    } else {
        distinct(s.drop_last()).push(s.last())
    }
}

/// `distinct` keeps exactly the elements of its argument and repeats none.
pub proof fn lemma_distinct<T>(s: Seq<T>)
    ensures
        distinct(s).no_duplicates(),
        forall|x: T| distinct(s).contains(x) <==> s.contains(x),
        distinct(s).len() <= s.len(),
    decreases s.len(),
{
    if s.len() > 0 {
        let p = s.drop_last();
        lemma_distinct(p);
        assert forall|x: T| distinct(s).contains(x) <==> s.contains(x) by {
            if s.contains(x) {
                let i = choose|i: int| 0 <= i < s.len() && s[i] == x;
                if i < s.len() - 1 {
                    assert(p[i] == x);
                    assert(p.contains(x));
                    assert(distinct(p).contains(x));
                    let j = choose|j: int| 0 <= j < distinct(p).len() && distinct(p)[j] == x;
                    assert(distinct(s)[j] == x);
                } else {
                    if distinct(p).contains(x) {
                    } else {
                        assert(distinct(s)[distinct(p).len() as int] == x);
                    }
                }
            }
            if distinct(s).contains(x) {
                let j = choose|j: int| 0 <= j < distinct(s).len() && distinct(s)[j] == x;
                if j < distinct(p).len() {
                    assert(distinct(p)[j] == x);
                    assert(distinct(p).contains(x));
                    assert(p.contains(x));
                    let i = choose|i: int| 0 <= i < p.len() && p[i] == x;
                    assert(s[i] == x);
                } else {
                    assert(s[s.len() - 1] == x);
                }
            }
        }
    }
}

/// Appends `s` to `v` unless `v` already holds it.
pub fn push_distinct(v: &mut Vec<String>, s: String)
    ensures
        names(final(v)@) == if names(old(v)@).contains(s@) {
            names(old(v)@)
        } else {
            names(old(v)@).push(s@)
        },
{
    if !has_name(v, &s) {
        v.push(s);
        assert(names(v@) =~= names(old(v)@).push(s@));
    }
}

/// The destinations of a run of instructions, in order.
pub open spec fn dests(instrs: Seq<InstrView>) -> Seq<Seq<char>>
    decreases instrs.len(),
{
    if instrs.len() == 0 {
        Seq::empty()
    } else {
        match instrs.last().dest() {
            Some(d) => dests(instrs.drop_last()).push(d),
            None => dests(instrs.drop_last()),
        }
    }
}

/// The arguments of a run of instructions, in order.
pub open spec fn reads(instrs: Seq<InstrView>) -> Seq<Seq<char>>
    decreases instrs.len(),
{
    if instrs.len() == 0 {
        Seq::empty()
    } else {
        reads(instrs.drop_last()) + instrs.last().uses()
    }
}

/// A variable is among `dests` exactly when some instruction writes it.
pub proof fn lemma_dests(instrs: Seq<InstrView>, x: Seq<char>)
    ensures
        dests(instrs).contains(x) <==> exists|i: int|
            0 <= i < instrs.len() && #[trigger] instrs[i].dest() == Some(x),
    decreases instrs.len(),
{
    if instrs.len() > 0 {
        let p = instrs.drop_last();
        lemma_dests(p, x);
        if dests(instrs).contains(x) {
            let j = choose|j: int| 0 <= j < dests(instrs).len() && dests(instrs)[j] == x;
            if j < dests(p).len() {
                assert(dests(p)[j] == x);
                assert(dests(p).contains(x));
                let i = choose|i: int| 0 <= i < p.len() && #[trigger] p[i].dest() == Some(x);
                assert(instrs[i].dest() == Some(x));
            } else {
                assert(instrs[instrs.len() - 1].dest() == Some(x));
            }
        }
        if exists|i: int| 0 <= i < instrs.len() && #[trigger] instrs[i].dest() == Some(x) {
            let i = choose|i: int| 0 <= i < instrs.len() && #[trigger] instrs[i].dest() == Some(x);
            if i < p.len() {
                assert(p[i].dest() == Some(x));
                assert(dests(p).contains(x));
                let j = choose|j: int| 0 <= j < dests(p).len() && dests(p)[j] == x;
                assert(dests(instrs)[j] == x);
            } else {
                assert(dests(instrs)[dests(p).len() as int] == x);
            }
        }
    }
}

/// A variable is among `reads` exactly when some instruction reads it.
pub proof fn lemma_reads(instrs: Seq<InstrView>, x: Seq<char>)
    ensures
        reads(instrs).contains(x) <==> exists|i: int|
            0 <= i < instrs.len() && #[trigger] instrs[i].uses().contains(x),
    decreases instrs.len(),
{
    if instrs.len() > 0 {
        let p = instrs.drop_last();
        let u = instrs.last().uses();
        lemma_reads(p, x);
        if reads(instrs).contains(x) {
            let j = choose|j: int| 0 <= j < reads(instrs).len() && reads(instrs)[j] == x;
            if j < reads(p).len() {
                assert(reads(p)[j] == x);
                assert(reads(p).contains(x));
                let i = choose|i: int| 0 <= i < p.len() && #[trigger] p[i].uses().contains(x);
                assert(instrs[i].uses().contains(x));
            } else {
                assert(u[j - reads(p).len()] == x);
                assert(instrs[instrs.len() - 1].uses().contains(x));
            }
        }
        if exists|i: int| 0 <= i < instrs.len() && #[trigger] instrs[i].uses().contains(x) {
            let i = choose|i: int| 0 <= i < instrs.len() && #[trigger] instrs[i].uses().contains(x);
            if i < p.len() {
                assert(p[i].uses().contains(x));
                assert(reads(p).contains(x));
                let j = choose|j: int| 0 <= j < reads(p).len() && reads(p)[j] == x;
                assert(reads(instrs)[j] == x);
            } else {
                let k = choose|k: int| 0 <= k < u.len() && u[k] == x;
                assert(reads(instrs)[reads(p).len() + k] == x);
            }
        }
    }
}

/// The variables that a block writes and the variables that it reads.
pub trait BlockHelpers {
    spec fn defs(&self) -> Seq<Seq<char>>;

    spec fn uses(&self) -> Seq<Seq<char>>;

    /// Each variable that the block writes, once, in order of first writing.
    fn get_defs(&self) -> (r: Vec<String>)
        ensures
            names(r@) == distinct(self.defs()),
    ;

    /// Each variable that the block reads, once, in order of first reading.
    fn get_uses(&self) -> (r: Vec<String>)
        ensures
            names(r@) == distinct(self.uses()),
    ;
}

impl BlockHelpers for Block {
    open spec fn defs(&self) -> Seq<Seq<char>> {
        dests(self@.instrs)
    }

    open spec fn uses(&self) -> Seq<Seq<char>> {
        reads(self@.instrs)
    }

    fn get_defs(&self) -> (r: Vec<String>) {
        let mut result: Vec<String> = Vec::new();
        let mut i: usize = 0;
        assert(self@.instrs.take(0) =~= Seq::empty());
        assert(names(result@) =~= Seq::empty());
        while i < self.instrs.len()
            invariant
                i <= self.instrs.len(),
                names(result@) == distinct(dests(self@.instrs.take(i as int))),
            decreases self.instrs.len() - i,
        {
            proof {
                let s = self@.instrs;
                assert(s.take(i + 1).drop_last() =~= s.take(i as int));
                assert(s.take(i + 1).last() == self.instrs[i as int]@);
            }
            match self.instrs[i].get_dest() {
                Some(d) => {
                    proof {
                        assert(dests(self@.instrs.take(i + 1)).drop_last() =~= dests(
                            self@.instrs.take(i as int),
                        ));
                    }
                    push_distinct(&mut result, d);
                },
                None => {},
            }
            i += 1;
        }
        assert(self@.instrs.take(i as int) =~= self@.instrs);
        result
    }

    fn get_uses(&self) -> (r: Vec<String>) {
        let mut result: Vec<String> = Vec::new();
        let mut i: usize = 0;
        assert(self@.instrs.take(0) =~= Seq::empty());
        assert(names(result@) =~= Seq::empty());
        while i < self.instrs.len()
            invariant
                i <= self.instrs.len(),
                names(result@) == distinct(reads(self@.instrs.take(i as int))),
            decreases self.instrs.len() - i,
        {
            proof {
                let s = self@.instrs;
                assert(s.take(i + 1).drop_last() =~= s.take(i as int));
                assert(s.take(i + 1).last() == self.instrs[i as int]@);
            }
            let ghost base = reads(self@.instrs.take(i as int));
            match self.instrs[i].get_args() {
                Some(args) => {
                    let mut j: usize = 0;
                    assert(names(args@).take(0) =~= Seq::empty());
                    assert(base + Seq::<Seq<char>>::empty() =~= base);
                    while j < args.len()
                        invariant
                            j <= args.len(),
                            names(result@) == distinct(base + names(args@).take(j as int)),
                        decreases args.len() - j,
                    {
                        proof {
                            let a = names(args@);
                            assert((base + a.take(j + 1)).drop_last() =~= base + a.take(j as int));
                            assert((base + a.take(j + 1)).last() == args[j as int]@);
                        }
                        push_distinct(&mut result, args[j].clone());
                        j += 1;
                    }
                    assert(names(args@).take(j as int) =~= names(args@));
                },
                None => {
                    assert(base + Seq::<Seq<char>>::empty() =~= base);
                },
            }
            i += 1;
        }
        assert(self@.instrs.take(i as int) =~= self@.instrs);
        result
    }
}

/// The lists of `vs` one after the other.
pub open spec fn flat(vs: Seq<Seq<Seq<char>>>) -> Seq<Seq<char>>
    decreases vs.len(),
{
    if vs.len() == 0 {
        Seq::empty()
    } else {
        flat(vs.drop_last()) + vs.last()
    }
}

/// The positions of the lists of `vs` that hold `x`, in ascending order.
pub open spec fn holders(vs: Seq<Seq<Seq<char>>>, x: Seq<char>) -> Seq<usize>
    decreases vs.len(),
{
    if vs.len() == 0 {
        Seq::empty()
    } else if vs.last().contains(x) {
        holders(vs.drop_last(), x).push((vs.len() - 1) as usize)
    } else {
        holders(vs.drop_last(), x)
    }
}

/// The views of a table of strings.
pub open spec fn name_lists(v: Seq<Vec<String>>) -> Seq<Seq<Seq<char>>> {
    Seq::new(v.len(), |i: int| names(v[i]@))
}

/// The variables of a table, each with the positions at which it occurs.
pub open spec fn grouped(r: Seq<(String, Vec<usize>)>, vs: Seq<Seq<Seq<char>>>) -> bool {
    &&& Seq::new(r.len(), |k: int| r[k].0@) == distinct(flat(vs))
    &&& forall|k: int| 0 <= k < r.len() ==> (#[trigger] r[k]).1@ == holders(vs, r[k].0@)
}

/// `holders` lists positions below the number of lists, in ascending order,
/// and lists a position exactly when the list there holds the variable.
pub proof fn lemma_holders(vs: Seq<Seq<Seq<char>>>, x: Seq<char>)
    requires
        vs.len() <= usize::MAX,
    ensures
        forall|k: int| 0 <= k < holders(vs, x).len() ==> (#[trigger] holders(vs, x)[k]) < vs.len(),
        forall|a: int, b: int|
            0 <= a < b < holders(vs, x).len() ==> holders(vs, x)[a] < holders(vs, x)[b],
        forall|i: usize|
            holders(vs, x).contains(i) <==> i < vs.len() && (#[trigger] vs[i as int]).contains(x),
    decreases vs.len(),
{
    if vs.len() > 0 {
        let p = vs.drop_last();
        let h = holders(vs, x);
        let hp = holders(p, x);
        lemma_holders(p, x);
        assert forall|i: usize| h.contains(i) <==> i < vs.len() && (#[trigger] vs[i as int]).contains(
            x,
        ) by {
            if h.contains(i) {
                let k = choose|k: int| 0 <= k < h.len() && h[k] == i;
                if k < hp.len() {
                    assert(hp[k] == i);
                    assert(hp.contains(i));
                    assert(p[i as int].contains(x));
                }
            }
            if i < vs.len() && vs[i as int].contains(x) {
                if i < p.len() {
                    assert(p[i as int].contains(x));
                    assert(hp.contains(i));
                    let k = choose|k: int| 0 <= k < hp.len() && hp[k] == i;
                    assert(h[k] == i);
                } else {
                    assert(h[h.len() - 1] == i);
                }
            }
        }
    }
}

/// Groups the variables of a table of lists: each variable once, in the
/// order in which the lists first name it, with the positions of the lists
/// that name it.
pub fn group_by_variable(lists: &Vec<Vec<String>>) -> (r: Vec<(String, Vec<usize>)>)
    requires
        forall|i: int| 0 <= i < lists.len() ==> names((#[trigger] lists[i])@).no_duplicates(),
    ensures
        grouped(r@, name_lists(lists@)),
{
    let ghost vs = name_lists(lists@);
    let mut keys: Vec<String> = Vec::new();
    let mut result: Vec<(String, Vec<usize>)> = Vec::new();
    let mut i: usize = 0;
    proof {
        assert(vs.take(0) =~= Seq::empty());
        assert(names(keys@) =~= Seq::empty());
    }
    while i < lists.len()
        invariant
            i <= lists.len(),
            vs == name_lists(lists@),
            forall|k: int| 0 <= k < lists.len() ==> names((#[trigger] lists[k])@).no_duplicates(),
            result.len() == keys.len(),
            forall|k: int| 0 <= k < keys.len() ==> (#[trigger] result[k]).0@ == keys[k]@,
            names(keys@) == distinct(flat(vs.take(i as int))),
            forall|k: int|
                0 <= k < result.len() ==> (#[trigger] result[k]).1@ == holders(
                    vs.take(i as int),
                    keys[k]@,
                ),
        decreases lists.len() - i,
    {
        let list = &lists[i];
        let ghost here = names(list@);
        let ghost done = vs.take(i as int);
        let ghost base = flat(done);
        proof {
            assert(vs.take(i + 1).drop_last() =~= done);
            assert(vs.take(i + 1).last() == here);
            assert(here.take(0) =~= Seq::empty());
            assert(base + Seq::<Seq<char>>::empty() =~= base);
        }
        let mut j: usize = 0;
        while j < list.len()
            invariant
                j <= list.len(),
                here == names(list@),
                here.no_duplicates(),
                i < lists.len(),
                i < usize::MAX,
                done == vs.take(i as int),
                done.len() == i,
                base == flat(done),
                result.len() == keys.len(),
                forall|k: int| 0 <= k < keys.len() ==> (#[trigger] result[k]).0@ == keys[k]@,
                names(keys@) == distinct(base + here.take(j as int)),
                forall|k: int|
                    0 <= k < result.len() ==> (#[trigger] result[k]).1@ == if here.take(
                        j as int,
                    ).contains(keys[k]@) {
                        holders(done, keys[k]@).push(i)
                    } else {
                        holders(done, keys[k]@)
                    },
            decreases list.len() - j,
        {
            let ghost seen = here.take(j as int);
            let ghost keys0 = names(keys@);
            let ghost x = list[j as int]@;
            proof {
                assert(here[j as int] == x);
                assert((base + here.take(j + 1)).drop_last() =~= base + seen);
                assert((base + here.take(j + 1)).last() == x);
                assert(!seen.contains(x)) by {
                    if seen.contains(x) {
                        let a = choose|a: int| 0 <= a < seen.len() && seen[a] == x;
                        assert(here[a] == here[j as int]);
                    }
                }
                let more = here.take(j + 1);
                assert forall|y: Seq<char>| more.contains(y) <==> (seen.contains(y) || y == x) by {
                    if more.contains(y) {
                        let a = choose|a: int| 0 <= a < more.len() && more[a] == y;
                        if a < j {
                            assert(seen[a] == y);
                        }
                    }
                    if seen.contains(y) {
                        let a = choose|a: int| 0 <= a < seen.len() && seen[a] == y;
                        assert(more[a] == y);
                    }
                    if y == x {
                        assert(more[j as int] == y);
                    }
                }
                crate::ir::lemma_first_index_found(keys0, x);
            }
            match crate::ir::find_name(&keys, &list[j]) {
                Some(k) => {
                    assert(keys0[k as int] == keys[k as int]@);
                    let ghost before = result@;
                    result[k].1.push(i);
                    proof {
                        assert forall|q: int| 0 <= q < result.len() implies (#[trigger] result[q]).1@
                            == if here.take(j + 1).contains(keys[q]@) {
                            holders(done, keys[q]@).push(i)
                        } else {
                            holders(done, keys[q]@)
                        } by {
                            if q == k {
                            } else {
                                assert(result[q] == before[q]);
                                assert(keys[q]@ != x) by {
                                    if keys[q]@ == x {
                                        lemma_distinct(base + seen);
                                        assert(keys0[q] == keys0[k as int]);
                                    }
                                }
                            }
                        }
                    }
                },
                None => {
                    let ghost before = result@;
                    let mut at: Vec<usize> = Vec::new();
                    at.push(i);
                    keys.push(list[j].clone());
                    result.push((list[j].clone(), at));
                    proof {
                        assert(names(keys@) =~= keys0.push(x));
                        lemma_flat_holds(done, x);
                        lemma_distinct(base + seen);
                        assert(!base.contains(x)) by {
                            if base.contains(x) {
                                let a = choose|a: int| 0 <= a < base.len() && base[a] == x;
                                assert((base + seen)[a] == x);
                                assert((base + seen).contains(x));
                            }
                        }
                        assert(holders(done, x) =~= Seq::<usize>::empty()) by {
                            assert(done.len() == i);
                            lemma_holders(done, x);
                            if holders(done, x).len() > 0 {
                                let h = holders(done, x)[0];
                                assert(holders(done, x).contains(h));
                                assert(done[h as int].contains(x));
                            }
                        }
                        assert(at@ =~= holders(done, x).push(i));
                        assert forall|q: int| 0 <= q < result.len() implies (#[trigger] result[q]).1@
                            == if here.take(j + 1).contains(keys[q]@) {
                            holders(done, keys[q]@).push(i)
                        } else {
                            holders(done, keys[q]@)
                        } by {
                            if q < before.len() {
                                assert(result[q] == before[q]);
                                assert(keys[q]@ == keys0[q]);
                                assert(keys0.contains(keys[q]@));
                                assert(keys[q]@ != x);
                            }
                        }
                    }
                },
            }
            j += 1;
        }
        proof {
            assert(here.take(j as int) =~= here);
            assert(flat(vs.take(i + 1)) == base + here);
        }
        i += 1;
    }
    proof {
        assert(vs.take(i as int) =~= vs);
        assert(Seq::new(result.len() as nat, |k: int| result[k].0@) =~= names(keys@));
    }
    result
}

/// No list holds a variable that the lists taken together do not hold.
pub proof fn lemma_flat_holds(vs: Seq<Seq<Seq<char>>>, x: Seq<char>)
    ensures
        forall|i: int| 0 <= i < vs.len() && (#[trigger] vs[i]).contains(x) ==> flat(vs).contains(x),
        flat(vs).contains(x) ==> exists|i: int| 0 <= i < vs.len() && (#[trigger] vs[i]).contains(x),
    decreases vs.len(),
{
    if vs.len() > 0 {
        let p = vs.drop_last();
        lemma_flat_holds(p, x);
        assert forall|i: int| 0 <= i < vs.len() && (#[trigger] vs[i]).contains(x) implies flat(
            vs,
        ).contains(x) by {
            if i < p.len() {
                assert(p[i].contains(x));
                let a = choose|a: int| 0 <= a < flat(p).len() && flat(p)[a] == x;
                assert(flat(vs)[a] == x);
            } else {
                let a = choose|a: int| 0 <= a < vs.last().len() && vs.last()[a] == x;
                assert(flat(vs)[flat(p).len() + a] == x);
            }
        }
        if flat(vs).contains(x) {
            let a = choose|a: int| 0 <= a < flat(vs).len() && flat(vs)[a] == x;
            if a < flat(p).len() {
                assert(flat(p)[a] == x);
                assert(flat(p).contains(x));
                let i = choose|i: int| 0 <= i < p.len() && (#[trigger] p[i]).contains(x);
                assert(vs[i].contains(x));
            } else {
                assert(vs.last()[a - flat(p).len()] == x);
                assert(vs[vs.len() - 1].contains(x));
            }
        }
    }
}

/// The variables that the blocks of a function write and read, each with
/// the positions of the blocks that do.
pub trait FunctionHelpers {
    spec fn defs_by_block(&self) -> Seq<Seq<Seq<char>>>;

    spec fn uses_by_block(&self) -> Seq<Seq<Seq<char>>>;

    fn get_defs(&self) -> (r: Vec<(String, Vec<usize>)>)
        ensures
            grouped(r@, self.defs_by_block()),
    ;

    fn get_uses(&self) -> (r: Vec<(String, Vec<usize>)>)
        ensures
            grouped(r@, self.uses_by_block()),
    ;
}

impl FunctionHelpers for Vec<Block> {
    open spec fn defs_by_block(&self) -> Seq<Seq<Seq<char>>> {
        Seq::new(self.len() as nat, |i: int| distinct(self[i].defs()))
    }

    open spec fn uses_by_block(&self) -> Seq<Seq<Seq<char>>> {
        Seq::new(self.len() as nat, |i: int| distinct(self[i].uses()))
    }

    fn get_defs(&self) -> (r: Vec<(String, Vec<usize>)>) {
        let mut lists: Vec<Vec<String>> = Vec::new();
        let mut i: usize = 0;
        while i < self.len()
            invariant
                i <= self.len(),
                lists.len() == i,
                forall|k: int| 0 <= k < i ==> names((#[trigger] lists[k])@) == distinct(self[k].defs()),
            decreases self.len() - i,
        {
            lists.push(self[i].get_defs());
            i += 1;
        }
        proof {
            assert forall|k: int| 0 <= k < lists.len() implies names((#[trigger] lists[k])@).no_duplicates() by {
                lemma_distinct(self[k].defs());
            }
            assert(name_lists(lists@) =~= self.defs_by_block());
        }
        group_by_variable(&lists)
    }

    fn get_uses(&self) -> (r: Vec<(String, Vec<usize>)>) {
        let mut lists: Vec<Vec<String>> = Vec::new();
        let mut i: usize = 0;
        while i < self.len()
            invariant
                i <= self.len(),
                lists.len() == i,
                forall|k: int| 0 <= k < i ==> names((#[trigger] lists[k])@) == distinct(self[k].uses()),
            decreases self.len() - i,
        {
            lists.push(self[i].get_uses());
            i += 1;
        }
        proof {
            assert forall|k: int| 0 <= k < lists.len() implies names((#[trigger] lists[k])@).no_duplicates() by {
                lemma_distinct(self[k].uses());
            }
            assert(name_lists(lists@) =~= self.uses_by_block());
        }
        group_by_variable(&lists)
    }
}

} // verus!
