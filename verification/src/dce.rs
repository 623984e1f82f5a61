//! Dead code elimination: instructions whose result is never read, and
//! instructions whose result is overwritten before it is read.
use crate::blocks::{
    block_views, blocks_code, reads, Block, BlockHelpers, BlockView, ToCode,
};
use crate::form::{
    flatten, form_blocks, form_blocks_spec, instructions, lemma_code_instructions,
    lemma_form_blocks_keeps_instructions, lemma_formed_well, lemma_round_trip,
};
use crate::ir::{
    code_views, instr_views, names, CodeView, Function, InstrView, Instruction, SafeAccess,
};
use crate::sets::{holds, items, minus, set_of, union};
use vstd::prelude::*;

verus! {

/// The arguments of all the instructions of the blocks.
pub open spec fn all_reads(bs: Seq<BlockView>) -> Seq<Seq<char>>
    decreases bs.len(),
{
    if bs.len() == 0 {
        Seq::empty()
    } else {
        all_reads(bs.drop_last()) + reads(bs.last().instrs)
    }
}

/// The variables that some instruction of the blocks reads.
pub open spec fn used_vars(bs: Seq<BlockView>) -> Set<Seq<char>> {
    all_reads(bs).to_set()
}

/// The instruction stays: it writes nothing, or what it writes is read.
pub open spec fn needed(instr: InstrView, used: Set<Seq<char>>) -> bool {
    match instr.dest() {
        Some(d) => used.contains(d),
        None => true,
    }
}

/// The instructions that stay.
pub open spec fn needed_instrs(instrs: Seq<InstrView>, used: Set<Seq<char>>) -> Seq<InstrView>
    decreases instrs.len(),
{
    if instrs.len() == 0 {
        Seq::empty()
    } else if needed(instrs.last(), used) {
        needed_instrs(instrs.drop_last(), used).push(instrs.last())
    } else {
        needed_instrs(instrs.drop_last(), used)
    }
}

/// The blocks without the instructions that write a variable that nothing
/// in the function reads.
pub open spec fn trivial_blocks(bs: Seq<BlockView>) -> Seq<BlockView> {
    Seq::new(
        bs.len(),
        |i: int| BlockView { label: bs[i].label, instrs: needed_instrs(bs[i].instrs, used_vars(bs)) },
    )
}

/// Some block of `after` has fewer instructions than it has in `before`.
pub open spec fn shrunk(before: Seq<BlockView>, after: Seq<BlockView>) -> bool {
    exists|i: int|
        0 <= i < before.len() && 0 <= i < after.len() && (#[trigger] after[i]).instrs.len()
            < before[i].instrs.len()
}

/// What is left of the instructions from position `from` on when they are
/// gone through from the last to the first, and the variables that are dead
/// before them: written, and not read before that write.
pub struct Scan {
    pub kept: Seq<InstrView>,
    pub dead: Set<Seq<char>>,
}

/// The scan of the instructions from position `from` on. An instruction
/// that writes a dead variable goes. One that stays makes the variable it
/// writes dead and the variables it reads not dead.
pub open spec fn scan_from(instrs: Seq<InstrView>, from: nat) -> Scan
    decreases instrs.len() - from,
{
    if from >= instrs.len() {
        Scan { kept: Seq::empty(), dead: Set::empty() }
    } else {
        let rest = scan_from(instrs, from + 1);
        let instr = instrs[from as int];
        match instr.dest() {
            Some(d) => if rest.dead.contains(d) {
                rest
            } else {
                Scan {
                    kept: seq![instr] + rest.kept,
                    dead: rest.dead.insert(d).difference(instr.uses().to_set()),
                }
            },
            None => Scan {
                kept: seq![instr] + rest.kept,
                dead: rest.dead.difference(instr.uses().to_set()),
            },
        }
    }
}

/// The blocks without the instructions whose result is overwritten in the
/// same block before it is read.
pub open spec fn regular_blocks(bs: Seq<BlockView>) -> Seq<BlockView> {
    Seq::new(
        bs.len(),
        |i: int| BlockView { label: bs[i].label, instrs: scan_from(bs[i].instrs, 0).kept },
    )
}

/// The variables that some instruction of the blocks reads.
pub fn find_used(blocks: &Vec<Block>) -> (r: Vec<String>)
    ensures
        set_of(r@) == used_vars(block_views(blocks@)),
{
    let ghost bs = block_views(blocks@);
    let mut r: Vec<String> = Vec::new();
    let mut i: usize = 0;
    proof {
        assert(bs.take(0) =~= Seq::empty());
        assert(set_of(r@) =~= Seq::<Seq<char>>::empty().to_set());
    }
    while i < blocks.len()
        invariant
            i <= blocks.len(),
            bs == block_views(blocks@),
            set_of(r@) == all_reads(bs.take(i as int)).to_set(),
        decreases blocks.len() - i,
    {
        let uses = blocks[i].get_uses();
        proof {
            assert(bs.take(i + 1).drop_last() =~= bs.take(i as int));
            assert(bs.take(i + 1).last() == blocks[i as int]@);
            let here = reads(blocks[i as int]@.instrs);
            crate::blocks::lemma_distinct(here);
            assert(items(uses@) =~= names(uses@));
            assert(set_of(uses@) =~= here.to_set());
            vstd::seq_lib::seq_to_set_distributes_over_add(all_reads(bs.take(i as int)), here);
        }
        r = union(&r, &uses);
        i += 1;
    }
    assert(bs.take(i as int) =~= bs);
    r
}

/// Removes from the block the instructions that write a variable that is
/// not in `used`, and says whether it removed any.
pub fn trivial_dce_block(block: &mut Block, used: &Vec<String>) -> (dirty: bool)
    ensures
        final(block)@.label == old(block)@.label,
        final(block)@.instrs == needed_instrs(old(block)@.instrs, set_of(used@)),
        dirty == (final(block)@.instrs.len() < old(block)@.instrs.len()),
{
    let ghost instrs = block@.instrs;
    let ghost live = set_of(used@);
    let mut kept: Vec<Instruction> = Vec::new();
    let mut i: usize = 0;
    proof {
        assert(instrs.take(0) =~= Seq::empty());
        assert(instr_views(kept@) =~= Seq::empty());
    }
    while i < block.instrs.len()
        invariant
            i <= block.instrs.len(),
            instrs == block@.instrs,
            block@.label == old(block)@.label,
            live == set_of(used@),
            instr_views(kept@) == needed_instrs(instrs.take(i as int), live),
        decreases block.instrs.len() - i,
    {
        let ghost before = instr_views(kept@);
        proof {
            assert(instrs.take(i + 1).drop_last() =~= instrs.take(i as int));
            assert(instrs.take(i + 1).last() == block.instrs[i as int]@);
        }
        let stays = match block.instrs[i].get_dest() {
            Some(d) => holds(used, &d),
            None => true,
        };
        if stays {
            kept.push(block.instrs[i].clone());
            assert(instr_views(kept@) =~= before.push(block.instrs[i as int]@));
        }
        i += 1;
    }
    assert(instrs.take(i as int) =~= instrs);
    let dirty = kept.len() < block.instrs.len();
    block.instrs = kept;
    dirty
}

/// Removes from the function the instructions that write a variable that
/// nothing in the function reads, and says whether it removed any. The
/// body is cut into blocks and written back from them.
pub fn trivial_dce(func: &mut Function) -> (dirty: bool)
    ensures
        code_views(final(func).instrs@) == blocks_code(
            trivial_blocks(form_blocks_spec(code_views(old(func).instrs@))),
        ),
        dirty == shrunk(
            form_blocks_spec(code_views(old(func).instrs@)),
            trivial_blocks(form_blocks_spec(code_views(old(func).instrs@))),
        ),
        final(func).name == old(func).name,
        final(func).args == old(func).args,
        final(func).return_type == old(func).return_type,
{
    let mut blocks = form_blocks(func);
    let ghost formed = block_views(blocks@);
    let used = find_used(&blocks);
    let mut dirty = false;
    let mut i: usize = 0;
    while i < blocks.len()
        invariant
            i <= blocks.len(),
            blocks.len() == formed.len(),
            set_of(used@) == used_vars(formed),
            forall|k: int| 0 <= k < i ==> (#[trigger] blocks[k])@ == trivial_blocks(formed)[k],
            forall|k: int| i <= k < blocks.len() ==> (#[trigger] blocks[k])@ == formed[k],
            dirty == exists|k: int|
                0 <= k < i && (#[trigger] trivial_blocks(formed)[k]).instrs.len()
                    < formed[k].instrs.len(),
        decreases blocks.len() - i,
    {
        let removed = trivial_dce_block(&mut blocks[i], &used);
        proof {
            assert(removed == (trivial_blocks(formed)[i as int].instrs.len()
                < formed[i as int].instrs.len()));
            if dirty {
                let k = choose|k: int|
                    0 <= k < i && (#[trigger] trivial_blocks(formed)[k]).instrs.len()
                        < formed[k].instrs.len();
                assert(0 <= k < i + 1);
            }
            if !dirty && !removed {
                assert forall|k: int| 0 <= k < i + 1 implies !((#[trigger] trivial_blocks(
                    formed,
                )[k]).instrs.len() < formed[k].instrs.len()) by {}
            }
        }
        dirty = dirty || removed;
        i += 1;
    }
    assert(block_views(blocks@) =~= trivial_blocks(formed));
    func.instrs = blocks.to_code();
    dirty
}

/// The strings of `v` and `x`, if `v` does not hold it.
fn with_name(v: Vec<String>, x: String) -> (r: Vec<String>)
    ensures
        set_of(r@) == set_of(v@).insert(x@),
{
    let mut one: Vec<String> = Vec::new();
    let ghost empty = one@;
    one.push(x);
    proof {
        crate::sets::lemma_set_push(empty, x);
        assert(set_of(empty) =~= Set::<Seq<char>>::empty());
        assert(set_of(v@).union(Set::<Seq<char>>::empty().insert(x@)) =~= set_of(v@).insert(x@));
    }
    union(&v, &one)
}

/// Removes from the block the instructions whose result is overwritten
/// before it is read, and says whether it removed any.
pub fn regular_dce_block(block: &mut Block) -> (dirty: bool)
    ensures
        final(block)@.label == old(block)@.label,
        final(block)@.instrs == scan_from(old(block)@.instrs, 0).kept,
        dirty == (final(block)@.instrs.len() < old(block)@.instrs.len()),
{
    let ghost instrs = block@.instrs;
    let mut dead: Vec<String> = Vec::new();
    let mut kept: Vec<Instruction> = Vec::new();
    let mut k: usize = block.instrs.len();
    proof {
        assert(instr_views(kept@) =~= Seq::empty());
        assert(set_of(dead@) =~= Set::<Seq<char>>::empty());
    }
    while k > 0
        invariant
            k <= block.instrs.len(),
            instrs == block@.instrs,
            block@.label == old(block)@.label,
            instr_views(kept@) == scan_from(instrs, k as nat).kept,
            set_of(dead@) == scan_from(instrs, k as nat).dead,
        decreases k,
    {
        k -= 1;
        let ghost rest = scan_from(instrs, (k + 1) as nat);
        let ghost before = instr_views(kept@);
        assert(instrs[k as int] == block.instrs[k as int]@);
        let instr = &block.instrs[k];
        let drop = match instr.get_dest() {
            Some(d) => holds(&dead, &d),
            None => false,
        };
        if !drop {
            match instr.get_dest() {
                Some(d) => {
                    dead = with_name(dead, d);
                },
                None => {},
            }
            match instr.get_args() {
                Some(args) => {
                    proof {
                        assert(items(args@) =~= names(args@));
                    }
                    dead = minus(&dead, &args);
                },
                None => {
                    assert(instr@.uses().to_set() =~= Set::<Seq<char>>::empty());
                    assert(set_of(dead@).difference(Set::<Seq<char>>::empty()) =~= set_of(dead@));
                },
            }
            kept.insert(0, instr.clone());
            assert(instr_views(kept@) =~= seq![instrs[k as int]] + before);
        }
    }
    let dirty = kept.len() < block.instrs.len();
    block.instrs = kept;
    dirty
}

/// Removes from each block of the function the instructions whose result
/// is overwritten before it is read, and says whether it removed any.
pub fn regular_dce(func: &mut Function) -> (dirty: bool)
    ensures
        code_views(final(func).instrs@) == blocks_code(
            regular_blocks(form_blocks_spec(code_views(old(func).instrs@))),
        ),
        dirty == shrunk(
            form_blocks_spec(code_views(old(func).instrs@)),
            regular_blocks(form_blocks_spec(code_views(old(func).instrs@))),
        ),
        final(func).name == old(func).name,
        final(func).args == old(func).args,
        final(func).return_type == old(func).return_type,
{
    let mut blocks = form_blocks(func);
    let ghost formed = block_views(blocks@);
    let mut dirty = false;
    let mut i: usize = 0;
    while i < blocks.len()
        invariant
            i <= blocks.len(),
            blocks.len() == formed.len(),
            forall|k: int| 0 <= k < i ==> (#[trigger] blocks[k])@ == regular_blocks(formed)[k],
            forall|k: int| i <= k < blocks.len() ==> (#[trigger] blocks[k])@ == formed[k],
            dirty == exists|k: int|
                0 <= k < i && (#[trigger] regular_blocks(formed)[k]).instrs.len()
                    < formed[k].instrs.len(),
        decreases blocks.len() - i,
    {
        let removed = regular_dce_block(&mut blocks[i]);
        proof {
            assert(removed == (regular_blocks(formed)[i as int].instrs.len()
                < formed[i as int].instrs.len()));
            if dirty {
                let k = choose|k: int|
                    0 <= k < i && (#[trigger] regular_blocks(formed)[k]).instrs.len()
                        < formed[k].instrs.len();
                assert(0 <= k < i + 1);
            }
            if !dirty && !removed {
                assert forall|k: int| 0 <= k < i + 1 implies !((#[trigger] regular_blocks(
                    formed,
                )[k]).instrs.len() < formed[k].instrs.len()) by {}
            }
        }
        dirty = dirty || removed;
        i += 1;
    }
    assert(block_views(blocks@) =~= regular_blocks(formed));
    func.instrs = blocks.to_code();
    dirty
}

/// The instructions that stay are no more than there were, and all of
/// them if they are as many.
pub proof fn lemma_needed_len(instrs: Seq<InstrView>, used: Set<Seq<char>>)
    ensures
        needed_instrs(instrs, used).len() <= instrs.len(),
        needed_instrs(instrs, used).len() == instrs.len() ==> needed_instrs(instrs, used) == instrs,
    decreases instrs.len(),
{
    if instrs.len() > 0 {
        lemma_needed_len(instrs.drop_last(), used);
        if needed_instrs(instrs, used).len() == instrs.len() {
            assert(instrs =~= instrs.drop_last().push(instrs.last()));
        }
    } else {
        assert(needed_instrs(instrs, used) =~= instrs);
    }
}

/// What a scan keeps is no more than there was, and all of it if it is as
/// much.
pub proof fn lemma_scan_len(instrs: Seq<InstrView>, from: nat)
    requires
        from <= instrs.len(),
    ensures
        scan_from(instrs, from).kept.len() <= instrs.len() - from,
        scan_from(instrs, from).kept.len() == instrs.len() - from ==> scan_from(instrs, from).kept
            == instrs.skip(from as int),
    decreases instrs.len() - from,
{
    if from < instrs.len() {
        lemma_scan_len(instrs, from + 1);
        if scan_from(instrs, from).kept.len() == instrs.len() - from {
            assert(instrs.skip(from as int) =~= seq![instrs[from as int]] + instrs.skip(from as int + 1));
        }
    } else {
        assert(scan_from(instrs, from).kept =~= instrs.skip(from as int));
    }
}

/// A pass that shortens no block leaves every block as it is.
pub proof fn lemma_unshrunk(bs: Seq<BlockView>)
    ensures
        !shrunk(bs, trivial_blocks(bs)) ==> trivial_blocks(bs) == bs,
        !shrunk(bs, regular_blocks(bs)) ==> regular_blocks(bs) == bs,
        !shrunk(bs, bs),
{
    if !shrunk(bs, trivial_blocks(bs)) {
        assert forall|i: int| 0 <= i < bs.len() implies trivial_blocks(bs)[i] == bs[i] by {
            lemma_needed_len(bs[i].instrs, used_vars(bs));
            assert(!(trivial_blocks(bs)[i].instrs.len() < bs[i].instrs.len()));
        }
        assert(trivial_blocks(bs) =~= bs);
    }
    if !shrunk(bs, regular_blocks(bs)) {
        assert forall|i: int| 0 <= i < bs.len() implies regular_blocks(bs)[i] == bs[i] by {
            lemma_scan_len(bs[i].instrs, 0);
            assert(!(regular_blocks(bs)[i].instrs.len() < bs[i].instrs.len()));
            assert(bs[i].instrs.skip(0) =~= bs[i].instrs);
        }
        assert(regular_blocks(bs) =~= bs);
    }
}

/// Blocks of which none is longer than before hold no more instructions
/// than before, and fewer if one is shorter.
pub proof fn lemma_flatten_len(before: Seq<BlockView>, after: Seq<BlockView>)
    requires
        before.len() == after.len(),
        forall|i: int|
            0 <= i < before.len() ==> (#[trigger] after[i]).instrs.len() <= before[i].instrs.len(),
    ensures
        flatten(after).len() <= flatten(before).len(),
        shrunk(before, after) ==> flatten(after).len() < flatten(before).len(),
    decreases before.len(),
{
    if before.len() > 0 {
        let b0 = before.drop_last();
        let a0 = after.drop_last();
        assert forall|i: int| 0 <= i < b0.len() implies (#[trigger] a0[i]).instrs.len()
            <= b0[i].instrs.len() by {
            assert(after[i].instrs.len() <= before[i].instrs.len());
        }
        lemma_flatten_len(b0, a0);
        assert(after[after.len() - 1].instrs.len() <= before[before.len() - 1].instrs.len());
        if shrunk(before, after) {
            let i = choose|i: int|
                0 <= i < before.len() && 0 <= i < after.len() && (#[trigger] after[i]).instrs.len()
                    < before[i].instrs.len();
            if i < b0.len() {
                assert(a0[i].instrs.len() < b0[i].instrs.len());
                assert(shrunk(b0, a0));
            }
        }
    }
}

/// The body is at rest under dead code elimination: cut into blocks and
/// written back it is itself, and neither pass takes anything from its
/// blocks.
pub open spec fn is_clean(codes: Seq<CodeView>) -> bool {
    let bs = form_blocks_spec(codes);
    &&& blocks_code(bs) == codes
    &&& trivial_blocks(bs) == bs
    &&& regular_blocks(bs) == bs
}

/// On a body at rest a further pass of either kind changes nothing and
/// reports nothing removed.
pub proof fn lemma_clean_is_fixed(codes: Seq<CodeView>)
    requires
        is_clean(codes),
    ensures
        blocks_code(trivial_blocks(form_blocks_spec(codes))) == codes,
        !shrunk(form_blocks_spec(codes), trivial_blocks(form_blocks_spec(codes))),
        blocks_code(regular_blocks(form_blocks_spec(codes))) == codes,
        !shrunk(form_blocks_spec(codes), regular_blocks(form_blocks_spec(codes))),
{
    lemma_unshrunk(form_blocks_spec(codes));
}

/// The number of instructions in the bodies of the functions.
pub open spec fn instr_count(fs: Seq<Function>) -> nat
    decreases fs.len(),
{
    if fs.len() == 0 {
        0
    } else {
        instr_count(fs.drop_last()) + instructions(code_views(fs.last().instrs@)).len()
    }
}

/// With another function at position `i` the number of instructions
/// changes by the difference of the two bodies.
proof fn lemma_count_update(fs: Seq<Function>, i: int, f: Function)
    requires
        0 <= i < fs.len(),
    ensures
        instr_count(fs.update(i, f)) + instructions(code_views(fs[i].instrs@)).len() == instr_count(
            fs,
        ) + instructions(code_views(f.instrs@)).len(),
    decreases fs.len(),
{
    if i == fs.len() - 1 {
        assert(fs.update(i, f).drop_last() =~= fs.drop_last());
    } else {
        lemma_count_update(fs.drop_last(), i, f);
        assert(fs.update(i, f).drop_last() =~= fs.drop_last().update(i, f));
    }
}

/// The body after one round of dead code elimination: after the first
/// pass, or after the second if the first removes nothing.
pub open spec fn dce_round(codes: Seq<CodeView>) -> Seq<CodeView> {
    let bs = form_blocks_spec(codes);
    if shrunk(bs, trivial_blocks(bs)) {
        blocks_code(trivial_blocks(bs))
    } else {
        blocks_code(regular_blocks(bs))
    }
}

/// The body after `rounds` rounds.
pub open spec fn dce_rounds(codes: Seq<CodeView>, rounds: nat) -> Seq<CodeView>
    decreases rounds,
{
    if rounds == 0 {
        codes
    } else {
        dce_round(dce_rounds(codes, (rounds - 1) as nat))
    }
}

/// The body after as many rounds as it takes to bring it to rest: one more
/// than it has instructions is enough.
pub open spec fn settled(codes: Seq<CodeView>) -> Seq<CodeView> {
    dce_rounds(codes, instructions(codes).len() + 1)
}

/// A body that has come to rest after `k` rounds is the same after more.
pub proof fn lemma_rounds_rest(codes: Seq<CodeView>, k: nat, m: nat)
    requires
        is_clean(dce_rounds(codes, k)),
        k <= m,
    ensures
        dce_rounds(codes, m) == dce_rounds(codes, k),
    decreases m - k,
{
    if k < m {
        lemma_rounds_rest(codes, k, (m - 1) as nat);
        lemma_clean_is_fixed(dce_rounds(codes, k));
    }
}

/// `now` is the body `start` after `k` rounds, each of which but the last
/// removed an instruction.
pub open spec fn on_the_way(start: Seq<CodeView>, now: Seq<CodeView>, k: nat) -> bool {
    &&& now == dce_rounds(start, k)
    &&& k + instructions(now).len() <= instructions(start).len() + if is_clean(now) {
        1nat
    } else {
        0nat
    }
}

/// One round on one function: the first pass and, if that removed nothing,
/// the second. The answer says whether anything was removed.
fn dce_function(func: &mut Function) -> (dirty: bool)
    ensures
        final(func).name == old(func).name,
        final(func).args == old(func).args,
        final(func).return_type == old(func).return_type,
        code_views(final(func).instrs@) == dce_round(code_views(old(func).instrs@)),
        !dirty ==> is_clean(code_views(final(func).instrs@)),
        instructions(code_views(final(func).instrs@)).len() <= instructions(
            code_views(old(func).instrs@),
        ).len(),
        dirty ==> instructions(code_views(final(func).instrs@)).len() < instructions(
            code_views(old(func).instrs@),
        ).len(),
{
    let ghost c0 = code_views(func.instrs@);
    let ghost b0 = form_blocks_spec(c0);
    proof {
        lemma_formed_well(c0);
        lemma_form_blocks_keeps_instructions(c0);
        lemma_unshrunk(b0);
        lemma_code_instructions(trivial_blocks(b0));
        assert forall|i: int| 0 <= i < b0.len() implies (#[trigger] trivial_blocks(b0)[i]).instrs.len()
            <= b0[i].instrs.len() by {
            lemma_needed_len(b0[i].instrs, used_vars(b0));
        }
        lemma_flatten_len(b0, trivial_blocks(b0));
    }
    if trivial_dce(func) {
        return true;
    }
    let ghost c1 = code_views(func.instrs@);
    proof {
        assert(c1 == blocks_code(b0));
        lemma_round_trip(b0);
        lemma_code_instructions(regular_blocks(b0));
        lemma_code_instructions(b0);
        assert forall|i: int| 0 <= i < b0.len() implies (#[trigger] regular_blocks(b0)[i]).instrs.len()
            <= b0[i].instrs.len() by {
            lemma_scan_len(b0[i].instrs, 0);
        }
        lemma_flatten_len(b0, regular_blocks(b0));
    }
    if regular_dce(func) {
        return true;
    }
    false
}

/// Dead code elimination on every function: round after round, from the
/// first function on until a round removes something, and then again from
/// the first, until no round removes anything. Then every body has come to
/// rest, and it is the body that its rounds alone lead to.
pub fn eliminate_dead_code(functions: &mut Vec<Function>)
    ensures
        final(functions).len() == old(functions).len(),
        forall|i: int|
            0 <= i < final(functions).len() ==> code_views(
                (#[trigger] final(functions)[i]).instrs@,
            ) == settled(code_views(old(functions)[i].instrs@)),
        forall|i: int|
            0 <= i < final(functions).len() ==> is_clean(
                code_views((#[trigger] final(functions)[i]).instrs@),
            ),
        forall|i: int|
            0 <= i < final(functions).len() ==> (#[trigger] final(functions)[i]).name == old(functions)[i].name && final(functions)[i].args == old(functions)[i].args && final(functions)[i].return_type == old(functions)[i].return_type,
{
    let ghost mut rounds: Seq<nat> = Seq::new(functions.len() as nat, |j: int| 0nat);
    loop
        invariant
            functions.len() == old(functions).len(),
            rounds.len() == functions.len(),
            forall|i: int|
                0 <= i < functions.len() ==> on_the_way(
                    code_views(old(functions)[i].instrs@),
                    code_views((#[trigger] functions[i]).instrs@),
                    rounds[i],
                ),
            forall|i: int|
                0 <= i < functions.len() ==> (#[trigger] functions[i]).name == old(functions)[i].name
                    && functions[i].args == old(functions)[i].args && functions[i].return_type
                    == old(functions)[i].return_type,
        ensures
            functions.len() == old(functions).len(),
            forall|i: int|
                0 <= i < functions.len() ==> code_views((#[trigger] functions[i]).instrs@)
                    == settled(code_views(old(functions)[i].instrs@)),
            forall|i: int|
                0 <= i < functions.len() ==> is_clean(code_views((#[trigger] functions[i]).instrs@)),
            forall|i: int|
                0 <= i < functions.len() ==> (#[trigger] functions[i]).name == old(functions)[i].name
                    && functions[i].args == old(functions)[i].args && functions[i].return_type
                    == old(functions)[i].return_type,
        decreases instr_count(functions@),
    {
        let ghost start = functions@;
        let mut dirty = false;
        let mut i: usize = 0;
        while i < functions.len() && !dirty
            invariant
                i <= functions.len(),
                functions.len() == old(functions).len(),
                functions.len() == start.len(),
                rounds.len() == functions.len(),
                instr_count(functions@) <= instr_count(start),
                dirty ==> instr_count(functions@) < instr_count(start),
                !dirty ==> forall|k: int|
                    0 <= k < i ==> is_clean(code_views((#[trigger] functions[k]).instrs@)),
                forall|k: int|
                    0 <= k < functions.len() ==> on_the_way(
                        code_views(old(functions)[k].instrs@),
                        code_views((#[trigger] functions[k]).instrs@),
                        rounds[k],
                    ),
                forall|k: int|
                    0 <= k < functions.len() ==> (#[trigger] functions[k]).name == old(functions)[k].name && functions[k].args == old(functions)[k].args
                        && functions[k].return_type == old(functions)[k].return_type,
            decreases functions.len() - i,
        {
            let ghost before = functions@;
            let ghost was = code_views(functions[i as int].instrs@);
            dirty = dce_function(&mut functions[i]);
            proof {
                assert(functions@ =~= before.update(i as int, functions[i as int]));
                lemma_count_update(before, i as int, functions[i as int]);
                assert forall|k: int| 0 <= k < i implies functions[k] == before[k] by {}
                if is_clean(was) {
                    lemma_clean_is_fixed(was);
                } else {
                    rounds = rounds.update(i as int, rounds[i as int] + 1);
                }
                assert forall|k: int| 0 <= k < functions.len() implies on_the_way(
                    code_views(old(functions)[k].instrs@),
                    code_views((#[trigger] functions[k]).instrs@),
                    rounds[k],
                ) by {
                    if k != i {
                        assert(functions[k] == before[k]);
                    }
                }
            }
            i += 1;
        }
        if !dirty {
            proof {
                assert forall|k: int| 0 <= k < functions.len() implies code_views(
                    (#[trigger] functions[k]).instrs@,
                ) == settled(code_views(old(functions)[k].instrs@)) by {
                    let first = code_views(old(functions)[k].instrs@);
                    lemma_rounds_rest(first, rounds[k], instructions(first).len() + 1);
                }
            }
            break ;
        }
    }
}

} // verus!
