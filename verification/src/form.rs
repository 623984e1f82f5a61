//! The block former: cuts the flat body of a function into basic blocks and
//! gives every block a label.
use crate::blocks::{block_code, block_views, blocks_code, empty_block, Block, BlockView};
use crate::ir::{code_views, names, Code, CodeView, EffectOps, Function, InstrView, Instruction};
use crate::labels::{
    anon_label, create_unique_label, is_least_free, least_free, lemma_anon_label_injective,
    lemma_least_free_exists,
};
use vstd::prelude::*;

verus! {

/// Whether the instruction ends a block: a branch, a jump or a return.
pub fn is_terminator(instr: &Instruction) -> (r: bool)
    ensures
        r == instr@.is_terminator(),
{
    match instr {
        Instruction::Effect { op, .. } => *op == EffectOps::Branch || *op == EffectOps::Jump || *op
            == EffectOps::Return,
        _ => false,
    }
}

/// The blocks sealed so far and the block being filled.
pub struct FormState {
    pub done: Seq<BlockView>,
    pub cur: BlockView,
}

/// A block that holds a label or an instruction.
pub open spec fn has_content(b: BlockView) -> bool {
    b.label.len() > 0 || b.instrs.len() > 0
}

/// `done`, and `cur` after it if it has content.
pub open spec fn seal(done: Seq<BlockView>, cur: BlockView) -> Seq<BlockView> {
    if has_content(cur) {
        done.push(cur)
    } else {
        done
    }
}

/// One item of the body: a label seals the block being filled and starts a
/// new one under that label; an instruction joins the block being filled,
/// and seals it if it is a terminator.
pub open spec fn form_step(st: FormState, c: CodeView) -> FormState {
    match c {
        CodeView::Label { label } => FormState {
            done: seal(st.done, st.cur),
            cur: BlockView { label, instrs: Seq::empty() },
        },
        CodeView::Instruction(i) => {
            let cur = BlockView { label: st.cur.label, instrs: st.cur.instrs.push(i) };
            if i.is_terminator() {
                FormState { done: st.done.push(cur), cur: empty_block() }
            } else {
                FormState { done: st.done, cur }
            }
        },
    }
}

/// The state after the whole of `codes`.
pub open spec fn form_state(codes: Seq<CodeView>) -> FormState
    decreases codes.len(),
{
    if codes.len() == 0 {
        FormState { done: Seq::empty(), cur: empty_block() }
    } else {
        form_step(form_state(codes.drop_last()), codes.last())
    }
}

/// The blocks of `codes` before any label is generated: a block that did not
/// start with a label has the empty label.
pub open spec fn raw_blocks(codes: Seq<CodeView>) -> Seq<BlockView> {
    seal(form_state(codes).done, form_state(codes).cur)
}

/// The labels that occur in `codes`, in order.
pub open spec fn user_labels(codes: Seq<CodeView>) -> Seq<Seq<char>>
    decreases codes.len(),
{
    if codes.len() == 0 {
        Seq::empty()
    } else {
        match codes.last() {
            CodeView::Label { label } => user_labels(codes.drop_last()).push(label),
            CodeView::Instruction(_) => user_labels(codes.drop_last()),
        }
    }
}

/// Gives each block without a label, from the first to the last, the label
/// `anon_block_<k>` with the least `k` whose label is neither in `used` nor
/// given to an earlier block.
pub open spec fn assign_labels(blocks: Seq<BlockView>, used: Set<Seq<char>>) -> Seq<BlockView>
    decreases blocks.len(),
{
    if blocks.len() == 0 {
        Seq::empty()
    } else if blocks.first().label.len() == 0 {
        let label = anon_label(least_free(used));
        seq![BlockView { label, instrs: blocks.first().instrs }] + assign_labels(
            blocks.drop_first(),
            used.insert(label),
        )
    } else {
        seq![blocks.first()] + assign_labels(blocks.drop_first(), used)
    }
}

/// The blocks of a function body.
pub open spec fn form_blocks_spec(codes: Seq<CodeView>) -> Seq<BlockView> {
    assign_labels(raw_blocks(codes), user_labels(codes).to_set())
}

/// Cuts the body of `func` into blocks. A label starts a block; a branch, a
/// jump or a return ends one. A block that did not start with a label gets
/// the generated label with the least number that collides with no label of
/// the body and with no label generated before it. A trailing block is kept
/// if it holds anything.
pub fn form_blocks(func: &Function) -> (blocks: Vec<Block>)
    ensures
        block_views(blocks@) == form_blocks_spec(code_views(func.instrs@)),
{
    let ghost codes = code_views(func.instrs@);
    let mut blocks: Vec<Block> = Vec::new();
    let mut current = Block::default();
    let mut used_labels: Vec<String> = Vec::new();
    let mut i: usize = 0;
    proof {
        assert(codes.take(0) =~= Seq::empty());
        assert(block_views(blocks@) =~= Seq::empty());
        assert(names(used_labels@) =~= Seq::empty());
    }
    while i < func.instrs.len()
        invariant
            i <= func.instrs.len(),
            codes == code_views(func.instrs@),
            block_views(blocks@) == form_state(codes.take(i as int)).done,
            current@ == form_state(codes.take(i as int)).cur,
            names(used_labels@) == user_labels(codes.take(i as int)),
        decreases func.instrs.len() - i,
    {
        proof {
            assert(codes.take(i + 1).drop_last() =~= codes.take(i as int));
            assert(codes.take(i + 1).last() == func.instrs[i as int]@);
        }
        let ghost before = block_views(blocks@);
        let ghost used_before = names(used_labels@);
        match &func.instrs[i] {
            Code::Label { label } => {
                if !(current.label.as_str().is_empty() && current.instrs.len() == 0) {
                    blocks.push(current);
                    assert(block_views(blocks@) =~= before.push(current@));
                }
                current = Block { label: label.clone(), instrs: Vec::new() };
                assert(current@.instrs =~= Seq::empty());
                used_labels.push(label.clone());
                assert(names(used_labels@) =~= used_before.push(label@));
            },
            Code::Instruction(instr) => {
                let ghost cur_before = current@;
                current.instrs.push(instr.clone());
                assert(current@.instrs =~= cur_before.instrs.push(instr@));
                if is_terminator(instr) {
                    blocks.push(current);
                    assert(block_views(blocks@) =~= before.push(current@));
                    current = Block::default();
                }
            },
        }
        i += 1;
    }
    assert(codes.take(i as int) =~= codes);
    if !(current.label.as_str().is_empty() && current.instrs.len() == 0) {
        let ghost before = block_views(blocks@);
        blocks.push(current);
        assert(block_views(blocks@) =~= before.push(current@));
    }
    let ghost raw = block_views(blocks@);
    let ghost target = assign_labels(raw, names(used_labels@).to_set());
    let mut counter: usize = 0;
    let mut k: usize = 0;
    proof {
        assert(raw.skip(0) =~= raw);
        assert(raw.take(0) + target =~= target);
    }
    while k < blocks.len()
        invariant
            k <= blocks.len(),
            blocks.len() == raw.len(),
            forall|j: int| k <= j < blocks.len() ==> blocks[j]@ == raw[j],
            block_views(blocks@).take(k as int) + assign_labels(
                raw.skip(k as int),
                names(used_labels@).to_set(),
            ) == target,
            forall|j: nat| j < counter ==> names(used_labels@).contains(#[trigger] anon_label(j)),
        decreases blocks.len() - k,
    {
        let ghost views = block_views(blocks@);
        let ghost used = names(used_labels@);
        proof {
            assert(raw.skip(k as int).first() == raw[k as int]);
            assert(raw.skip(k as int).drop_first() =~= raw.skip(k + 1));
        }
        if blocks[k].label.as_str().is_empty() {
            proof {
                let set = used.to_set();
                lemma_least_free_exists_seq(used);
                vstd::seq_lib::seq_to_set_is_finite(used);
                lemma_least_free_exists(set);
                used.lemma_cardinality_of_set();
                let least = least_free(set);
                assert(is_least_free(set, least));
                assert(!set.contains(anon_label(least)));
                assert(!used.contains(anon_label(least)));
                if least < counter {
                    assert(names(used_labels@).contains(anon_label(least)));
                }
                assert(least <= set.len());
                assert(set.len() <= used.len());
                assert(used.len() == used_labels.len());
                assert(counter <= least <= usize::MAX);
                assert(!names(used_labels@).contains(anon_label(least)));
            }
            let label = create_unique_label(&mut counter, &used_labels);
            used_labels.push(label.clone());
            blocks[k].label = label;
            proof {
                let now = block_views(blocks@);
                assert(names(used_labels@) =~= used.push(label@));
                used.lemma_push_to_set_commute(label@);
                assert(blocks[k as int]@ == (BlockView { label: label@, instrs: raw[k as int].instrs }));
                assert(now.take(k + 1) =~= views.take(k as int) + seq![blocks[k as int]@]);
                assert(views.take(k as int) + (seq![blocks[k as int]@] + assign_labels(
                    raw.skip(k + 1),
                    names(used_labels@).to_set(),
                )) =~= now.take(k + 1) + assign_labels(
                    raw.skip(k + 1),
                    names(used_labels@).to_set(),
                ));
                assert forall|j: nat| j < counter implies names(used_labels@).contains(
                    #[trigger] anon_label(j),
                ) by {
                    lemma_least_free_exists_seq(used);
                    assert(used.to_set().contains(anon_label(j)));
                    assert(used.contains(anon_label(j)));
                    let w = choose|w: int| 0 <= w < used.len() && used[w] == anon_label(j);
                    assert(names(used_labels@)[w] == anon_label(j));
                }
            }
        } else {
            proof {
                assert(views.take(k + 1) =~= views.take(k as int) + seq![raw[k as int]]);
                assert(views.take(k as int) + (seq![raw[k as int]] + assign_labels(
                    raw.skip(k + 1),
                    used.to_set(),
                )) =~= views.take(k + 1) + assign_labels(raw.skip(k + 1), used.to_set()));
            }
        }
        k += 1;
    }
    proof {
        assert(raw.skip(k as int) =~= Seq::empty());
        assert(block_views(blocks@).take(k as int) =~= block_views(blocks@));
        assert(block_views(blocks@) + Seq::<BlockView>::empty() =~= block_views(blocks@));
    }
    blocks
}

proof fn lemma_least_free_exists_seq(used: Seq<Seq<char>>)
    ensures
        is_least_free(used.to_set(), least_free(used.to_set())),
{
    vstd::seq_lib::seq_to_set_is_finite(used);
    lemma_least_free_exists(used.to_set());
}

/// The instructions of a body, in order, without its labels.
pub open spec fn instructions(codes: Seq<CodeView>) -> Seq<InstrView>
    decreases codes.len(),
{
    if codes.len() == 0 {
        Seq::empty()
    } else {
        match codes.last() {
            CodeView::Label { .. } => instructions(codes.drop_last()),
            CodeView::Instruction(i) => instructions(codes.drop_last()).push(i),
        }
    }
}

/// The instructions of a run of blocks, in block order.
pub open spec fn flatten(bs: Seq<BlockView>) -> Seq<InstrView>
    decreases bs.len(),
{
    if bs.len() == 0 {
        Seq::empty()
    } else {
        flatten(bs.drop_last()) + bs.last().instrs
    }
}

/// The flat form of a block that writes its label only if it has one.
pub open spec fn bare_code(b: BlockView) -> Seq<CodeView> {
    (if b.label.len() > 0 {
        seq![CodeView::Label { label: b.label }]
    } else {
        Seq::empty()
    }) + Seq::new(b.instrs.len(), |i: int| CodeView::Instruction(b.instrs[i]))
}

/// The flat form of a run of blocks, each label written only if it is not
/// empty.
pub open spec fn bare_codes(bs: Seq<BlockView>) -> Seq<CodeView>
    decreases bs.len(),
{
    if bs.len() == 0 {
        Seq::empty()
    } else {
        bare_codes(bs.drop_last()) + bare_code(bs.last())
    }
}

/// The body without its empty labels.
pub open spec fn without_empty_labels(codes: Seq<CodeView>) -> Seq<CodeView>
    decreases codes.len(),
{
    if codes.len() == 0 {
        Seq::empty()
    } else {
        match codes.last() {
            CodeView::Label { label } => if label.len() == 0 {
                without_empty_labels(codes.drop_last())
            } else {
                without_empty_labels(codes.drop_last()).push(codes.last())
            },
            CodeView::Instruction(_) => without_empty_labels(codes.drop_last()).push(codes.last()),
        }
    }
}

/// Before labels are generated the blocks are a partition of the body: written
/// out one after the other they give the body back, item by item, but for
/// its empty labels.
pub proof fn lemma_raw_partition(codes: Seq<CodeView>)
    ensures
        bare_codes(raw_blocks(codes)) == without_empty_labels(codes),
        bare_codes(form_state(codes).done) + bare_code(form_state(codes).cur)
            == without_empty_labels(codes),
    decreases codes.len(),
{
    let st = form_state(codes);
    if codes.len() == 0 {
        assert(bare_code(empty_block()) =~= Seq::empty());
        assert(bare_codes(st.done) + bare_code(st.cur) =~= Seq::empty());
    } else {
        let prev = form_state(codes.drop_last());
        lemma_raw_partition(codes.drop_last());
        lemma_seal(prev.done, prev.cur);
        match codes.last() {
            CodeView::Label { label } => {
                let cur = BlockView { label, instrs: Seq::empty() };
                if label.len() == 0 {
                    assert(bare_code(cur) =~= Seq::empty());
                    assert(bare_codes(st.done) + bare_code(st.cur) =~= bare_codes(st.done));
                } else {
                    assert(bare_code(cur) =~= seq![codes.last()]);
                    assert(bare_codes(st.done) + bare_code(st.cur) =~= bare_codes(st.done).push(
                        codes.last(),
                    ));
                }
            },
            CodeView::Instruction(i) => {
                let cur = BlockView { label: prev.cur.label, instrs: prev.cur.instrs.push(i) };
                assert(bare_code(cur) =~= bare_code(prev.cur).push(codes.last()));
                if i.is_terminator() {
                    assert(st.done.drop_last() =~= prev.done);
                    assert(bare_code(empty_block()) =~= Seq::empty());
                    assert(bare_codes(st.done) + bare_code(st.cur) =~= (bare_codes(prev.done)
                        + bare_code(prev.cur)).push(codes.last()));
                } else {
                    assert(bare_codes(st.done) + bare_code(st.cur) =~= (bare_codes(prev.done)
                        + bare_code(prev.cur)).push(codes.last()));
                }
            },
        }
    }
    lemma_seal(st.done, st.cur);
}

proof fn lemma_seal(done: Seq<BlockView>, cur: BlockView)
    ensures
        bare_codes(seal(done, cur)) == bare_codes(done) + bare_code(cur),
{
    if has_content(cur) {
        assert(done.push(cur).drop_last() =~= done);
    } else {
        assert(bare_code(cur) =~= Seq::empty());
        assert(bare_codes(done) + bare_code(cur) =~= bare_codes(done));
    }
}

/// Generating labels changes nothing else: the blocks keep their number,
/// their instructions and every label that is not empty. A generated label
/// is not empty, is not in `used`, and is given to one block only.
pub proof fn lemma_assign_labels(blocks: Seq<BlockView>, used: Set<Seq<char>>)
    requires
        used.finite(),
    ensures
        assign_labels(blocks, used).len() == blocks.len(),
        forall|i: int|
            0 <= i < blocks.len() ==> (#[trigger] assign_labels(blocks, used)[i]).instrs
                == blocks[i].instrs,
        forall|i: int|
            0 <= i < blocks.len() && blocks[i].label.len() > 0 ==> (#[trigger] assign_labels(
                blocks,
                used,
            )[i]).label == blocks[i].label,
        forall|i: int|
            0 <= i < blocks.len() ==> (#[trigger] assign_labels(blocks, used)[i]).label.len() > 0,
        forall|i: int|
            0 <= i < blocks.len() && blocks[i].label.len() == 0 ==> !used.contains(
                (#[trigger] assign_labels(blocks, used)[i]).label,
            ),
        forall|i: int, j: int|
            0 <= i < j < blocks.len() && blocks[i].label.len() == 0 && blocks[j].label.len() == 0
                ==> (#[trigger] assign_labels(blocks, used)[i]).label != (#[trigger] assign_labels(
                blocks,
                used,
            )[j]).label,
    decreases blocks.len(),
{
    if blocks.len() > 0 {
        let rest = blocks.drop_first();
        let out = assign_labels(blocks, used);
        if blocks.first().label.len() == 0 {
            lemma_least_free_exists(used);
            let label = anon_label(least_free(used));
            lemma_anon_label_injective(least_free(used), 0);
            lemma_assign_labels(rest, used.insert(label));
            let tail = assign_labels(rest, used.insert(label));
            assert forall|i: int| 0 < i < blocks.len() implies out[i] == tail[i - 1] && rest[i - 1]
                == blocks[i] by {}
            assert forall|i: int, j: int|
                0 <= i < j < blocks.len() && blocks[i].label.len() == 0 && blocks[j].label.len()
                    == 0 implies (#[trigger] out[i]).label != (#[trigger] out[j]).label by {
                if i == 0 {
                    assert(out[j] == tail[j - 1]);
                    assert(!used.insert(label).contains(tail[j - 1].label));
                } else {
                    assert(out[i] == tail[i - 1]);
                    assert(out[j] == tail[j - 1]);
                }
            }
            assert forall|i: int| 0 <= i < blocks.len() && blocks[i].label.len() == 0 implies !used.contains(
                (#[trigger] out[i]).label,
            ) by {
                if i > 0 {
                    assert(out[i] == tail[i - 1]);
                    assert(!used.insert(label).contains(tail[i - 1].label));
                }
            }
        } else {
            lemma_assign_labels(rest, used);
            let tail = assign_labels(rest, used);
            assert forall|i: int| 0 < i < blocks.len() implies out[i] == tail[i - 1] && rest[i - 1]
                == blocks[i] by {}
        }
    }
}

/// The instructions of the blocks, one block after the other, are the
/// instructions of the body in their order: forming blocks moves, drops and
/// adds no instruction.
pub proof fn lemma_form_blocks_keeps_instructions(codes: Seq<CodeView>)
    ensures
        flatten(form_blocks_spec(codes)) == instructions(codes),
{
    vstd::seq_lib::seq_to_set_is_finite(user_labels(codes));
    let raw = raw_blocks(codes);
    let used = user_labels(codes).to_set();
    lemma_assign_labels(raw, used);
    lemma_flatten_same_instrs(raw, assign_labels(raw, used));
    lemma_state_instructions(codes);
}

proof fn lemma_flatten_same_instrs(a: Seq<BlockView>, b: Seq<BlockView>)
    requires
        a.len() == b.len(),
        forall|i: int| 0 <= i < a.len() ==> (#[trigger] b[i]).instrs == a[i].instrs,
    ensures
        flatten(a) == flatten(b),
    decreases a.len(),
{
    if a.len() > 0 {
        assert(b[b.len() - 1].instrs == a[a.len() - 1].instrs);
        assert forall|i: int| 0 <= i < a.drop_last().len() implies (#[trigger] b.drop_last()[i]).instrs
            == a.drop_last()[i].instrs by {
            assert(b[i].instrs == a[i].instrs);
        }
        lemma_flatten_same_instrs(a.drop_last(), b.drop_last());
    }
}

proof fn lemma_state_instructions(codes: Seq<CodeView>)
    ensures
        flatten(form_state(codes).done) + form_state(codes).cur.instrs == instructions(codes),
        flatten(raw_blocks(codes)) == instructions(codes),
    decreases codes.len(),
{
    let st = form_state(codes);
    if codes.len() == 0 {
        assert(flatten(st.done) + st.cur.instrs =~= Seq::empty());
    } else {
        let prev = form_state(codes.drop_last());
        lemma_state_instructions(codes.drop_last());
        match codes.last() {
            CodeView::Label { label } => {
                if has_content(prev.cur) {
                    assert(prev.done.push(prev.cur).drop_last() =~= prev.done);
                } else {
                    assert(flatten(prev.done) + prev.cur.instrs =~= flatten(prev.done));
                }
                assert(flatten(st.done) + st.cur.instrs =~= flatten(st.done));
            },
            CodeView::Instruction(i) => {
                let cur = BlockView { label: prev.cur.label, instrs: prev.cur.instrs.push(i) };
                if i.is_terminator() {
                    assert(st.done.drop_last() =~= prev.done);
                    assert(flatten(st.done) + st.cur.instrs =~= (flatten(prev.done)
                        + prev.cur.instrs).push(i));
                } else {
                    assert(flatten(st.done) + st.cur.instrs =~= (flatten(prev.done)
                        + prev.cur.instrs).push(i));
                }
            },
        }
    }
    if has_content(st.cur) {
        assert(st.done.push(st.cur).drop_last() =~= st.done);
    } else {
        assert(flatten(st.done) + st.cur.instrs =~= flatten(st.done));
    }
}

/// No instruction of the block but the last is a terminator.
pub open spec fn ends_at_terminator(b: BlockView) -> bool {
    forall|j: int| 0 <= j < b.instrs.len() - 1 ==> !(#[trigger] b.instrs[j]).is_terminator()
}

/// No instruction of the block is a terminator.
pub open spec fn is_open(b: BlockView) -> bool {
    forall|j: int| 0 <= j < b.instrs.len() ==> !(#[trigger] b.instrs[j]).is_terminator()
}

/// The blocks are as the block former makes them: each has a label, and a
/// terminator stands nowhere but at the end of a block.
pub open spec fn well_formed_blocks(bs: Seq<BlockView>) -> bool {
    forall|i: int|
        0 <= i < bs.len() ==> (#[trigger] bs[i]).label.len() > 0 && ends_at_terminator(bs[i])
}

/// The state after `cs`, starting from `st`.
pub open spec fn form_run(st: FormState, cs: Seq<CodeView>) -> FormState
    decreases cs.len(),
{
    if cs.len() == 0 {
        st
    } else {
        form_step(form_run(st, cs.drop_last()), cs.last())
    }
}

/// Going through one part of a body after another is going through both.
pub proof fn lemma_form_run(a: Seq<CodeView>, b: Seq<CodeView>)
    ensures
        form_state(a + b) == form_run(form_state(a), b),
    decreases b.len(),
{
    if b.len() == 0 {
        assert(a + b =~= a);
    } else {
        lemma_form_run(a, b.drop_last());
        assert((a + b).drop_last() =~= a + b.drop_last());
        assert((a + b).last() == b.last());
    }
}

/// The blocks that the block former makes, before it gives labels, hold a
/// terminator nowhere but at their ends.
proof fn lemma_state_terminators(codes: Seq<CodeView>)
    ensures
        is_open(form_state(codes).cur),
        forall|i: int|
            0 <= i < form_state(codes).done.len() ==> ends_at_terminator(
                #[trigger] form_state(codes).done[i],
            ),
        forall|i: int|
            0 <= i < raw_blocks(codes).len() ==> ends_at_terminator(#[trigger] raw_blocks(codes)[i]),
    decreases codes.len(),
{
    if codes.len() > 0 {
        lemma_state_terminators(codes.drop_last());
        let prev = form_state(codes.drop_last());
        let st = form_state(codes);
        match codes.last() {
            CodeView::Label { label } => {
                assert forall|i: int| 0 <= i < st.done.len() implies ends_at_terminator(
                    #[trigger] st.done[i],
                ) by {
                    if i < prev.done.len() {
                        assert(st.done[i] == prev.done[i]);
                    }
                }
            },
            CodeView::Instruction(instr) => {
                let cur = BlockView { label: prev.cur.label, instrs: prev.cur.instrs.push(instr) };
                assert(ends_at_terminator(cur)) by {
                    assert forall|j: int| 0 <= j < cur.instrs.len() - 1 implies !(
                    #[trigger] cur.instrs[j]).is_terminator() by {
                        assert(cur.instrs[j] == prev.cur.instrs[j]);
                    }
                }
                if !instr.is_terminator() {
                    assert(is_open(cur)) by {
                        assert forall|j: int| 0 <= j < cur.instrs.len() implies !(
                        #[trigger] cur.instrs[j]).is_terminator() by {
                            if j < prev.cur.instrs.len() {
                                assert(cur.instrs[j] == prev.cur.instrs[j]);
                            }
                        }
                    }
                }
                assert forall|i: int| 0 <= i < st.done.len() implies ends_at_terminator(
                    #[trigger] st.done[i],
                ) by {
                    if i < prev.done.len() {
                        assert(st.done[i] == prev.done[i]);
                    }
                }
            },
        }
    }
    let st = form_state(codes);
    assert forall|i: int| 0 <= i < raw_blocks(codes).len() implies ends_at_terminator(
        #[trigger] raw_blocks(codes)[i],
    ) by {
        if i < st.done.len() {
            assert(raw_blocks(codes)[i] == st.done[i]);
        }
    }
}

/// What the block former makes is well formed.
pub proof fn lemma_formed_well(codes: Seq<CodeView>)
    ensures
        well_formed_blocks(form_blocks_spec(codes)),
{
    vstd::seq_lib::seq_to_set_is_finite(user_labels(codes));
    lemma_state_terminators(codes);
    let raw = raw_blocks(codes);
    let out = form_blocks_spec(codes);
    lemma_assign_labels(raw, user_labels(codes).to_set());
    assert forall|i: int| 0 <= i < out.len() implies (#[trigger] out[i]).label.len() > 0
        && ends_at_terminator(out[i]) by {
        assert(out[i].instrs == raw[i].instrs);
        assert(ends_at_terminator(raw[i]));
    }
}

/// Blocks that all have labels are given no labels.
proof fn lemma_labels_stay(bs: Seq<BlockView>, used: Set<Seq<char>>)
    requires
        forall|i: int| 0 <= i < bs.len() ==> (#[trigger] bs[i]).label.len() > 0,
    ensures
        assign_labels(bs, used) == bs,
    decreases bs.len(),
{
    if bs.len() > 0 {
        assert(bs[0].label.len() > 0);
        assert forall|i: int| 0 <= i < bs.drop_first().len() implies (#[trigger] bs.drop_first()[i]).label.len()
            > 0 by {
            assert(bs[i + 1].label.len() > 0);
        }
        lemma_labels_stay(bs.drop_first(), used);
        assert(seq![bs.first()] + bs.drop_first() =~= bs);
    } else {
        assert(assign_labels(bs, used) =~= bs);
    }
}

/// The state after the label of `b` and the first `j` of its instructions,
/// from a state in which the blocks `before` are complete.
proof fn lemma_block_run(st: FormState, before: Seq<BlockView>, b: BlockView, j: nat)
    requires
        seal(st.done, st.cur) == before,
        b.label.len() > 0,
        ends_at_terminator(b),
        j <= b.instrs.len(),
    ensures
        ({
            let after = form_run(st, block_code(b).take(j as int + 1));
            if j == b.instrs.len() && j > 0 && b.instrs.last().is_terminator() {
                after.done == before.push(b) && after.cur == empty_block()
            } else {
                after.done == before && after.cur == (BlockView {
                    label: b.label,
                    instrs: b.instrs.take(j as int),
                })
            }
        }),
    decreases j,
{
    let code = block_code(b);
    if j == 0 {
        let one = code.take(1);
        assert(one.drop_last() =~= Seq::empty());
        assert(one.last() == (CodeView::Label { label: b.label }));
        assert(b.instrs.take(0) =~= Seq::empty());
        assert(form_run(st, one.drop_last()) == st);
        assert(form_run(st, one) == form_step(st, one.last()));
    } else {
        lemma_block_run(st, before, b, (j - 1) as nat);
        let more = code.take(j as int + 1);
        let less = code.take(j as int);
        let instr = b.instrs[j - 1];
        assert(more.drop_last() =~= less);
        assert(more.last() == CodeView::Instruction(instr));
        assert(b.instrs.take(j as int) =~= b.instrs.take(j - 1).push(instr));
        let prev = form_run(st, less);
        assert(prev.done == before);
        assert(prev.cur == (BlockView { label: b.label, instrs: b.instrs.take(j - 1) }));
        assert(form_run(st, more) == form_step(prev, CodeView::Instruction(instr)));
        if j < b.instrs.len() {
            assert(!b.instrs[j - 1].is_terminator());
        } else {
            assert(b.instrs.take(j as int) =~= b.instrs);
            assert(b.instrs.last() == instr);
        }
    }
}

/// Blocks written out and cut into blocks again are the same blocks.
pub proof fn lemma_round_trip(bs: Seq<BlockView>)
    requires
        well_formed_blocks(bs),
    ensures
        form_blocks_spec(blocks_code(bs)) == bs,
        raw_blocks(blocks_code(bs)) == bs,
    decreases bs.len(),
{
    lemma_raw_round_trip(bs);
    lemma_labels_stay(bs, user_labels(blocks_code(bs)).to_set());
}

proof fn lemma_raw_round_trip(bs: Seq<BlockView>)
    requires
        well_formed_blocks(bs),
    ensures
        raw_blocks(blocks_code(bs)) == bs,
    decreases bs.len(),
{
    if bs.len() == 0 {
        assert(raw_blocks(blocks_code(bs)) =~= bs);
    } else {
        let before = bs.drop_last();
        let b = bs.last();
        assert(well_formed_blocks(before)) by {
            assert forall|i: int| 0 <= i < before.len() implies (#[trigger] before[i]).label.len() > 0
                && ends_at_terminator(before[i]) by {
                assert(bs[i].label.len() > 0 && ends_at_terminator(bs[i]));
            }
        }
        assert(bs[bs.len() - 1].label.len() > 0 && ends_at_terminator(bs[bs.len() - 1]));
        lemma_raw_round_trip(before);
        let st = form_state(blocks_code(before));
        lemma_form_run(blocks_code(before), block_code(b));
        lemma_block_run(st, before, b, b.instrs.len());
        assert(block_code(b).take(b.instrs.len() as int + 1) =~= block_code(b));
        assert(before.push(b) =~= bs);
        assert(b.instrs.take(b.instrs.len() as int) =~= b.instrs);
    }
}

/// The instructions of blocks written out are the instructions of the
/// blocks.
pub proof fn lemma_code_instructions(bs: Seq<BlockView>)
    ensures
        instructions(blocks_code(bs)) == flatten(bs),
    decreases bs.len(),
{
    if bs.len() > 0 {
        lemma_code_instructions(bs.drop_last());
        lemma_instructions_add(blocks_code(bs.drop_last()), block_code(bs.last()));
        lemma_block_instructions(bs.last(), bs.last().instrs.len());
        assert(block_code(bs.last()).take(bs.last().instrs.len() as int + 1) =~= block_code(bs.last()));
        assert(bs.last().instrs.take(bs.last().instrs.len() as int) =~= bs.last().instrs);
    }
}

proof fn lemma_instructions_add(a: Seq<CodeView>, b: Seq<CodeView>)
    ensures
        instructions(a + b) == instructions(a) + instructions(b),
    decreases b.len(),
{
    if b.len() == 0 {
        assert(a + b =~= a);
        assert(instructions(a) + instructions(b) =~= instructions(a));
    } else {
        lemma_instructions_add(a, b.drop_last());
        assert((a + b).drop_last() =~= a + b.drop_last());
        assert((a + b).last() == b.last());
        match b.last() {
            CodeView::Label { .. } => {},
            CodeView::Instruction(i) => {
                assert((instructions(a) + instructions(b.drop_last())).push(i) =~= instructions(a)
                    + instructions(b.drop_last()).push(i));
            },
        }
    }
}

proof fn lemma_block_instructions(b: BlockView, j: nat)
    requires
        j <= b.instrs.len(),
    ensures
        instructions(block_code(b).take(j as int + 1)) == b.instrs.take(j as int),
    decreases j,
{
    let code = block_code(b);
    if j == 0 {
        assert(code.take(1).drop_last() =~= Seq::empty());
        assert(code.take(1).last() == (CodeView::Label { label: b.label }));
        assert(b.instrs.take(0) =~= Seq::empty());
        assert(instructions(code.take(1).drop_last()) =~= Seq::empty());
    } else {
        lemma_block_instructions(b, (j - 1) as nat);
        assert(code.take(j as int + 1).drop_last() =~= code.take(j as int));
        assert(code.take(j as int + 1).last() == CodeView::Instruction(b.instrs[j - 1]));
        assert(b.instrs.take(j as int) =~= b.instrs.take(j - 1).push(b.instrs[j - 1]));
    }
}

} // verus!
