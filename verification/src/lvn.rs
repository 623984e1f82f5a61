//! Local value numbering: within one block, computations that give a value
//! already at hand become copies, operations on constants become
//! constants, and reads go to the canonical variable of the value read.
use crate::blocks::{block_views, blocks_code, dests, Block, BlockView, ToCode};
use crate::form::{form_blocks, form_blocks_spec};
use crate::ir::{
    code_views, has_name, instr_views, lemma_first_index_some, names, CheckOp, Function,
    InstrView, Instruction, Literal, SafeAccess, Type, ValueOps,
};
use crate::labels::{decimal, decimal_digits};
use crate::table::{type_of, Table, TableView};
use crate::value::{canonical, Value, ValueView};
use vstd::prelude::*;

verus! {

/// No later instruction writes what instruction `i` writes.
pub open spec fn is_last_write(instrs: Seq<InstrView>, i: int) -> bool {
    instrs[i].dest() is None || forall|j: int|
        i < j < instrs.len() ==> (#[trigger] instrs[j]).dest() != instrs[i].dest()
}

/// For each instruction of the block, whether it is the last that writes
/// its destination.
pub fn get_last_writes(block: &Block) -> (r: Vec<bool>)
    ensures
        r.len() == block.instrs.len(),
        forall|i: int| 0 <= i < r.len() ==> r[i] == is_last_write(block@.instrs, i),
{
    let n = block.instrs.len();
    let mut r: Vec<bool> = Vec::new();
    let mut i: usize = 0;
    while i < n
        invariant
            i <= n,
            n == block.instrs.len(),
            r.len() == i,
            forall|k: int| 0 <= k < i ==> r[k] == is_last_write(block@.instrs, k),
        decreases n - i,
    {
        let mut last = true;
        match block.instrs[i].get_dest() {
            Some(dest) => {
                let mut j: usize = i + 1;
                while j < n
                    invariant
                        i < j <= n,
                        n == block.instrs.len(),
                        block@.instrs[i as int].dest() == Some(dest@),
                        last == forall|k: int|
                            i < k < j ==> (#[trigger] block@.instrs[k]).dest() != Some(dest@),
                    decreases n - j,
                {
                    match block.instrs[j].get_dest() {
                        Some(other) => {
                            if other == dest {
                                assert(block@.instrs[j as int].dest() == Some(dest@));
                                last = false;
                            }
                        },
                        None => {},
                    }
                    j += 1;
                }
            },
            None => {},
        }
        r.push(last);
        i += 1;
    }
    r
}

/// `acc` and after it the variables of `uses` that are neither in `defined`
/// nor already listed.
pub open spec fn add_outside(
    acc: Seq<Seq<char>>,
    uses: Seq<Seq<char>>,
    defined: Seq<Seq<char>>,
) -> Seq<Seq<char>>
    decreases uses.len(),
{
    if uses.len() == 0 {
        acc
    } else {
        let prev = add_outside(acc, uses.drop_last(), defined);
        if defined.contains(uses.last()) || prev.contains(uses.last()) {
            prev
        } else {
            prev.push(uses.last())
        }
    }
}

/// The variables that the block reads before it writes them, each once, in
/// the order in which they are first read.
pub open spec fn outside_vars(instrs: Seq<InstrView>) -> Seq<Seq<char>>
    decreases instrs.len(),
{
    if instrs.len() == 0 {
        Seq::empty()
    } else {
        add_outside(outside_vars(instrs.drop_last()), instrs.last().uses(), dests(instrs.drop_last()))
    }
}

/// The variables that come into the block from outside: parameters of the
/// function and what earlier blocks defined.
pub fn get_outside_vars(block: &Block) -> (r: Vec<String>)
    ensures
        names(r@) == outside_vars(block@.instrs),
{
    let mut result: Vec<String> = Vec::new();
    let mut defined: Vec<String> = Vec::new();
    let mut i: usize = 0;
    let ghost instrs = block@.instrs;
    proof {
        assert(instrs.take(0) =~= Seq::empty());
        assert(names(result@) =~= Seq::empty());
        assert(names(defined@) =~= Seq::empty());
    }
    while i < block.instrs.len()
        invariant
            i <= block.instrs.len(),
            instrs == block@.instrs,
            names(result@) == outside_vars(instrs.take(i as int)),
            names(defined@) == dests(instrs.take(i as int)),
        decreases block.instrs.len() - i,
    {
        proof {
            assert(instrs.take(i + 1).drop_last() =~= instrs.take(i as int));
            assert(instrs.take(i + 1).last() == block.instrs[i as int]@);
        }
        let ghost base = names(result@);
        let ghost known = names(defined@);
        match block.instrs[i].get_args() {
            Some(args) => {
                let mut j: usize = 0;
                let ghost uses = names(args@);
                assert(uses.take(0) =~= Seq::empty());
                while j < args.len()
                    invariant
                        j <= args.len(),
                        uses == names(args@),
                        known == names(defined@),
                        names(result@) == add_outside(base, uses.take(j as int), known),
                    decreases args.len() - j,
                {
                    proof {
                        assert(uses.take(j + 1).drop_last() =~= uses.take(j as int));
                        assert(uses.take(j + 1).last() == args[j as int]@);
                    }
                    let ghost before = names(result@);
                    if !has_name(&defined, &args[j]) && !has_name(&result, &args[j]) {
                        result.push(args[j].clone());
                        assert(names(result@) =~= before.push(args[j as int]@));
                    }
                    j += 1;
                }
                assert(uses.take(j as int) =~= uses);
            },
            None => {},
        }
        match block.instrs[i].get_dest() {
            Some(dest) => {
                defined.push(dest);
                assert(names(defined@) =~= known.push(block.instrs[i as int]@.dest().unwrap()));
            },
            None => {},
        }
        i += 1;
    }
    assert(instrs.take(i as int) =~= instrs);
    result
}

/// The table before the first instruction: every variable that comes from
/// outside is bound to an unknown value of its own.
pub open spec fn start_table(vars: Seq<Seq<char>>) -> TableView
    decreases vars.len(),
{
    if vars.len() == 0 {
        TableView { values: Seq::empty(), variables: Seq::empty(), cloud: Map::empty() }
    } else {
        start_table(vars.drop_last()).register(ValueView::Unknown(vars.last())).bind(
            vars.last(),
            ValueView::Unknown(vars.last()),
        )
    }
}

/// The table and the number of the next temporary name.
pub struct LvnState {
    pub table: TableView,
    pub count: nat,
}

/// Each argument replaced by the canonical variable of the value it is
/// bound to; an argument without one stays.
pub open spec fn renamed_args(t: TableView, args: Seq<Seq<char>>) -> Seq<Seq<char>> {
    Seq::new(
        args.len(),
        |i: int|
            match t.lookup(args[i]) {
                Some(c) => c,
                None => args[i],
            },
    )
}

/// The instruction with its arguments renamed.
pub open spec fn with_canonical_args(t: TableView, instr: InstrView) -> InstrView {
    match instr.args() {
        Some(a) => instr.with_args(renamed_args(t, a)),
        None => instr,
    }
}

/// The temporary name with number `k`.
pub open spec fn temp_name(k: nat) -> Seq<char> {
    "lvn_temp_"@ + decimal_digits(k)
}

/// The instruction that gives `dest` the constant `literal`.
pub open spec fn constant_instr(dest: Seq<char>, literal: Literal) -> InstrView {
    InstrView::Constant { dest, const_type: type_of(literal), value: literal }
}

/// The instruction that copies `from` to `dest`.
pub open spec fn copy_instr(dest: Seq<char>, ty: Type, from: Seq<char>) -> InstrView {
    InstrView::Value {
        dest,
        op_type: ty,
        op: ValueOps::Id,
        args: seq![from],
        funcs: Seq::empty(),
        labels: Seq::empty(),
    }
}

/// The type of an instruction that has one.
pub open spec fn type_or_int(instr: InstrView) -> Type {
    match instr.ty() {
        Some(t) => t,
        None => Type::Int,
    }
}

/// What the pass does with one instruction that writes `dest` and computes
/// `value`, which is not a call.
pub open spec fn number_value(
    st: LvnState,
    instr: InstrView,
    dest: Seq<char>,
    value: ValueView,
    last: bool,
) -> (LvnState, InstrView) {
    let t = st.table;
    let simplified = t.simplify(value);
    let folded = simplified is Constant;
    let i2 = match simplified {
        ValueView::Constant(literal) => constant_instr(dest, literal),
        _ => instr,
    };
    let v2 = if folded {
        simplified
    } else {
        value
    };
    let known = t.known_name(v2);
    let t1 = t.register(v2);
    let t2 = if last {
        t1
    } else {
        t1.unbind(dest).bind(dest, v2)
    };
    let dest2 = if last {
        dest
    } else {
        temp_name(st.count)
    };
    let i3 = if last {
        i2
    } else {
        i2.with_dest(dest2)
    };
    let i4 = match known {
        Some(c) => if !(i3 is Constant) && c != dest2 {
            copy_instr(dest2, type_or_int(i3), c)
        } else {
            i3
        },
        None => i3,
    };
    let t3 = t2.unbind(dest2).bind(dest2, v2).candidate(dest2, v2);
    (
        LvnState {
            table: t3,
            count: if last {
                st.count
            } else {
                st.count + 1
            },
        },
        i4,
    )
}

/// What the pass does with one instruction; `last` says whether it is the
/// last write to its destination. Its arguments are renamed. If it writes a
/// variable and computes a value: a call is kept, and its destination bound
/// to the value; anything else is simplified, replaced by a constant if it
/// folds to one, given a temporary name if its destination is written
/// again, replaced by a copy if its value is already held by another
/// variable and it is no constant, and its destination bound to the value
/// and made one of the variables that hold it.
pub open spec fn lvn_step(st: LvnState, instr: InstrView, last: bool) -> (LvnState, InstrView) {
    let i1 = with_canonical_args(st.table, instr);
    match (i1.dest(), st.table.create_value(i1)) {
        (Some(dest), Some(raw)) => {
            let value = canonical(raw);
            if i1.is_call() {
                (
                    LvnState {
                        table: st.table.register(value).unbind(dest).bind(dest, value),
                        count: st.count,
                    },
                    i1,
                )
            } else {
                number_value(st, i1, dest, value, last)
            }
        },
        _ => (st, i1),
    }
}

/// The state after the first `k` instructions and what they became.
pub open spec fn lvn_run(instrs: Seq<InstrView>, k: nat) -> (LvnState, Seq<InstrView>)
    decreases k,
{
    if k == 0 {
        (LvnState { table: start_table(outside_vars(instrs)), count: 0 }, Seq::empty())
    } else {
        let (st, out) = lvn_run(instrs, (k - 1) as nat);
        let (next, instr) = lvn_step(st, instrs[k - 1], is_last_write(instrs, k - 1));
        (next, out.push(instr))
    }
}

/// The instructions of a block after local value numbering.
pub open spec fn lvn_block(instrs: Seq<InstrView>) -> Seq<InstrView> {
    lvn_run(instrs, instrs.len()).1
}

/// A value that has been registered has a number, and keeps it when
/// variables are bound and unbound.
pub proof fn lemma_registered(t: TableView, v: ValueView)
    ensures
        t.register(v).index_of(v) is Some,
{
    lemma_first_index_some(t.values, v);
    if t.index_of(v) is None {
        let next = t.values.push(v);
        assert(next[t.values.len() as int] == v);
        lemma_first_index_some(next, v);
    }
}

/// The instruction with its arguments renamed.
fn rename_args(table: &Table, instr: Instruction) -> (r: Instruction)
    requires
        table.wf(),
    ensures
        r@ == with_canonical_args(table@, instr@),
{
    let mut instr = instr;
    match instr.get_args() {
        Some(args) => {
            let mut renamed: Vec<String> = Vec::new();
            let mut i: usize = 0;
            let ghost old_args = names(args@);
            while i < args.len()
                invariant
                    i <= args.len(),
                    table.wf(),
                    old_args == names(args@),
                    renamed.len() == i,
                    forall|k: int|
                        0 <= k < i ==> #[trigger] renamed[k]@ == renamed_args(table@, old_args)[k],
                decreases args.len() - i,
            {
                assert(old_args[i as int] == args[i as int]@);
                match table.lookup(&args[i]) {
                    Some(c) => {
                        renamed.push(c);
                    },
                    None => {
                        renamed.push(args[i].clone());
                    },
                }
                i += 1;
            }
            assert(names(renamed@) =~= renamed_args(table@, old_args));
            instr.set_args(renamed);
            instr
        },
        None => instr,
    }
}

/// The temporary name with number `k`.
fn make_temp_name(k: usize) -> (r: String)
    ensures
        r@ == temp_name(k as nat),
{
    String::from_str("lvn_temp_").concat(decimal(k).as_str())
}

/// The instruction that copies `from` to `dest`.
fn make_copy(dest: String, ty: Type, from: String) -> (r: Instruction)
    ensures
        r@ == copy_instr(dest@, ty, from@),
{
    let mut args: Vec<String> = Vec::new();
    args.push(from);
    let r = Instruction::Value {
        dest,
        op_type: ty,
        op: ValueOps::Id,
        args,
        funcs: Vec::new(),
        labels: Vec::new(),
    };
    proof {
        assert(names(args@) =~= seq![from@]);
        assert(names(Seq::<String>::empty()) =~= Seq::<Seq<char>>::empty());
    }
    r
}

/// The type that a literal has by its kind.
fn literal_type(literal: &Literal) -> (r: Type)
    ensures
        r == type_of(*literal),
{
    match literal {
        Literal::Int(_) => Type::Int,
        Literal::Bool(_) => Type::Bool,
        Literal::Float(_) => Type::Float,
        Literal::Char(_) => Type::Char,
    }
}

/// Numbers the value of one instruction that is not a call.
fn number_one(
    table: &mut Table,
    count: &mut usize,
    instr: Instruction,
    dest: String,
    value: Value,
    last: bool,
) -> (r: Instruction)
    requires
        old(table).wf(),
        *old(count) < usize::MAX,
    ensures
        final(table).wf(),
        *final(count) <= *old(count) + 1,
        (LvnState { table: final(table)@, count: *final(count) as nat }, r@) == number_value(
            LvnState { table: old(table)@, count: *old(count) as nat },
            instr@,
            dest@,
            value@,
            last,
        ),
{
    let ghost t = table@;
    let mut instr = instr;
    let mut value = value;
    let mut dest = dest;
    let simplified = table.simplify(&value);
    match &simplified {
        Value::Constant(literal) => {
            instr = Instruction::Constant {
                dest: dest.clone(),
                const_type: literal_type(literal),
                value: *literal,
            };
            value = simplified.clone();
        },
        _ => {},
    }
    let ghost v2 = value@;
    let ghost i2 = instr@;
    proof {
        lemma_registered(t, v2);
    }
    let known = table.register_value(&value);
    if !last {
        table.remove_binding(&dest);
        table.add_binding(&dest, &value);
        dest = make_temp_name(*count);
        instr.set_dest(dest.clone());
        *count += 1;
    }
    let ghost i3 = instr@;
    match known {
        Some(c) => {
            if !instr.is_const() && c != dest {
                let ty = match instr.get_type() {
                    Some(t) => t.clone(),
                    None => Type::Int,
                };
                instr = make_copy(dest.clone(), ty, c);
            }
        },
        None => {},
    }
    table.remove_binding(&dest);
    table.add_binding(&dest, &value);
    table.add_candidate(&dest, &value);
    instr
}

/// Numbers one instruction.
fn number_instr(table: &mut Table, count: &mut usize, instr: &Instruction, last: bool) -> (r:
    Instruction)
    requires
        old(table).wf(),
        *old(count) < usize::MAX,
    ensures
        final(table).wf(),
        *final(count) <= *old(count) + 1,
        (LvnState { table: final(table)@, count: *final(count) as nat }, r@) == lvn_step(
            LvnState { table: old(table)@, count: *old(count) as nat },
            instr@,
            last,
        ),
{
    let ghost t = table@;
    let renamed = rename_args(table, instr.clone());
    let dest = match renamed.get_dest() {
        Some(d) => d,
        None => {
            return renamed;
        },
    };
    let value = match table.create_value(&renamed) {
        Some(v) => v.to_canonical(),
        None => {
            return renamed;
        },
    };
    if renamed.is_call() {
        proof {
            lemma_registered(t, value@);
        }
        table.register_value(&value);
        table.remove_binding(&dest);
        table.add_binding(&dest, &value);
        return renamed;
    }
    number_one(table, count, renamed, dest, value, last)
}

/// The table before the first instruction.
fn make_start_table(vars: &Vec<String>) -> (table: Table)
    ensures
        table.wf(),
        table@ == start_table(names(vars@)),
{
    let mut table = Table::new();
    let mut i: usize = 0;
    proof {
        assert(names(vars@).take(0) =~= Seq::empty());
        assert(table@ == start_table(Seq::empty())) by {
            assert(table@.values =~= Seq::empty());
            assert(table@.variables =~= Seq::empty());
        }
    }
    while i < vars.len()
        invariant
            i <= vars.len(),
            table.wf(),
            table@ == start_table(names(vars@).take(i as int)),
        decreases vars.len() - i,
    {
        proof {
            assert(names(vars@).take(i + 1).drop_last() =~= names(vars@).take(i as int));
            assert(names(vars@).take(i + 1).last() == vars[i as int]@);
            lemma_registered(table@, ValueView::Unknown(vars[i as int]@));
        }
        let value = Value::Unknown(vars[i].clone());
        table.register_value(&value);
        table.add_binding(&vars[i], &value);
        i += 1;
    }
    assert(names(vars@).take(i as int) =~= names(vars@));
    table
}

/// Local value numbering of one block.
pub fn apply_lvn_block(block: &mut Block)
    ensures
        final(block)@.label == old(block)@.label,
        final(block)@.instrs == lvn_block(old(block)@.instrs),
{
    let ghost instrs = block@.instrs;
    let vars = get_outside_vars(block);
    let lasts = get_last_writes(block);
    let n = block.instrs.len();
    let mut table = make_start_table(&vars);
    let mut count: usize = 0;
    let mut out: Vec<Instruction> = Vec::new();
    let mut i: usize = 0;
    proof {
        assert(instr_views(out@) =~= Seq::empty());
    }
    while i < n
        invariant
            i <= n,
            n == block.instrs.len(),
            n == lasts.len(),
            instrs == block@.instrs,
            forall|k: int| 0 <= k < n ==> lasts[k] == is_last_write(instrs, k),
            table.wf(),
            count <= i,
            (LvnState { table: table@, count: count as nat }, instr_views(out@)) == lvn_run(
                instrs,
                i as nat,
            ),
        decreases n - i,
    {
        let ghost before = instr_views(out@);
        let instr = number_instr(&mut table, &mut count, &block.instrs[i], lasts[i]);
        out.push(instr);
        proof {
            assert(instr_views(out@) =~= before.push(instr@));
            assert(instrs[i as int] == block.instrs[i as int]@);
        }
        i += 1;
    }
    block.instrs = out;
}

/// Every block after local value numbering.
pub open spec fn lvn_blocks(bs: Seq<BlockView>) -> Seq<BlockView> {
    Seq::new(bs.len(), |i: int| BlockView { label: bs[i].label, instrs: lvn_block(bs[i].instrs) })
}

/// Local value numbering of a function: its body is cut into blocks, each
/// block is numbered by itself, and the blocks are written back.
pub fn apply_lvn(func: &mut Function)
    ensures
        code_views(final(func).instrs@) == blocks_code(
            lvn_blocks(form_blocks_spec(code_views(old(func).instrs@))),
        ),
        final(func).name == old(func).name,
        final(func).args == old(func).args,
        final(func).return_type == old(func).return_type,
{
    let mut blocks = form_blocks(func);
    let ghost formed = block_views(blocks@);
    let mut i: usize = 0;
    while i < blocks.len()
        invariant
            i <= blocks.len(),
            blocks.len() == formed.len(),
            forall|k: int| 0 <= k < i ==> (#[trigger] blocks[k])@ == lvn_blocks(formed)[k],
            forall|k: int| i <= k < blocks.len() ==> (#[trigger] blocks[k])@ == formed[k],
        decreases blocks.len() - i,
    {
        apply_lvn_block(&mut blocks[i]);
        i += 1;
    }
    assert(block_views(blocks@) =~= lvn_blocks(formed));
    func.instrs = blocks.to_code();
}

} // verus!
