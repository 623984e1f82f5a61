//! The tables of local value numbering: every value refers only to values
//! that were registered before it, so the tables are ranked and copies are
//! followed and identities hold in them.
use crate::ir::{lemma_first_index_found, InstrView};
use crate::lvn::{
    is_last_write, lvn_run, lvn_step, outside_vars, start_table, temp_name,
    with_canonical_args, LvnState,
};
use crate::order::{number_le, sorted_numbers};
use crate::table::TableView;
use crate::table_laws::{lemma_numbers_rank, operands, ranked};
use crate::value::{canonical, ValueView};
use vstd::prelude::*;
use vstd::relations::total_ordering;

verus! {

/// Every value refers only to values with lower numbers, and every
/// variable is bound to the number of a value.
pub open spec fn refers_back(t: TableView) -> bool {
    &&& forall|i: int, k: int|
        0 <= i < t.values.len() && 0 <= k < operands(t.values[i]).len() ==> (#[trigger] operands(
            t.values[i],
        )[k]) < i
    &&& forall|key: Seq<char>| #[trigger]
        t.cloud.contains_key(key) ==> t.cloud[key] < t.values.len()
}

/// Every operand of `v` is the number of a value of the table.
pub open spec fn fits(t: TableView, v: ValueView) -> bool {
    forall|k: int| 0 <= k < operands(v).len() ==> (#[trigger] operands(v)[k]) < t.values.len()
}

/// Registering a value whose operands are numbers of the table.
pub proof fn lemma_register_back(t: TableView, v: ValueView)
    requires
        refers_back(t),
        fits(t, v),
    ensures
        refers_back(t.register(v)),
        fits(t.register(v), v),
        t.values.len() <= t.register(v).values.len(),
{
    let next = t.register(v);
    if t.index_of(v) is None {
        assert forall|i: int, k: int|
            0 <= i < next.values.len() && 0 <= k < operands(next.values[i]).len() implies (
        #[trigger] operands(next.values[i])[k]) < i by {
            if i < t.values.len() {
                assert(next.values[i] == t.values[i]);
            }
        }
    }
}

/// Binding, unbinding and naming a variable.
pub proof fn lemma_bindings_back(t: TableView, variable: Seq<char>, v: ValueView)
    requires
        refers_back(t),
        t.values.len() <= usize::MAX,
    ensures
        refers_back(t.bind(variable, v)),
        refers_back(t.unbind(variable)),
        refers_back(t.candidate(variable, v)),
        t.bind(variable, v).values == t.values,
        t.unbind(variable).values == t.values,
        t.candidate(variable, v).values == t.values,
{
    lemma_first_index_found(t.values, v);
}

/// The value of an instruction has numbers of the table as operands.
pub proof fn lemma_created_fits(t: TableView, instr: InstrView)
    requires
        refers_back(t),
        t.create_value(instr) is Some,
    ensures
        fits(t, t.create_value(instr).unwrap()),
        fits(t, canonical(t.create_value(instr).unwrap())),
{
    let v = t.create_value(instr).unwrap();
    match v {
        ValueView::Operation { kind, op, args } => {
            assert forall|k: int| 0 <= k < operands(v).len() implies (#[trigger] operands(v)[k])
                < t.values.len() by {
                match instr {
                    InstrView::Value { args: read, .. } => {
                        assert(t.cloud.contains_key(read[k]));
                    },
                    _ => {},
                }
            }
            assert(total_ordering(number_le()));
            args.lemma_sort_by_ensures(number_le());
            let sorted = sorted_numbers(args);
            assert forall|k: int| 0 <= k < sorted.len() implies (#[trigger] sorted[k])
                < t.values.len() by {
                assert(sorted.contains(sorted[k]));
                assert(args.contains(sorted[k]));
                let j = choose|j: int| 0 <= j < args.len() && args[j] == sorted[k];
                assert(operands(v)[j] < t.values.len());
            }
        },
        _ => {},
    }
}

/// One step of the numbering leaves the table so that every value refers
/// only to values with lower numbers, and takes no value from it.
pub proof fn lemma_step_back(st: LvnState, instr: InstrView, last: bool)
    requires
        refers_back(st.table),
        lvn_step(st, instr, last).0.table.values.len() <= usize::MAX,
    ensures
        refers_back(lvn_step(st, instr, last).0.table),
{
    lemma_step_grows(st, instr, last);
    let t = st.table;
    let i1 = with_canonical_args(t, instr);
    match (i1.dest(), t.create_value(i1)) {
        (Some(dest), Some(raw)) => {
            let value = canonical(raw);
            lemma_created_fits(t, i1);
            if i1.is_call() {
                lemma_register_back(t, value);
                lemma_bindings_back(t.register(value), dest, value);
                lemma_bindings_back(t.register(value).unbind(dest), dest, value);
            } else {
                let simplified = t.simplify(value);
                let v2 = if simplified is Constant {
                    simplified
                } else {
                    value
                };
                assert(fits(t, v2));
                lemma_register_back(t, v2);
                let t1 = t.register(v2);
                lemma_bindings_back(t1, dest, v2);
                lemma_bindings_back(t1.unbind(dest), dest, v2);
                let t2 = if last {
                    t1
                } else {
                    t1.unbind(dest).bind(dest, v2)
                };
                let d2 = if last {
                    dest
                } else {
                    temp_name(st.count)
                };
                lemma_bindings_back(t2, d2, v2);
                lemma_bindings_back(t2.unbind(d2), d2, v2);
                lemma_bindings_back(t2.unbind(d2).bind(d2, v2), d2, v2);
            }
        },
        _ => {},
    }
}

/// One step of the numbering takes no value from the table.
pub proof fn lemma_step_grows(st: LvnState, instr: InstrView, last: bool)
    ensures
        st.table.values.len() <= lvn_step(st, instr, last).0.table.values.len(),
{
}

/// The table at the start refers back.
pub proof fn lemma_start_back(vars: Seq<Seq<char>>)
    requires
        start_table(vars).values.len() <= usize::MAX,
    ensures
        refers_back(start_table(vars)),
    decreases vars.len(),
{
    if vars.len() > 0 {
        let prev = start_table(vars.drop_last());
        let v = ValueView::Unknown(vars.last());
        lemma_start_back(vars.drop_last());
        lemma_register_back(prev, v);
        lemma_bindings_back(prev.register(v), vars.last(), v);
    }
}

/// The tables of local value numbering are ranked: after any number of
/// instructions of a block every value of the table refers only to values
/// registered before it, so long as the table has no more values than can
/// be counted.
pub proof fn lemma_lvn_table_is_ranked(instrs: Seq<InstrView>, k: nat)
    requires
        k <= instrs.len(),
        lvn_run(instrs, k).0.table.values.len() <= usize::MAX,
    ensures
        refers_back(lvn_run(instrs, k).0.table),
        ranked(
            lvn_run(instrs, k).0.table.values,
            Seq::new(lvn_run(instrs, k).0.table.values.len(), |i: int| i as nat),
        ),
    decreases k,
{
    if k == 0 {
        lemma_start_back(outside_vars(instrs));
    } else {
        let (st, out) = lvn_run(instrs, (k - 1) as nat);
        lemma_step_grows(st, instrs[k - 1], is_last_write(instrs, k - 1));
        lemma_lvn_table_is_ranked(instrs, (k - 1) as nat);
        lemma_step_back(st, instrs[k - 1], is_last_write(instrs, k - 1));
    }
    lemma_numbers_rank(lvn_run(instrs, k).0.table.values);
}

} // verus!
