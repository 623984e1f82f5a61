//! What simplifying through the value table comes to, in a table in which
//! no value leads back to itself: a copy stands for the simplified value
//! that it copies, an operation is folded over its simplified operands,
//! and the identities hold of an operand however it is given.
use crate::arith::lemma_quotient_by_one;
use crate::fold::{fold1, fold2, int_of, int_value};
use crate::ir::{Type, ValueOps};
use crate::table::{simplify_within, TableView};
use crate::value::ValueView;
use vstd::prelude::*;

verus! {

/// The numbers that a value holds as operands.
pub open spec fn operands(v: ValueView) -> Seq<usize> {
    match v {
        ValueView::Operation { args, .. } => args,
        _ => Seq::empty(),
    }
}

/// `rank` ranks the values: each has a rank below their number, and every
/// operand of a value that is the number of a value has a lower rank than
/// the value. Then no value leads back to itself through its operands.
pub open spec fn ranked(values: Seq<ValueView>, rank: Seq<nat>) -> bool {
    &&& rank.len() == values.len()
    &&& forall|i: int| 0 <= i < values.len() ==> #[trigger] rank[i] < values.len()
    &&& forall|i: int, k: int|
        0 <= i < values.len() && 0 <= k < operands(values[i]).len() && (#[trigger] operands(
            values[i],
        )[k]) < values.len() ==> rank[operands(values[i])[k] as int] < rank[i]
}

/// Values that refer only to values with lower numbers are ranked by their
/// numbers.
pub proof fn lemma_numbers_rank(values: Seq<ValueView>)
    requires
        forall|i: int, k: int|
            0 <= i < values.len() && 0 <= k < operands(values[i]).len() && (#[trigger] operands(
                values[i],
            )[k]) < values.len() ==> operands(values[i])[k] < i,
    ensures
        ranked(values, Seq::new(values.len(), |i: int| i as nat)),
{
}

/// A value of a ranked table reads the same through any number of values
/// that is not below its rank.
pub proof fn lemma_depth_is_enough(
    values: Seq<ValueView>,
    rank: Seq<nat>,
    i: int,
    d1: nat,
    d2: nat,
)
    requires
        ranked(values, rank),
        0 <= i < values.len(),
        rank[i] <= d1,
        rank[i] <= d2,
    ensures
        simplify_within(values, values[i], d1) == simplify_within(values, values[i], d2),
    decreases rank[i],
{
    match values[i] {
        ValueView::Operation { kind, op, args } => {
            if args.len() >= 1 && args[0] < values.len() {
                assert(operands(values[i])[0] == args[0]);
                assert(rank[args[0] as int] < rank[i]);
                lemma_depth_is_enough(
                    values,
                    rank,
                    args[0] as int,
                    (d1 - 1) as nat,
                    (d2 - 1) as nat,
                );
            }
            if args.len() == 2 && args[0] < values.len() && args[1] < values.len() {
                assert(operands(values[i])[1] == args[1]);
                assert(rank[args[1] as int] < rank[i]);
                lemma_depth_is_enough(
                    values,
                    rank,
                    args[1] as int,
                    (d1 - 1) as nat,
                    (d2 - 1) as nat,
                );
            }
        },
        _ => {},
    }
}

/// What a value of a ranked table simplifies to is what it reads as
/// through one value less than the table has.
pub proof fn lemma_one_less(t: TableView, rank: Seq<nat>, i: int)
    requires
        ranked(t.values, rank),
        0 <= i < t.values.len(),
    ensures
        simplify_within(t.values, t.values[i], (t.values.len() - 1) as nat) == t.simplify(
            t.values[i],
        ),
{
    lemma_depth_is_enough(t.values, rank, i, (t.values.len() - 1) as nat, t.values.len());
}

/// Copies are followed. In a ranked table a copy of the value with number
/// `args[0]` simplifies to what that value simplifies to, wherever in the
/// table the value stands and whatever it refers to in turn.
pub proof fn lemma_copy_is_followed(t: TableView, rank: Seq<nat>, kind: Type, args: Seq<usize>)
    requires
        ranked(t.values, rank),
        args.len() >= 1,
        args[0] < t.values.len(),
    ensures
        t.simplify(ValueView::Operation { kind, op: ValueOps::Id, args }) == t.simplify(
            t.values[args[0] as int],
        ),
{
    lemma_one_less(t, rank, args[0] as int);
}

/// Operands are simplified first. In a ranked table an operation on two
/// values, or on one, simplifies to what its rule makes of the simplified
/// operands.
pub proof fn lemma_operands_are_simplified(
    t: TableView,
    rank: Seq<nat>,
    kind: Type,
    op: ValueOps,
    args: Seq<usize>,
)
    requires
        ranked(t.values, rank),
        op != ValueOps::Id,
        forall|k: int| 0 <= k < args.len() ==> args[k] < t.values.len(),
    ensures
        args.len() == 2 ==> t.simplify(ValueView::Operation { kind, op, args }) == fold2(
            op,
            t.simplify(t.values[args[0] as int]),
            t.simplify(t.values[args[1] as int]),
            ValueView::Operation { kind, op, args },
        ),
        args.len() == 1 ==> t.simplify(ValueView::Operation { kind, op, args }) == fold1(
            op,
            t.simplify(t.values[args[0] as int]),
            ValueView::Operation { kind, op, args },
        ),
{
    if args.len() >= 1 {
        lemma_one_less(t, rank, args[0] as int);
    }
    if args.len() == 2 {
        lemma_one_less(t, rank, args[1] as int);
    }
}

/// The rules for an operand beside zero or one, whatever the operand is:
/// `x+0`, `0+x`, `x-0`, `x*1`, `1*x` and `x/1` fold to `x`.
pub proof fn lemma_fold_identities(a: ValueView, whole: ValueView)
    ensures
        fold2(ValueOps::Add, a, int_value(0), whole) == a,
        fold2(ValueOps::Add, int_value(0), a, whole) == a,
        fold2(ValueOps::Sub, a, int_value(0), whole) == a,
        fold2(ValueOps::Mul, a, int_value(1), whole) == a,
        fold2(ValueOps::Mul, int_value(1), a, whole) == a,
        fold2(ValueOps::Div, a, int_value(1), whole) == a,
{
    match int_of(a) {
        Some(x) => {
            lemma_quotient_by_one(x);
            assert(a == int_value(x));
        },
        None => {},
    }
}

/// The identities hold through the table. In a ranked table that holds
/// zero as value `z` and one as value `o`, the operations `i+z`, `z+i`,
/// `i-z`, `i*o`, `o*i` and `i/o` simplify to what the value `i` simplifies
/// to.
pub proof fn lemma_identities_through_table(
    t: TableView,
    rank: Seq<nat>,
    kind: Type,
    i: usize,
    z: usize,
    o: usize,
)
    requires
        ranked(t.values, rank),
        i < t.values.len(),
        z < t.values.len(),
        o < t.values.len(),
        t.values[z as int] == int_value(0),
        t.values[o as int] == int_value(1),
    ensures
        t.simplify(ValueView::Operation { kind, op: ValueOps::Add, args: seq![i, z] })
            == t.simplify(t.values[i as int]),
        t.simplify(ValueView::Operation { kind, op: ValueOps::Add, args: seq![z, i] })
            == t.simplify(t.values[i as int]),
        t.simplify(ValueView::Operation { kind, op: ValueOps::Sub, args: seq![i, z] })
            == t.simplify(t.values[i as int]),
        t.simplify(ValueView::Operation { kind, op: ValueOps::Mul, args: seq![i, o] })
            == t.simplify(t.values[i as int]),
        t.simplify(ValueView::Operation { kind, op: ValueOps::Mul, args: seq![o, i] })
            == t.simplify(t.values[i as int]),
        t.simplify(ValueView::Operation { kind, op: ValueOps::Div, args: seq![i, o] })
            == t.simplify(t.values[i as int]),
{
    let x = t.simplify(t.values[i as int]);
    assert(t.simplify(int_value(0)) == int_value(0));
    assert(t.simplify(int_value(1)) == int_value(1));
    lemma_operands_are_simplified(t, rank, kind, ValueOps::Add, seq![i, z]);
    lemma_operands_are_simplified(t, rank, kind, ValueOps::Add, seq![z, i]);
    lemma_operands_are_simplified(t, rank, kind, ValueOps::Sub, seq![i, z]);
    lemma_operands_are_simplified(t, rank, kind, ValueOps::Mul, seq![i, o]);
    lemma_operands_are_simplified(t, rank, kind, ValueOps::Mul, seq![o, i]);
    lemma_operands_are_simplified(t, rank, kind, ValueOps::Div, seq![i, o]);
    lemma_fold_identities(x, ValueView::Operation { kind, op: ValueOps::Add, args: seq![i, z] });
    lemma_fold_identities(x, ValueView::Operation { kind, op: ValueOps::Add, args: seq![z, i] });
    lemma_fold_identities(x, ValueView::Operation { kind, op: ValueOps::Sub, args: seq![i, z] });
    lemma_fold_identities(x, ValueView::Operation { kind, op: ValueOps::Mul, args: seq![i, o] });
    lemma_fold_identities(x, ValueView::Operation { kind, op: ValueOps::Mul, args: seq![o, i] });
    lemma_fold_identities(x, ValueView::Operation { kind, op: ValueOps::Div, args: seq![i, o] });
}

} // verus!
