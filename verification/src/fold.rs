//! The fold rules of local value numbering: what an operation on values
//! that are already simplified can be replaced by. Floats are held as bit
//! patterns and no floating-point arithmetic is done: an operation on two
//! float constants is left as it is.
use crate::arith::{divide, lemma_quotient_by_one, lemma_quotient_by_self, wrapping_quotient};
use crate::ir::{Literal, ValueOps};
use crate::value::{Value, ValueView};
use vstd::prelude::*;

verus! {

/// The bits of the float `1.0`.
pub const FLOAT_ONE: u64 = 0x3FF0_0000_0000_0000;

/// The bits of the float `-0.0`.
pub const FLOAT_MINUS_ZERO: u64 = 0x8000_0000_0000_0000;

/// The integer of an integer constant.
pub open spec fn int_of(v: ValueView) -> Option<i64> {
    match v {
        ValueView::Constant(Literal::Int(x)) => Some(x),
        _ => None,
    }
}

/// The truth value of a boolean constant.
pub open spec fn bool_of(v: ValueView) -> Option<bool> {
    match v {
        ValueView::Constant(Literal::Bool(x)) => Some(x),
        _ => None,
    }
}

/// The bits of a float constant.
pub open spec fn float_of(v: ValueView) -> Option<u64> {
    match v {
        ValueView::Constant(Literal::Float(x)) => Some(x),
        _ => None,
    }
}

/// The float constant zero, of either sign.
pub open spec fn is_float_zero(v: ValueView) -> bool {
    float_of(v) == Some(0u64) || float_of(v) == Some(FLOAT_MINUS_ZERO)
}

/// The integer constant `x`.
pub open spec fn int_value(x: i64) -> ValueView {
    ValueView::Constant(Literal::Int(x))
}

/// The boolean constant `x`.
pub open spec fn bool_value(x: bool) -> ValueView {
    ValueView::Constant(Literal::Bool(x))
}

/// What the operation `op` on the simplified operands `a` and `b` folds
/// to; `whole` is the operation itself, which stands where no rule applies.
/// The first rule that applies is taken.
pub open spec fn fold2(op: ValueOps, a: ValueView, b: ValueView, whole: ValueView) -> ValueView {
    match op {
        ValueOps::Add => match (int_of(a), int_of(b)) {
            (Some(x), Some(y)) => int_value(x.wrapping_add(y)),
            (_, Some(y)) => if y == 0 {
                a
            } else {
                whole
            },
            (Some(x), _) => if x == 0 {
                b
            } else {
                whole
            },
            _ => whole,
        },
        ValueOps::Sub => match (int_of(a), int_of(b)) {
            (Some(x), Some(y)) => int_value(x.wrapping_sub(y)),
            (_, Some(y)) => if y == 0 {
                a
            } else {
                whole
            },
            _ => whole,
        },
        ValueOps::Mul => match (int_of(a), int_of(b)) {
            (Some(x), Some(y)) => int_value(x.wrapping_mul(y)),
            (_, Some(y)) => if y == 0 {
                int_value(0)
            } else if y == 1 {
                a
            } else {
                whole
            },
            (Some(x), _) => if x == 0 {
                int_value(0)
            } else if x == 1 {
                b
            } else {
                whole
            },
            _ => whole,
        },
        ValueOps::Div => match (int_of(a), int_of(b)) {
            (Some(x), Some(y)) => if y != 0 {
                int_value(wrapping_quotient(x, y))
            } else {
                whole
            },
            (_, Some(y)) => if y == 1 {
                a
            } else {
                whole
            },
            _ => if a == b {
                int_value(1)
            } else {
                whole
            },
        },
        ValueOps::Eq => match (int_of(a), int_of(b)) {
            (Some(x), Some(y)) => bool_value(x == y),
            _ => if a == b {
                bool_value(true)
            } else {
                whole
            },
        },
        ValueOps::Lt => match (int_of(a), int_of(b)) {
            (Some(x), Some(y)) => bool_value(x < y),
            _ => whole,
        },
        ValueOps::Le => match (int_of(a), int_of(b)) {
            (Some(x), Some(y)) => bool_value(x <= y),
            _ => whole,
        },
        ValueOps::Gt => match (int_of(a), int_of(b)) {
            (Some(x), Some(y)) => bool_value(x > y),
            _ => whole,
        },
        ValueOps::Ge => match (int_of(a), int_of(b)) {
            (Some(x), Some(y)) => bool_value(x >= y),
            _ => whole,
        },
        ValueOps::PtrAdd => if int_of(b) == Some(0i64) {
            a
        } else if int_of(a) == Some(0i64) {
            b
        } else {
            whole
        },
        ValueOps::Fadd => if float_of(a) is Some && float_of(b) is Some {
            whole
        } else if is_float_zero(b) {
            a
        } else if is_float_zero(a) {
            b
        } else {
            whole
        },
        ValueOps::Fsub => if float_of(a) is Some && float_of(b) is Some {
            whole
        } else if is_float_zero(b) {
            a
        } else {
            whole
        },
        ValueOps::Fmul => if float_of(a) is Some && float_of(b) is Some {
            whole
        } else if float_of(b) == Some(FLOAT_ONE) {
            a
        } else if float_of(a) == Some(FLOAT_ONE) {
            b
        } else {
            whole
        },
        ValueOps::Fdiv => if float_of(a) is Some && float_of(b) is Some {
            whole
        } else if a == b {
            ValueView::Constant(Literal::Float(FLOAT_ONE))
        } else {
            whole
        },
        ValueOps::And => match (bool_of(a), bool_of(b)) {
            (Some(x), Some(y)) => bool_value(x && y),
            (_, Some(y)) => if y {
                a
            } else {
                bool_value(false)
            },
            (Some(x), _) => if x {
                b
            } else {
                bool_value(false)
            },
            _ => whole,
        },
        ValueOps::Or => match (bool_of(a), bool_of(b)) {
            (Some(x), Some(y)) => bool_value(x || y),
            (_, Some(y)) => if y {
                bool_value(true)
            } else {
                a
            },
            (Some(x), _) => if x {
                bool_value(true)
            } else {
                b
            },
            _ => whole,
        },
        _ => whole,
    }
}

/// What the operation `op` on the one simplified operand `a` folds to.
pub open spec fn fold1(op: ValueOps, a: ValueView, whole: ValueView) -> ValueView {
    match op {
        ValueOps::Not => match bool_of(a) {
            Some(x) => bool_value(!x),
            None => whole,
        },
        _ => whole,
    }
}

fn int_in(v: &Value) -> (r: Option<i64>)
    ensures
        r == int_of(v@),
{
    match v {
        Value::Constant(Literal::Int(x)) => Some(*x),
        _ => None,
    }
}

fn bool_in(v: &Value) -> (r: Option<bool>)
    ensures
        r == bool_of(v@),
{
    match v {
        Value::Constant(Literal::Bool(x)) => Some(*x),
        _ => None,
    }
}

fn float_in(v: &Value) -> (r: Option<u64>)
    ensures
        r == float_of(v@),
{
    match v {
        Value::Constant(Literal::Float(x)) => Some(*x),
        _ => None,
    }
}

fn float_zero_in(v: &Value) -> (r: bool)
    ensures
        r == is_float_zero(v@),
{
    match float_in(v) {
        Some(x) => x == 0 || x == FLOAT_MINUS_ZERO,
        None => false,
    }
}

fn float_one_in(v: &Value) -> (r: bool)
    ensures
        r == (float_of(v@) == Some(FLOAT_ONE)),
{
    match float_in(v) {
        Some(x) => x == FLOAT_ONE,
        None => false,
    }
}

fn int_is(v: &Value, k: i64) -> (r: bool)
    ensures
        r == (int_of(v@) == Some(k)),
{
    match int_in(v) {
        Some(x) => x == k,
        None => false,
    }
}

fn of_int(x: i64) -> (r: Value)
    ensures
        r@ == int_value(x),
{
    Value::Constant(Literal::Int(x))
}

fn of_bool(x: bool) -> (r: Value)
    ensures
        r@ == bool_value(x),
{
    Value::Constant(Literal::Bool(x))
}

/// Integer arithmetic on two operands.
fn fold_arith(op: ValueOps, a: &Value, b: &Value, whole: &Value) -> (r: Value)
    requires
        op == ValueOps::Add || op == ValueOps::Sub || op == ValueOps::Mul || op == ValueOps::Div,
    ensures
        r@ == fold2(op, a@, b@, whole@),
{
    let x = int_in(a);
    let y = int_in(b);
    match op {
        ValueOps::Add => match (x, y) {
            (Some(x), Some(y)) => of_int(x.wrapping_add(y)),
            (_, Some(y)) => if y == 0 {
                a.clone()
            } else {
                whole.clone()
            },
            (Some(x), _) => if x == 0 {
                b.clone()
            } else {
                whole.clone()
            },
            _ => whole.clone(),
        },
        ValueOps::Sub => match (x, y) {
            (Some(x), Some(y)) => of_int(x.wrapping_sub(y)),
            (_, Some(y)) => if y == 0 {
                a.clone()
            } else {
                whole.clone()
            },
            _ => whole.clone(),
        },
        ValueOps::Mul => match (x, y) {
            (Some(x), Some(y)) => of_int(x.wrapping_mul(y)),
            (_, Some(y)) => if y == 0 {
                of_int(0)
            } else if y == 1 {
                a.clone()
            } else {
                whole.clone()
            },
            (Some(x), _) => if x == 0 {
                of_int(0)
            } else if x == 1 {
                b.clone()
            } else {
                whole.clone()
            },
            _ => whole.clone(),
        },
        _ => match (x, y) {
            (Some(x), Some(y)) => if y != 0 {
                of_int(divide(x, y))
            } else {
                whole.clone()
            },
            (_, Some(y)) => if y == 1 {
                a.clone()
            } else {
                whole.clone()
            },
            _ => if a.same(b) {
                of_int(1)
            } else {
                whole.clone()
            },
        },
    }
}

/// Integer comparison of two operands.
fn fold_compare(op: ValueOps, a: &Value, b: &Value, whole: &Value) -> (r: Value)
    requires
        op == ValueOps::Eq || op == ValueOps::Lt || op == ValueOps::Le || op == ValueOps::Gt || op
            == ValueOps::Ge,
    ensures
        r@ == fold2(op, a@, b@, whole@),
{
    match (int_in(a), int_in(b)) {
        (Some(x), Some(y)) => match op {
            ValueOps::Eq => of_bool(x == y),
            ValueOps::Lt => of_bool(x < y),
            ValueOps::Le => of_bool(x <= y),
            ValueOps::Gt => of_bool(x > y),
            _ => of_bool(x >= y),
        },
        _ => if op == ValueOps::Eq && a.same(b) {
            of_bool(true)
        } else {
            whole.clone()
        },
    }
}

/// Float arithmetic on two operands, of which at most one is a constant.
fn fold_float(op: ValueOps, a: &Value, b: &Value, whole: &Value) -> (r: Value)
    requires
        op == ValueOps::Fadd || op == ValueOps::Fsub || op == ValueOps::Fmul || op
            == ValueOps::Fdiv,
    ensures
        r@ == fold2(op, a@, b@, whole@),
{
    if float_in(a).is_some() && float_in(b).is_some() {
        return whole.clone();
    }
    match op {
        ValueOps::Fadd => if float_zero_in(b) {
            a.clone()
        } else if float_zero_in(a) {
            b.clone()
        } else {
            whole.clone()
        },
        ValueOps::Fsub => if float_zero_in(b) {
            a.clone()
        } else {
            whole.clone()
        },
        ValueOps::Fmul => if float_one_in(b) {
            a.clone()
        } else if float_one_in(a) {
            b.clone()
        } else {
            whole.clone()
        },
        _ => if a.same(b) {
            Value::Constant(Literal::Float(FLOAT_ONE))
        } else {
            whole.clone()
        },
    }
}

/// Boolean `and` and `or` on two operands.
fn fold_logic(op: ValueOps, a: &Value, b: &Value, whole: &Value) -> (r: Value)
    requires
        op == ValueOps::And || op == ValueOps::Or,
    ensures
        r@ == fold2(op, a@, b@, whole@),
{
    let x = bool_in(a);
    let y = bool_in(b);
    match op {
        ValueOps::And => match (x, y) {
            (Some(x), Some(y)) => of_bool(x && y),
            (_, Some(y)) => if y {
                a.clone()
            } else {
                of_bool(false)
            },
            (Some(x), _) => if x {
                b.clone()
            } else {
                of_bool(false)
            },
            _ => whole.clone(),
        },
        _ => match (x, y) {
            (Some(x), Some(y)) => of_bool(x || y),
            (_, Some(y)) => if y {
                of_bool(true)
            } else {
                a.clone()
            },
            (Some(x), _) => if x {
                of_bool(true)
            } else {
                b.clone()
            },
            _ => whole.clone(),
        },
    }
}

/// What the operation `op` on the simplified operands `a` and `b` folds to.
pub fn fold_two(op: ValueOps, a: &Value, b: &Value, whole: &Value) -> (r: Value)
    ensures
        r@ == fold2(op, a@, b@, whole@),
{
    match op {
        ValueOps::Add | ValueOps::Sub | ValueOps::Mul | ValueOps::Div => fold_arith(
            op,
            a,
            b,
            whole,
        ),
        ValueOps::Eq | ValueOps::Lt | ValueOps::Le | ValueOps::Gt | ValueOps::Ge => fold_compare(
            op,
            a,
            b,
            whole,
        ),
        ValueOps::Fadd | ValueOps::Fsub | ValueOps::Fmul | ValueOps::Fdiv => fold_float(
            op,
            a,
            b,
            whole,
        ),
        ValueOps::And | ValueOps::Or => fold_logic(op, a, b, whole),
        ValueOps::PtrAdd => if int_is(b, 0) {
            a.clone()
        } else if int_is(a, 0) {
            b.clone()
        } else {
            whole.clone()
        },
        _ => whole.clone(),
    }
}

/// What the operation `op` on the one simplified operand `a` folds to.
pub fn fold_one(op: ValueOps, a: &Value, whole: &Value) -> (r: Value)
    ensures
        r@ == fold1(op, a@, whole@),
{
    match op {
        ValueOps::Not => match bool_in(a) {
            Some(x) => of_bool(!x),
            None => whole.clone(),
        },
        _ => whole.clone(),
    }
}

/// What an operation computes on two literals, where the literals are of
/// the kind that the operation takes and the result is defined.
pub open spec fn eval2(op: ValueOps, a: Literal, b: Literal) -> Option<Literal> {
    match (op, a, b) {
        (ValueOps::Add, Literal::Int(x), Literal::Int(y)) => Some(Literal::Int(x.wrapping_add(y))),
        (ValueOps::Sub, Literal::Int(x), Literal::Int(y)) => Some(Literal::Int(x.wrapping_sub(y))),
        (ValueOps::Mul, Literal::Int(x), Literal::Int(y)) => Some(Literal::Int(x.wrapping_mul(y))),
        (ValueOps::Div, Literal::Int(x), Literal::Int(y)) => if y != 0 {
            Some(Literal::Int(wrapping_quotient(x, y)))
        } else {
            None
        },
        (ValueOps::Eq, Literal::Int(x), Literal::Int(y)) => Some(Literal::Bool(x == y)),
        (ValueOps::Lt, Literal::Int(x), Literal::Int(y)) => Some(Literal::Bool(x < y)),
        (ValueOps::Le, Literal::Int(x), Literal::Int(y)) => Some(Literal::Bool(x <= y)),
        (ValueOps::Gt, Literal::Int(x), Literal::Int(y)) => Some(Literal::Bool(x > y)),
        (ValueOps::Ge, Literal::Int(x), Literal::Int(y)) => Some(Literal::Bool(x >= y)),
        (ValueOps::And, Literal::Bool(x), Literal::Bool(y)) => Some(Literal::Bool(x && y)),
        (ValueOps::Or, Literal::Bool(x), Literal::Bool(y)) => Some(Literal::Bool(x || y)),
        _ => None,
    }
}

/// What an operation computes on one literal.
pub open spec fn eval1(op: ValueOps, a: Literal) -> Option<Literal> {
    match (op, a) {
        (ValueOps::Not, Literal::Bool(x)) => Some(Literal::Bool(!x)),
        _ => None,
    }
}

/// Folding computes: an operation on two constants whose result is defined
/// folds to the constant of that result, and so does `not` on one constant.
pub proof fn lemma_fold_computes(op: ValueOps, a: Literal, b: Literal, whole: ValueView)
    ensures
        eval2(op, a, b) is Some ==> fold2(
            op,
            ValueView::Constant(a),
            ValueView::Constant(b),
            whole,
        ) == ValueView::Constant(eval2(op, a, b).unwrap()),
        eval1(op, a) is Some ==> fold1(op, ValueView::Constant(a), whole) == ValueView::Constant(
            eval1(op, a).unwrap(),
        ),
{
}

/// Folding changes no result. Where a rule puts one operand, or a
/// constant, in the place of an operation, the operation computes just
/// that, whatever literal the other operand is: `x+0`, `0+x`, `x-0`, `x*1`,
/// `1*x` and `x/1` are `x`; `x*0` and `0*x` are `0`; `x/x` is `1` unless `x`
/// is `0`; `x == x` holds; `x && true` and `x || false` are `x`;
/// `x && false` is `false` and `x || true` is `true`.
pub proof fn lemma_identities_hold(x: i64, p: bool)
    ensures
        eval2(ValueOps::Add, Literal::Int(x), Literal::Int(0)) == Some(Literal::Int(x)),
        eval2(ValueOps::Add, Literal::Int(0), Literal::Int(x)) == Some(Literal::Int(x)),
        eval2(ValueOps::Sub, Literal::Int(x), Literal::Int(0)) == Some(Literal::Int(x)),
        eval2(ValueOps::Mul, Literal::Int(x), Literal::Int(1)) == Some(Literal::Int(x)),
        eval2(ValueOps::Mul, Literal::Int(1), Literal::Int(x)) == Some(Literal::Int(x)),
        eval2(ValueOps::Mul, Literal::Int(x), Literal::Int(0)) == Some(Literal::Int(0)),
        eval2(ValueOps::Mul, Literal::Int(0), Literal::Int(x)) == Some(Literal::Int(0)),
        eval2(ValueOps::Div, Literal::Int(x), Literal::Int(1)) == Some(Literal::Int(x)),
        x != 0 ==> eval2(ValueOps::Div, Literal::Int(x), Literal::Int(x)) == Some(Literal::Int(1)),
        eval2(ValueOps::Eq, Literal::Int(x), Literal::Int(x)) == Some(Literal::Bool(true)),
        eval2(ValueOps::And, Literal::Bool(p), Literal::Bool(true)) == Some(Literal::Bool(p)),
        eval2(ValueOps::And, Literal::Bool(true), Literal::Bool(p)) == Some(Literal::Bool(p)),
        eval2(ValueOps::And, Literal::Bool(p), Literal::Bool(false)) == Some(Literal::Bool(false)),
        eval2(ValueOps::And, Literal::Bool(false), Literal::Bool(p)) == Some(Literal::Bool(false)),
        eval2(ValueOps::Or, Literal::Bool(p), Literal::Bool(false)) == Some(Literal::Bool(p)),
        eval2(ValueOps::Or, Literal::Bool(false), Literal::Bool(p)) == Some(Literal::Bool(p)),
        eval2(ValueOps::Or, Literal::Bool(p), Literal::Bool(true)) == Some(Literal::Bool(true)),
        eval2(ValueOps::Or, Literal::Bool(true), Literal::Bool(p)) == Some(Literal::Bool(true)),
{
    lemma_quotient_by_one(x);
    if x != 0 {
        lemma_quotient_by_self(x);
    }
}

/// The rules that keep an operand: beside the constant that makes the
/// operation an identity, the operation folds to its other operand.
pub proof fn lemma_fold_keeps_operand(a: ValueView, whole: ValueView)
    requires
        int_of(a) is None,
        bool_of(a) is None,
        float_of(a) is None,
    ensures
        fold2(ValueOps::Add, a, int_value(0), whole) == a,
        fold2(ValueOps::Add, int_value(0), a, whole) == a,
        fold2(ValueOps::Sub, a, int_value(0), whole) == a,
        fold2(ValueOps::Mul, a, int_value(1), whole) == a,
        fold2(ValueOps::Mul, int_value(1), a, whole) == a,
        fold2(ValueOps::Mul, a, int_value(0), whole) == int_value(0),
        fold2(ValueOps::Mul, int_value(0), a, whole) == int_value(0),
        fold2(ValueOps::Div, a, int_value(1), whole) == a,
        fold2(ValueOps::Div, a, a, whole) == int_value(1),
        fold2(ValueOps::Eq, a, a, whole) == bool_value(true),
        fold2(ValueOps::PtrAdd, a, int_value(0), whole) == a,
        fold2(ValueOps::PtrAdd, int_value(0), a, whole) == a,
        fold2(ValueOps::Fadd, a, ValueView::Constant(Literal::Float(0)), whole) == a,
        fold2(ValueOps::Fadd, ValueView::Constant(Literal::Float(0)), a, whole) == a,
        fold2(ValueOps::Fsub, a, ValueView::Constant(Literal::Float(0)), whole) == a,
        fold2(ValueOps::Fmul, a, ValueView::Constant(Literal::Float(FLOAT_ONE)), whole) == a,
        fold2(ValueOps::Fmul, ValueView::Constant(Literal::Float(FLOAT_ONE)), a, whole) == a,
        fold2(ValueOps::Fdiv, a, a, whole) == ValueView::Constant(Literal::Float(FLOAT_ONE)),
        fold2(ValueOps::And, a, bool_value(true), whole) == a,
        fold2(ValueOps::And, bool_value(true), a, whole) == a,
        fold2(ValueOps::And, a, bool_value(false), whole) == bool_value(false),
        fold2(ValueOps::And, bool_value(false), a, whole) == bool_value(false),
        fold2(ValueOps::Or, a, bool_value(false), whole) == a,
        fold2(ValueOps::Or, bool_value(false), a, whole) == a,
        fold2(ValueOps::Or, a, bool_value(true), whole) == bool_value(true),
        fold2(ValueOps::Or, bool_value(true), a, whole) == bool_value(true),
{
}

} // verus!
