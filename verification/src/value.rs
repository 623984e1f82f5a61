//! The values of local value numbering: an operation on numbered values, a
//! constant, or something that the block does not compute.
use crate::ir::{Literal, Type, ValueOps};
use crate::order::{sort_numbers, sorted_numbers};
use vstd::prelude::*;

verus! {

/// The mathematical view of a value.
pub enum ValueView {
    Operation { kind: Type, op: ValueOps, args: Seq<usize> },
    Constant(Literal),
    Unknown(Seq<char>),
}

/// A value as the value table knows it. The operands of an operation are
/// the numbers of their values, not the names of variables; `Unknown` holds
/// the name of the variable that the value came in.
#[derive(Debug, PartialEq, Eq)]
pub enum Value {
    Operation { kind: Type, op: ValueOps, args: Vec<usize> },
    Constant(Literal),
    Unknown(String),
}

impl View for Value {
    type V = ValueView;

    open spec fn view(&self) -> ValueView {
        match *self {
            Value::Operation { kind, op, args } => ValueView::Operation { kind, op, args: args@ },
            Value::Constant(literal) => ValueView::Constant(literal),
            Value::Unknown(name) => ValueView::Unknown(name@),
        }
    }
}

/// A copy of a list of numbers.
pub fn clone_numbers(v: &Vec<usize>) -> (r: Vec<usize>)
    ensures
        r@ == v@,
{
    let mut r: Vec<usize> = Vec::new();
    let mut i: usize = 0;
    while i < v.len()
        invariant
            i <= v.len(),
            r.len() == i,
            forall|k: int| 0 <= k < i ==> r[k] == v[k],
        decreases v.len() - i,
    {
        r.push(v[i]);
        i += 1;
    }
    assert(r@ =~= v@);
    r
}

/// Whether two lists of numbers are equal.
pub fn same_numbers(a: &Vec<usize>, b: &Vec<usize>) -> (r: bool)
    ensures
        r == (a@ == b@),
{
    if a.len() != b.len() {
        return false;
    }
    let mut i: usize = 0;
    while i < a.len()
        invariant
            i <= a.len(),
            a.len() == b.len(),
            forall|k: int| 0 <= k < i ==> a[k] == b[k],
        decreases a.len() - i,
    {
        if a[i] != b[i] {
            return false;
        }
        i += 1;
    }
    assert(a@ =~= b@);
    true
}

impl Clone for Value {
    fn clone(&self) -> (r: Self)
        ensures
            r@ == self@,
    {
        match self {
            Value::Operation { kind, op, args } => Value::Operation {
                kind: kind.clone(),
                op: *op,
                args: clone_numbers(args),
            },
            Value::Constant(literal) => Value::Constant(*literal),
            Value::Unknown(name) => Value::Unknown(name.clone()),
        }
    }
}

/// An operation whose operands may be exchanged.
pub open spec fn commutes(op: ValueOps) -> bool {
    op == ValueOps::Add || op == ValueOps::Mul
}

/// The value with the operands of a commutative operation in ascending
/// order, so that `add a b` and `add b a` are one value.
pub open spec fn canonical(v: ValueView) -> ValueView {
    match v {
        ValueView::Operation { kind, op, args } => if commutes(op) {
            ValueView::Operation { kind, op, args: sorted_numbers(args) }
        } else {
            v
        },
        _ => v,
    }
}

impl Value {
    /// Whether two values are equal: the same operation on the same
    /// operands, the same constant, a float by its bits, or the same name.
    pub fn same(&self, other: &Value) -> (r: bool)
        ensures
            r == (self@ == other@),
    {
        match (self, other) {
            (
                Value::Operation { kind: k1, op: o1, args: a1 },
                Value::Operation { kind: k2, op: o2, args: a2 },
            ) => k1.same(k2) && *o1 == *o2 && same_numbers(a1, a2),
            (Value::Constant(l1), Value::Constant(l2)) => *l1 == *l2,
            (Value::Unknown(n1), Value::Unknown(n2)) => *n1 == *n2,
            _ => false,
        }
    }

    /// The value in its canonical form.
    pub fn to_canonical(&self) -> (r: Value)
        ensures
            r@ == canonical(self@),
    {
        match self {
            Value::Operation { kind, op, args } => {
                if *op == ValueOps::Add || *op == ValueOps::Mul {
                    Value::Operation {
                        kind: kind.clone(),
                        op: *op,
                        args: sort_numbers(clone_numbers(args)),
                    }
                } else {
                    self.clone()
                }
            },
            _ => self.clone(),
        }
    }
}

} // verus!
