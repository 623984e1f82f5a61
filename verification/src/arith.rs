//! The arithmetic of the intermediate representation on 64-bit integers:
//! addition, subtraction and multiplication wrap; division rounds towards
//! zero.
use vstd::prelude::*;

verus! {

/// The quotient of `a` by `b`, rounded towards zero.
pub open spec fn trunc_div(a: int, b: int) -> int {
    if a >= 0 && b > 0 {
        a / b
    } else if a >= 0 && b < 0 {
        -(a / (-b))
    } else if a < 0 && b > 0 {
        -((-a) / b)
    } else {
        (-a) / (-b)
    }
}

/// The quotient of two 64-bit integers as the machine computes it; the one
/// quotient that does not fit, that of the least integer by -1, wraps to the
/// least integer.
pub open spec fn wrapping_quotient(a: i64, b: i64) -> i64 {
    if a == i64::MIN && b == -1 {
        i64::MIN
    } else {
        trunc_div(a as int, b as int) as i64
    }
}

/// Division of two 64-bit integers by a divisor other than zero.
pub fn divide(a: i64, b: i64) -> (r: i64)
    requires
        b != 0,
    ensures
        r == wrapping_quotient(a, b),
{
    if a == i64::MIN && b == -1 {
        return i64::MIN;
    }
    let x: i128 = a as i128;
    let y: i128 = b as i128;
    let ux: i128 = if x < 0 {
        -x
    } else {
        x
    };
    let uy: i128 = if y < 0 {
        -y
    } else {
        y
    };
    let q: i128 = ux / uy;
    assert(q <= ux) by (nonlinear_arith)
        requires
            q == ux / uy,
            ux >= 0,
            uy > 0,
    ;
    assert(q >= 0) by (nonlinear_arith)
        requires
            q == ux / uy,
            ux >= 0,
            uy > 0,
    ;
    assert(uy >= 2 ==> q <= ux / 2) by (nonlinear_arith)
        requires
            q == ux / uy,
            ux >= 0,
            uy > 0,
    ;
    let s: i128 = if (a < 0) != (b < 0) {
        -q
    } else {
        q
    };
    s as i64
}

/// A number divided by one is the number.
pub proof fn lemma_quotient_by_one(a: i64)
    ensures
        wrapping_quotient(a, 1) == a,
{
}

/// A number other than zero divided by itself is one.
pub proof fn lemma_quotient_by_self(a: i64)
    requires
        a != 0,
    ensures
        wrapping_quotient(a, a) == 1,
{
    if a > 0 {
        assert((a as int) / (a as int) == 1) by (nonlinear_arith)
            requires
                a > 0,
        ;
    } else {
        assert((-(a as int)) / (-(a as int)) == 1) by (nonlinear_arith)
            requires
                a < 0,
        ;
    }
}

} // verus!
