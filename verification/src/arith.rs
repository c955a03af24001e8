//! Signed 128-bit integer division as a mathematical function, and the facts
//! about it that the fixed-point code rests on.
use vstd::prelude::*;

verus! {

/// One, in the 18-decimal fixed-point scale that rates and prices use.
pub const WAD: i128 = 1_000_000_000_000_000_000;

/// `x` is representable as an `i128`.
pub open spec fn fits(x: int) -> bool {
    i128::MIN <= x <= i128::MAX
}

/// The quotient `a / b` rounded toward zero.
pub open spec fn trunc_div(a: int, b: int) -> int {
    if a >= 0 {
        a / b
    } else {
        -((-a) / b)
    }
}

/// The remainder that goes with [`trunc_div`]; it has the sign of `a`.
pub open spec fn trunc_rem(a: int, b: int) -> int {
    if a >= 0 {
        a % b
    } else {
        -((-a) % b)
    }
}

/// The quotient `a / b` rounded up, for a non-negative `a` and a positive `b`.
pub open spec fn ceil_div(a: int, b: int) -> int {
    if a % b == 0 {
        a / b
    } else {
        a / b + 1
    }
}

pub open spec fn abs(x: int) -> int {
    if x >= 0 {
        x
    } else {
        -x
    }
}

pub open spec fn min(a: int, b: int) -> int {
    if a <= b {
        a
    } else {
        b
    }
}

/// Division by a non-zero divisor does not enlarge the magnitude.
pub proof fn lemma_div_magnitude(a: int, b: int)
    requires
        a >= 0,
        b != 0,
    ensures
        -a <= a / b <= a,
        b > 0 ==> 0 <= a / b,
        b < 0 ==> a / b <= 0,
        b < -1 && a > 0 ==> -a < a / b,
{
    assert(-a <= a / b <= a && (b > 0 ==> 0 <= a / b) && (b < 0 ==> a / b <= 0) && (b < -1 && a > 0
        ==> -a < a / b)) by (nonlinear_arith)
        requires
            a >= 0,
            b != 0,
    ;
}

pub proof fn lemma_trunc_div_fits(a: int, b: int)
    requires
        fits(a),
        b != 0,
        !(a == i128::MIN && b == -1),
    ensures
        fits(trunc_div(a, b)),
        abs(trunc_div(a, b)) <= abs(a),
        b > 0 && a >= 0 ==> trunc_div(a, b) >= 0,
        b > 0 && a <= 0 ==> trunc_div(a, b) <= 0,
{
    if a >= 0 {
        lemma_div_magnitude(a, b);
    } else {
        lemma_div_magnitude(-a, b);
    }
}

pub proof fn lemma_trunc_rem_bound(a: int, b: int)
    requires
        b != 0,
    ensures
        abs(trunc_rem(a, b)) < abs(b),
        a == b * trunc_div(a, b) + trunc_rem(a, b),
        a >= 0 ==> trunc_rem(a, b) >= 0,
        a <= 0 ==> trunc_rem(a, b) <= 0,
{
    let x = abs(a);
    assert(0 <= x % b < abs(b) && x == b * (x / b) + x % b) by (nonlinear_arith)
        requires
            b != 0,
    ;
    assert(b * (-(x / b)) == -(b * (x / b))) by (nonlinear_arith);
    assert(0int % b == 0) by (nonlinear_arith)
        requires
            b != 0,
    ;
}

/// Fractions keep their order when rounded down.
pub proof fn lemma_div_cross(a: int, b: int, c: int, d: int)
    requires
        b > 0,
        d > 0,
        a * d <= c * b,
    ensures
        a / b <= c / d,
{
    let q = a / b;
    assert(q * b <= a) by (nonlinear_arith)
        requires
            q == a / b,
            b > 0,
    ;
    assert(q * d <= c) by (nonlinear_arith)
        requires
            q * b <= a,
            a * d <= c * b,
            b > 0,
            d > 0,
    ;
    assert(q <= c / d) by (nonlinear_arith)
        requires
            q * d <= c,
            d > 0,
    ;
}

/// Machine division of `i128`, rounding toward zero.
pub fn div_trunc(a: i128, b: i128) -> (q: i128)
    requires
        b != 0,
        !(a == i128::MIN && b == -1),
    ensures
        q == trunc_div(a as int, b as int),
{
    proof {
        lemma_trunc_div_fits(a as int, b as int);
    }
    a / b
}

/// Machine remainder of `i128`, with the sign of the dividend.
pub fn rem_trunc(a: i128, b: i128) -> (r: i128)
    requires
        b != 0,
        !(a == i128::MIN && b == -1),
    ensures
        r == trunc_rem(a as int, b as int),
{
    proof {
        lemma_trunc_rem_bound(a as int, b as int);
    }
    a % b
}

} // verus!
