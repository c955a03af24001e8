//! Overflow-aware share arithmetic.
use super::types::Error;
use crate::arith::{
    abs, div_trunc, fits, lemma_trunc_div_fits, lemma_trunc_rem_bound, rem_trunc, trunc_div,
    trunc_rem,
};
use vstd::prelude::*;

verus! {

/// `d` divides `n`.
pub open spec fn divides(d: int, n: int) -> bool {
    exists|k: int| n == #[trigger] (k * d)
}

/// `g` is the greatest common divisor of `a` and `b`: the non-negative common
/// divisor that every common divisor divides.
pub open spec fn is_gcd(g: int, a: int, b: int) -> bool {
    &&& g >= 0
    &&& divides(g, a)
    &&& divides(g, b)
    &&& forall|d: int| #[trigger] divides(d, a) && divides(d, b) ==> divides(d, g)
}

/// The greatest common divisor, by Euclid's rule on the magnitudes.
pub open spec fn gcd(a: int, b: int) -> int
    decreases abs(b),
{
    if b == 0 {
        abs(a)
    } else {
        gcd(abs(b), abs(a) % abs(b))
    }
}

/// Every step of Euclid's rule on `(a, b)` stays inside the `i128` range: the
/// pairs left out are those whose divisor is `2^127` or that divide the least
/// `i128` by minus one.
pub open spec fn gcd_defined(a: int, b: int) -> bool {
    &&& !(a == i128::MIN && (b == -1 || b == 0 || b == i128::MIN))
    &&& !(b == i128::MIN && (a == -1 || a == 0))
}

pub proof fn lemma_divides_combination(d: int, x: int, y: int, m: int, n: int)
    requires
        divides(d, x),
        divides(d, y),
    ensures
        divides(d, x * m + y * n),
{
    let i = choose|k: int| x == #[trigger] (k * d);
    let j = choose|k: int| y == #[trigger] (k * d);
    assert(x * m + y * n == (i * m + j * n) * d) by (nonlinear_arith)
        requires
            x == i * d,
            y == j * d,
    ;
}

proof fn lemma_divides_abs(d: int, x: int)
    ensures
        divides(d, x) == divides(d, abs(x)),
{
    if divides(d, x) {
        lemma_divides_combination(d, x, x, -1, 0);
    }
    if divides(d, abs(x)) {
        lemma_divides_combination(d, abs(x), abs(x), -1, 0);
    }
}

/// Euclid's rule finds the greatest common divisor.
pub proof fn lemma_gcd_is_greatest(a: int, b: int)
    ensures
        is_gcd(gcd(a, b), a, b),
    decreases abs(b),
{
    let g = gcd(a, b);
    if b == 0 {
        assert(a == 1 * g || a == (-1) * g);
        assert(0 == 0 * g);
        assert forall|d: int| #[trigger] divides(d, a) && divides(d, b) implies divides(d, g) by {
            lemma_divides_abs(d, a);
        }
    } else {
        let x = abs(a);
        let y = abs(b);
        let q = x / y;
        let r = x % y;
        assert(0 <= r < y && x == y * q + r) by (nonlinear_arith)
            requires
                y > 0,
                q == x / y,
                r == x % y,
        ;
        lemma_gcd_is_greatest(y, r);
        lemma_divides_combination(g, y, r, q, 1);
        lemma_divides_abs(g, a);
        lemma_divides_abs(g, b);
        assert forall|d: int| #[trigger] divides(d, a) && divides(d, b) implies divides(d, g) by {
            lemma_divides_abs(d, a);
            lemma_divides_abs(d, b);
            lemma_divides_combination(d, x, y, 1, -q);
            assert(x * 1 + y * (-q) == r) by (nonlinear_arith)
                requires
                    x == y * q + r,
            ;
        }
    }
}

proof fn lemma_gcd_step(a: int, b: int)
    requires
        b != 0,
    ensures
        gcd(a, b) == gcd(b, trunc_rem(a, b)),
        abs(trunc_rem(a, b)) < abs(b),
{
    lemma_trunc_rem_bound(a, b);
    assert(abs(trunc_rem(a, b)) == abs(a) % abs(b)) by {
        let x = abs(a);
        assert(x % b == x % abs(b)) by (nonlinear_arith)
            requires
                b != 0,
                x >= 0,
        ;
        assert(x % b >= 0) by (nonlinear_arith)
            requires
                b != 0,
        ;
    }
    let r = trunc_rem(a, b);
    reveal_with_fuel(gcd, 2);
    assert(gcd(abs(b), abs(r)) == gcd(b, r));
}

proof fn lemma_gcd_steps_defined(a: int, b: int)
    requires
        fits(a),
        fits(b),
        b != 0,
        gcd_defined(a, b),
    ensures
        gcd_defined(b, trunc_rem(a, b)),
{
    let r = trunc_rem(a, b);
    lemma_trunc_rem_bound(a, b);
    if b == i128::MIN {
        assert(r == a) by (nonlinear_arith)
            requires
                b == -0x8000_0000_0000_0000_0000_0000_0000_0000,
                -0x8000_0000_0000_0000_0000_0000_0000_0000 < a < 0x8000_0000_0000_0000_0000_0000_0000_0000,
                r == if a >= 0 { a % b } else { -((-a) % b) },
        ;
    }
}

/// The greatest common divisor of two `i128` values, as a non-negative value.
pub fn gcd_i128(lhs: i128, rhs: i128) -> (g: i128)
    requires
        gcd_defined(lhs as int, rhs as int),
    ensures
        g == gcd(lhs as int, rhs as int),
        is_gcd(g as int, lhs as int, rhs as int),
{
    let mut a: i128 = lhs;
    let mut b: i128 = rhs;
    while b != 0
        invariant
            gcd_defined(a as int, b as int),
            gcd(a as int, b as int) == gcd(lhs as int, rhs as int),
        decreases abs(b as int),
    {
        proof {
            lemma_gcd_step(a as int, b as int);
            lemma_trunc_rem_bound(a as int, b as int);
            lemma_gcd_steps_defined(a as int, b as int);
        }
        let next: i128 = rem_trunc(a, b);
        a = b;
        b = next;
    }
    proof {
        lemma_gcd_is_greatest(lhs as int, rhs as int);
    }
    if a < 0 {
        -a
    } else {
        a
    }
}

/// `lhs * rhs` once the factors it shares with `denominator` are cancelled.
pub open spec fn reduced_product(lhs: int, rhs: int, denominator: int) -> int {
    let d = denominator / gcd(lhs, denominator);
    (lhs / gcd(lhs, denominator)) * (rhs / gcd(rhs, d))
}

/// `lhs * rhs / denominator` can be computed: the denominator is not zero, and
/// the cancelled product and the quotient are representable.
pub open spec fn mul_div_defined(lhs: int, rhs: int, denominator: int) -> bool {
    &&& denominator != 0
    &&& gcd_defined(lhs, denominator)
    &&& gcd_defined(rhs, denominator / gcd(lhs, denominator))
    &&& fits(reduced_product(lhs, rhs, denominator))
    &&& fits(trunc_div(lhs * rhs, denominator))
}

/// `lhs * rhs / denominator`, rounded toward zero.
pub open spec fn mul_div_value(lhs: int, rhs: int, denominator: int) -> Result<i128, Error> {
    if mul_div_defined(lhs, rhs, denominator) {
        Ok(trunc_div(lhs * rhs, denominator) as i128)
    } else {
        Err(Error::MathOverflow)
    }
}

/// `lhs * rhs / denominator`, rounded up, for non-negative factors and a
/// positive denominator; otherwise [`mul_div_value`], one higher where the
/// division leaves a remainder.
pub open spec fn mul_div_ceil_value(lhs: int, rhs: int, denominator: int) -> Result<i128, Error> {
    match mul_div_value(lhs, rhs, denominator) {
        Err(e) => Err(e),
        Ok(floored) => if floored * denominator == lhs * rhs {
            Ok(floored)
        } else {
            sum(floored as int, 1)
        },
    }
}

pub open spec fn sum(lhs: int, rhs: int) -> Result<i128, Error> {
    if fits(lhs + rhs) {
        Ok((lhs + rhs) as i128)
    } else {
        Err(Error::MathOverflow)
    }
}

pub open spec fn difference(lhs: int, rhs: int) -> Result<i128, Error> {
    if fits(lhs - rhs) {
        Ok((lhs - rhs) as i128)
    } else {
        Err(Error::MathOverflow)
    }
}

/// Division by a positive divisor is exact, and keeps the magnitude in range.
proof fn lemma_exact_quotient(n: int, g: int)
    requires
        g > 0,
        divides(g, n),
    ensures
        n == (n / g) * g,
        trunc_div(n, g) == n / g,
        abs(n / g) <= abs(n),
        n != 0 ==> n / g != 0,
        n >= 0 ==> n / g >= 0,
{
    let k = choose|k: int| n == #[trigger] (k * g);
    assert(n / g == k && (-n) / g == -k) by (nonlinear_arith)
        requires
            n == k * g,
            g > 0,
    ;
    assert(abs(k) <= abs(n) && (n != 0 ==> k != 0) && (n >= 0 ==> k >= 0)) by (nonlinear_arith)
        requires
            n == k * g,
            g > 0,
    ;
}

proof fn lemma_gcd_positive(a: int, b: int)
    requires
        b != 0,
    ensures
        gcd(a, b) > 0,
{
    lemma_gcd_is_greatest(a, b);
    if gcd(a, b) == 0 {
        let k = choose|k: int| b == #[trigger] (k * 0int);
        assert(false);
    }
}

/// Cancelling a common positive factor does not change a quotient.
proof fn lemma_trunc_div_cancel(g: int, n: int, d: int)
    requires
        g > 0,
        d != 0,
    ensures
        g * d != 0,
        trunc_div(g * n, g * d) == trunc_div(n, d),
{
    assert(g * d != 0) by (nonlinear_arith)
        requires
            g > 0,
            d != 0,
    ;
    let x = abs(n);
    let q = x / d;
    let r = x % d;
    assert((g * x) / (g * d) == q) by {
        assert(0 <= r < abs(d) && x == d * q + r) by (nonlinear_arith)
            requires
                d != 0,
                q == x / d,
                r == x % d,
        ;
        let gx = g * x;
        let gd = g * d;
        let gr = g * r;
        assert(gx == gd * q + gr && 0 <= gr < abs(gd)) by (nonlinear_arith)
            requires
                g > 0,
                x == d * q + r,
                0 <= r < abs(d),
                gx == g * x,
                gd == g * d,
                gr == g * r,
        ;
        assert(gx / gd == q) by (nonlinear_arith)
            requires
                gx == gd * q + gr,
                0 <= gr < abs(gd),
                gd != 0,
        ;
    }
    assert(g * n >= 0 <==> n >= 0) by (nonlinear_arith)
        requires
            g > 0,
    ;
    assert(-(g * n) == g * (-n)) by (nonlinear_arith);
}

proof fn lemma_mul_div_reduced(l: int, r: int, d: int)
    requires
        d != 0,
    ensures
        ({
            let g1 = gcd(l, d);
            let d1 = d / g1;
            let g2 = gcd(r, d1);
            &&& g1 > 0 && g2 > 0 && d1 != 0 && d1 / g2 != 0
            &&& trunc_div(l, g1) == l / g1 && trunc_div(d, g1) == d1
            &&& trunc_div(r, g2) == r / g2 && trunc_div(d1, g2) == d1 / g2
            &&& abs(l / g1) <= abs(l) && abs(r / g2) <= abs(r) && abs(d1) <= abs(d)
            &&& abs(d1 / g2) <= abs(d)
            &&& trunc_div(reduced_product(l, r, d), d1 / g2) == trunc_div(l * r, d)
            &&& l * r == (g1 * g2) * reduced_product(l, r, d)
            &&& d == (g1 * g2) * (d1 / g2)
            &&& d > 0 ==> d1 > 0 && d1 / g2 > 0
        }),
{
    let g1 = gcd(l, d);
    let d1 = d / g1;
    lemma_gcd_positive(l, d);
    lemma_gcd_is_greatest(l, d);
    lemma_exact_quotient(l, g1);
    lemma_exact_quotient(d, g1);
    let g2 = gcd(r, d1);
    lemma_gcd_positive(r, d1);
    lemma_gcd_is_greatest(r, d1);
    lemma_exact_quotient(r, g2);
    lemma_exact_quotient(d1, g2);
    let l1 = l / g1;
    let r1 = r / g2;
    let d2 = d1 / g2;
    let g = g1 * g2;
    assert(g > 0 && l * r == g * (l1 * r1) && d == g * d2) by (nonlinear_arith)
        requires
            g1 > 0,
            g2 > 0,
            g == g1 * g2,
            l == l1 * g1,
            r == r1 * g2,
            d == d1 * g1,
            d1 == d2 * g2,
    ;
    lemma_trunc_div_cancel(g, l1 * r1, d2);
}

/// A non-negative product that is itself representable can always be divided.
pub proof fn lemma_mul_div_of_small_product(l: int, r: int, d: int)
    requires
        0 <= l <= i128::MAX,
        0 <= r <= i128::MAX,
        0 < d <= i128::MAX,
        fits(l * r),
    ensures
        mul_div_defined(l, r, d),
        mul_div_value(l, r, d) == Ok::<i128, Error>((l * r / d) as i128),
        0 <= l * r / d <= l * r,
{
    lemma_mul_div_reduced(l, r, d);
    let g1 = gcd(l, d);
    let d1 = d / g1;
    let g2 = gcd(r, d1);
    lemma_gcd_is_greatest(l, d);
    lemma_gcd_is_greatest(r, d1);
    lemma_exact_quotient(l, g1);
    lemma_exact_quotient(r, g2);
    let p = reduced_product(l, r, d);
    assert(0 <= p) by (nonlinear_arith)
        requires
            p == (l / g1) * (r / g2),
            l / g1 >= 0,
            r / g2 >= 0,
    ;
    assert(p <= l * r) by (nonlinear_arith)
        requires
            l * r == (g1 * g2) * p,
            g1 > 0,
            g2 > 0,
            p >= 0,
    ;
    assert(0 <= l * r) by (nonlinear_arith)
        requires
            l >= 0,
            r >= 0,
    ;
    assert(0 <= (l * r) / d <= l * r) by (nonlinear_arith)
        requires
            l * r >= 0,
            d > 0,
    ;
}

/// `lhs + rhs`.
pub fn add_checked(lhs: i128, rhs: i128) -> (r: Result<i128, Error>)
    ensures
        r == sum(lhs as int, rhs as int),
{
    match lhs.checked_add(rhs) {
        Some(value) => Ok(value),
        None => Err(Error::MathOverflow),
    }
}

/// `lhs - rhs`.
pub fn sub_checked(lhs: i128, rhs: i128) -> (r: Result<i128, Error>)
    ensures
        r == difference(lhs as int, rhs as int),
{
    match lhs.checked_sub(rhs) {
        Some(value) => Ok(value),
        None => Err(Error::MathOverflow),
    }
}

/// A quotient multiplies back to what was divided where the cancelled division
/// leaves no remainder.
proof fn lemma_reduced_remainder(l: int, r: int, d: int)
    requires
        d != 0,
    ensures
        ({
            let d1 = d / gcd(l, d);
            trunc_rem(reduced_product(l, r, d), d1 / gcd(r, d1)) == 0 <==> trunc_div(l * r, d) * d
                == l * r
        }),
{
    lemma_mul_div_reduced(l, r, d);
    let g1 = gcd(l, d);
    let d1 = d / g1;
    let g2 = gcd(r, d1);
    let d2 = d1 / g2;
    let g = g1 * g2;
    let p = reduced_product(l, r, d);
    let q = trunc_div(p, d2);
    let rest = trunc_rem(p, d2);
    lemma_trunc_rem_bound(p, d2);
    assert(rest == 0 <==> q * d == l * r) by (nonlinear_arith)
        requires
            p == d2 * q + rest,
            d == g * d2,
            l * r == g * p,
            g1 > 0,
            g2 > 0,
            g == g1 * g2,
    {
        assert(g > 0);
        assert(l * r - q * d == g * rest);
    }
}

/// The division that is left of `lhs * rhs / denominator` once common factors
/// are cancelled: `(dividend, divisor)`.
fn reduced_division(lhs: i128, rhs: i128, denominator: i128) -> (r: Result<(i128, i128), Error>)
    ensures
        match r {
            Err(e) => e == Error::MathOverflow && !mul_div_defined(
                lhs as int,
                rhs as int,
                denominator as int,
            ),
            Ok((dividend, divisor)) => {
                let d = denominator as int / gcd(lhs as int, denominator as int);
                &&& mul_div_defined(lhs as int, rhs as int, denominator as int)
                &&& dividend == reduced_product(lhs as int, rhs as int, denominator as int)
                &&& divisor == d / gcd(rhs as int, d)
                &&& divisor != 0
                &&& !(dividend == i128::MIN && divisor == -1)
                &&& trunc_div(dividend as int, divisor as int) == trunc_div(
                    lhs * rhs,
                    denominator as int,
                )
            },
        },
{
    if denominator == 0 {
        return Err(Error::MathOverflow);
    }
    proof {
        lemma_mul_div_reduced(lhs as int, rhs as int, denominator as int);
    }
    if !gcd_is_defined(lhs, denominator) {
        return Err(Error::MathOverflow);
    }
    let lhs_gcd: i128 = gcd_i128(lhs, denominator);
    let lhs_reduced: i128 = div_trunc(lhs, lhs_gcd);
    let denominator_reduced: i128 = div_trunc(denominator, lhs_gcd);
    if !gcd_is_defined(rhs, denominator_reduced) {
        return Err(Error::MathOverflow);
    }
    let rhs_gcd: i128 = gcd_i128(rhs, denominator_reduced);
    let rhs_reduced: i128 = div_trunc(rhs, rhs_gcd);
    let denominator_final: i128 = div_trunc(denominator_reduced, rhs_gcd);
    match lhs_reduced.checked_mul(rhs_reduced) {
        Some(product) => {
            if product == i128::MIN && denominator_final == -1 {
                assert(!fits(trunc_div(product as int, denominator_final as int)));
                Err(Error::MathOverflow)
            } else {
                proof {
                    lemma_trunc_div_fits(product as int, denominator_final as int);
                }
                Ok((product, denominator_final))
            }
        },
        None => Err(Error::MathOverflow),
    }
}

/// `lhs * rhs / denominator`, rounded toward zero, cancelling common factors
/// first so that a large product does not overflow needlessly.
pub fn mul_div(lhs: i128, rhs: i128, denominator: i128) -> (r: Result<i128, Error>)
    ensures
        r == mul_div_value(lhs as int, rhs as int, denominator as int),
{
    let (dividend, divisor): (i128, i128) = reduced_division(lhs, rhs, denominator)?;
    Ok(div_trunc(dividend, divisor))
}

/// `lhs * rhs / denominator`, rounded up. Used where rounding down would leave
/// the vault short.
pub fn mul_div_ceil(lhs: i128, rhs: i128, denominator: i128) -> (r: Result<i128, Error>)
    ensures
        r == mul_div_ceil_value(lhs as int, rhs as int, denominator as int),
{
    let (dividend, divisor): (i128, i128) = reduced_division(lhs, rhs, denominator)?;
    proof {
        lemma_reduced_remainder(lhs as int, rhs as int, denominator as int);
    }
    let floored: i128 = div_trunc(dividend, divisor);
    if rem_trunc(dividend, divisor) == 0 {
        Ok(floored)
    } else {
        add_checked(floored, 1)
    }
}

fn gcd_is_defined(a: i128, b: i128) -> (r: bool)
    ensures
        r == gcd_defined(a as int, b as int),
{
    !(a == i128::MIN && (b == -1 || b == 0 || b == i128::MIN)) && !(b == i128::MIN && (a == -1 || a
        == 0))
}

} // verus!
