//! Arithmetic over the reals.
use vstd::prelude::*;

verus! {

/// `x` is at most `b` away from zero.
pub open spec fn within(x: real, b: real) -> bool {
    -b <= x <= b
}

pub proof fn lemma_commute(a: real, b: real)
    ensures
        a * b == b * a,
{
    assert(a * b == b * a) by (nonlinear_arith);
}

pub proof fn lemma_distribute(a: real, b: real, c: real)
    ensures
        a * (b + c) == a * b + a * c,
        (b + c) * a == a * b + a * c,
{
    assert(a * (b + c) == a * b + a * c) by (nonlinear_arith);
    lemma_commute(a, b + c);
}

pub proof fn lemma_associate(a: real, b: real, c: real)
    ensures
        (a * b) * c == a * (b * c),
{
    assert((a * b) * c == a * (b * c)) by (nonlinear_arith);
}

pub proof fn lemma_negate(a: real, b: real)
    ensures
        a * (-b) == -(a * b),
        (-a) * b == -(a * b),
{
    assert(a * (-b) == -(a * b)) by (nonlinear_arith);
    assert((-a) * b == -(a * b)) by (nonlinear_arith);
}

pub proof fn lemma_nonnegative_product(a: real, b: real)
    requires
        a >= 0real,
        b >= 0real,
    ensures
        a * b >= 0real,
{
    assert(a * b >= 0real) by (nonlinear_arith)
        requires
            a >= 0real,
            b >= 0real,
    ;
}

pub proof fn lemma_order(a: real, b: real, c: real)
    requires
        a <= b,
        c >= 0real,
    ensures
        a * c <= b * c,
        c * a <= c * b,
{
    lemma_nonnegative_product(c, b - a);
    lemma_distribute(c, b, -a);
    lemma_negate(c, a);
    lemma_commute(a, c);
    lemma_commute(b, c);
}

pub proof fn lemma_quotient(p: real, d: real)
    requires
        d > 0real,
    ensures
        (p / d) * d == p,
{
    assert((p / d) * d == p) by (nonlinear_arith)
        requires
            d > 0real,
    ;
}

pub proof fn lemma_product_within(x: real, a: real, y: real, b: real)
    requires
        within(x, a),
        within(y, b),
    ensures
        within(x * y, a * b),
{
    if x >= 0real {
        lemma_order(-b, y, x);
        lemma_order(y, b, x);
        lemma_order(x, a, b);
        lemma_negate(x, b);
    } else {
        lemma_order(-b, y, -x);
        lemma_order(y, b, -x);
        lemma_order(-x, a, b);
        lemma_negate(x, b);
        lemma_negate(-x, b);
        lemma_negate(x, y);
    }
}

/// A quotient is small where the dividend is, and the divisor is not.
pub proof fn lemma_quotient_within(p: real, d: real, least: real, c: real)
    requires
        0real < least <= d,
        within(p, c * least),
        c >= 0real,
    ensures
        within(p / d, c),
{
    let t = p / d;
    lemma_quotient(p, d);
    if t > c {
        lemma_order(least, d, t);
        assert(t * least > c * least) by (nonlinear_arith)
            requires
                t > c,
                least > 0real,
        ;
    } else if t < -c {
        lemma_order(least, d, -t);
        lemma_negate(t, d);
        assert((-t) * least > c * least) by (nonlinear_arith)
            requires
                -t > c,
                least > 0real,
        ;
    }
}

pub open spec fn inverse(n: nat) -> real {
    1real / (n as real)
}

pub open spec fn power(x: real, n: nat) -> real
    decreases n,
{
    if n == 0 {
        1real
    } else {
        power(x, (n - 1) as nat) * x
    }
}

pub proof fn lemma_inverse(n: nat)
    requires
        n >= 1,
    ensures
        inverse(n) * (n as real) == 1real,
        0real <= inverse(n) <= 1real,
        n >= 2 ==> inverse(n) <= 1real / 2real,
{
    let d = n as real;
    let k = inverse(n);
    lemma_quotient(1real, d);
    lemma_quotient_within(1real, d, 1real, 1real);
    if n >= 2 {
        lemma_quotient_within(1real, d, 2real, 1real / 2real);
    }
    if k < 0real {
        lemma_nonnegative_product(-k, d);
        lemma_negate(k, d);
    }
}

pub proof fn lemma_power_sum(t: real, m: nat, n: nat)
    ensures
        power(t, m + n) == power(t, m) * power(t, n),
    decreases n,
{
    if n > 0 {
        lemma_power_sum(t, m, (n - 1) as nat);
        lemma_associate(power(t, m), power(t, (n - 1) as nat), t);
    }
}

pub proof fn lemma_cast_product(a: int, b: int)
    ensures
        (a * b) as real == (a as real) * (b as real),
{
    assert((a * b) as real == (a as real) * (b as real)) by (nonlinear_arith);
}

/// Powers of a half, which undo those of two.
pub open spec fn halves(n: nat) -> real {
    power(1real / 2real, n)
}

pub proof fn lemma_halves(n: nat)
    ensures
        0real < halves(n) <= 1real,
        1real <= power(2real, n),
        power(2real, n) * halves(n) == 1real,
        halves(n + 1) == halves(n) / 2real,
        power(2real, n + 1) == 2real * power(2real, n),
        (n as real) <= power(2real, n),
    decreases n,
{
    if n > 0 {
        let m = (n - 1) as nat;
        lemma_halves(m);
        let p = power(2real, m);
        let q = halves(m);
        assert(power(2real, n) == p * 2real);
        assert(halves(n) == q * (1real / 2real));
        lemma_associate(2real, p, q / 2real);
        assert(p * (q / 2real) == (p * q) / 2real) by {
            lemma_distribute(p, q / 2real, q / 2real);
        }
    } else {
        assert(1real * 1real == 1real);
    }
}

pub proof fn lemma_halves_order(m: nat, n: nat)
    requires
        m <= n,
    ensures
        halves(n) <= halves(m),
        power(2real, m) <= power(2real, n),
    decreases n,
{
    if m < n {
        lemma_halves_order(m, (n - 1) as nat);
        lemma_halves((n - 1) as nat);
    }
}

} // verus!
