//! How closely the fixed-point exponential and logarithm undo each other.
//!
//! The exponential's series at the logarithm's series is, up to the terms that
//! both leave out, the function `(1 + z) / (1 - z)`: they agree at zero, and from
//! there on they grow alike. What is left is rounding.
use super::exponential::{exp_wad, nearest_ln2_multiple, taylor_sum, taylor_term, HALF_LN2_WAD};
use super::logarithm::{
    atanh_argument, atanh_sum, lemma_atanh_argument_bound, lemma_ln_mantissa, ln_mantissa,
    ln_measure, ln_wad, odd_power, LN2_WAD,
};
use super::real_exp::{exp_series, exp_term, lemma_first_term};
use super::reals::{
    inverse, lemma_associate, lemma_cast_product, lemma_commute, lemma_distribute, lemma_inverse,
    lemma_negate, lemma_nonnegative_product, lemma_order, lemma_power_sum, lemma_product_within,
    lemma_quotient, lemma_quotient_within, power, within,
};
use crate::arith::{trunc_div, WAD};
use vstd::arithmetic::power2::{lemma2_to64, lemma_pow2_pos, lemma_pow2_unfold, pow2};
use vstd::prelude::*;

verus! {

/// Over a step of `h` the value goes from `f` to `g` with slope `d`, up to a
/// second-order part of at most `c`.
spec fn changes(f: real, g: real, d: real, h: real, c: real) -> bool {
    within(g - f - d * h, c * (h * h))
}

proof fn lemma_changes_sum(
    f: real,
    f1: real,
    df: real,
    cf: real,
    g: real,
    g1: real,
    dg: real,
    cg: real,
    h: real,
)
    requires
        changes(f, f1, df, h, cf),
        changes(g, g1, dg, h, cg),
    ensures
        changes(f + g, f1 + g1, df + dg, h, cf + cg),
{
    lemma_distribute(h, df, dg);
    lemma_commute(df, h);
    lemma_commute(dg, h);
    lemma_distribute(h * h, cf, cg);
    lemma_commute(cf, h * h);
    lemma_commute(cg, h * h);
}

proof fn lemma_expand(f: real, p: real, a: real, g: real, q: real, b: real)
    ensures
        (f + p + a) * (g + q + b) == f * g + f * q + f * b + p * g + p * q + p * b + a * g + a * q
            + a * b,
{
    let r = g + q + b;
    lemma_distribute(r, f + p, a);
    lemma_distribute(r, f, p);
    lemma_commute(r, f);
    lemma_commute(r, p);
    lemma_commute(r, a);
    lemma_distribute(f, g + q, b);
    lemma_distribute(f, g, q);
    lemma_distribute(p, g + q, b);
    lemma_distribute(p, g, q);
    lemma_distribute(a, g + q, b);
    lemma_distribute(a, g, q);
}

/// The product of two changing values changes too.
proof fn lemma_changes_product(
    f: real,
    f1: real,
    df: real,
    cf: real,
    g: real,
    g1: real,
    dg: real,
    cg: real,
    h: real,
)
    requires
        changes(f, f1, df, h, cf),
        changes(g, g1, dg, h, cg),
        within(f, 60real),
        within(df, 60real),
        within(g, 60real),
        within(dg, 60real),
        0real <= h <= 1real,
        0real <= cf,
        0real <= cg,
        cf * (h * h) <= 1real,
    ensures
        changes(f * g, f1 * g1, f * dg + df * g, h, 121real * (cf + cg) + 3600real),
{
    let hh = h * h;
    let p = df * h;
    let q = dg * h;
    let a = f1 - f - p;
    let b = g1 - g - q;
    lemma_expand(f, p, a, g, q, b);
    lemma_nonnegative_product(h, h);
    let ca = cf * hh;
    let cb = cg * hh;
    lemma_nonnegative_product(cf, hh);
    lemma_nonnegative_product(cg, hh);
    lemma_associate(f, dg, h);
    lemma_associate(df, h, g);
    lemma_commute(h, g);
    lemma_associate(df, g, h);
    lemma_distribute(h, f * dg, df * g);
    lemma_commute(h, f * dg);
    lemma_commute(h, df * g);
    lemma_product_within(f, 60real, b, cb);
    lemma_product_within(a, ca, g, 60real);
    lemma_commute(ca, 60real);
    assert(within(p, 60real)) by {
        lemma_product_within(df, 60real, h, 1real);
    }
    assert(within(q, 60real)) by {
        lemma_product_within(dg, 60real, h, 1real);
    }
    lemma_product_within(p, 60real, b, cb);
    lemma_product_within(a, ca, q, 60real);
    lemma_product_within(a, 1real, b, cb);
    assert(within(p * q, 3600real * hh)) by {
        lemma_associate(df, h, q);
        lemma_commute(h, q);
        lemma_associate(dg, h, h);
        lemma_associate(df, dg, hh);
        lemma_product_within(df, 60real, dg, 60real);
        lemma_product_within(df * dg, 3600real, hh, hh);
    }
    lemma_distribute(hh, 121real * (cf + cg), 3600real);
    lemma_commute(hh, 3600real);
    lemma_associate(121real, cf + cg, hh);
    lemma_distribute(hh, cf, cg);
    lemma_commute(hh, cf);
    lemma_commute(hh, cg);
    lemma_commute(hh, 121real * (cf + cg));
}

/// `z + z^3/3 + ... + z^(2n+1)/(2n+1)`.
spec fn atanh_series(z: real, n: nat) -> real
    decreases n,
{
    if n == 0 {
        z
    } else {
        atanh_series(z, (n - 1) as nat) + power(z, 2 * n + 1) * inverse(2 * n + 1)
    }
}

/// `1 + z^2 + ... + z^(2n)`, the slope of [`atanh_series`].
spec fn atanh_slope(z: real, n: nat) -> real
    decreases n,
{
    if n == 0 {
        1real
    } else {
        atanh_slope(z, (n - 1) as nat) + power(z, 2 * n)
    }
}

/// A bound for second-order parts: more than what `n` products make of them.
spec fn order(n: nat) -> nat
    decreases n,
{
    if n == 0 {
        1000
    } else {
        1000 * order((n - 1) as nat)
    }
}

proof fn lemma_order_grows(m: nat, n: nat)
    requires
        m <= n,
    ensures
        1000 <= order(m) <= order(n),
    decreases n,
{
    if m < n {
        lemma_order_grows(m, (n - 1) as nat);
    } else if n > 0 {
        lemma_order_grows((m - 1) as nat, (n - 1) as nat);
    }
}

/// A step so small that second-order parts do not matter.
spec fn tiny(h: real) -> bool {
    &&& 0real <= h <= 1real
    &&& (order(110) as real) * h <= 1real
}

proof fn lemma_tiny(h: real, n: nat, c: real)
    requires
        tiny(h),
        n <= 100,
        0real <= c <= order(n) as real,
    ensures
        c * (h * h) <= 1real,
        h * h >= 0real,
{
    lemma_order_grows(n, 110);
    lemma_nonnegative_product(h, h);
    lemma_order(c, order(110) as real, h * h);
    lemma_associate(order(110) as real, h, h);
    lemma_order((order(110) as real) * h, 1real, h);
}

/// The second-order part of a product is of the next order.
proof fn lemma_next_order(n: nat, cf: real, cg: real)
    requires
        0real <= cf <= order(n) as real,
        0real <= cg <= order(n) as real,
    ensures
        0real <= 121real * (cf + cg) + 3600real <= order(n + 1) as real,
{
    lemma_order_grows(0, n);
    assert(order(n + 1) as real == 1000real * (order(n) as real));
}

proof fn lemma_constant_changes(f: real, h: real)
    requires
        tiny(h),
    ensures
        changes(f, f, 0real, h, 0real),
{
}

proof fn lemma_power_changes(t: real, h: real, n: nat) -> (c: real)
    requires
        tiny(h),
        0real <= t <= 1real,
        0real <= t + h <= 1real,
        n <= 50,
    ensures
        0real <= c <= order(n) as real,
        0real <= power(t, n) <= 1real,
        n >= 1 ==> changes(
            power(t, n),
            power(t + h, n),
            (n as real) * power(t, (n - 1) as nat),
            h,
            c,
        ),
        n == 0 ==> c == 0real,
    decreases n,
{
    lemma_order_grows(0, n);
    if n == 0 {
        0real
    } else {
        let m = (n - 1) as nat;
        let cm = lemma_power_changes(t, h, m);
        let p = power(t, m);
        lemma_nonnegative_product(p, t);
        lemma_order(p, 1real, t);
        let dp = if m >= 1 {
            (m as real) * power(t, (m - 1) as nat)
        } else {
            0real
        };
        if m == 0 {
            lemma_constant_changes(1real, h);
        } else {
            let cl = lemma_power_changes(t, h, (m - 1) as nat);
            lemma_product_within(m as real, 60real, power(t, (m - 1) as nat), 1real);
        }
        lemma_tiny(h, m, cm);
        lemma_next_order(m, cm, 0real);
        assert(changes(t, t + h, 1real, h, 0real));
        lemma_changes_product(p, power(t + h, m), dp, cm, t, t + h, 1real, 0real, h);
        if m >= 1 {
            let l = power(t, (m - 1) as nat);
            lemma_associate(m as real, l, t);
            lemma_distribute(p, m as real, 1real);
            lemma_commute(p, m as real);
        }
        121real * (cm + 0real) + 3600real
    }
}

proof fn lemma_atanh_changes(t: real, h: real, n: nat) -> (c: real)
    requires
        tiny(h),
        0real <= t <= 1real,
        0real <= t + h <= 1real,
        n <= 24,
    ensures
        0real <= c <= order(2 * n + 3) as real,
        changes(atanh_series(t, n), atanh_series(t + h, n), atanh_slope(t, n), h, c),
    decreases n,
{
    lemma_order_grows(0, 2 * n + 3);
    if n == 0 {
        0real
    } else {
        let m = (n - 1) as nat;
        let cm = lemma_atanh_changes(t, h, m);
        let e = 2 * n + 1;
        let ce = lemma_power_changes(t, h, e);
        let cd = lemma_power_changes(t, h, 2 * n);
        let p = power(t, e);
        let q = power(t, 2 * n);
        let k = inverse(e);
        lemma_inverse(e);
        lemma_constant_changes(k, h);
        lemma_tiny(h, e, ce);
        lemma_next_order(e, ce, 0real);
        lemma_product_within(e as real, 60real, q, 1real);
        lemma_changes_product(
            p,
            power(t + h, e),
            (e as real) * q,
            ce,
            k,
            k,
            0real,
            0real,
            h,
        );
        let c = 121real * (ce + 0real) + 3600real;
        assert(p * 0real + ((e as real) * q) * k == q) by {
            lemma_commute(e as real, q);
            lemma_associate(q, e as real, k);
            lemma_commute(e as real, k);
            assert(q * ((e as real) * k) == q * 1real);
            assert(p * 0real == 0real);
        }
        lemma_changes_sum(
            atanh_series(t, m),
            atanh_series(t + h, m),
            atanh_slope(t, m),
            cm,
            p * k,
            power(t + h, e) * k,
            q,
            c,
            h,
        );
        lemma_order_grows(2 * m + 3, 2 * n + 2);
        assert(order(2 * n + 3) as real == 1000real * (order(2 * n + 2) as real));
        cm + c
    }
}

proof fn lemma_power_bound(t: real, n: nat)
    requires
        0real <= t <= 1real / 3real,
    ensures
        0real <= power(t, n) <= 1real,
    decreases n,
{
    if n > 0 {
        let p = power(t, (n - 1) as nat);
        lemma_power_bound(t, (n - 1) as nat);
        lemma_nonnegative_product(p, t);
        lemma_order(p, 1real, t);
    }
}

/// The slope times what it lacks of one: `(1 - z^2) * slope = 1 - z^(2n+2)`.
proof fn lemma_slope_product(t: real, n: nat)
    ensures
        atanh_slope(t, n) - atanh_slope(t, n) * (t * t) == 1real - power(t, 2 * n + 2),
    decreases n,
{
    let e = 2 * n;
    assert(power(t, e + 2) == power(t, e) * (t * t)) by {
        assert(power(t, e + 2) == power(t, e + 1) * t);
        assert(power(t, e + 1) == power(t, e) * t);
        lemma_associate(power(t, e), t, t);
    }
    if n > 0 {
        let m = (n - 1) as nat;
        lemma_slope_product(t, m);
        assert(2 * m + 2 == e);
        lemma_distribute(t * t, atanh_slope(t, m), power(t, e));
        lemma_commute(t * t, atanh_slope(t, m));
        lemma_commute(t * t, power(t, e));
    }
}

/// Up to a third, the slope lies between one and nine eighths, and the series
/// is at most as steep.
proof fn lemma_slope_bound(t: real, n: nat)
    requires
        0real <= t <= 1real / 3real,
    ensures
        1real <= atanh_slope(t, n) <= 9real / 8real,
{
    lemma_slope_at_least_one(t, n);
    lemma_slope_product(t, n);
    lemma_power_bound(t, 2 * n + 2);
    let g = atanh_slope(t, n);
    assert(t * t <= 1real / 9real) by {
        lemma_order(t, 1real / 3real, t);
        lemma_order(t, 1real / 3real, 1real / 3real);
        assert((1real / 3real) * (1real / 3real) == 1real / 9real) by (nonlinear_arith);
    }
    lemma_order(t * t, 1real / 9real, g);
}

proof fn lemma_slope_at_least_one(t: real, n: nat)
    requires
        0real <= t <= 1real / 3real,
    ensures
        1real <= atanh_slope(t, n),
    decreases n,
{
    if n > 0 {
        lemma_slope_at_least_one(t, (n - 1) as nat);
        lemma_power_bound(t, 2 * n);
    }
}

proof fn lemma_atanh_bound(t: real, n: nat)
    requires
        0real <= t <= 1real / 3real,
    ensures
        0real <= atanh_series(t, n) <= t * atanh_slope(t, n),
    decreases n,
{
    if n > 0 {
        let m = (n - 1) as nat;
        lemma_atanh_bound(t, m);
        let e = 2 * n;
        let q = power(t, e);
        let p = power(t, e + 1);
        lemma_power_bound(t, e);
        lemma_power_bound(t, e + 1);
        lemma_inverse(e + 1);
        lemma_nonnegative_product(p, inverse(e + 1));
        lemma_order(inverse(e + 1), 1real, p);
        assert(p == q * t);
        lemma_commute(q, t);
        lemma_distribute(t, atanh_slope(t, m), q);
    }
}

/// Up to a third, twice the series stays below three quarters.
proof fn lemma_atanh_limit(t: real)
    requires
        0real <= t <= 1real / 3real,
    ensures
        0real <= 2real * atanh_series(t, 24) <= 3real / 4real,
{
    lemma_atanh_bound(t, 24);
    lemma_slope_bound(t, 24);
    let g = atanh_slope(t, 24);
    lemma_order(t, 1real / 3real, g);
    lemma_order(g, 9real / 8real, 1real / 3real);
    assert((1real / 3real) * (9real / 8real) == 3real / 8real) by (nonlinear_arith);
}

/// Bounds of a term and of a partial sum, near zero.
proof fn lemma_exp_bounds(x: real, n: nat) -> (w: real)
    requires
        n >= 1,
        within(x, 3real / 4real),
    ensures
        0real <= w <= 3real / 4real,
        within(exp_term(x, n), w),
        within(exp_series(x, n), 11real / 5real - 3real * w / 5real),
        within(exp_series(x, n), 11real / 5real),
    decreases n,
{
    if n == 1 {
        reveal_with_fuel(exp_term, 2);
        reveal_with_fuel(exp_series, 2);
        lemma_first_term(x);
        3real / 4real
    } else {
        let c = lemma_exp_bounds(x, (n - 1) as nat);
        let w = 3real * c / 8real;
        let t = exp_term(x, (n - 1) as nat);
        lemma_product_within(t, c, x, 3real / 4real);
        lemma_commute(c, 3real / 4real);
        lemma_inverse(n);
        lemma_product_within(t * x, 3real * c / 4real, inverse(n), 1real / 2real);
        w
    }
}

proof fn lemma_term_within_one(x: real, n: nat)
    requires
        within(x, 3real / 4real),
    ensures
        within(exp_term(x, n), 1real),
{
    if n >= 1 {
        let w = lemma_exp_bounds(x, n);
    }
}

/// The slope of a term along an argument whose slope is `dx`.
spec fn exp_term_slope(x: real, dx: real, n: nat) -> real {
    if n == 0 {
        0real
    } else {
        exp_term(x, (n - 1) as nat) * dx
    }
}

/// The slope of a partial sum along an argument whose slope is `dx`.
spec fn exp_series_slope(x: real, dx: real, n: nat) -> real {
    if n == 0 {
        0real
    } else {
        exp_series(x, (n - 1) as nat) * dx
    }
}

proof fn lemma_exp_term_changes(
    x: real,
    x1: real,
    dx: real,
    cx: real,
    h: real,
    n: nat,
) -> (c: real)
    requires
        tiny(h),
        within(x, 3real / 4real),
        within(dx, 3real),
        changes(x, x1, dx, h, cx),
        0real <= cx <= order(52) as real,
        n <= 20,
    ensures
        0real <= c <= order(52 + 2 * n) as real,
        changes(exp_term(x, n), exp_term(x1, n), exp_term_slope(x, dx, n), h, c),
    decreases n,
{
    lemma_order_grows(52, 52 + 2 * n);
    if n == 0 {
        lemma_constant_changes(1real, h);
        0real
    } else {
        let m = (n - 1) as nat;
        let o = 52 + 2 * m;
        let cm = lemma_exp_term_changes(x, x1, dx, cx, h, m);
        lemma_order_grows(52, o);
        let e = exp_term(x, m);
        let e1 = exp_term(x1, m);
        let de = exp_term_slope(x, dx, m);
        let k = inverse(n);
        lemma_term_within_one(x, m);
        assert(within(de, 50real)) by {
            if m >= 1 {
                lemma_term_within_one(x, (m - 1) as nat);
                lemma_product_within(exp_term(x, (m - 1) as nat), 1real, dx, 3real);
            }
        }
        lemma_tiny(h, o, cm);
        lemma_next_order(o, cm, cx);
        lemma_changes_product(e, e1, de, cm, x, x1, dx, cx, h);
        let slope = e * dx + de * x;
        let c1 = 121real * (cm + cx) + 3600real;
        lemma_product_within(e, 1real, x, 1real);
        lemma_product_within(e, 1real, dx, 3real);
        lemma_product_within(de, 50real, x, 1real);
        assert(slope == (n as real) * (e * dx)) by {
            if m >= 1 {
                let f = exp_term(x, (m - 1) as nat);
                lemma_inverse(m);
                lemma_associate(f * x, inverse(m), m as real);
                assert(e == (f * x) * inverse(m)) by {
                    reveal_with_fuel(exp_term, 2);
                }
                assert(e * (m as real) == (f * x) * 1real);
                lemma_commute(f, dx);
                lemma_associate(dx, f, x);
                lemma_commute(e, m as real);
                lemma_commute(dx, f * x);
                lemma_associate(m as real, e, dx);
                lemma_distribute(e * dx, m as real, 1real);
                lemma_commute(e * dx, m as real);
            } else {
                assert(de * x == 0real * x);
            }
        }
        lemma_inverse(n);
        lemma_constant_changes(k, h);
        lemma_tiny(h, o + 1, c1);
        lemma_next_order(o + 1, c1, 0real);
        lemma_changes_product(e * x, e1 * x1, slope, c1, k, k, 0real, 0real, h);
        assert((e * x) * 0real + slope * k == e * dx) by {
            lemma_commute(n as real, e * dx);
            lemma_associate(e * dx, n as real, k);
            lemma_commute(n as real, k);
            assert((e * dx) * ((n as real) * k) == (e * dx) * 1real);
            assert((e * x) * 0real == 0real);
        }
        121real * (c1 + 0real) + 3600real
    }
}

proof fn lemma_exp_series_changes(
    x: real,
    x1: real,
    dx: real,
    cx: real,
    h: real,
    n: nat,
) -> (c: real)
    requires
        tiny(h),
        within(x, 3real / 4real),
        within(dx, 3real),
        changes(x, x1, dx, h, cx),
        0real <= cx <= order(52) as real,
        n <= 20,
    ensures
        0real <= c <= order(53 + 2 * n) as real,
        changes(exp_series(x, n), exp_series(x1, n), exp_series_slope(x, dx, n), h, c),
    decreases n,
{
    lemma_order_grows(52, 53 + 2 * n);
    if n == 0 {
        lemma_constant_changes(1real, h);
        0real
    } else {
        let m = (n - 1) as nat;
        let cm = lemma_exp_series_changes(x, x1, dx, cx, h, m);
        let ct = lemma_exp_term_changes(x, x1, dx, cx, h, n);
        lemma_changes_sum(
            exp_series(x, m),
            exp_series(x1, m),
            exp_series_slope(x, dx, m),
            cm,
            exp_term(x, n),
            exp_term(x1, n),
            exp_term_slope(x, dx, n),
            ct,
            h,
        );
        assert(exp_series_slope(x, dx, m) + exp_term_slope(x, dx, n) == exp_series_slope(
            x,
            dx,
            n,
        )) by {
            if m >= 1 {
                let s = exp_series(x, (m - 1) as nat);
                lemma_distribute(dx, s, exp_term(x, m));
                lemma_commute(dx, s);
                lemma_commute(dx, exp_term(x, m));
            }
        }
        lemma_order_grows(53 + 2 * m, 52 + 2 * n);
        assert(order(53 + 2 * n) as real == 1000real * (order(52 + 2 * n) as real));
        cm + ct
    }
}

/// A bound of one part in `k` for a term becomes one in `next` for the term
/// after it.
proof fn lemma_term_shrinks(x: real, n: nat, k: real, next: real)
    requires
        n >= 1,
        within(x, 3real / 4real),
        0real < k,
        0real < next,
        3real * next <= 4real * (k * (n as real)),
        within(exp_term(x, (n - 1) as nat), 1real / k),
    ensures
        within(exp_term(x, n), 1real / next),
{
    let t = exp_term(x, (n - 1) as nat);
    let d = n as real;
    let u = 1real / k;
    let v = 1real / next;
    lemma_quotient(1real, k);
    lemma_quotient(1real, next);
    lemma_product_within(t, u, x, 3real / 4real);
    lemma_commute(u, 3real / 4real);
    lemma_inverse(n);
    let i = inverse(n);
    lemma_product_within(t * x, 3real * u / 4real, i, i);
    let bound = (3real * u / 4real) * i;
    if v < 0real {
        lemma_nonnegative_product(-v, next);
        lemma_negate(v, next);
    }
    if bound > v {
        // Multiplied by `next * k * n`, the two sides are ordered the other way.
        let kd = k * d;
        lemma_nonnegative_product(k, d);
        assert(bound * kd == 3real / 4real) by {
            lemma_commute(k, d);
            lemma_associate(3real * u / 4real, i, d * k);
            lemma_associate(i, d, k);
            assert((i * d) * k == 1real * k);
            assert((3real * u / 4real) * k == 3real * (u * k) / 4real) by {
                lemma_associate(3real, u, k);
                lemma_commute(3real * u, k);
                lemma_distribute(k, 3real * u / 4real, 3real * u / 4real);
                lemma_distribute(k, 3real * u / 2real, 3real * u / 2real);
                lemma_commute(k, 3real * u / 4real);
                lemma_commute(k, 3real * u);
            }
        }
        lemma_order(v, bound, kd);
        lemma_order(3real * next / 4real, kd, v);
        assert(v * (3real * next / 4real) == 3real / 4real) by {
            lemma_distribute(v, 3real * next / 4real, 3real * next / 4real);
            lemma_distribute(v, 3real * next / 2real, 3real * next / 2real);
            lemma_commute(v, 3real * next);
            lemma_associate(3real, next, v);
            lemma_commute(next, v);
        }
        assert(v * kd < bound * kd) by (nonlinear_arith)
            requires
                v < bound,
                kd > 0real,
        ;
    }
}

/// The first term that the exponential's series leaves out is negligible.
pub proof fn lemma_last_term(x: real)
    requires
        within(x, 3real / 4real),
    ensures
        within(exp_term(x, 20), 1real / 424783806833757750613real),
{
    assert(exp_term(x, 0) == 1real);
    lemma_term_shrinks(x, 1, 1real, 1real);
    lemma_term_shrinks(x, 2, 1real, 2real);
    lemma_term_shrinks(x, 3, 2real, 8real);
    lemma_term_shrinks(x, 4, 8real, 42real);
    lemma_term_shrinks(x, 5, 42real, 280real);
    lemma_term_shrinks(x, 6, 280real, 2240real);
    lemma_term_shrinks(x, 7, 2240real, 20906real);
    lemma_term_shrinks(x, 8, 20906real, 222997real);
    lemma_term_shrinks(x, 9, 222997real, 2675964real);
    lemma_term_shrinks(x, 10, 2675964real, 35679520real);
    lemma_term_shrinks(x, 11, 35679520real, 523299626real);
    lemma_term_shrinks(x, 12, 523299626real, 8372794016real);
    lemma_term_shrinks(x, 13, 8372794016real, 145128429610real);
    lemma_term_shrinks(x, 14, 145128429610real, 2709064019386real);
    lemma_term_shrinks(x, 15, 2709064019386real, 54181280387720real);
    lemma_term_shrinks(x, 16, 54181280387720real, 1155867314938026real);
    lemma_term_shrinks(x, 17, 1155867314938026real, 26199659138595256real);
    lemma_term_shrinks(x, 18, 26199659138595256real, 628791819326286144real);
    lemma_term_shrinks(x, 19, 628791819326286144real, 15929392756265915648real);
    lemma_term_shrinks(x, 20, 15929392756265915648real, 424783806833757750613real);
}

/// The first term that the logarithm's series leaves out is negligible.
proof fn lemma_last_power(t: real)
    requires
        0real <= t <= 1real / 3real,
    ensures
        0real <= power(t, 50) <= 1real / 10_000_000_000_000_000_000_000real,
{
    lemma_power_bound(t, 50);
    lemma_power_bound(t, 2);
    assert(power(t, 1) == t) by {
        reveal_with_fuel(power, 2);
        assert(1real * t == t);
    }
    lemma_power_sum(t, 1, 1);
    lemma_product_within(t, 1real / 3real, t, 1real / 3real);
    assert((1real / 3real) * (1real / 3real) == 1real / 9real) by (nonlinear_arith);
    lemma_power_sum(t, 2, 2);
    lemma_product_within(power(t, 2), 1real / 9real, power(t, 2), 1real / 9real);
    assert((1real / 9real) * (1real / 9real) == 1real / 81real) by (nonlinear_arith);
    lemma_power_sum(t, 4, 4);
    lemma_product_within(power(t, 4), 1real / 81real, power(t, 4), 1real / 81real);
    assert((1real / 81real) * (1real / 81real) == 1real / 6561real) by (nonlinear_arith);
    lemma_power_sum(t, 8, 8);
    lemma_product_within(power(t, 8), 1real / 6561real, power(t, 8), 1real / 6561real);
    assert((1real / 6561real) * (1real / 6561real) == 1real / 43046721real) by (nonlinear_arith);
    lemma_power_sum(t, 16, 16);
    lemma_product_within(power(t, 16), 1real / 43046721real, power(t, 16), 1real / 43046721real);
    assert((1real / 43046721real) * (1real / 43046721real) == 1real / 1853020188851841real) by (
    nonlinear_arith);
    lemma_power_sum(t, 32, 16);
    lemma_product_within(
        power(t, 32),
        1real / 1853020188851841real,
        power(t, 16),
        1real / 43046721real,
    );
    assert((1real / 1853020188851841real) * (1real / 43046721real)
        == 1real / 79766443076872509863361real) by (nonlinear_arith);
    lemma_power_sum(t, 48, 2);
    lemma_product_within(
        power(t, 48),
        1real / 79766443076872509863361real,
        power(t, 2),
        1real,
    );
}

/// The exponential's argument at `z`, from `x0` on.
spec fn argument(x0: real, z: real) -> real {
    x0 + 2real * atanh_series(z, 24)
}

/// How far `k` times the exponential at the logarithm is from `(1 + z) / (1 - z)`,
/// times `1 - z`.
spec fn gap(x0: real, k: real, z: real) -> real {
    k * (exp_series(argument(x0, z), 20) * (1real - z)) - (1real + z)
}

/// The slope of [`gap`].
spec fn gap_slope(x0: real, k: real, z: real) -> real {
    let x = argument(x0, z);
    k * ((exp_series(x, 19) * (2real * atanh_slope(z, 24))) * (1real - z) - exp_series(x, 20))
        - 1real
}

proof fn lemma_gap_changes(x0: real, k: real, t: real, h: real) -> (c: real)
    requires
        tiny(h),
        0real <= t,
        t + h <= 1real / 3real,
        0real <= k <= 2real,
        within(argument(x0, t), 3real / 4real),
    ensures
        0real <= c <= order(95) as real,
        changes(gap(x0, k, t), gap(x0, k, t + h), gap_slope(x0, k, t), h, c),
{
    let t1 = t + h;
    let x = argument(x0, t);
    let x1 = argument(x0, t1);
    let g = atanh_slope(t, 24);
    let dx = 2real * g;
    let a = atanh_series(t, 24);
    let a1 = atanh_series(t1, 24);
    let ca = lemma_atanh_changes(t, h, 24);
    lemma_slope_bound(t, 24);
    lemma_changes_sum(a, a1, g, ca, a, a1, g, ca, h);
    lemma_constant_changes(x0, h);
    lemma_changes_sum(a + a, a1 + a1, g + g, ca + ca, x0, x0, 0real, 0real, h);
    assert(g + g + 0real == dx && a + a + x0 == x && a1 + a1 + x0 == x1);
    let cx = ca + ca + 0real;
    assert(order(52) as real == 1000real * (order(51) as real));
    let s = exp_series(x, 20);
    let s1 = exp_series(x1, 20);
    let ds = exp_series_slope(x, dx, 20);
    assert(ds == exp_series(x, 19) * dx);
    let cs = lemma_exp_series_changes(x, x1, dx, cx, h, 20);
    let w = lemma_exp_bounds(x, 20);
    let w19 = lemma_exp_bounds(x, 19);
    lemma_product_within(exp_series(x, 19), 11real / 5real, dx, 3real);
    assert((11real / 5real) * 3real == 33real / 5real);
    let u = 1real - t;
    let u1 = 1real - t1;
    assert(changes(u, u1, -1real, h, 0real)) by {
        assert((-1real) * h == -h);
    }
    lemma_tiny(h, 93, cs);
    lemma_next_order(93, cs, 0real);
    lemma_changes_product(s, s1, ds, cs, u, u1, -1real, 0real, h);
    let cv = 121real * (cs + 0real) + 3600real;
    let v = s * u;
    let v1 = s1 * u1;
    let dv = s * (-1real) + ds * u;
    lemma_product_within(s, 11real / 5real, u, 1real);
    lemma_product_within(ds, 33real / 5real, u, 1real);
    lemma_constant_changes(k, h);
    lemma_tiny(h, 94, cv);
    lemma_next_order(94, cv, 0real);
    lemma_changes_product(v, v1, dv, cv, k, k, 0real, 0real, h);
    let c = 121real * (cv + 0real) + 3600real;
    lemma_commute(v, k);
    lemma_commute(v1, k);
    lemma_commute(dv, k);
    assert(v * 0real + dv * k == k * dv);
    let r = -(1real + t);
    let r1 = -(1real + t1);
    assert(changes(r, r1, -1real, h, 0real)) by {
        assert((-1real) * h == -h);
    }
    lemma_changes_sum(k * v, k * v1, k * dv, c, r, r1, -1real, 0real, h);
    assert(gap_slope(x0, k, t) == k * dv + (-1real)) by {
        assert(dv == ds * u - s);
    }
    c
}

/// Where the gap is small it grows no faster than by its own size.
proof fn lemma_gap_slope(x0: real, k: real, t: real)
    requires
        0real <= t <= 1real / 3real,
        0real <= k <= 2real,
        within(argument(x0, t), 3real / 4real),
    ensures
        ({
            let b = if gap(x0, k, t) >= 0real {
                gap(x0, k, t)
            } else {
                -gap(x0, k, t)
            };
            within(gap_slope(x0, k, t), b + 1real / 50_000_000_000_000_000_000real)
        }),
{
    let x = argument(x0, t);
    let s = exp_series(x, 20);
    let s19 = exp_series(x, 19);
    let tau = exp_term(x, 20);
    let sigma = power(t, 50);
    let g = atanh_slope(t, 24);
    let u = 1real - t;
    let d = gap_slope(x0, k, t);
    let e = gap(x0, k, t);
    lemma_last_term(x);
    lemma_last_power(t);
    let w = lemma_exp_bounds(x, 20);
    let w19 = lemma_exp_bounds(x, 19);
    lemma_slope_product(t, 24);
    assert(s == s19 + tau);
    // (1 + t) * (s19 * 2g * (1 - t)) == 2 * s19 * (1 - sigma)
    let y = (s19 * (2real * g)) * u;
    let up = 1real + t;
    assert(up * y == 2real * (s19 * (1real - sigma))) by {
        lemma_commute(up, y);
        lemma_associate(s19 * (2real * g), u, up);
        assert(u * up == 1real - t * t) by {
            lemma_distribute(u, 1real, t);
            lemma_distribute(t, 1real, -t);
            lemma_negate(t, t);
        }
        lemma_associate(s19, 2real * g, 1real - t * t);
        assert((2real * g) * (1real - t * t) == 2real * (1real - sigma)) by {
            lemma_distribute(2real * g, 1real, -(t * t));
            lemma_negate(2real * g, t * t);
            lemma_associate(2real, g, t * t);
        }
        lemma_distribute(s19, 1real - sigma, 1real - sigma);
    }
    let z = y - s;
    assert(d == k * z - 1real);
    let kz = k * z;
    assert(up * kz == k * (up * z)) by {
        lemma_commute(up, kz);
        lemma_associate(k, z, up);
        lemma_commute(z, up);
    }
    assert(up * z == 2real * (s19 * (1real - sigma)) - s - s * t) by {
        lemma_distribute(up, y, -s);
        lemma_negate(up, s);
        lemma_distribute(s, 1real, t);
        lemma_commute(up, s);
    }
    // s19 * (1 - sigma) == s - tau - s19 * sigma
    lemma_distribute(s19, 1real, -sigma);
    lemma_negate(s19, sigma);
    let small = 2real * (tau + s19 * sigma);
    assert(up * z == (s - s * t) - small);
    assert(s * u == s - s * t) by {
        lemma_distribute(s, 1real, -t);
        lemma_negate(s, t);
    }
    lemma_distribute(k, s * u, -small);
    lemma_negate(k, small);
    lemma_distribute(up, kz, -1real);
    assert(up * d == e - k * small) by {
        assert(up * (-1real) == -up);
    }
    lemma_product_within(
        s19,
        3real,
        sigma,
        1real / 10_000_000_000_000_000_000_000real,
    );
    lemma_product_within(k, 2real, small, 1real / 100_000_000_000_000_000_000real);
    let b = if e >= 0real {
        e
    } else {
        -e
    };
    let limit = b + 1real / 50_000_000_000_000_000_000real;
    lemma_distribute(d, 1real, t);
    lemma_commute(up, d);
    if d >= 0real {
        lemma_nonnegative_product(d, t);
    } else {
        lemma_nonnegative_product(-d, t);
        lemma_negate(d, t);
    }
}

/// One step along the gap.
proof fn lemma_gap_step(x0: real, k: real, t: real, h: real)
    requires
        tiny(h),
        0real <= t,
        t + h <= 1real / 3real,
        0real <= k <= 2real,
        within(argument(x0, t), 3real / 4real),
        within(gap(x0, k, t), (2real + 4real * t) / 1_000_000_000_000_000_000real),
    ensures
        within(gap(x0, k, t + h), (2real + 4real * (t + h)) / 1_000_000_000_000_000_000real),
{
    let c = lemma_gap_changes(x0, k, t, h);
    lemma_gap_slope(x0, k, t);
    let d = gap_slope(x0, k, t);
    let limit = 36real / 10_000_000_000_000_000_000real;
    lemma_product_within(d, limit, h, h);
    let o = order(95) as real;
    lemma_order(c, o, h);
    assert(1_000_000_000_000_000_000_000real * o <= order(110) as real) by {
        reveal_with_fuel(order, 8);
        lemma_order_grows(102, 110);
    }
    lemma_order(1_000_000_000_000_000_000_000real * o, order(110) as real, h);
    lemma_associate(1_000_000_000_000_000_000_000real, o, h);
    let ch = c * h;
    lemma_associate(c, h, h);
    lemma_order(ch, 1real / 1_000_000_000_000_000_000_000real, h);
}

proof fn lemma_gap_walk(x0: real, k: real, h: real, i: nat)
    requires
        tiny(h),
        (i as real) * h <= 1real / 3real,
        0real <= k <= 2real,
        -3real / 4real <= x0 <= 0real,
        within(gap(x0, k, 0real), 2real / 1_000_000_000_000_000_000real),
    ensures
        within(
            gap(x0, k, (i as real) * h),
            (2real + 4real * ((i as real) * h)) / 1_000_000_000_000_000_000real,
        ),
    decreases i,
{
    if i == 0 {
        assert(0real * h == 0real);
    } else {
        let j = (i - 1) as nat;
        let t = (j as real) * h;
        lemma_distribute(h, j as real, 1real);
        lemma_commute(h, j as real);
        assert((i as real) == (j as real) + 1real);
        assert((i as real) * h == t + h);
        lemma_nonnegative_product(j as real, h);
        lemma_gap_walk(x0, k, h, j);
        lemma_atanh_limit(t);
        lemma_gap_step(x0, k, t, h);
    }
}

/// Wherever the gap starts out small, it stays small.
proof fn lemma_gap(x0: real, k: real, z: real)
    requires
        0real <= z <= 1real / 3real,
        0real <= k <= 2real,
        -3real / 4real <= x0 <= 0real,
        within(gap(x0, k, 0real), 2real / 1_000_000_000_000_000_000real),
    ensures
        within(gap(x0, k, z), 4real / 1_000_000_000_000_000_000real),
{
    let n = order(110);
    lemma_order_grows(0, 110);
    lemma_inverse(n);
    let i = inverse(n);
    let h = z * i;
    lemma_nonnegative_product(z, i);
    lemma_order(z, 1real, i);
    lemma_commute(n as real, h);
    lemma_associate(z, i, n as real);
    assert(h * (n as real) == z * 1real);
    lemma_gap_walk(x0, k, h, n);
}

/// The logarithm of two, as the fixed-point code has it.
pub open spec fn ln2() -> real {
    693147180559945309real / 1_000_000_000_000_000_000real
}

/// A term at `ln 2` near a multiple of `10^-24`.
proof fn lemma_term_near(n: nat, c: real, next: real)
    requires
        n >= 1,
        within(
            1_000_000_000_000_000_000_000_000real * exp_term(ln2(), (n - 1) as nat) - c,
            2real,
        ),
        within(
            693147180559945309real * c - 1_000_000_000_000_000_000real * (next * (n as real)),
            600_000_000_000_000_000real * (n as real),
        ),
    ensures
        within(1_000_000_000_000_000_000_000_000real * exp_term(ln2(), n) - next, 2real),
{
    let x = ln2();
    let e = exp_term(x, (n - 1) as nat);
    let d = n as real;
    let q = exp_term(x, n);
    lemma_inverse(n);
    lemma_associate(e * x, inverse(n), d);
    assert(q * d == (e * x) * 1real);
    assert(e * x == 693147180559945309real * e / 1_000_000_000_000_000_000real) by {
        lemma_quotient(693147180559945309real, 1_000_000_000_000_000_000real);
        lemma_associate(e, ln2(), 1_000_000_000_000_000_000real);
        assert(e * (ln2() * 1_000_000_000_000_000_000real) == e * 693147180559945309real);
    }
    // The error, times n.
    let f = 1_000_000_000_000_000_000_000_000real * q - next;
    assert(f * d == 1_000_000_000_000_000_000_000_000real * (q * d) - next * d) by {
        lemma_distribute(d, 1_000_000_000_000_000_000_000_000real * q, -next);
        lemma_negate(d, next);
        lemma_commute(d, next);
        lemma_commute(d, 1_000_000_000_000_000_000_000_000real * q);
        lemma_associate(1_000_000_000_000_000_000_000_000real, q, d);
        lemma_commute(d, f);
    }
    assert(within(f * d, 2real * d)) by {
        assert(d >= 1real);
    }
    if f > 2real {
        lemma_order(2real, f, d);
        assert(f * d > 2real * d) by (nonlinear_arith)
            requires
                f > 2real,
                d >= 1real,
        ;
    } else if f < -2real {
        assert((-f) * d > 2real * d) by (nonlinear_arith)
            requires
                -f > 2real,
                d >= 1real,
        ;
        lemma_negate(f, d);
    }
}

/// Where the argument changes its sign, every other term does.
proof fn lemma_parity(x: real, n: nat)
    ensures
        exp_term(-x, n) == (if n % 2 == 0 {
            exp_term(x, n)
        } else {
            -exp_term(x, n)
        }),
    decreases n,
{
    if n > 0 {
        let m = (n - 1) as nat;
        lemma_parity(x, m);
        let e = exp_term(x, m);
        lemma_negate(e, x);
        lemma_negate(e, -x);
        lemma_negate(e * x, inverse(n));
    }
}

/// The exponential at `ln 2`, which is rounded down, falls short of two; and
/// twice the exponential at `-ln 2` is one.
pub proof fn lemma_exp_of_ln2()
    ensures
        within(
            exp_series(ln2(), 20) - 2real + 834_473real / 1_000_000_000_000_000_000_000_000real,
            1real / 1_000_000_000_000_000_000_000real,
        ),
        within(exp_term(ln2(), 20), 1real / 1_000_000_000_000_000_000_000real),
        within(
            2real * exp_series(-ln2(), 20) - 1real,
            2real / 1_000_000_000_000_000_000real,
        ),
{
    let x = ln2();
    assert(exp_term(x, 0) == 1real);
    lemma_term_near(1, 1000000000000000000000000real, 693147180559945309000000real);
    lemma_term_near(2, 693147180559945309000000real, 240226506959100712044348real);
    lemma_term_near(3, 240226506959100712044348real, 55504108664821579852912real);
    lemma_term_near(4, 55504108664821579852912real, 9618129107628477138821real);
    lemma_term_near(5, 9618129107628477138821real, 1333355814642844338328real);
    lemma_term_near(6, 1333355814642844338328real, 154035303933816098988real);
    lemma_term_near(7, 154035303933816098988real, 15252733804059840216real);
    lemma_term_near(8, 15252733804059840216real, 1321548679014430942real);
    lemma_term_near(9, 1321548679014430942real, 101780860092396997real);
    lemma_term_near(10, 101780860092396997real, 7054911620801123real);
    lemma_term_near(11, 7054911620801123real, 444553827187081real);
    lemma_term_near(12, 444553827187081real, 25678435993488real);
    lemma_term_near(13, 25678435993488real, 1369148885390real);
    lemma_term_near(14, 1369148885390real, 67787263548real);
    lemma_term_near(15, 67787263548real, 3132436707real);
    lemma_term_near(16, 3132436707real, 135702479real);
    lemma_term_near(17, 135702479real, 5533047real);
    lemma_term_near(18, 5533047real, 213068real);
    lemma_term_near(19, 213068real, 7773real);
    lemma_term_near(20, 7773real, 269real);
    lemma_parity(x, 1);
    lemma_parity(x, 2);
    lemma_parity(x, 3);
    lemma_parity(x, 4);
    lemma_parity(x, 5);
    lemma_parity(x, 6);
    lemma_parity(x, 7);
    lemma_parity(x, 8);
    lemma_parity(x, 9);
    lemma_parity(x, 10);
    lemma_parity(x, 11);
    lemma_parity(x, 12);
    lemma_parity(x, 13);
    lemma_parity(x, 14);
    lemma_parity(x, 15);
    lemma_parity(x, 16);
    lemma_parity(x, 17);
    lemma_parity(x, 18);
    lemma_parity(x, 19);
    lemma_parity(x, 20);
    reveal_with_fuel(exp_series, 21);
}

proof fn lemma_zero(n: nat)
    ensures
        atanh_series(0real, n) == 0real,
        exp_series(0real, n) == 1real,
        n >= 1 ==> exp_term(0real, n) == 0real,
    decreases n,
{
    lemma_atanh_bound(0real, n);
    assert(0real * atanh_slope(0real, n) == 0real);
    if n >= 1 {
        lemma_zero((n - 1) as nat);
        let e = exp_term(0real, (n - 1) as nat);
        assert((e * 0real) * inverse(n) == 0real * inverse(n));
    }
}

/// The exponential at the logarithm, up to what both series leave out, from zero
/// and from `-ln 2`.
proof fn lemma_exp_of_atanh(z: real)
    requires
        0real <= z <= 1real / 3real,
    ensures
        within(gap(0real, 1real, z), 4real / 1_000_000_000_000_000_000real),
        within(gap(-ln2(), 2real, z), 4real / 1_000_000_000_000_000_000real),
{
    lemma_zero(24);
    lemma_zero(20);
    assert(argument(0real, 0real) == 0real);
    lemma_gap(0real, 1real, z);
    lemma_exp_of_ln2();
    assert(argument(-ln2(), 0real) == -ln2());
    lemma_gap(-ln2(), 2real, z);
}

/// A quotient of integers that is rounded toward zero is less than one off.
proof fn lemma_rounded(a: int, n: nat)
    requires
        n >= 1,
    ensures
        within((trunc_div(a, n as int) as real) - (a as real) * inverse(n), 1real),
        a >= 0 ==> (trunc_div(a, n as int) as real) <= (a as real) * inverse(n),
{
    let q = trunc_div(a, n as int);
    let d = n as real;
    let i = inverse(n);
    lemma_inverse(n);
    let rest = a - q * n;
    assert(-n < rest < n && (a >= 0 ==> rest >= 0)) by (nonlinear_arith)
        requires
            rest == a - q * n,
            q == (if a >= 0 { a / (n as int) } else { -((-a) / (n as int)) }),
            n >= 1,
    ;
    lemma_cast_product(q, n as int);
    let r = rest as real;
    assert(a as real == (q as real) * d + r);
    lemma_distribute(i, (q as real) * d, r);
    lemma_commute(a as real, i);
    lemma_associate(q as real, d, i);
    lemma_commute(i, (q as real) * d);
    lemma_commute(d, i);
    assert((q as real) * (d * i) == (q as real) * 1real);
    lemma_product_within(i, i, r, d);
    if a >= 0 {
        lemma_nonnegative_product(i, r);
    }
}

/// What a fixed-point value stands for.
pub open spec fn unscaled(v: int) -> real {
    (v as real) / 1_000_000_000_000_000_000real
}

/// The fixed-point powers fall short of the powers by at most two units.
proof fn lemma_odd_power_near(zi: int, j: nat)
    requires
        0 <= zi,
        unscaled(zi) <= 1real / 3real,
    ensures
        odd_power(zi, j) >= 0,
        (odd_power(zi, j) as real) <= 1_000_000_000_000_000_000real * power(
            unscaled(zi),
            2 * j + 1,
        ),
        (odd_power(zi, j) as real) >= 1_000_000_000_000_000_000real * power(
            unscaled(zi),
            2 * j + 1,
        ) - 2real,
    decreases j,
{
    let z = unscaled(zi);
    if j == 0 {
        assert(power(z, 1) == z) by {
            reveal_with_fuel(power, 2);
            assert(1real * z == z);
        }
    } else {
        let l = (j - 1) as nat;
        lemma_odd_power_near(zi, l);
        let w = WAD as nat;
        let op = odd_power(zi, l);
        let zz = zi * zi / (WAD as int);
        let p = power(z, 2 * l + 1);
        let next = odd_power(zi, j);
        lemma_power_bound(z, 2 * l + 1);
        assert(zi * zi >= 0 && op * zz >= 0 && zz >= 0) by (nonlinear_arith)
            requires
                zi >= 0,
                op >= 0,
                zz == zi * zi / (WAD as int),
                WAD == 1_000_000_000_000_000_000,
        ;
        let i = inverse(w);
        assert(i == 1real / 1_000_000_000_000_000_000real);
        lemma_rounded(zi * zi, w);
        lemma_cast_product(zi, zi);
        // zz is at most one below WAD * z^2.
        let z2 = z * z;
        assert((zi as real) * (zi as real) == 1_000_000_000_000_000_000real * (
        1_000_000_000_000_000_000real * z2)) by {
            lemma_associate(1_000_000_000_000_000_000real, z, zi as real);
            lemma_commute(z, zi as real);
            lemma_associate(1_000_000_000_000_000_000real, z, z);
        }
        let sq = (zi as real) * (zi as real);
        assert(sq * i == 1_000_000_000_000_000_000real * z2) by {
            lemma_scale(sq);
        }
        let zr = zz as real;
        assert(zr <= 1_000_000_000_000_000_000real * z2);
        assert(zr >= 1_000_000_000_000_000_000real * z2 - 1real);
        let o = op as real;
        lemma_rounded(op * zz, w);
        lemma_cast_product(op, zz);
        lemma_scale(o * zr);
        // Above.
        lemma_nonnegative_product(z, z);
        lemma_order(zr, 1_000_000_000_000_000_000real * z2, o);
        lemma_order(o, 1_000_000_000_000_000_000real * p, 1_000_000_000_000_000_000real * z2);
        let pz = p * z2;
        assert((1_000_000_000_000_000_000real * p) * (1_000_000_000_000_000_000real * z2)
            == 1_000_000_000_000_000_000real * (1_000_000_000_000_000_000real * pz)) by {
            lemma_associate(
                1_000_000_000_000_000_000real,
                p,
                1_000_000_000_000_000_000real * z2,
            );
            lemma_commute(p, 1_000_000_000_000_000_000real * z2);
            lemma_associate(1_000_000_000_000_000_000real, z2, p);
            lemma_commute(z2, p);
        }
        assert(power(z, 2 * j + 1) == pz) by {
            assert(2 * j + 1 == 2 * l + 3);
            assert(power(z, 2 * l + 3) == power(z, 2 * l + 2) * z);
            assert(power(z, 2 * l + 2) == p * z);
            lemma_associate(p, z, z);
        }
        // Below.
        lemma_order(1_000_000_000_000_000_000real * z2 - 1real, zr, o);
        let oz = o * z2;
        assert(o * (1_000_000_000_000_000_000real * z2 - 1real) == 1_000_000_000_000_000_000real
            * oz - o) by {
            lemma_distribute(o, 1_000_000_000_000_000_000real * z2, -1real);
            lemma_commute(o, 1_000_000_000_000_000_000real * z2);
            lemma_associate(1_000_000_000_000_000_000real, z2, o);
            lemma_commute(z2, o);
        }
        lemma_order(1_000_000_000_000_000_000real * p - 2real, o, z2);
        assert((1_000_000_000_000_000_000real * p - 2real) * z2 == 1_000_000_000_000_000_000real
            * pz - 2real * z2) by {
            lemma_distribute(z2, 1_000_000_000_000_000_000real * p, -2real);
            lemma_commute(z2, 1_000_000_000_000_000_000real * p);
            lemma_associate(1_000_000_000_000_000_000real, p, z2);
        }
        assert(z2 <= 1real / 9real) by {
            lemma_order(z, 1real / 3real, z);
            lemma_order(z, 1real / 3real, 1real / 3real);
            assert((1real / 3real) * (1real / 3real) == 1real / 9real) by (nonlinear_arith);
        }
        assert(p <= 1real / 3real) by {
            if l > 0 {
                lemma_power_bound(z, 2 * l);
                assert(p == power(z, 2 * l) * z);
                lemma_order(power(z, 2 * l), 1real, z);
            }
        }
        assert(next == trunc_div(op * zz, w as int));
    }
}

proof fn lemma_scale(x: real)
    ensures
        x * inverse(WAD as nat) == x / 1_000_000_000_000_000_000real,
{
    lemma_inverse(WAD as nat);
    let i = inverse(WAD as nat);
    lemma_associate(x, i, 1_000_000_000_000_000_000real);
    assert(i * 1_000_000_000_000_000_000real == 1real);
    assert((x * i) * 1_000_000_000_000_000_000real == x * 1real);
}

/// The fixed-point sum falls short of the series by at most two units a term.
proof fn lemma_atanh_sum_near(zi: int, j: nat)
    requires
        0 <= zi,
        unscaled(zi) <= 1real / 3real,
    ensures
        (atanh_sum(zi, j) as real) <= 1_000_000_000_000_000_000real * atanh_series(
            unscaled(zi),
            j,
        ),
        (atanh_sum(zi, j) as real) >= 1_000_000_000_000_000_000real * atanh_series(
            unscaled(zi),
            j,
        ) - 2real * (j as real),
    decreases j,
{
    if j > 0 {
        let z = unscaled(zi);
        let l = (j - 1) as nat;
        lemma_atanh_sum_near(zi, l);
        lemma_odd_power_near(zi, j);
        let n = 2 * j + 1;
        let i = inverse(n);
        let op = odd_power(zi, j);
        let p = power(z, n);
        lemma_inverse(n);
        lemma_rounded(op, n);
        let o = op as real;
        lemma_order(o, 1_000_000_000_000_000_000real * p, i);
        lemma_associate(1_000_000_000_000_000_000real, p, i);
        lemma_order(1_000_000_000_000_000_000real * p - 2real, o, i);
        assert((1_000_000_000_000_000_000real * p - 2real) * i == (1_000_000_000_000_000_000real
            * p) * i - 2real * i) by {
            lemma_distribute(i, 1_000_000_000_000_000_000real * p, -2real);
            lemma_commute(i, 1_000_000_000_000_000_000real * p);
        }
        assert(atanh_sum(zi, j) == atanh_sum(zi, l) + trunc_div(op, n as int));
    }
}

/// Neither a term nor a partial sum changes much faster than its argument.
proof fn lemma_exp_steepness(x: real, y: real, e: real, n: nat) -> (v: real)
    requires
        n >= 1,
        within(x, 3real / 4real),
        within(y, 3real / 4real),
        within(y - x, e),
    ensures
        0real <= v,
        n >= 2 ==> within(exp_term(x, n), 3real * v / 4real),
        within(exp_term(y, n) - exp_term(x, n), v * e),
        n == 1 ==> v == 1real,
        n >= 2 ==> within(exp_series(y, n) - exp_series(x, n), (5real / 2real - v) * e),
        n == 1 ==> within(exp_series(y, n) - exp_series(x, n), e),
        n >= 2 ==> v <= 3real / 4real,
    decreases n,
{
    lemma_first_term(x);
    lemma_first_term(y);
    if n == 1 {
        reveal_with_fuel(exp_series, 2);
        1real
    } else {
        let m = (n - 1) as nat;
        let u = lemma_exp_steepness(x, y, e, m);
        let v = if n == 2 {
            3real / 4real
        } else {
            u / 2real
        };
        let a = exp_term(x, m);
        let b = exp_term(y, m);
        let d = y - x;
        let k = inverse(n);
        lemma_inverse(n);
        // b * y - a * x == (b - a) * y + a * d
        let f = b * y - a * x;
        assert(f == (b - a) * y + a * d) by {
            lemma_distribute(y, b, -a);
            lemma_negate(y, a);
            lemma_commute(y, a);
            lemma_commute(y, b);
            lemma_distribute(a, y, -x);
            lemma_negate(a, x);
        }
        let ue = u * e;
        lemma_product_within(b - a, ue, y, 3real / 4real);
        lemma_commute(ue, 3real / 4real);
        lemma_product_within(a, 3real / 4real, d, e);
        lemma_nonnegative_product(u, e);
        let change = exp_term(y, n) - exp_term(x, n);
        assert(change == k * f) by {
            lemma_distribute(k, b * y, -(a * x));
            lemma_negate(k, a * x);
            lemma_commute(k, a * x);
            lemma_commute(k, b * y);
        }
        let ve = v * e;
        if n == 2 {
            assert(ue == e);
            assert(within(a, 3real / 4real));
            lemma_product_within(k, 1real / 2real, f, 3real * e / 2real);
            lemma_product_within(a, 3real / 4real, x, 3real / 4real);
            lemma_product_within(a * x, 9real / 16real, k, 1real / 2real);
            assert((3real / 4real) * (3real / 4real) == 9real / 16real) by (nonlinear_arith);
            reveal_with_fuel(exp_series, 3);
        } else {
            lemma_product_within(a, 3real * u / 4real, d, e);
            assert((3real * u / 4real) * e == 3real * ue / 4real) by {
                lemma_associate(3real, u, e);
                lemma_distribute(e, 3real * u / 4real, 3real * u / 4real);
                lemma_distribute(e, 3real * u / 2real, 3real * u / 2real);
                lemma_commute(e, 3real * u / 4real);
                lemma_commute(e, 3real * u);
            }
            assert(k <= 1real / 3real) by {
                lemma_quotient_within(1real, n as real, 3real, 1real / 3real);
            }
            lemma_product_within(k, 1real / 3real, f, 3real * ue / 2real);
            assert(ve == ue / 2real) by {
                lemma_distribute(e, v, v);
                lemma_commute(e, v);
                lemma_commute(e, u);
            }
            lemma_product_within(a, 3real * u / 4real, x, 3real / 4real);
            lemma_product_within(a * x, 9real * u / 16real, k, 1real / 3real);
            lemma_commute(3real * u / 4real, 3real / 4real);
            lemma_commute(9real * u / 16real, 1real / 3real);
        }
        assert((5real / 2real - v) * e == 5real * e / 2real - ve) by {
            lemma_distribute(e, 5real / 2real, -v);
            lemma_negate(e, v);
            lemma_commute(e, v);
            lemma_commute(e, 5real / 2real);
        }
        if n > 2 {
            assert((5real / 2real - u) * e == 5real * e / 2real - ue) by {
                lemma_distribute(e, 5real / 2real, -u);
                lemma_negate(e, u);
                lemma_commute(e, u);
                lemma_commute(e, 5real / 2real);
            }
        }
        v
    }
}

/// The fixed-point terms are at most two units off.
proof fn lemma_taylor_term_near(r: int, i: nat)
    requires
        within(unscaled(r), 7real / 20real),
    ensures
        i == 0 ==> (taylor_term(r, i) as real) == 1_000_000_000_000_000_000real * exp_term(
            unscaled(r),
            i,
        ),
        within(
            (taylor_term(r, i) as real) - 1_000_000_000_000_000_000real * exp_term(
                unscaled(r),
                i,
            ),
            2real,
        ),
    decreases i,
{
    let rho = unscaled(r);
    if i > 0 {
        let h = (i - 1) as nat;
        lemma_taylor_term_near(r, h);
        let t = taylor_term(r, h);
        let e = exp_term(rho, h);
        let p = t * r;
        let first = trunc_div(p, WAD as int);
        lemma_rounded(p, WAD as nat);
        lemma_cast_product(t, r);
        let tr = t as real;
        lemma_scale(tr * (r as real));
        // first is at most one off t * rho.
        assert(tr * (r as real) == 1_000_000_000_000_000_000real * (tr * rho)) by {
            lemma_commute(tr, 1_000_000_000_000_000_000real * rho);
            lemma_associate(1_000_000_000_000_000_000real, rho, tr);
            lemma_commute(rho, tr);
        }
        let fr = first as real;
        assert(within(fr - tr * rho, 1real));
        let exact = 1_000_000_000_000_000_000real * (e * rho);
        let off = tr - 1_000_000_000_000_000_000real * e;
        let slack = if i == 1 {
            0real
        } else {
            2real
        };
        lemma_product_within(off, slack, rho, 7real / 20real);
        assert(off * rho == tr * rho - exact) by {
            lemma_distribute(rho, tr, -(1_000_000_000_000_000_000real * e));
            lemma_negate(rho, 1_000_000_000_000_000_000real * e);
            lemma_commute(rho, tr);
            lemma_commute(rho, 1_000_000_000_000_000_000real * e);
            lemma_associate(1_000_000_000_000_000_000real, e, rho);
        }
        lemma_rounded(first, i);
        lemma_inverse(i);
        let k = inverse(i);
        let off1 = fr - exact;
        assert((e * rho) * k == exp_term(rho, i));
        assert(fr * k - exact * k == off1 * k) by {
            lemma_distribute(k, fr, -exact);
            lemma_negate(k, exact);
            lemma_commute(k, fr);
            lemma_commute(k, exact);
        }
        assert(exact * k == 1_000_000_000_000_000_000real * exp_term(rho, i)) by {
            lemma_associate(1_000_000_000_000_000_000real, e * rho, k);
        }
        if i == 1 {
            lemma_product_within(off1, 1real, k, 1real);
        } else {
            lemma_product_within(off1, 17real / 10real, k, 1real / 2real);
        }
    }
}

/// The fixed-point sum is at most two units a term off the series.
pub proof fn lemma_taylor_sum_near(r: int, i: nat)
    requires
        within(unscaled(r), 7real / 20real),
    ensures
        within(
            (taylor_sum(r, i) as real) - 1_000_000_000_000_000_000real * exp_series(
                unscaled(r),
                i,
            ),
            2real * (i as real),
        ),
    decreases i,
{
    if i > 0 {
        lemma_taylor_sum_near(r, (i - 1) as nat);
        lemma_taylor_term_near(r, i);
    }
}

/// `y` is `m` where `y * (1 - z)` is `1 + z`, up to the rounding of `z`.
proof fn lemma_from_argument(m: int, y: real)
    requires
        WAD <= m < 2 * WAD,
        ({
            let z = unscaled(atanh_argument(m));
            within(y * (1real - z) - (1real + z), 4real / 1_000_000_000_000_000_000real)
        }),
    ensures
        within(1_000_000_000_000_000_000real * y - (m as real), 11real),
{
    let zi = atanh_argument(m);
    lemma_atanh_argument_bound(m);
    let z = unscaled(zi);
    let mu = m as real;
    let u = 1real - z;
    let n = (m - WAD) * WAD;
    let d = m + WAD;
    let rest = n - zi * d;
    assert(0 <= rest < d) by (nonlinear_arith)
        requires
            zi == n / d,
            rest == n - zi * d,
            d > 0,
    ;
    lemma_cast_product(zi, d);
    let dr = d as real;
    let zr = zi as real;
    assert(zr * dr == 1_000_000_000_000_000_000real * (z * dr)) by {
        lemma_associate(1_000_000_000_000_000_000real, z, dr);
    }
    assert(n as real == 1_000_000_000_000_000_000real * (mu - 1_000_000_000_000_000_000real));
    let zd = z * dr;
    assert(0real <= mu - 1_000_000_000_000_000_000real - zd <= 3real);
    assert(zd == z * mu + 1_000_000_000_000_000_000real * z) by {
        assert(dr == mu + 1_000_000_000_000_000_000real);
        lemma_distribute(z, mu, 1_000_000_000_000_000_000real);
    }
    assert(mu * u == mu - z * mu) by {
        lemma_distribute(mu, 1real, -z);
        lemma_negate(mu, z);
        lemma_commute(mu, z);
    }
    let off = 1_000_000_000_000_000_000real * y - mu;
    assert(off * u == 1_000_000_000_000_000_000real * (y * u) - mu * u) by {
        lemma_distribute(u, 1_000_000_000_000_000_000real * y, -mu);
        lemma_negate(u, mu);
        lemma_commute(u, mu);
        lemma_commute(u, 1_000_000_000_000_000_000real * y);
        lemma_associate(1_000_000_000_000_000_000real, y, u);
    }
    if off > 11real {
        lemma_order(2real / 3real, u, off);
        lemma_commute(2real / 3real, off);
    } else if off < -11real {
        lemma_order(2real / 3real, u, -off);
        lemma_commute(2real / 3real, -off);
        lemma_negate(off, u);
        lemma_commute(u, -off);
    }
}

/// The exponential's series, at the logarithm of `m` in `[1, 2)` less `d`, gives
/// back `m`, and less `ln 2` as well it gives back half of it: up to rounding,
/// and up to what `d` makes of it.
proof fn lemma_series_undone(m: int, r: int, d: int, halved: bool)
    requires
        WAD <= m < 2 * WAD,
        0 <= d <= 10_000_000_000_000,
        r == ln_mantissa(m) - d - (if halved {
            LN2_WAD as int
        } else {
            0
        }),
        -HALF_LN2_WAD <= r <= HALF_LN2_WAD,
    ensures
        ({
            let back = if halved {
                2 * taylor_sum(r, 20)
            } else {
                taylor_sum(r, 20)
            };
            -(600 + 5 * d) <= back - m <= 600 + 5 * d
        }),
{
    let zi = atanh_argument(m);
    lemma_atanh_argument_bound(m);
    let z = unscaled(zi);
    lemma_atanh_sum_near(zi, 24);
    lemma_atanh_limit(z);
    let x0 = if halved {
        -ln2()
    } else {
        0real
    };
    lemma_quotient(693147180559945309real, 1_000_000_000_000_000_000real);
    let x = argument(x0, z);
    let rho = unscaled(r);
    let dr = d as real;
    let e = (96real + dr) / 1_000_000_000_000_000_000real;
    assert(r as real == 2real * (atanh_sum(zi, 24) as real) - dr + 1_000_000_000_000_000_000real
        * x0);
    assert(within(rho - x, e));
    let v = lemma_exp_steepness(x, rho, e, 20);
    lemma_order(5real / 2real - v, 5real / 2real, e);
    lemma_commute(5real / 2real, e);
    lemma_taylor_sum_near(r, 20);
    lemma_exp_of_atanh(z);
    let s = exp_series(x, 20);
    let u = 1real - z;
    let back = if halved {
        2real * s
    } else {
        s
    };
    assert(within(back * u - (1real + z), 4real / 1_000_000_000_000_000_000real)) by {
        lemma_associate(2real, s, u);
        assert(1real * (s * u) == s * u);
    }
    lemma_from_argument(m, back);
}

/// A logarithm as a multiple of `ln 2` and the logarithm of a mantissa.
proof fn lemma_ln_parts(v: int) -> (parts: (int, int))
    requires
        v > 0,
    ensures
        ({
            let (k, m) = parts;
            &&& WAD <= m < 2 * WAD
            &&& ln_wad(v) == k * LN2_WAD + ln_mantissa(m)
            &&& v >= WAD ==> k >= 0
            &&& v < 2 * WAD ==> k <= 0
            &&& k >= 0 ==> m * pow2(k as nat) <= v < (m + 1) * pow2(k as nat)
            &&& k < 0 ==> m == v * pow2((-k) as nat)
        }),
    decreases ln_measure(v),
{
    lemma2_to64();
    if v >= 2 * WAD {
        let (k, m) = lemma_ln_parts(v / 2);
        lemma_pow2_unfold((k + 1) as nat);
        let p = pow2(k as nat) as int;
        let h = v / 2;
        assert(m * (2 * p) <= v && v < (m + 1) * (2 * p)) by (nonlinear_arith)
            requires
                m * p <= h,
                h < (m + 1) * p,
                2 * h <= v <= 2 * h + 1,
        ;
        assert(ln_wad(v) == ln_wad(h) + LN2_WAD);
        (k + 1, m)
    } else if v < WAD {
        let (k, m) = lemma_ln_parts(2 * v);
        lemma_pow2_unfold((1 - k) as nat);
        if k < 0 {
            let p = pow2((-k) as nat) as int;
            assert((2 * v) * p == v * (2 * p)) by (nonlinear_arith);
            assert(m == v * pow2((1 - k) as nat));
        } else {
            let p = pow2(0) as int;
            assert(m * p == m && (m + 1) * p == m + 1) by (nonlinear_arith)
                requires
                    p == 1,
            ;
            let q = pow2(1) as int;
            assert(v * q == 2 * v) by (nonlinear_arith)
                requires
                    q == 2,
            ;
            assert(m == v * pow2((1 - k) as nat));
        }
        assert(ln_wad(v) == ln_wad(2 * v) - LN2_WAD);
        (k - 1, m)
    } else {
        let p = pow2(0) as int;
        assert(v * p == v && (v + 1) * p == v + 1) by (nonlinear_arith)
            requires
                p == 1,
        ;
        (0, v)
    }
}

proof fn lemma_nearest(k: int, q: int)
    requires
        -HALF_LN2_WAD <= q <= LN2_WAD,
    ensures
        q <= HALF_LN2_WAD ==> nearest_ln2_multiple(k * LN2_WAD + q) == k,
        q > HALF_LN2_WAD ==> nearest_ln2_multiple(k * LN2_WAD + q) == k + 1,
{
}

/// Scaled by `2^k`, what is close to `m` is as close to `v`.
proof fn lemma_scaled_back(v: int, m: int, p: int, back: int, e: int)
    requires
        WAD <= m < 2 * WAD,
        p > 0,
        m * p <= v < (m + 1) * p,
        0 <= e,
        m - e <= back <= m + e,
    ensures
        -(v * (e + 1) / (WAD as int)) <= back * p - v <= v * (e + 1) / (WAD as int),
{
    let w = WAD as int;
    let b = (e + 1) * p;
    assert(-b <= back * p - v <= b) by (nonlinear_arith)
        requires
            b == (e + 1) * p,
            m * p <= v,
            v < (m + 1) * p,
            m - e <= back <= m + e,
            p > 0,
    {
        assert(back * p <= (m + e) * p);
        assert(back * p >= (m - e) * p);
    }
    assert(v >= w * p) by (nonlinear_arith)
        requires
            m * p <= v,
            m >= w,
            p > 0,
    ;
    assert(v * (e + 1) >= b * w) by (nonlinear_arith)
        requires
            v >= w * p,
            b == (e + 1) * p,
            e >= 0,
    ;
    let n = v * (e + 1);
    assert(n / w >= b) by (nonlinear_arith)
        requires
            n >= b * w,
            w > 0,
    ;
}

/// Divided by `2^k`, what is close to `m` is as close to `v`.
proof fn lemma_divided_back(v: int, m: int, p: int, back: int, e: int)
    requires
        WAD <= m < 2 * WAD,
        p > 0,
        v > 0,
        m == v * p,
        0 <= e,
        m - e <= back <= m + e,
    ensures
        -(v * (e + 1) / (WAD as int) + 2) <= back / p - v <= v * (e + 1) / (WAD as int) + 2,
{
    let w = WAD as int;
    let q = back / p;
    assert(q * p <= back < q * p + p) by (nonlinear_arith)
        requires
            q == back / p,
            p > 0,
    ;
    let n = v * (e + 1);
    let b = n / w;
    assert(n < (b + 1) * w) by (nonlinear_arith)
        requires
            b == n / w,
            w > 0,
    ;
    // (b + 1) * p is more than e.
    assert((b + 1) * p > e) by (nonlinear_arith)
        requires
            n < (b + 1) * w,
            n == v * (e + 1),
            m == v * p,
            m >= w,
            w > 0,
            p > 0,
            e >= 0,
    {
        assert(n * p < ((b + 1) * w) * p);
        assert(n * p == m * (e + 1));
        assert(m * (e + 1) >= w * (e + 1));
        assert(((b + 1) * p) * w > (e + 1) * w);
    }
    assert(q - v <= b + 2) by (nonlinear_arith)
        requires
            q * p <= v * p + e,
            (b + 1) * p > e,
            p > 0,
    ;
    assert(q - v >= -(b + 2)) by (nonlinear_arith)
        requires
            v * p - e < q * p + p,
            (b + 1) * p > e,
            p > 0,
    ;
}

/// [`exp_wad`], whether or not it is representable.
pub open spec fn unlimited_exp(value: int) -> int {
    let k = nearest_ln2_multiple(value);
    let series = taylor_sum(value - k * LN2_WAD, 20);
    if k < 0 {
        series / (pow2((-k) as nat) as int)
    } else {
        series * pow2(k as nat)
    }
}

/// The exponential of what lies `d` units below the logarithm of `v` is `v`, up
/// to rounding and to what `d` takes off: `601 + 5 * d` units in the last place
/// of a wad, as a share of `v`, and two units besides.
pub proof fn lemma_exp_near_ln(v: int, d: int)
    requires
        0 < v,
        0 <= d <= 10_000_000_000_000,
    ensures
        v <= 100_000_000_000_000_000_000_000_000_000_000_000_000 ==> exp_wad(ln_wad(v) - d) is Some,
        exp_wad(ln_wad(v) - d) matches Some(e) ==> e == unlimited_exp(ln_wad(v) - d),
        -(v * (601 + 5 * d) / (WAD as int) + 2) <= unlimited_exp(ln_wad(v) - d) - v <= v * (601 + 5
            * d) / (WAD as int) + 2,
{
    let (k, m) = lemma_ln_parts(v);
    lemma_ln_mantissa(m, m);
    let q = ln_mantissa(m) - d;
    let y = ln_wad(v) - d;
    lemma_nearest(k, q);
    let halved = q > HALF_LN2_WAD;
    let near = nearest_ln2_multiple(y);
    let r = y - near * LN2_WAD;
    lemma_series_undone(m, r, d, halved);
    let t = taylor_sum(r, 20);
    let back = if halved {
        2 * t
    } else {
        t
    };
    let e = 600 + 5 * d;
    lemma2_to64();
    if k >= 0 {
        let p = pow2(k as nat) as int;
        lemma_pow2_pos(k as nat);
        lemma_scaled_back(v, m, p, back, e);
        lemma_pow2_unfold((k + 1) as nat);
        let n = v * (e + 1);
        assert(n / (WAD as int) <= v) by (nonlinear_arith)
            requires
                n == v * (e + 1),
                e + 1 <= WAD,
                v > 0,
                WAD > 0,
        ;
        assert(n <= v * 100_000_000_000_000) by (nonlinear_arith)
            requires
                n == v * (e + 1),
                e + 1 <= 100_000_000_000_000,
                v > 0,
        ;
        assert(t * (2 * p) == (2 * t) * p) by (nonlinear_arith);
        assert(unlimited_exp(y) == back * p);
    } else {
        let p = pow2((-k) as nat) as int;
        lemma_pow2_pos((-k) as nat);
        lemma_divided_back(v, m, p, back, e);
        if halved {
            let h = pow2((-k - 1) as nat) as int;
            lemma_pow2_unfold((-k) as nat);
            lemma_pow2_pos((-k - 1) as nat);
            assert((2 * t) / (2 * h) == t / h) by (nonlinear_arith)
                requires
                    h > 0,
            ;
            if near == 0 {
                assert(t / h == t && t * h == t) by (nonlinear_arith)
                    requires
                        h == 1,
                ;
            }
        }
    }
}

/// The exponential undoes the logarithm, up to rounding.
pub proof fn lemma_exp_undoes_ln(v: int)
    requires
        1 <= v <= 100_000_000_000_000_000_000_000_000_000_000_000_000,
    ensures
        exp_wad(ln_wad(v)) matches Some(e) && -(v / 1_000_000_000_000_000 + 2) <= e - v <= v
            / 1_000_000_000_000_000 + 2,
{
    lemma_exp_near_ln(v, 0);
    assert(v * (601 + 5 * 0) == 601 * v) by (nonlinear_arith);
    assert((601 * v) / (WAD as int) <= v / 1_000_000_000_000_000);
}

} // verus!
