//! How closely the fixed-point exponential and logarithm follow the real ones.
//!
//! The exponential takes its argument apart as `k * ln 2 + r`, and so does the
//! proof: the series at `r` is summed to its end, and `k` steps of `ln 2` double
//! or halve it, but for the rounding of `ln 2` itself.
use super::accuracy::{
    lemma_exp_near_ln, lemma_exp_of_ln2, lemma_last_term, lemma_taylor_sum_near, ln2,
    unlimited_exp, unscaled,
};
use super::exponential::{exp_wad, nearest_ln2_multiple, taylor_sum, HALF_LN2_WAD};
use super::logarithm::{lemma_ln_wad_range, ln_wad, LN2_WAD};
use super::real_exp::{
    exp_series, exp_term, is_exp, lemma_exp_of_sum, lemma_first_term, lemma_series_within,
    lemma_tail, long_enough, reaches, stays_near,
};
use super::reals::{
    halves, inverse, lemma_associate, lemma_cast_product, lemma_commute, lemma_distribute,
    lemma_halves, lemma_halves_order, lemma_inverse, lemma_negate, lemma_nonnegative_product,
    lemma_order, lemma_power_sum, lemma_product_within, lemma_quotient, power, within,
};
use crate::arith::WAD;
use vstd::arithmetic::power2::{
    lemma2_to64, lemma2_to64_rest, lemma_pow2_adds, lemma_pow2_pos, lemma_pow2_strictly_increases,
    lemma_pow2_unfold, pow2,
};
use vstd::prelude::*;

verus! {

/// The series near zero, to its end.
proof fn lemma_near_zero(x: real, n: nat)
    requires
        within(x, 7real / 20real),
        n >= 20,
    ensures
        13real / 20real <= exp_series(x, n) <= 3real / 2real,
        within(exp_series(x, n) - exp_series(x, 20), 1real / 400_000_000_000_000_000_000real),
{
    let a = if x >= 0real {
        x
    } else {
        -x
    };
    lemma_series_within(x, a, 20, n);
    lemma_tail(a, 1, 20, n);
    lemma_last_term(a);
    lemma_series_within(x, a, 2, n);
    lemma_tail(a, 1, 2, n);
    lemma_first_term(x);
    lemma_first_term(a);
    lemma_inverse(2);
    lemma_negate(x, x);
    lemma_negate(x, -x);
    assert(exp_term(x, 2) == (x * x) * inverse(2));
    assert(exp_term(a, 2) == (a * a) * inverse(2));
    assert(a * a == x * x);
    reveal_with_fuel(exp_series, 3);
    assert(exp_series(x, 2) == 1real + x + exp_term(x, 2));
    lemma_product_within(x, 7real / 20real, x, 7real / 20real);
    assert((7real / 20real) * (7real / 20real) == 49real / 400real) by (nonlinear_arith);
    lemma_product_within(x * x, 49real / 400real, inverse(2), 1real / 2real);
    assert((49real / 400real) * (1real / 2real) == 49real / 800real) by (nonlinear_arith);
}

/// The series at `ln 2`, to its end.
proof fn lemma_base(n: nat)
    requires
        n >= 20,
    ensures
        ({
            let short = 2real - exp_series(ln2(), n);
            832real / 1_000_000_000_000_000_000_000real <= short
                <= 836real / 1_000_000_000_000_000_000_000real
        }),
{
    lemma_exp_of_ln2();
    lemma_tail(ln2(), 1, 20, n);
}

/// `x` and `j` steps of `ln 2`.
spec fn stepped(x: real, j: int) -> real {
    x + 693147180559945309real * (j as real) / 1_000_000_000_000_000_000real
}

/// One step of `ln 2` multiplies the series.
proof fn lemma_step(x: real, j: int, bound: nat, precision: nat, n: nat)
    requires
        within(x, 7real / 20real),
        -bound <= j,
        j < bound,
        bound >= 1,
        n >= long_enough(bound + 1, precision),
    ensures
        within(
            exp_series(stepped(x, j), n) * exp_series(ln2(), n) - exp_series(stepped(x, j + 1), n),
            halves(precision),
        ),
{
    lemma_quotient(693147180559945309real, 1_000_000_000_000_000_000real);
    let y = stepped(x, j);
    assert((j + 1) as real == (j as real) + 1real);
    assert(y + ln2() == stepped(x, j + 1));
    assert(within(y, (bound + 1) as real));
    assert(within(ln2(), (bound + 1) as real));
    lemma_exp_of_sum(y, ln2(), bound + 1, precision, n);
}

/// Steps up multiply by powers.
proof fn lemma_climb(x: real, j: nat, bound: nat, precision: nat, n: nat)
    requires
        within(x, 7real / 20real),
        j <= bound,
        bound >= 1,
        n >= long_enough(bound + 1, precision),
        n >= 20,
    ensures
        within(
            exp_series(stepped(x, j as int), n) - exp_series(x, n) * power(
                exp_series(ln2(), n),
                j,
            ),
            halves(precision) * (power(2real, j) - 1real),
        ),
    decreases j,
{
    let e = exp_series(ln2(), n);
    let s = exp_series(x, n);
    let eta = halves(precision);
    lemma_halves(precision);
    lemma_base(n);
    if j == 0 {
        assert(stepped(x, 0) == x);
        assert(s * 1real == s);
        assert(eta * 0real == 0real);
    } else {
        let l = (j - 1) as nat;
        lemma_climb(x, l, bound, precision, n);
        lemma_step(x, l as int, bound, precision, n);
        lemma_halves(l);
        let p = power(e, l);
        let u = exp_series(stepped(x, l as int), n);
        let off = u - s * p;
        let slack = eta * (power(2real, l) - 1real);
        lemma_nonnegative_product(eta, power(2real, l) - 1real);
        lemma_product_within(off, slack, e, 2real);
        assert(off * e == u * e - s * power(e, j)) by {
            lemma_distribute(e, u, -(s * p));
            lemma_negate(e, s * p);
            lemma_commute(e, u);
            lemma_commute(e, s * p);
            lemma_associate(s, p, e);
            lemma_commute(e, off);
        }
        assert(eta * (power(2real, j) - 1real) == slack * 2real + eta) by {
            lemma_distribute(eta, power(2real, l), -1real);
            lemma_distribute(eta, 2real * power(2real, l), -1real);
            lemma_distribute(eta, power(2real, l), power(2real, l));
        }
    }
}

/// Steps down divide by powers.
proof fn lemma_descend(x: real, j: nat, f: real, bound: nat, precision: nat, n: nat)
    requires
        within(x, 7real / 20real),
        j <= bound,
        bound >= 1,
        n >= long_enough(bound + 1, precision),
        n >= 20,
        f * exp_series(ln2(), n) == 1real,
    ensures
        within(
            exp_series(stepped(x, -j), n) - exp_series(x, n) * power(f, j),
            2real * halves(precision),
        ),
    decreases j,
{
    let e = exp_series(ln2(), n);
    let s = exp_series(x, n);
    let eta = halves(precision);
    lemma_halves(precision);
    lemma_base(n);
    if j == 0 {
        assert(stepped(x, 0) == x);
        assert(s * 1real == s);
    } else {
        let l = (j - 1) as nat;
        lemma_descend(x, l, f, bound, precision, n);
        lemma_step(x, -j, bound, precision, n);
        assert(-j + 1 == -l);
        let p = power(f, l);
        let u = exp_series(stepped(x, -j), n);
        let off = u - s * power(f, j);
        assert(off * e == u * e - s * p) by {
            lemma_associate(p, f, e);
            assert(p * (f * e) == p * 1real);
            lemma_associate(s, p * f, e);
            lemma_distribute(e, u, -(s * (p * f)));
            lemma_negate(e, s * (p * f));
            lemma_commute(e, u);
            lemma_commute(e, s * (p * f));
            lemma_commute(e, off);
        }
        assert(within(off * e, 3real * eta));
        if off > 2real * eta {
            lemma_order(3real / 2real, e, off);
        } else if off < -2real * eta {
            lemma_order(3real / 2real, e, -off);
            lemma_negate(off, e);
        }
    }
}

/// Powers of what is a little less than two.
proof fn lemma_climbed(e: real, j: nat)
    requires
        0real <= 2real - e <= 836real / 1_000_000_000_000_000_000_000real,
        j <= 70,
    ensures
        power(e, j) <= power(2real, j),
        power(e, j) >= power(2real, j) - (418real * (j as real)
            / 1_000_000_000_000_000_000_000real) * power(2real, j),
    decreases j,
{
    if j == 0 {
        assert(0real * 1real == 0real);
    } else {
        let l = (j - 1) as nat;
        lemma_climbed(e, l);
        lemma_halves(l);
        let p = power(e, l);
        let q = power(2real, l);
        let c = 418real * (l as real) / 1_000_000_000_000_000_000_000real;
        let short = 2real - e;
        assert(0real <= c <= 1real);
        assert(p >= 0real) by {
            lemma_order(c, 1real, q);
        }
        assert(p * e == 2real * p - p * short) by {
            lemma_distribute(p, 2real, -short);
            lemma_negate(p, short);
        }
        lemma_nonnegative_product(p, short);
        lemma_product_within(p, q, short, 836real / 1_000_000_000_000_000_000_000real);
        let d = 418real * (j as real) / 1_000_000_000_000_000_000_000real;
        assert((j as real) == (l as real) + 1real);
        assert(d * (2real * q) == 2real * (c * q) + 836real * q
            / 1_000_000_000_000_000_000_000real) by {
            lemma_commute(d, 2real * q);
            lemma_distribute(d, q, q);
            lemma_distribute(q, c, 418real / 1_000_000_000_000_000_000_000real);
            lemma_commute(q, c);
            lemma_commute(q, d);
        }
    }
}

/// Powers of what is a little more than a half.
proof fn lemma_descended(f: real, j: nat)
    requires
        0real <= f - 1real / 2real <= 210real / 1_000_000_000_000_000_000_000real,
    ensures
        halves(j) <= power(f, j) <= 1real,
        j <= 61 ==> power(f, j) <= halves(j) + (421real * (j as real)
            / 1_000_000_000_000_000_000_000real) * halves(j),
    decreases j,
{
    if j == 0 {
        assert(0real * 1real == 0real);
    } else {
        let l = (j - 1) as nat;
        lemma_descended(f, l);
        lemma_halves(l);
        let p = power(f, l);
        let q = halves(l);
        let c = 421real * (l as real) / 1_000_000_000_000_000_000_000real;
        let over = f - 1real / 2real;
        assert(p * f == p / 2real + p * over) by {
            lemma_distribute(p, 1real / 2real, over);
        }
        lemma_nonnegative_product(p, over);
        lemma_product_within(p, p, over, 210real / 1_000_000_000_000_000_000_000real);
        if j <= 61 {
            let d = 421real * (j as real) / 1_000_000_000_000_000_000_000real;
            assert((j as real) == (l as real) + 1real);
            lemma_order(c, 1real / 1_000_000_000_000_000real, q);
            assert(d * (q / 2real) == (c * q) / 2real + 421real * q
                / 2_000_000_000_000_000_000_000real) by {
                lemma_distribute(d, q / 2real, q / 2real);
                lemma_distribute(q, c, 421real / 1_000_000_000_000_000_000_000real);
                lemma_commute(q, c);
                lemma_commute(q, d);
            }
        }
    }
}

proof fn lemma_two(n: nat)
    ensures
        power(2real, n) == pow2(n) as real,
    decreases n,
{
    lemma2_to64();
    if n > 0 {
        lemma_two((n - 1) as nat);
        lemma_pow2_unfold(n);
    }
}

/// The precision that the proof works to.
proof fn lemma_precision()
    ensures
        0real < halves(130) <= 1real / 100_000_000_000_000_000_000_000_000_000_000_000_000real,
{
    lemma2_to64_rest();
    lemma_pow2_adds(64, 64);
    lemma_two(128);
    lemma_halves(128);
    lemma_halves(129);
    lemma_halves(130);
    assert(pow2(128) == 0x1_0000_0000_0000_0000 * 0x1_0000_0000_0000_0000);
    let h = halves(128);
    let p = power(2real, 128);
    assert(p >= 100_000_000_000_000_000_000_000_000_000_000_000_000real);
    lemma_order(100_000_000_000_000_000_000_000_000_000_000_000_000real, p, h);
}

/// `fixed`, in fixed point, is `exact` up to one part in `10^16` and one unit.
pub open spec fn follows(fixed: int, exact: real) -> bool {
    let scaled = 1_000_000_000_000_000_000real * exact;
    within((fixed as real) - scaled, scaled / 10_000_000_000_000_000real + 1real)
}

/// The series at the remainder, summed in fixed point, against its end.
proof fn lemma_sum_near(r: int, n: nat)
    requires
        -HALF_LN2_WAD <= r <= HALF_LN2_WAD,
        n >= 20,
    ensures
        ({
            let s = exp_series(unscaled(r), n);
            &&& 13real / 20real <= s <= 3real / 2real
            &&& within((taylor_sum(r, 20) as real) - 1_000_000_000_000_000_000real * s, 41real)
        }),
{
    lemma_near_zero(unscaled(r), n);
    lemma_taylor_sum_near(r, 20);
}

/// Above, the series is doubled as often as `ln 2` was taken off.
proof fn lemma_doubled(r: int, k: nat, n: nat)
    requires
        -HALF_LN2_WAD <= r <= HALF_LN2_WAD,
        k <= 70,
        n >= long_enough(k + 2, 130),
    ensures
        follows(taylor_sum(r, 20) * pow2(k), exp_series(stepped(unscaled(r), k as int), n)),
{
    let x = unscaled(r);
    let t = taylor_sum(r, 20);
    let tr = t as real;
    let s = exp_series(x, n);
    let e = exp_series(ln2(), n);
    let eta = halves(130);
    let p = power(2real, k);
    lemma_sum_near(r, n);
    lemma_two(k);
    lemma_halves(k);
    lemma_precision();
    lemma_base(n);
    lemma_climb(x, k, k + 1, 130, n);
    lemma_climbed(e, k);
    let u = exp_series(stepped(x, k as int), n);
    let c = 418real * (k as real) / 1_000_000_000_000_000_000_000real;
    let most = 29_260real / 1_000_000_000_000_000_000_000real;
    lemma_order(c, most, p);
    let ek = power(e, k);
    // The ideal, and what the powers make of it.
    let q = s * p;
    lemma_order(ek, p, s);
    lemma_order(p - most * p, ek, s);
    assert(s * (p - most * p) == q - most * q) by {
        lemma_distribute(s, p, -(most * p));
        lemma_negate(s, most * p);
        lemma_associate(s, most, p);
        lemma_commute(s, most);
        lemma_associate(most, s, p);
    }
    lemma_order(13real / 20real, s, p);
    lemma_order(
        eta,
        1real / 100_000_000_000_000_000_000_000_000_000_000_000_000real,
        p - 1real,
    );
    // The sum, doubled.
    let d = tr - 1_000_000_000_000_000_000real * s;
    lemma_product_within(d, 41real, p, p);
    lemma_cast_product(t, pow2(k) as int);
    assert(tr * p == d * p + 1_000_000_000_000_000_000real * q) by {
        lemma_distribute(p, d, 1_000_000_000_000_000_000real * s);
        lemma_commute(p, d);
        lemma_commute(p, tr);
        lemma_commute(p, 1_000_000_000_000_000_000real * s);
        lemma_associate(1_000_000_000_000_000_000real, s, p);
    }
}

/// Below, it is halved as often, and rounded down.
proof fn lemma_halved(r: int, j: nat, n: nat)
    requires
        -HALF_LN2_WAD <= r <= HALF_LN2_WAD,
        j >= 1,
        n >= long_enough(j + 2, 130),
    ensures
        follows(taylor_sum(r, 20) / (pow2(j) as int), exp_series(stepped(unscaled(r), -j), n)),
{
    let x = unscaled(r);
    let t = taylor_sum(r, 20);
    let tr = t as real;
    let s = exp_series(x, n);
    let e = exp_series(ln2(), n);
    let eta = halves(130);
    let h = halves(j);
    lemma_sum_near(r, n);
    lemma_two(j);
    lemma_halves(j);
    lemma_precision();
    lemma_base(n);
    lemma_pow2_pos(j);
    let f = 1real / e;
    lemma_quotient(1real, e);
    assert(0real <= f - 1real / 2real <= 210real / 1_000_000_000_000_000_000_000real) by {
        if f < 1real / 2real {
            if f < 0real {
                lemma_order(0real, e, -f);
                lemma_negate(f, e);
                assert((-f) * 0real == 0real);
            } else {
                lemma_order(e, 2real, f);
            }
        }
        let g = 1real / 2real + 210real / 1_000_000_000_000_000_000_000real;
        if f > g {
            lemma_order(g, f, e);
            lemma_distribute(e, 1real / 2real, 210real / 1_000_000_000_000_000_000_000real);
            assert(g * e >= 1real);
            assert((f - g) * e > 0real) by (nonlinear_arith)
                requires
                    f - g > 0real,
                    e > 0real,
            ;
            lemma_distribute(e, f, -g);
            lemma_negate(e, g);
            lemma_commute(e, g);
            lemma_commute(e, f);
        }
    }
    lemma_descend(x, j, f, j + 1, 130, n);
    lemma_descended(f, j);
    let u = exp_series(stepped(x, -j), n);
    let fj = power(f, j);
    let p = pow2(j) as int;
    let quotient = t / p;
    if j <= 61 {
        let c = 421real * (j as real) / 1_000_000_000_000_000_000_000real;
        let most = 25_681real / 1_000_000_000_000_000_000_000real;
        lemma_order(c, most, h);
        let q = s * h;
        lemma_order(h, fj, s);
        lemma_order(fj, h + most * h, s);
        assert(s * (h + most * h) == q + most * q) by {
            lemma_distribute(s, h, most * h);
            lemma_associate(s, most, h);
            lemma_commute(s, most);
            lemma_associate(most, s, h);
        }
        lemma_order(13real / 20real, s, h);
        assert(h >= 1real / 3_000_000_000_000_000_000real) by {
            lemma_halves_order(j, 61);
            lemma2_to64_rest();
            lemma_two(61);
            lemma_halves(61);
            let h61 = halves(61);
            let p61 = power(2real, 61);
            assert(p61 <= 3_000_000_000_000_000_000real);
            lemma_order(p61, 3_000_000_000_000_000_000real, h61);
        }
        // The sum, halved.
        let d = tr - 1_000_000_000_000_000_000real * s;
        lemma_product_within(d, 41real, h, h);
        assert(tr * h == d * h + 1_000_000_000_000_000_000real * q) by {
            lemma_distribute(h, d, 1_000_000_000_000_000_000real * s);
            lemma_commute(h, d);
            lemma_commute(h, tr);
            lemma_commute(h, 1_000_000_000_000_000_000real * s);
            lemma_associate(1_000_000_000_000_000_000real, s, h);
        }
        // Rounding down takes less than a unit.
        assert(quotient * p <= t < quotient * p + p) by (nonlinear_arith)
            requires
                quotient == t / p,
                p > 0,
        ;
        let qr = quotient as real;
        lemma_cast_product(quotient, p);
        let pr = p as real;
        lemma_associate(qr, pr, h);
        assert(qr * (pr * h) == qr * 1real);
        lemma_order(qr * pr, tr, h);
        lemma_order(tr, qr * pr + pr, h);
        lemma_distribute(h, qr * pr, pr);
        lemma_commute(h, qr * pr);
        lemma_commute(h, pr);
        lemma_commute(h, qr * pr + pr);
    } else {
        lemma2_to64_rest();
        if j > 62 {
            lemma_pow2_strictly_increases(62, j);
        }
        assert(0 <= t < p);
        assert(quotient == 0) by (nonlinear_arith)
            requires
                quotient == t / p,
                0 <= t < p,
        ;
        // The rest is below a unit.
        lemma_descended(f, 61);
        lemma_descended(f, (j - 61) as nat);
        lemma_power_sum(f, 61, (j - 61) as nat);
        let a = power(f, 61);
        lemma_halves(61);
        lemma_halves((j - 61) as nat);
        lemma_order(power(f, (j - 61) as nat), 1real, a);
        lemma_two(61);
        let h61 = halves(61);
        lemma_order(2_000_000_000_000_000_000real, power(2real, 61), h61);
        let c = 421real * (61 as real) / 1_000_000_000_000_000_000_000real;
        lemma_order(c, 1real / 1_000real, h61);
        lemma_nonnegative_product(s, fj);
        lemma_order(s, 3real / 2real, fj);
    }
}

proof fn lemma_unlimited_exp_follows_series(value: int) -> (length: nat)
    requires
        nearest_ln2_multiple(value) <= 70,
    ensures
        forall|n: nat|
            n >= length ==> follows(
                unlimited_exp(value),
                #[trigger] exp_series(unscaled(value), n),
            ),
{
    let k = nearest_ln2_multiple(value);
    let r = value - k * LN2_WAD;
    assert(-HALF_LN2_WAD <= r <= HALF_LN2_WAD);
    let steps = (if k < 0 {
        -k
    } else {
        k
    }) as nat;
    let length = long_enough(steps + 2, 130);
    assert(stepped(unscaled(r), k) == unscaled(value)) by {
        assert(value as real == (r as real) + 693147180559945309real * (k as real));
    }
    assert forall|n: nat| n >= length implies follows(
        unlimited_exp(value),
        #[trigger] exp_series(unscaled(value), n),
    ) by {
        if k < 0 {
            lemma_halved(r, steps, n);
        } else {
            lemma_doubled(r, steps, n);
        }
    }
    length
}

/// Only arguments below some `47` have a representable exponential.
proof fn lemma_representable(value: int)
    requires
        exp_wad(value) is Some,
    ensures
        nearest_ln2_multiple(value) <= 67,
        exp_wad(value)->0 == unlimited_exp(value),
{
    let k = nearest_ln2_multiple(value);
    let r = value - k * LN2_WAD;
    assert(-HALF_LN2_WAD <= r <= HALF_LN2_WAD);
    if k >= 68 {
        lemma_sum_near(r, 20);
        let t = taylor_sum(r, 20);
        lemma2_to64_rest();
        lemma2_to64();
        lemma_pow2_adds(64, 4);
        if k > 68 {
            lemma_pow2_strictly_increases(68, k as nat);
        }
        let q = pow2(k as nat) as int;
        assert(t >= 600_000_000_000_000_000);
        assert(t * q >= 600_000_000_000_000_000 * q) by (nonlinear_arith)
            requires
                t >= 600_000_000_000_000_000,
                q > 0,
        ;
    }
}

/// The fixed-point exponential is the real one, up to one part in `10^16` and
/// one unit: that near it lies to the series from some length on.
pub proof fn lemma_exp_wad_follows_series(value: int) -> (length: nat)
    requires
        exp_wad(value) is Some,
    ensures
        forall|n: nat|
            n >= length ==> follows(exp_wad(value)->0, #[trigger] exp_series(unscaled(value), n)),
{
    lemma_representable(value);
    lemma_unlimited_exp_follows_series(value)
}

/// What the series follow from some length on, the limit follows.
proof fn lemma_limit_follows(x: real, y: real, fixed: int, length: nat)
    requires
        is_exp(x, y),
        forall|n: nat| n >= length ==> follows(fixed, #[trigger] exp_series(x, n)),
    ensures
        follows(fixed, y),
{
    let scaled = 1_000_000_000_000_000_000real * y;
    let off = (fixed as real) - scaled;
    let slack = scaled / 10_000_000_000_000_000real + 1real;
    let excess = if off > slack {
        off - slack
    } else {
        -off - slack
    };
    if !within(off, slack) {
        let tolerance = excess / 4_000_000_000_000_000_000real;
        assert(reaches(x, y, tolerance));
        let other = choose|other: nat| stays_near(x, y, tolerance, other);
        let n = if length >= other {
            length
        } else {
            other
        };
        let s = exp_series(x, n);
        assert(within(s - y, tolerance));
        assert(follows(fixed, s));
    }
}

/// The fixed-point exponential is the real one, up to one part in `10^16` and
/// one unit.
pub proof fn lemma_exp_wad_is_exp(value: int, y: real)
    requires
        exp_wad(value) is Some,
        is_exp(unscaled(value), y),
    ensures
        follows(exp_wad(value)->0, y),
{
    let length = lemma_exp_wad_follows_series(value);
    lemma_limit_follows(unscaled(value), y, exp_wad(value)->0, length);
}

/// `exact`, in fixed point, is `value` up to one part in `10^15` and four units.
pub open spec fn gives_back(value: int, exact: real) -> bool {
    within(
        1_000_000_000_000_000_000real * exact - (value as real),
        (value as real) / 1_000_000_000_000_000real + 4real,
    )
}

proof fn lemma_gives_back(value: int, exact: real)
    requires
        1 <= value,
        follows(unlimited_exp(ln_wad(value)), exact),
    ensures
        gives_back(value, exact),
{
    lemma_exp_near_ln(value, 0);
    let e = unlimited_exp(ln_wad(value));
    assert(value * (601 + 5 * 0) == 601 * value) by (nonlinear_arith);
    let lost = 601 * value / (WAD as int);
    assert(lost * 1_000_000_000_000_000_000 <= 601 * value);
    assert((lost as real) * 1_000_000_000_000_000_000real <= 601real * (value as real));
    assert(within((e as real) - (value as real), (lost as real) + 2real));
}

/// The fixed-point logarithm is the real one: its exponential, by the series
/// from some length on, is `value`, up to one part in `10^15` and four units.
pub proof fn lemma_ln_wad_follows_series(value: int) -> (length: nat)
    requires
        1 <= value <= i128::MAX,
    ensures
        forall|n: nat|
            n >= length ==> gives_back(value, #[trigger] exp_series(unscaled(ln_wad(value)), n)),
{
    lemma_ln_wad_range(value);
    let length = lemma_unlimited_exp_follows_series(ln_wad(value));
    assert forall|n: nat| n >= length implies gives_back(
        value,
        #[trigger] exp_series(unscaled(ln_wad(value)), n),
    ) by {
        lemma_gives_back(value, exp_series(unscaled(ln_wad(value)), n));
    }
    length
}

/// The fixed-point logarithm is the real one: its exponential is `value`, up to
/// one part in `10^15` and four units.
pub proof fn lemma_ln_wad_is_ln(value: int, y: real)
    requires
        1 <= value <= i128::MAX,
        is_exp(unscaled(ln_wad(value)), y),
    ensures
        gives_back(value, y),
{
    lemma_ln_wad_range(value);
    let x = unscaled(ln_wad(value));
    let length = lemma_unlimited_exp_follows_series(ln_wad(value));
    lemma_limit_follows(x, y, unlimited_exp(ln_wad(value)), length);
    lemma_gives_back(value, y);
}

} // verus!
