//! The natural logarithm in fixed point.
use crate::arith::{lemma_div_cross, WAD};
use vstd::arithmetic::power2::{
    lemma2_to64, lemma2_to64_rest, lemma_pow2_adds, lemma_pow2_unfold, pow2,
};
use vstd::prelude::*;

verus! {

/// ln(2) scaled by [`WAD`].
pub const LN2_WAD: i128 = 693_147_180_559_945_309;

/// `z^(2j+1)` in fixed point, each factor `z^2` rounded down.
pub open spec fn odd_power(z: int, j: nat) -> int
    decreases j,
{
    if j == 0 {
        z
    } else {
        odd_power(z, (j - 1) as nat) * (z * z / (WAD as int)) / (WAD as int)
    }
}

/// `z + z^3/3 + ... + z^(2j+1)/(2j+1)` in fixed point.
pub open spec fn atanh_sum(z: int, j: nat) -> int
    decreases j,
{
    if j == 0 {
        z
    } else {
        atanh_sum(z, (j - 1) as nat) + odd_power(z, j) / (2 * j + 1) as int
    }
}

/// `(m - 1) / (m + 1)` in fixed point.
pub open spec fn atanh_argument(m: int) -> int {
    (m - WAD) * WAD / (m + WAD)
}

/// The logarithm of a fixed-point mantissa `m` in `[1, 2)`:
/// `2 * (z + z^3/3 + z^5/5 + ...)` with `z = (m - 1) / (m + 1)`.
pub open spec fn ln_mantissa(m: int) -> int {
    2 * atanh_sum(atanh_argument(m), 24)
}

pub open spec fn ln_measure(value: int) -> int {
    if value >= 2 * WAD {
        value
    } else if value < WAD {
        WAD - value
    } else {
        0
    }
}

/// The natural logarithm of a positive fixed-point value: halving or doubling
/// the value moves it by `ln 2` until the mantissa lies in `[1, 2)`.
pub open spec fn ln_wad(value: int) -> int
    decreases ln_measure(value),
{
    if value <= 0 {
        0
    } else if value >= 2 * WAD {
        ln_wad(value / 2) + LN2_WAD
    } else if value < WAD {
        ln_wad(2 * value) - LN2_WAD
    } else {
        ln_mantissa(value)
    }
}

proof fn lemma_product_order(a: int, b: int, c: int, d: int)
    requires
        0 <= a <= c,
        0 <= b <= d,
    ensures
        0 <= a * b <= c * d,
{
    assert(0 <= a * b <= c * d) by (nonlinear_arith)
        requires
            0 <= a <= c,
            0 <= b <= d,
    ;
}

proof fn lemma_term_bound(t: int, z2: int, c: int, b: int, next: int)
    requires
        0 <= t <= c,
        0 <= z2 <= b,
        c * b / (WAD as int) <= next,
    ensures
        0 <= t * z2 / (WAD as int) <= next,
{
    lemma_product_order(t, z2, c, b);
}

/// The argument of the series is at most a third.
pub proof fn lemma_atanh_argument_bound(m: int)
    requires
        WAD <= m < 2 * WAD,
    ensures
        0 <= atanh_argument(m) <= 333_333_333_333_333_333,
{
    let z = atanh_argument(m);
    let n = (m - WAD) * WAD;
    let d = m + WAD;
    assert(0 <= n < 333_333_333_333_333_334 * d) by (nonlinear_arith)
        requires
            WAD == 1_000_000_000_000_000_000,
            WAD <= m < 2 * WAD,
            n == (m - WAD) * WAD,
            d == m + WAD,
    ;
    assert(0 <= n / d < 333_333_333_333_333_334) by (nonlinear_arith)
        requires
            0 <= n < 333_333_333_333_333_334 * d,
            d > 0,
    ;
}

proof fn lemma_series_order(z: int, w: int, j: nat)
    requires
        0 <= z <= w <= 333_333_333_333_333_333,
    ensures
        0 <= odd_power(z, j) <= odd_power(w, j),
        0 <= atanh_sum(z, j) <= atanh_sum(w, j),
        odd_power(w, j) <= w,
        atanh_sum(w, j) <= 333_333_333_333_333_333 * (j + 1),
    decreases j,
{
    if j > 0 {
        let i = (j - 1) as nat;
        lemma_series_order(z, w, i);
        let zz = z * z / (WAD as int);
        let ww = w * w / (WAD as int);
        lemma_product_order(z, z, w, w);
        lemma_product_order(w, w, 333_333_333_333_333_333, 333_333_333_333_333_333);
        let a = odd_power(z, i);
        let b = odd_power(w, i);
        lemma_product_order(a, zz, b, ww);
        assert(b * ww / (WAD as int) <= b) by (nonlinear_arith)
            requires
                b >= 0,
                0 <= ww <= WAD,
                WAD == 1_000_000_000_000_000_000,
        ;
        let p = odd_power(z, j);
        let q = odd_power(w, j);
        let n: int = (2 * j + 1) as int;
        assert(0 <= p / n <= q / n <= q) by (nonlinear_arith)
            requires
                0 <= p <= q,
                n > 0,
        ;
    }
}

proof fn lemma_sum_step(z: int, j: nat, n: int, c: int, q: int)
    requires
        j > 0,
        n == 2 * j + 1,
        odd_power(z, j) <= c,
        c / n <= q,
    ensures
        atanh_sum(z, j) <= atanh_sum(z, (j - 1) as nat) + q,
{
    let t = odd_power(z, j);
    assert(t / n <= c / n) by (nonlinear_arith)
        requires
            t <= c,
            n > 0,
    ;
}

/// The series at its largest argument stays under `ln 2`.
proof fn lemma_series_bound(z: int)
    requires
        0 <= z <= 333_333_333_333_333_333,
    ensures
        0 <= 2 * atanh_sum(z, 24) <= LN2_WAD - 19,
{
    let z2 = z * z / (WAD as int);
    lemma_product_order(z, z, 333_333_333_333_333_333, 333_333_333_333_333_333);
    lemma_series_order(z, z, 24);
    lemma_term_bound(odd_power(z, 0), z2, 333333333333333333, 111111111111111110, 37037037037037036);
    lemma_sum_step(z, 1, 3, 37037037037037036, 12345679012345678);
    lemma_term_bound(odd_power(z, 1), z2, 37037037037037036, 111111111111111110, 4115226337448559);
    lemma_sum_step(z, 2, 5, 4115226337448559, 823045267489711);
    lemma_term_bound(odd_power(z, 2), z2, 4115226337448559, 111111111111111110, 457247370827617);
    lemma_sum_step(z, 3, 7, 457247370827617, 65321052975373);
    lemma_term_bound(odd_power(z, 3), z2, 457247370827617, 111111111111111110, 50805263425290);
    lemma_sum_step(z, 4, 9, 50805263425290, 5645029269476);
    lemma_term_bound(odd_power(z, 4), z2, 50805263425290, 111111111111111110, 5645029269476);
    lemma_sum_step(z, 5, 11, 5645029269476, 513184479043);
    lemma_term_bound(odd_power(z, 5), z2, 5645029269476, 111111111111111110, 627225474386);
    lemma_sum_step(z, 6, 13, 627225474386, 48248113414);
    lemma_term_bound(odd_power(z, 6), z2, 627225474386, 111111111111111110, 69691719376);
    lemma_sum_step(z, 7, 15, 69691719376, 4646114625);
    lemma_term_bound(odd_power(z, 7), z2, 69691719376, 111111111111111110, 7743524375);
    lemma_sum_step(z, 8, 17, 7743524375, 455501433);
    lemma_term_bound(odd_power(z, 8), z2, 7743524375, 111111111111111110, 860391597);
    lemma_sum_step(z, 9, 19, 860391597, 45283768);
    lemma_term_bound(odd_power(z, 9), z2, 860391597, 111111111111111110, 95599066);
    lemma_sum_step(z, 10, 21, 95599066, 4552336);
    lemma_term_bound(odd_power(z, 10), z2, 95599066, 111111111111111110, 10622118);
    lemma_sum_step(z, 11, 23, 10622118, 461831);
    lemma_term_bound(odd_power(z, 11), z2, 10622118, 111111111111111110, 1180235);
    lemma_sum_step(z, 12, 25, 1180235, 47209);
    lemma_term_bound(odd_power(z, 12), z2, 1180235, 111111111111111110, 131137);
    lemma_sum_step(z, 13, 27, 131137, 4856);
    lemma_term_bound(odd_power(z, 13), z2, 131137, 111111111111111110, 14570);
    lemma_sum_step(z, 14, 29, 14570, 502);
    lemma_term_bound(odd_power(z, 14), z2, 14570, 111111111111111110, 1618);
    lemma_sum_step(z, 15, 31, 1618, 52);
    lemma_term_bound(odd_power(z, 15), z2, 1618, 111111111111111110, 179);
    lemma_sum_step(z, 16, 33, 179, 5);
    lemma_term_bound(odd_power(z, 16), z2, 179, 111111111111111110, 19);
    lemma_sum_step(z, 17, 35, 19, 0);
    lemma_term_bound(odd_power(z, 17), z2, 19, 111111111111111110, 2);
    lemma_sum_step(z, 18, 37, 2, 0);
    lemma_term_bound(odd_power(z, 18), z2, 2, 111111111111111110, 0);
    lemma_sum_step(z, 19, 39, 0, 0);
    lemma_term_bound(odd_power(z, 19), z2, 0, 111111111111111110, 0);
    lemma_sum_step(z, 20, 41, 0, 0);
    lemma_term_bound(odd_power(z, 20), z2, 0, 111111111111111110, 0);
    lemma_sum_step(z, 21, 43, 0, 0);
    lemma_term_bound(odd_power(z, 21), z2, 0, 111111111111111110, 0);
    lemma_sum_step(z, 22, 45, 0, 0);
    lemma_term_bound(odd_power(z, 22), z2, 0, 111111111111111110, 0);
    lemma_sum_step(z, 23, 47, 0, 0);
    lemma_term_bound(odd_power(z, 23), z2, 0, 111111111111111110, 0);
    lemma_sum_step(z, 24, 49, 0, 0);
}

/// The bounds of the logarithm of a mantissa, and its order.
pub proof fn lemma_ln_mantissa(a: int, b: int)
    requires
        WAD <= a <= b < 2 * WAD,
    ensures
        0 <= ln_mantissa(a) <= ln_mantissa(b) <= LN2_WAD - 19,
{
    lemma_atanh_argument_bound(a);
    lemma_atanh_argument_bound(b);
    assert(((a - WAD) * WAD) * (b + WAD) <= ((b - WAD) * WAD) * (a + WAD)) by (nonlinear_arith)
        requires
            WAD <= a <= b,
            WAD == 1_000_000_000_000_000_000,
    ;
    lemma_div_cross((a - WAD) * WAD, a + WAD, (b - WAD) * WAD, b + WAD);
    lemma_series_order(atanh_argument(a), atanh_argument(b), 24);
    lemma_series_bound(atanh_argument(b));
}

/// The logarithm is non-negative from one upward, negative below one, and
/// under `ln 2` below two.
pub proof fn lemma_ln_wad_sign(value: int)
    requires
        value > 0,
    ensures
        value >= WAD ==> ln_wad(value) >= 0,
        value < 2 * WAD ==> ln_wad(value) < LN2_WAD,
        value < WAD ==> ln_wad(value) < 0,
        value == WAD ==> ln_wad(value) == 0,
        value >= 2 * WAD ==> ln_wad(value) >= LN2_WAD,
    decreases ln_measure(value),
{
    if value >= 2 * WAD {
        lemma_ln_wad_sign(value / 2);
    } else if value < WAD {
        lemma_ln_wad_sign(2 * value);
    } else {
        lemma_ln_mantissa(value, value);
        if value == WAD {
            assert(atanh_argument(value) == 0) by {
                assert(0int / (2 * WAD) == 0);
            }
            lemma_series_of_zero(24);
        }
    }
}

proof fn lemma_series_of_zero(j: nat)
    ensures
        odd_power(0, j) == 0,
        atanh_sum(0, j) == 0,
    decreases j,
{
    if j > 0 {
        lemma_series_of_zero((j - 1) as nat);
        let n: int = (2 * j + 1) as int;
        assert(0int / n == 0) by (nonlinear_arith)
            requires
                n > 0,
        ;
    }
}

/// The logarithm does not decrease.
pub proof fn lemma_ln_wad_order(a: int, b: int)
    requires
        0 < a <= b,
    ensures
        ln_wad(a) <= ln_wad(b),
    decreases ln_measure(a) + ln_measure(b),
{
    lemma_ln_wad_sign(a);
    lemma_ln_wad_sign(b);
    if a >= 2 * WAD {
        lemma_ln_wad_order(a / 2, b / 2);
    } else if b < WAD {
        lemma_ln_wad_order(2 * a, 2 * b);
    } else if a >= WAD && b < 2 * WAD {
        lemma_ln_mantissa(a, b);
    }
}

/// Doubling a value adds exactly `ln 2` to its logarithm.
pub proof fn lemma_ln_wad_of_double(value: int)
    requires
        value > 0,
    ensures
        ln_wad(2 * value) == ln_wad(value) + LN2_WAD,
{
    assert((2 * value) / 2 == value);
}

proof fn lemma_ln_wad_below(value: int, k: nat)
    requires
        0 < value < 2 * WAD * pow2(k),
    ensures
        ln_wad(value) <= (k + 1) * LN2_WAD,
    decreases k,
{
    lemma_ln_wad_sign(value);
    if k == 0 {
        lemma2_to64();
    } else {
        lemma_pow2_unfold(k);
        let p = pow2((k - 1) as nat) as int;
        assert(2 * WAD * (2 * p) == 2 * (2 * WAD * p)) by (nonlinear_arith);
        if value >= 2 * WAD {
            lemma_ln_wad_below(value / 2, (k - 1) as nat);
        }
    }
}

proof fn lemma_ln_wad_above(value: int, k: nat)
    requires
        0 < value,
        WAD <= value * pow2(k),
    ensures
        ln_wad(value) >= -(k * LN2_WAD),
    decreases k,
{
    lemma_ln_wad_sign(value);
    if k == 0 {
        lemma2_to64();
    } else {
        lemma_pow2_unfold(k);
        let p = pow2((k - 1) as nat) as int;
        assert(value * (2 * p) == (2 * value) * p) by (nonlinear_arith);
        if value < WAD {
            lemma_ln_wad_above(2 * value, (k - 1) as nat);
        }
    }
}

/// The logarithm of a representable value spans about `-41.6` to `47.2`.
pub proof fn lemma_ln_wad_range(value: int)
    requires
        0 < value <= i128::MAX,
    ensures
        -60 * LN2_WAD <= ln_wad(value) <= 68 * LN2_WAD,
{
    lemma2_to64();
    lemma2_to64_rest();
    lemma_pow2_adds(64, 3);
    lemma_ln_wad_below(value, 67);
    assert(value * pow2(60) >= WAD) by (nonlinear_arith)
        requires
            value > 0,
            pow2(60) == 0x1000000000000000,
            WAD == 1_000_000_000_000_000_000,
    ;
    lemma_ln_wad_above(value, 60);
}

/// Natural logarithm of a fixed-point value, in fixed point; `None` where the
/// value is not positive.
pub fn ln_wad_checked(value: i128) -> (r: Option<i128>)
    ensures
        value <= 0 ==> r is None,
        value > 0 ==> r == Some(ln_wad(value as int) as i128) && r->0 == ln_wad(value as int),
{
    if value <= 0 {
        return None;
    }
    proof {
        lemma_ln_wad_range(value as int);
    }
    let mut k: i128 = 0;
    let mut m: i128 = value;
    while m >= 2 * WAD
        invariant
            m >= WAD || (m == value && k == 0),
            0 < m <= value,
            0 <= k <= value - m,
            ln_wad(value as int) == ln_wad(m as int) + k * LN2_WAD,
        decreases m,
    {
        m = m / 2;
        k = k + 1;
    }
    while m < WAD
        invariant
            0 < m < 2 * WAD,
            k >= -m,
            ln_wad(value as int) == ln_wad(m as int) + k * LN2_WAD,
        decreases 2 * WAD - m,
    {
        m = m * 2;
        k = k - 1;
    }
    proof {
        lemma_ln_mantissa(m as int, m as int);
        lemma_atanh_argument_bound(m as int);
        assert((m - WAD) * WAD <= 1_000_000_000_000_000_000_000_000_000_000_000_000) by (
        nonlinear_arith)
            requires
                WAD <= m < 2 * WAD,
                WAD == 1_000_000_000_000_000_000,
        ;
        assert((m - WAD) * WAD >= 0) by (nonlinear_arith)
            requires
                WAD <= m,
                WAD == 1_000_000_000_000_000_000,
        ;
    }
    let z: i128 = (m - WAD) * WAD / (m + WAD);
    proof {
        lemma_product_order(z as int, z as int, 333_333_333_333_333_333, 333_333_333_333_333_333);
    }
    let z2: i128 = z * z / WAD;
    let mut term: i128 = z;
    let mut sum: i128 = z;
    let mut n: i128 = 3;
    let ghost mut j: nat = 0;
    while n <= 49
        invariant
            j <= 24,
            n == 2 * j + 3,
            0 <= z <= 333_333_333_333_333_333,
            z2 == z * z / (WAD as int),
            0 <= z2 <= WAD,
            term == odd_power(z as int, j),
            sum == atanh_sum(z as int, j),
        decreases 52 - n,
    {
        proof {
            lemma_series_order(z as int, z as int, j);
            lemma_series_order(z as int, z as int, j + 1);
            lemma_product_order(term as int, z2 as int, WAD as int, WAD as int);
        }
        term = term * z2 / WAD;
        proof {
            assert(0 <= term as int / n as int <= term) by (nonlinear_arith)
                requires
                    term >= 0,
                    n > 0,
            ;
        }
        sum = sum + term / n;
        n = n + 2;
        proof {
            j = j + 1;
        }
    }
    Some(k * LN2_WAD + 2 * sum)
}

} // verus!
