//! The exponential in fixed point.
use super::logarithm::LN2_WAD;
use crate::arith::{abs, div_trunc, fits, lemma_trunc_div_fits, trunc_div, WAD};
use vstd::arithmetic::div_mod::lemma_div_denominator;
use vstd::arithmetic::power2::{
    lemma2_to64, lemma2_to64_rest, lemma_pow2_adds, lemma_pow2_pos, lemma_pow2_strictly_increases,
    lemma_pow2_unfold, pow2,
};
use vstd::prelude::*;

verus! {

/// Half of `ln 2`, rounded down: the largest remainder the exponential series
/// is evaluated at.
pub const HALF_LN2_WAD: i128 = 346_573_590_279_972_654;

/// The multiple of `ln 2` nearest to `value`.
pub open spec fn nearest_ln2_multiple(value: int) -> int {
    if value >= 0 {
        (value + HALF_LN2_WAD) / (LN2_WAD as int)
    } else {
        -((-value + HALF_LN2_WAD) / (LN2_WAD as int))
    }
}

/// `r^i / i!` in fixed point, each step rounded toward zero.
pub open spec fn taylor_term(r: int, i: nat) -> int
    decreases i,
{
    if i == 0 {
        WAD as int
    } else {
        trunc_div(trunc_div(taylor_term(r, (i - 1) as nat) * r, WAD as int), i as int)
    }
}

/// `1 + r + r^2/2! + ... + r^i/i!` in fixed point.
pub open spec fn taylor_sum(r: int, i: nat) -> int
    decreases i,
{
    if i == 0 {
        WAD as int
    } else {
        taylor_sum(r, (i - 1) as nat) + taylor_term(r, i)
    }
}

/// `e^value` in fixed point: `2^k * e^r` with `value = k * ln 2 + r` and `r` at
/// most half of `ln 2`. `None` where it is not representable.
pub open spec fn exp_wad(value: int) -> Option<int> {
    let k = nearest_ln2_multiple(value);
    let series = taylor_sum(value - k * LN2_WAD, 20);
    if k < 0 {
        Some(series / (pow2((-k) as nat) as int))
    } else if fits(series * pow2(k as nat)) {
        Some(series * pow2(k as nat))
    } else {
        None
    }
}

proof fn lemma_nearest_ln2_multiple(value: int)
    ensures
        ({
            let k = nearest_ln2_multiple(value);
            let r = value - k * LN2_WAD;
            &&& -HALF_LN2_WAD <= r <= HALF_LN2_WAD
            &&& value >= 0 ==> k >= 0
            &&& value <= 0 ==> k <= 0
            &&& value > 0 && k == 0 ==> r > 0
            &&& value < 0 && k == 0 ==> r < 0
        }),
{
}

proof fn lemma_taylor_term_step(r: int, i: nat)
    requires
        -HALF_LN2_WAD <= r <= HALF_LN2_WAD,
        abs(taylor_term(r, i)) <= WAD,
    ensures
        fits(taylor_term(r, i) * r),
        fits(trunc_div(taylor_term(r, i) * r, WAD as int)),
        2 * abs(taylor_term(r, i + 1)) <= abs(taylor_term(r, i)),
        i >= 1 ==> 4 * abs(taylor_term(r, i + 1)) <= abs(taylor_term(r, i)),
{
    let t = taylor_term(r, i);
    let p = t * r;
    assert(-(abs(t) * HALF_LN2_WAD) <= p <= abs(t) * HALF_LN2_WAD) by (nonlinear_arith)
        requires
            p == t * r,
            -HALF_LN2_WAD <= r <= HALF_LN2_WAD,
    ;
    let q = trunc_div(p, WAD as int);
    assert(2 * abs(q) <= abs(t));
    let n: int = (i + 1) as int;
    assert(abs(q) / n <= abs(q) && abs(q) / n >= 0) by (nonlinear_arith)
        requires
            n >= 1,
            abs(q) >= 0,
    ;
    if i >= 1 {
        assert(2 * (abs(q) / n) <= abs(q)) by (nonlinear_arith)
            requires
                n >= 2,
                abs(q) >= 0,
        ;
    }
}

/// The exponential series near zero stays near one.
proof fn lemma_taylor_bounds(r: int, i: nat)
    requires
        -HALF_LN2_WAD <= r <= HALF_LN2_WAD,
        i >= 1,
    ensures
        abs(taylor_term(r, i)) <= HALF_LN2_WAD,
        abs(taylor_sum(r, i) - WAD) + abs(taylor_term(r, i)) <= 2 * HALF_LN2_WAD,
        r > 0 ==> taylor_term(r, i) >= 0 && taylor_sum(r, i) >= WAD + r,
        r < 0 ==> taylor_sum(r, i) < WAD,
    decreases i, 1int,
{
    lemma_taylor_first(r);
    if i > 1 {
        let h = (i - 1) as nat;
        lemma_taylor_bounds(r, h);
        lemma_taylor_term_step(r, h);
        let t = taylor_term(r, h);
        if r > 0 {
            assert(t * r >= 0) by (nonlinear_arith)
                requires
                    t >= 0,
                    r > 0,
            ;
            let q = trunc_div(t * r, WAD as int);
            let n = i as int;
            assert(q / n >= 0) by (nonlinear_arith)
                requires
                    q >= 0,
                    n > 0,
            ;
        }
        if r < 0 {
            lemma_taylor_negative(r, i);
        }
    }
}

/// Below zero the terms after the first two cannot undo them.
proof fn lemma_taylor_negative(r: int, i: nat)
    requires
        -HALF_LN2_WAD <= r < 0,
        i >= 2,
    ensures
        2 * (taylor_sum(r, i) - WAD + abs(taylor_term(r, i))) <= r,
        taylor_sum(r, i) - abs(taylor_term(r, i)) >= WAD + r,
    decreases i, 0int,
{
    let h = (i - 1) as nat;
    lemma_taylor_first(r);
    lemma_taylor_term_step(r, 1);
    assert(r * r >= 0) by (nonlinear_arith);
    if i > 2 {
        lemma_taylor_negative(r, h);
        lemma_taylor_bounds(r, h);
        lemma_taylor_term_step(r, h);
    }
}

proof fn lemma_taylor_first(r: int)
    ensures
        taylor_term(r, 1) == r,
        taylor_sum(r, 1) == WAD + r,
{
    reveal_with_fuel(taylor_term, 2);
    reveal_with_fuel(taylor_sum, 2);
    assert(trunc_div(WAD * r, WAD as int) == r);
    assert(trunc_div(r, 1) == r);
}

/// `e^0` is one; above zero the exponential exceeds one, below zero it falls
/// short of one.
pub proof fn lemma_exp_wad_sign(value: int)
    ensures
        value == 0 ==> exp_wad(value) == Some(WAD as int),
        value > 0 ==> (exp_wad(value) matches Some(e) ==> e > WAD),
        value < 0 ==> (exp_wad(value) matches Some(e) && 0 <= e < WAD),
{
    let k = nearest_ln2_multiple(value);
    let r = value - k * LN2_WAD;
    let series = taylor_sum(r, 20);
    lemma_nearest_ln2_multiple(value);
    lemma_taylor_bounds(r, 20);
    lemma2_to64();
    if k < 0 {
        lemma_scaled_order(1, 1, (-k) as nat);
        let p = pow2((-k) as nat) as int;
        assert(0 <= series / p < WAD) by (nonlinear_arith)
            requires
                0 <= series < 2 * WAD,
                p >= 2,
        ;
    } else if k > 0 {
        if r < 0 {
            lemma_taylor_negative(r, 20);
        } else if r == 0 {
            lemma_taylor_of_zero(20);
        }
        lemma_scaled_order(series, 1, k as nat);
    } else {
        let p = pow2(0) as int;
        assert(series * p == series) by (nonlinear_arith)
            requires
                p == 1,
        ;
        if r == 0 {
            lemma_taylor_of_zero(20);
        }
    }
}

proof fn lemma_taylor_of_zero(i: nat)
    ensures
        i >= 1 ==> taylor_term(0, i) == 0,
        taylor_sum(0, i) == WAD,
    decreases i,
{
    if i > 0 {
        lemma_taylor_of_zero((i - 1) as nat);
        let t = taylor_term(0, (i - 1) as nat);
        let n = i as int;
        assert(t * 0 == 0);
        assert(0int / n == 0) by (nonlinear_arith)
            requires
                n > 0,
        ;
    }
}

/// `2^n` doublings of `sum`, while the result stays representable.
fn double_times(sum: i128, n: i128) -> (r: Option<i128>)
    requires
        0 < sum,
        0 <= n <= 90,
    ensures
        fits(sum * pow2(n as nat)) ==> r == Some((sum * pow2(n as nat)) as i128),
        !fits(sum * pow2(n as nat)) ==> r is None,
{
    let mut value: i128 = sum;
    let mut done: i128 = 0;
    proof {
        lemma2_to64();
        let p = pow2(0) as int;
        assert(sum * p == sum) by (nonlinear_arith)
            requires
                p == 1,
        ;
    }
    while done < n
        invariant
            0 <= done <= n <= 90,
            0 < value,
            0 < sum,
            value == sum * pow2(done as nat),
        decreases n - done,
    {
        proof {
            lemma_pow2_unfold((done + 1) as nat);
            let p = pow2(done as nat) as int;
            assert(sum * (2 * p) == 2 * (sum * p)) by (nonlinear_arith);
        }
        match value.checked_mul(2) {
            Some(doubled) => {
                value = doubled;
            },
            None => {
                proof {
                    lemma_scaled_order(sum as int, (done + 1) as nat, n as nat);
                }
                return None;
            },
        }
        done = done + 1;
    }
    Some(value)
}

proof fn lemma_scaled_order(sum: int, a: nat, b: nat)
    requires
        0 < sum,
        a <= b,
    ensures
        sum * pow2(a) <= sum * pow2(b),
{
    if a < b {
        lemma_pow2_strictly_increases(a, b);
    }
    let x = pow2(a) as int;
    let y = pow2(b) as int;
    assert(sum * x <= sum * y) by (nonlinear_arith)
        requires
            x <= y,
            sum > 0,
    ;
}

/// `sum / 2^n`, rounded down.
fn halve_times(sum: i128, n: i128) -> (r: i128)
    requires
        0 <= sum,
        0 <= n < 127,
    ensures
        r == sum as int / (pow2(n as nat) as int),
        0 <= r <= sum,
{
    let mut value: i128 = sum;
    let mut done: i128 = 0;
    proof {
        lemma2_to64();
        let p = pow2(0) as int;
        assert(sum as int / p == sum) by (nonlinear_arith)
            requires
                p == 1,
        ;
    }
    while done < n
        invariant
            0 <= done <= n < 127,
            0 <= value <= sum,
            value == sum as int / (pow2(done as nat) as int),
        decreases n - done,
    {
        proof {
            lemma_pow2_unfold((done + 1) as nat);
            lemma_pow2_pos(done as nat);
            lemma_div_denominator(sum as int, pow2(done as nat) as int, 2);
            let p = pow2(done as nat) as int;
            assert(p * 2 == 2 * p);
        }
        value = value / 2;
        done = done + 1;
    }
    value
}

/// `e^value` of a fixed-point value, in fixed point; `None` where it is not
/// representable.
pub fn exp_wad_checked(value: i128) -> (r: Option<i128>)
    requires
        i128::MIN + HALF_LN2_WAD <= value <= i128::MAX - HALF_LN2_WAD,
    ensures
        match exp_wad(value as int) {
            Some(e) => r == Some(e as i128) && 0 <= e <= i128::MAX,
            None => r is None,
        },
{
    proof {
        lemma_nearest_ln2_multiple(value as int);
        lemma_trunc_div_fits(value - HALF_LN2_WAD, LN2_WAD as int);
    }
    let k: i128 = if value >= 0 {
        (value + HALF_LN2_WAD) / LN2_WAD
    } else {
        div_trunc(value - HALF_LN2_WAD, LN2_WAD)
    };
    let r: i128 = value - k * LN2_WAD;
    let mut term: i128 = WAD;
    let mut sum: i128 = WAD;
    let mut i: i128 = 1;
    while i <= 20
        invariant
            1 <= i <= 21,
            -HALF_LN2_WAD <= r <= HALF_LN2_WAD,
            term == taylor_term(r as int, (i - 1) as nat),
            sum == taylor_sum(r as int, (i - 1) as nat),
        decreases 21 - i,
    {
        proof {
            let h = (i - 1) as nat;
            if h >= 1 {
                lemma_taylor_bounds(r as int, h);
            }
            lemma_taylor_term_step(r as int, h);
            lemma_taylor_bounds(r as int, i as nat);
        }
        term = div_trunc(div_trunc(term * r, WAD), i);
        sum = sum + term;
        i = i + 1;
    }
    proof {
        lemma_taylor_bounds(r as int, 20);
    }
    if k >= 0 {
        if k > 90 {
            proof {
                lemma2_to64();
                lemma2_to64_rest();
                lemma_pow2_adds(64, 27);
                lemma_scaled_order(sum as int, 91, k as nat);
                assert(sum * pow2(91) > i128::MAX) by (nonlinear_arith)
                    requires
                        sum >= 100_000_000_000_000_000,
                        pow2(91) == 0x1_0000_0000_0000_0000 * 0x8000000,
                ;
            }
            return None;
        }
        double_times(sum, k)
    } else {
        let shift: i128 = -k;
        if shift >= 127 {
            proof {
                lemma2_to64();
                lemma2_to64_rest();
                lemma_pow2_adds(64, 63);
                lemma_scaled_order(1, 127, shift as nat);
                let p = pow2(shift as nat) as int;
                assert(sum as int / p == 0) by (nonlinear_arith)
                    requires
                        0 <= sum < p,
                ;
            }
            return Some(0);
        }
        Some(halve_times(sum, shift))
    }
}

} // verus!
