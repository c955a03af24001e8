//! The price curve. It quotes the value of the underlying asset against
//! principal-token face: with `p` the principal tokens' share of the pool, the
//! exchange rate is `ln(p / (1 - p)) / scalar + anchor`, and it falls toward
//! one as maturity comes nearer.
use super::checked::{
    checked_add, checked_mul, checked_sub, difference, lemma_quotient_nonneg, mul_div_down,
    quotient,
};
use super::exponential::{exp_wad, exp_wad_checked, lemma_exp_wad_sign};
use super::logarithm::{
    lemma_ln_wad_order, lemma_ln_wad_range, lemma_ln_wad_sign, ln_wad, ln_wad_checked, LN2_WAD,
};
use super::types::Error;
use crate::arith::{div_trunc, fits, lemma_div_cross, lemma_trunc_div_fits, trunc_div, WAD};
use vstd::prelude::*;

verus! {

/// A year, in seconds: the period over which implied rates are quoted.
pub const IMPLIED_RATE_TIME: u64 = 31_536_000;

/// The largest share of the pool that principal tokens may make up: 96%.
pub const MAX_MARKET_PROPORTION: i128 = 960_000_000_000_000_000;

/// An implied log rate never exceeds this: `ln` of the largest exchange rate,
/// one second before maturity.
pub const MAX_LN_IMPLIED_RATE: i128 = 68 * 693_147_180_559_945_309 * 31_536_000;

/// The principal tokens' share of the pool, once `net_pt` of them have left it
/// and the rest of the pool has not moved.
pub open spec fn proportion(total_pt: int, total_asset: int, net_pt: int) -> int {
    trunc_div((total_pt - net_pt) * WAD, total_pt + total_asset)
}

/// `ln(p / (1 - p))`.
pub open spec fn log_odds(p: int) -> int {
    ln_wad(p * WAD / (WAD - p))
}

/// The height of the curve at proportion `p`.
pub open spec fn curve_point(p: int, rate_scalar: int, rate_anchor: int) -> int {
    trunc_div(log_odds(p) * WAD, rate_scalar) + rate_anchor
}

pub open spec fn log_proportion(p: int) -> Result<i128, Error> {
    if p == WAD {
        Err(Error::MarketProportionTooHigh)
    } else if p > WAD || p <= 0 {
        Err(Error::MathOverflow)
    } else {
        Ok(log_odds(p) as i128)
    }
}

/// The rate at which `net_pt` principal tokens leave the pool (or, where it is
/// negative, join it).
pub open spec fn exchange_rate(
    total_pt: int,
    total_asset: int,
    rate_scalar: int,
    rate_anchor: int,
    net_pt: int,
) -> Result<i128, Error> {
    let p = proportion(total_pt, total_asset, net_pt);
    let x = curve_point(p, rate_scalar, rate_anchor);
    if net_pt > total_pt || !fits(total_pt + total_asset) || total_pt + total_asset == 0 || !fits(
        (total_pt - net_pt) * WAD,
    ) {
        Err(Error::MathOverflow)
    } else if p > MAX_MARKET_PROPORTION {
        Err(Error::MarketProportionTooHigh)
    } else if p <= 0 || rate_scalar == 0 || !fits(x) {
        Err(Error::MathOverflow)
    } else if x < WAD {
        Err(Error::ExchangeRateBelowOne)
    } else {
        Ok(x as i128)
    }
}

/// How steep the curve is `time_to_expiry` seconds before maturity.
pub open spec fn rate_scalar_at(scalar_root: int, time_to_expiry: int) -> Result<i128, Error> {
    let scaled = scalar_root * IMPLIED_RATE_TIME;
    if !fits(scaled) {
        Err(Error::MathOverflow)
    } else if trunc_div(scaled, time_to_expiry) <= 0 {
        Err(Error::InvalidScalarRoot)
    } else {
        Ok(trunc_div(scaled, time_to_expiry) as i128)
    }
}

/// The exchange rate that grows at `ln_implied_rate` a year until maturity.
pub open spec fn implied_exchange_rate(ln_implied_rate: int, time_to_expiry: int) -> Result<
    i128,
    Error,
> {
    match quotient(ln_implied_rate, time_to_expiry, IMPLIED_RATE_TIME as int) {
        Err(e) => Err(e),
        Ok(exponent) => match exp_wad(exponent as int) {
            None => Err(Error::MathOverflow),
            Some(rate) => Ok(rate as i128),
        },
    }
}

/// The anchor under which the curve passes through the last implied rate at
/// the present reserves.
pub open spec fn rate_anchor_at(
    total_pt: int,
    ln_implied_rate: int,
    total_asset: int,
    rate_scalar: int,
    time_to_expiry: int,
) -> Result<i128, Error> {
    match implied_exchange_rate(ln_implied_rate, time_to_expiry) {
        Err(e) => Err(e),
        Ok(rate) => if rate < WAD {
            Err(Error::ExchangeRateBelowOne)
        } else if !fits(total_pt + total_asset) || total_pt + total_asset == 0 || !fits(
            total_pt * WAD,
        ) {
            Err(Error::MathOverflow)
        } else {
            match log_proportion(proportion(total_pt, total_asset, 0)) {
                Err(e) => Err(e),
                Ok(ln_proportion) => if rate_scalar == 0 {
                    Err(Error::MathOverflow)
                } else {
                    difference(rate as int, trunc_div(ln_proportion * WAD, rate_scalar))
                },
            }
        },
    }
}

/// The yearly log rate that the curve implies at the given reserves.
pub open spec fn ln_implied_rate_at(
    total_pt: int,
    total_asset: int,
    rate_scalar: int,
    rate_anchor: int,
    time_to_expiry: int,
) -> Result<i128, Error> {
    match exchange_rate(total_pt, total_asset, rate_scalar, rate_anchor, 0) {
        Err(e) => Err(e),
        Ok(rate) => if time_to_expiry == 0 {
            Err(Error::MathOverflow)
        } else {
            Ok((ln_wad(rate as int) * IMPLIED_RATE_TIME / time_to_expiry) as i128)
        },
    }
}

/// Principal tokens in an empty or overdrawn pool make up no share of it.
proof fn lemma_proportion(total_pt: int, total_asset: int, net_pt: int)
    requires
        net_pt <= total_pt,
        total_pt + total_asset != 0,
        proportion(total_pt, total_asset, net_pt) > 0,
    ensures
        net_pt < total_pt,
        0 < total_pt + total_asset,
{
    let n = (total_pt - net_pt) * WAD;
    let d = total_pt + total_asset;
    assert(n >= 0 && d < 0 ==> n / d <= 0) by (nonlinear_arith);
    assert(0int / d == 0) by (nonlinear_arith)
        requires
            d != 0,
    ;
}

/// The bounds of the logarithm of the odds.
pub proof fn lemma_log_odds(p: int)
    requires
        0 < p < WAD,
    ensures
        p * WAD <= i128::MAX,
        0 < p * WAD / (WAD - p) <= i128::MAX,
        -60 * LN2_WAD <= log_odds(p) <= 68 * LN2_WAD,
{
    let c = WAD - p;
    let n = p * WAD;
    assert(0 < n / c <= n) by (nonlinear_arith)
        requires
            n >= WAD,
            0 < c < WAD,
    ;
    lemma_ln_wad_range(n / c);
}

proof fn lemma_log_odds_order(p: int, q: int)
    requires
        0 < p <= q < WAD,
    ensures
        log_odds(p) <= log_odds(q),
{
    lemma_log_odds(p);
    lemma_log_odds(q);
    let a = p * WAD;
    let b = WAD - p;
    let c = q * WAD;
    let d = WAD - q;
    assert(a * d <= c * b) by (nonlinear_arith)
        requires
            0 < a <= c,
            0 < d <= b,
    ;
    lemma_div_cross(a, b, c, d);
    lemma_ln_wad_order(a / b, c / d);
}

/// The curve rises with the principal tokens' share: the scarcer they are, the
/// less of the asset's growth one of them gives up.
pub proof fn lemma_curve_rises(p: int, q: int, rate_scalar: int, rate_anchor: int)
    requires
        0 < p <= q < WAD,
        rate_scalar > 0,
    ensures
        curve_point(p, rate_scalar, rate_anchor) <= curve_point(q, rate_scalar, rate_anchor),
{
    lemma_log_odds_order(p, q);
    lemma_trunc_div_order(log_odds(p) * WAD, log_odds(q) * WAD, rate_scalar);
}

/// Quotients keep the order of what is divided.
pub proof fn lemma_trunc_div_order(a: int, b: int, d: int)
    requires
        a <= b,
        d > 0,
    ensures
        trunc_div(a, d) <= trunc_div(b, d),
{
    assert(0 <= a ==> a / d <= b / d) by (nonlinear_arith)
        requires
            a <= b,
            d > 0,
    ;
    assert(b <= 0 ==> (-b) / d <= (-a) / d) by (nonlinear_arith)
        requires
            a <= b,
            d > 0,
    ;
    assert((a <= 0 ==> (-a) / d >= 0) && (b >= 0 ==> b / d >= 0)) by (nonlinear_arith)
        requires
            d > 0,
    ;
}

/// Buying principal tokens makes them dearer: the more of them leave the pool,
/// the lower the rate.
pub proof fn lemma_buying_makes_dearer(
    total_pt: int,
    total_asset: int,
    rate_scalar: int,
    rate_anchor: int,
    less: int,
    more: int,
)
    requires
        less <= more,
        rate_scalar > 0,
        exchange_rate(total_pt, total_asset, rate_scalar, rate_anchor, less) is Ok,
        exchange_rate(total_pt, total_asset, rate_scalar, rate_anchor, more) is Ok,
    ensures
        exchange_rate(total_pt, total_asset, rate_scalar, rate_anchor, less)->Ok_0
            >= exchange_rate(total_pt, total_asset, rate_scalar, rate_anchor, more)->Ok_0 >= WAD,
{
    let p = proportion(total_pt, total_asset, more);
    let q = proportion(total_pt, total_asset, less);
    lemma_proportion(total_pt, total_asset, more);
    lemma_trunc_div_order(
        (total_pt - more) * WAD,
        (total_pt - less) * WAD,
        total_pt + total_asset,
    );
    lemma_curve_rises(p, q, rate_scalar, rate_anchor);
}

/// The anchor is the one under which the curve passes through the last implied
/// rate: at the present reserves the curve quotes the exchange rate that the
/// last trade left behind.
pub proof fn lemma_anchor_keeps_rate(
    total_pt: int,
    ln_implied_rate: int,
    total_asset: int,
    rate_scalar: int,
    time_to_expiry: int,
)
    requires
        rate_anchor_at(total_pt, ln_implied_rate, total_asset, rate_scalar, time_to_expiry) is Ok,
        0 <= total_pt,
        proportion(total_pt, total_asset, 0) <= MAX_MARKET_PROPORTION,
    ensures
        exchange_rate(
            total_pt,
            total_asset,
            rate_scalar,
            rate_anchor_at(
                total_pt,
                ln_implied_rate,
                total_asset,
                rate_scalar,
                time_to_expiry,
            )->Ok_0 as int,
            0,
        ) == implied_exchange_rate(ln_implied_rate, time_to_expiry),
{
    lemma_log_odds(proportion(total_pt, total_asset, 0));
}

/// An implied log rate is non-negative and bounded.
pub proof fn lemma_ln_implied_rate_range(
    total_pt: int,
    total_asset: int,
    rate_scalar: int,
    rate_anchor: int,
    time_to_expiry: int,
)
    requires
        time_to_expiry >= 0,
        ln_implied_rate_at(total_pt, total_asset, rate_scalar, rate_anchor, time_to_expiry) is Ok,
    ensures
        ({
            let x = exchange_rate(total_pt, total_asset, rate_scalar, rate_anchor, 0)->Ok_0 as int;
            let scaled = ln_wad(x) * IMPLIED_RATE_TIME;
            &&& 0 <= scaled <= MAX_LN_IMPLIED_RATE
            &&& 0 <= scaled / time_to_expiry <= scaled
        }),
{
    let x = exchange_rate(total_pt, total_asset, rate_scalar, rate_anchor, 0)->Ok_0 as int;
    lemma_ln_wad_sign(x);
    lemma_ln_wad_range(x);
    lemma_quotient_nonneg(ln_wad(x), IMPLIED_RATE_TIME as int, time_to_expiry);
}

pub fn log_proportion_checked(p: i128) -> (r: Result<i128, Error>)
    ensures
        r == log_proportion(p as int),
        r is Ok ==> r->Ok_0 == log_odds(p as int),
{
    let complement: i128 = checked_sub(WAD, p)?;
    if complement <= 0 {
        return Err(Error::MarketProportionTooHigh);
    }
    proof {
        if p > 0 {
            lemma_quotient_nonneg(p as int, WAD as int, complement as int);
            lemma_log_odds(p as int);
        } else if fits(p * WAD) {
            lemma_trunc_div_fits(p * WAD, complement as int);
        }
    }
    let ratio: i128 = mul_div_down(p, WAD, complement)?;
    match ln_wad_checked(ratio) {
        Some(value) => Ok(value),
        None => Err(Error::MathOverflow),
    }
}

pub fn get_exchange_rate(
    total_pt: i128,
    total_asset: i128,
    rate_scalar: i128,
    rate_anchor: i128,
    net_pt_to_account: i128,
) -> (r: Result<i128, Error>)
    ensures
        r == exchange_rate(
            total_pt as int,
            total_asset as int,
            rate_scalar as int,
            rate_anchor as int,
            net_pt_to_account as int,
        ),
{
    let ghost p = proportion(total_pt as int, total_asset as int, net_pt_to_account as int);
    let numerator: i128 = checked_sub(total_pt, net_pt_to_account)?;
    let denominator: i128 = checked_add(total_pt, total_asset)?;
    proof {
        if denominator != 0 && fits(numerator * WAD) {
            lemma_trunc_div_fits(numerator * WAD, denominator as int);
        }
    }
    let proportion: i128 = mul_div_down(numerator, WAD, denominator)?;
    assert(proportion == p);
    if proportion > MAX_MARKET_PROPORTION {
        return Err(Error::MarketProportionTooHigh);
    }
    let ln_proportion: i128 = log_proportion_checked(proportion)?;
    proof {
        lemma_log_odds(p);
        if rate_scalar != 0 {
            lemma_trunc_div_fits(ln_proportion * WAD, rate_scalar as int);
        }
    }
    let scaled: i128 = mul_div_down(ln_proportion, WAD, rate_scalar)?;
    let exchange_rate: i128 = checked_add(scaled, rate_anchor)?;
    if exchange_rate < WAD {
        return Err(Error::ExchangeRateBelowOne);
    }
    Ok(exchange_rate)
}

/// [`get_exchange_rate`] for a candidate trade, which simply is no candidate
/// where the curve has no price for it.
pub fn try_get_exchange_rate(
    total_pt: i128,
    total_asset: i128,
    rate_scalar: i128,
    rate_anchor: i128,
    net_pt_to_account: i128,
) -> (r: Option<i128>)
    ensures
        r == exchange_rate(
            total_pt as int,
            total_asset as int,
            rate_scalar as int,
            rate_anchor as int,
            net_pt_to_account as int,
        ).ok(),
{
    match get_exchange_rate(total_pt, total_asset, rate_scalar, rate_anchor, net_pt_to_account) {
        Ok(rate) => Some(rate),
        Err(_) => None,
    }
}

pub fn get_rate_scalar(scalar_root: i128, time_to_expiry: u64) -> (r: Result<i128, Error>)
    requires
        0 < time_to_expiry,
    ensures
        r == rate_scalar_at(scalar_root as int, time_to_expiry as int),
{
    let numerator: i128 = checked_mul(scalar_root, IMPLIED_RATE_TIME as i128)?;
    let rate_scalar: i128 = div_trunc(numerator, time_to_expiry as i128);
    if rate_scalar <= 0 {
        return Err(Error::InvalidScalarRoot);
    }
    Ok(rate_scalar)
}

pub fn get_exchange_rate_from_implied_rate(ln_implied_rate: i128, time_to_expiry: u64) -> (r:
    Result<i128, Error>)
    ensures
        r == implied_exchange_rate(ln_implied_rate as int, time_to_expiry as int),
        ln_implied_rate >= 0 && r is Ok ==> r->Ok_0 >= WAD,
{
    proof {
        let scaled = ln_implied_rate * time_to_expiry;
        if fits(scaled) {
            lemma_trunc_div_fits(scaled, IMPLIED_RATE_TIME as int);
        }
        assert(ln_implied_rate >= 0 ==> scaled >= 0) by (nonlinear_arith)
            requires
                scaled == ln_implied_rate * time_to_expiry,
        ;
    }
    let exponent: i128 = mul_div_down(
        ln_implied_rate,
        time_to_expiry as i128,
        IMPLIED_RATE_TIME as i128,
    )?;
    proof {
        lemma_exp_wad_sign(exponent as int);
    }
    match exp_wad_checked(exponent) {
        Some(rate) => Ok(rate),
        None => Err(Error::MathOverflow),
    }
}

pub fn get_rate_anchor(
    total_pt: i128,
    last_ln_implied_rate: i128,
    total_asset: i128,
    rate_scalar: i128,
    time_to_expiry: u64,
) -> (r: Result<i128, Error>)
    ensures
        r == rate_anchor_at(
            total_pt as int,
            last_ln_implied_rate as int,
            total_asset as int,
            rate_scalar as int,
            time_to_expiry as int,
        ),
{
    let exchange_rate: i128 = get_exchange_rate_from_implied_rate(
        last_ln_implied_rate,
        time_to_expiry,
    )?;
    if exchange_rate < WAD {
        return Err(Error::ExchangeRateBelowOne);
    }
    let denominator: i128 = checked_add(total_pt, total_asset)?;
    proof {
        if denominator != 0 && fits(total_pt * WAD) {
            lemma_trunc_div_fits(total_pt * WAD, denominator as int);
        }
    }
    let proportion: i128 = mul_div_down(total_pt, WAD, denominator)?;
    let ln_proportion: i128 = log_proportion_checked(proportion)?;
    proof {
        lemma_log_odds(proportion as int);
        if rate_scalar != 0 {
            lemma_trunc_div_fits(ln_proportion * WAD, rate_scalar as int);
        }
    }
    checked_sub(exchange_rate, mul_div_down(ln_proportion, WAD, rate_scalar)?)
}

pub fn get_ln_implied_rate(
    total_pt: i128,
    total_asset: i128,
    rate_scalar: i128,
    rate_anchor: i128,
    time_to_expiry: u64,
) -> (r: Result<i128, Error>)
    ensures
        r == ln_implied_rate_at(
            total_pt as int,
            total_asset as int,
            rate_scalar as int,
            rate_anchor as int,
            time_to_expiry as int,
        ),
        r is Ok ==> 0 <= r->Ok_0 <= MAX_LN_IMPLIED_RATE,
{
    let exchange_rate: i128 = get_exchange_rate(
        total_pt,
        total_asset,
        rate_scalar,
        rate_anchor,
        0,
    )?;
    proof {
        lemma_ln_wad_sign(exchange_rate as int);
        lemma_ln_wad_range(exchange_rate as int);
        if time_to_expiry > 0 {
            lemma_quotient_nonneg(
                ln_wad(exchange_rate as int),
                IMPLIED_RATE_TIME as int,
                time_to_expiry as int,
            );
        }
    }
    match ln_wad_checked(exchange_rate) {
        Some(ln_rate) => mul_div_down(ln_rate, IMPLIED_RATE_TIME as i128, time_to_expiry as i128),
        None => Err(Error::MathOverflow),
    }
}

} // verus!
