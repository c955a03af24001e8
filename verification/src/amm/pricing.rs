//! What single trades cost. Curve amounts are principal-token face and asset
//! value; the pool holds and moves shares of the yield-bearing token, so every
//! price is carried over to shares at the shares' exchange rate, rounded in
//! the pool's favour.
use super::checked::{
    checked_sub, lemma_quotient_nonneg, mul_div_down, mul_div_up, quotient, quotient_up,
    BPS_DENOMINATOR, MAX_RESERVE_UNITS,
};
use super::curve::{
    exchange_rate, get_exchange_rate, get_rate_anchor, get_rate_scalar, rate_anchor_at,
    rate_scalar_at, try_get_exchange_rate, MAX_LN_IMPLIED_RATE,
};
use super::types::{Config, Error, State};
use crate::arith::{ceil_div, fits, lemma_trunc_div_fits, trunc_div, WAD};
use vstd::prelude::*;

verus! {

pub const MAX_SCALAR_ROOT: i128 = 10 * WAD;

pub const MAX_ANCHOR: i128 = 2 * WAD;

/// What every trade on one market at one time has in common.
#[derive(Copy, Clone, Debug, PartialEq, Eq, Structural)]
pub struct Precompute {
    pub rate_scalar: i128,
    pub total_asset: i128,
    pub rate_anchor: i128,
    pub time_to_expiry: u64,
    /// Asset per share, from which `total_asset` follows.
    pub rate: i128,
}

impl Precompute {
    pub open spec fn wf(self) -> bool {
        &&& self.rate_scalar > 0
        &&& self.total_asset > 0
        &&& self.rate_anchor >= 0
        &&& self.time_to_expiry > 0
        &&& self.rate > 0
    }
}

impl Config {
    /// The parameters that `initialize` lets through.
    pub open spec fn wf(self) -> bool {
        &&& 0 < self.scalar_root <= MAX_SCALAR_ROOT
        &&& WAD <= self.initial_anchor <= MAX_ANCHOR
        &&& 0 <= self.fee_bps < BPS_DENOMINATOR
        &&& self.twap_window > 0
    }

    pub fn is_sound(&self) -> (r: bool)
        ensures
            r == self.wf(),
    {
        0 < self.scalar_root && self.scalar_root <= MAX_SCALAR_ROOT && WAD <= self.initial_anchor
            && self.initial_anchor <= MAX_ANCHOR && 0 <= self.fee_bps && self.fee_bps
            < BPS_DENOMINATOR && self.twap_window > 0
    }
}

impl State {
    pub open spec fn seeded(self) -> bool {
        self.total_lp > 0 && self.total_pt > 0 && self.total_sy > 0
    }

    pub open spec fn empty(self) -> bool {
        self.total_lp == 0 && self.total_pt == 0 && self.total_sy == 0
    }

    /// Both reserves and the liquidity shares are there, or none of them is.
    pub open spec fn wf(self) -> bool {
        &&& self.seeded() || self.empty()
        &&& self.total_pt <= MAX_RESERVE_UNITS
        &&& self.total_sy <= MAX_RESERVE_UNITS
        &&& 0 <= self.last_ln_implied_rate <= MAX_LN_IMPLIED_RATE
        &&& 0 <= self.twap_ln_implied_rate <= MAX_LN_IMPLIED_RATE
    }

    pub fn is_sound(&self) -> (r: bool)
        ensures
            r == self.wf(),
    {
        let seeded: bool = self.total_lp > 0 && self.total_pt > 0 && self.total_sy > 0;
        let empty: bool = self.total_lp == 0 && self.total_pt == 0 && self.total_sy == 0;
        (seeded || empty) && self.total_pt <= MAX_RESERVE_UNITS && self.total_sy
            <= MAX_RESERVE_UNITS && 0 <= self.last_ln_implied_rate && self.last_ln_implied_rate
            <= MAX_LN_IMPLIED_RATE && 0 <= self.twap_ln_implied_rate && self.twap_ln_implied_rate
            <= MAX_LN_IMPLIED_RATE
    }
}

/// Asset value of `sy_amount` shares.
pub fn sy_to_asset(sy_amount: i128, rate: i128) -> (r: Result<i128, Error>)
    ensures
        r == quotient(sy_amount as int, rate as int, WAD as int),
{
    mul_div_down(sy_amount, rate, WAD)
}

/// Shares worth `asset_amount`, rounded down: what the pool may pay out for it.
pub fn asset_to_sy_down(asset_amount: i128, rate: i128) -> (r: Result<i128, Error>)
    requires
        rate > 0,
    ensures
        r == quotient(asset_amount as int, WAD as int, rate as int),
{
    mul_div_down(asset_amount, WAD, rate)
}

/// Shares worth `asset_amount`, rounded up: what the pool must take in for it.
pub fn asset_to_sy_up(asset_amount: i128, rate: i128) -> (r: Result<i128, Error>)
    requires
        rate > 0,
    ensures
        r == quotient_up(asset_amount as int, WAD as int, rate as int),
{
    mul_div_up(asset_amount, WAD, rate)
}

/// Shares that have to be split so that at least `face` is minted.
pub fn shares_in_for_face_up(face: i128, rate: i128) -> (r: Result<i128, Error>)
    requires
        rate > 0,
    ensures
        r == quotient_up(face as int, WAD as int, rate as int),
{
    mul_div_up(face, WAD, rate)
}

/// Shares that recombining `face` gives back.
pub fn shares_out_for_face_down(face: i128, rate: i128) -> (r: Result<i128, Error>)
    requires
        rate > 0,
    ensures
        r == quotient(face as int, WAD as int, rate as int),
{
    mul_div_down(face, WAD, rate)
}

/// Seconds left until `maturity`, while there are any.
pub open spec fn time_left(maturity: u64, now: u64) -> Result<u64, Error> {
    if now >= maturity {
        Err(Error::MarketMatured)
    } else {
        Ok((maturity - now) as u64)
    }
}

pub fn time_to_expiry(maturity: u64, now: u64) -> (r: Result<u64, Error>)
    ensures
        r == time_left(maturity, now),
{
    match maturity.checked_sub(now) {
        Some(remaining) => if remaining > 0 {
            Ok(remaining)
        } else {
            Err(Error::MarketMatured)
        },
        None => Err(Error::MarketMatured),
    }
}

/// The curve that `state` trades on at time `now`, with shares at `rate`.
pub open spec fn precomputed(config: Config, state: State, now: u64, rate: i128) -> Result<
    Precompute,
    Error,
> {
    match time_left(config.maturity, now) {
        Err(e) => Err(e),
        Ok(time) => match rate_scalar_at(config.scalar_root as int, time as int) {
            Err(e) => Err(e),
            Ok(scalar) => if rate <= 0 {
                Err(Error::InvalidSyRate)
            } else {
                match quotient(state.total_sy as int, rate as int, WAD as int) {
                    Err(e) => Err(e),
                    Ok(asset) => if state.total_pt <= 0 || asset <= 0 {
                        Err(Error::MarketNotSeeded)
                    } else {
                        match rate_anchor_at(
                            state.total_pt as int,
                            state.last_ln_implied_rate as int,
                            asset as int,
                            scalar as int,
                            time as int,
                        ) {
                            Err(e) => Err(e),
                            Ok(anchor) => Ok(
                                Precompute {
                                    rate_scalar: scalar,
                                    total_asset: asset,
                                    rate_anchor: anchor,
                                    time_to_expiry: time,
                                    rate,
                                },
                            ),
                        }
                    },
                }
            },
        },
    }
}

pub fn precompute(config: &Config, state: &State, now: u64, rate: i128) -> (r: Result<
    Precompute,
    Error,
>)
    ensures
        r == precomputed(*config, *state, now, rate),
        r is Ok ==> r->Ok_0.wf(),
{
    let time_to_expiry: u64 = time_to_expiry(config.maturity, now)?;
    let rate_scalar: i128 = get_rate_scalar(config.scalar_root, time_to_expiry)?;
    if rate <= 0 {
        return Err(Error::InvalidSyRate);
    }
    let total_asset: i128 = sy_to_asset(state.total_sy, rate)?;
    if state.total_pt <= 0 || total_asset <= 0 {
        return Err(Error::MarketNotSeeded);
    }
    let rate_anchor: i128 = get_rate_anchor(
        state.total_pt,
        state.last_ln_implied_rate,
        total_asset,
        rate_scalar,
        time_to_expiry,
    )?;
    Ok(Precompute { rate_scalar, total_asset, rate_anchor, time_to_expiry, rate })
}

/// Shares paid out for selling `pt_in` at exchange rate `x`: the asset value
/// less the fee, every step rounded down but the fee's own floor.
pub open spec fn sale_proceeds(fee_bps: int, x: int, rate: int, pt_in: int) -> int {
    let gross = pt_in * WAD / x;
    let net = gross - gross * fee_bps / (BPS_DENOMINATOR as int);
    net * WAD / rate
}

/// Shares charged for buying `pt_out` at exchange rate `x`: the asset value
/// with the fee on top, every step rounded up.
pub open spec fn purchase_cost(fee_bps: int, x: int, rate: int, pt_out: int) -> int {
    let gross = ceil_div(pt_out * WAD, x);
    let total = gross + ceil_div(gross * fee_bps, BPS_DENOMINATOR as int);
    ceil_div(total * WAD, rate)
}

/// The curve can price a market with these reserves, and they are within
/// bounds.
pub open spec fn feasible(comp: Precompute, total_pt: int, total_sy: int) -> bool {
    &&& 0 < total_pt <= MAX_RESERVE_UNITS
    &&& 0 < total_sy <= MAX_RESERVE_UNITS
    &&& fits(total_sy * comp.rate)
    &&& total_sy * comp.rate / (WAD as int) > 0
    &&& exchange_rate(
        total_pt,
        total_sy * comp.rate / (WAD as int),
        comp.rate_scalar as int,
        comp.rate_anchor as int,
        0,
    ) is Ok
}

/// Shares that the pool pays for `pt_in` principal tokens.
pub open spec fn sy_out_for_pt_in(
    config: Config,
    state: State,
    comp: Precompute,
    pt_in: int,
) -> Result<i128, Error> {
    match exchange_rate(
        state.total_pt as int,
        comp.total_asset as int,
        comp.rate_scalar as int,
        comp.rate_anchor as int,
        -pt_in,
    ) {
        Err(e) => Err(e),
        Ok(x) => {
            let sy_out = sale_proceeds(config.fee_bps as int, x as int, comp.rate as int, pt_in);
            if trunc_div(pt_in * WAD, x as int) < 0 {
                Err(Error::MathOverflow)
            } else if pt_in > 0 && 0 < sy_out < state.total_sy {
                Ok(sy_out as i128)
            } else {
                Err(Error::InsufficientLiquidity)
            }
        },
    }
}

/// [`sy_out_for_pt_in`], for a sale that leaves a market the curve can price.
pub open spec fn feasible_sale(
    config: Config,
    state: State,
    comp: Precompute,
    pt_in: int,
) -> Option<i128> {
    match sy_out_for_pt_in(config, state, comp, pt_in) {
        Err(_) => None,
        Ok(sy_out) => if pt_in > 0 && feasible(
            comp,
            state.total_pt + pt_in,
            state.total_sy - sy_out,
        ) {
            Some(sy_out)
        } else {
            None
        },
    }
}

/// What is quoted for selling `pt_in` principal tokens: [`sy_out_for_pt_in`], where
/// the sale leaves a market the curve can price.
pub open spec fn sale_quote(
    config: Config,
    state: State,
    comp: Precompute,
    pt_in: int,
) -> Result<i128, Error> {
    match sy_out_for_pt_in(config, state, comp, pt_in) {
        Err(e) => Err(e),
        Ok(sy_out) => if feasible(comp, state.total_pt + pt_in, state.total_sy - sy_out) {
            Ok(sy_out)
        } else {
            Err(Error::TradeNotFound)
        },
    }
}

/// Shares that the pool charges for `pt_out` principal tokens, for a purchase
/// that leaves a market the curve can price.
pub open spec fn feasible_purchase(
    config: Config,
    state: State,
    comp: Precompute,
    pt_out: int,
) -> Option<i128> {
    if !(0 < pt_out < state.total_pt) {
        None
    } else {
        match exchange_rate(
            state.total_pt as int,
            comp.total_asset as int,
            comp.rate_scalar as int,
            comp.rate_anchor as int,
            pt_out,
        ) {
            Err(_) => None,
            Ok(x) => {
                let cost = purchase_cost(config.fee_bps as int, x as int, comp.rate as int, pt_out);
                if feasible(comp, state.total_pt - pt_out, state.total_sy + cost) {
                    Some(cost as i128)
                } else {
                    None
                }
            },
        }
    }
}

proof fn lemma_scaled_share(a: int, x: int)
    requires
        0 <= a,
        x >= WAD,
    ensures
        0 <= a * WAD / x <= a,
        ceil_div(a * WAD, x) <= a,
        a > 0 ==> ceil_div(a * WAD, x) > 0,
{
    let n = a * WAD;
    assert(0 <= n / x <= a && (n % x != 0 ==> n / x < a)) by (nonlinear_arith)
        requires
            n == a * WAD,
            x >= WAD,
            WAD > 0,
            a >= 0,
    ;
    assert(n > 0 && n % x == 0 ==> n / x > 0) by (nonlinear_arith)
        requires
            n >= 0,
            x > 0,
    ;
}

proof fn lemma_fee_share(a: int, bps: int)
    requires
        0 <= a,
        0 <= bps < BPS_DENOMINATOR,
    ensures
        0 <= a * bps <= a * BPS_DENOMINATOR,
        0 <= a * bps / (BPS_DENOMINATOR as int) <= a,
        0 <= ceil_div(a * bps, BPS_DENOMINATOR as int) <= a,
{
    let n = a * bps;
    assert(0 <= n <= a * BPS_DENOMINATOR) by (nonlinear_arith)
        requires
            n == a * bps,
            0 <= a,
            0 <= bps <= BPS_DENOMINATOR,
    ;
}

/// A sale never pays more shares than the tokens' face is worth, and a purchase
/// at most twice that.
pub proof fn lemma_price_bounds(fee_bps: int, x: int, rate: int, pt: int)
    requires
        0 <= fee_bps < BPS_DENOMINATOR,
        x >= WAD,
        rate > 0,
        pt >= 0,
    ensures
        0 <= sale_proceeds(fee_bps, x, rate, pt) <= pt * WAD / rate,
        0 <= purchase_cost(fee_bps, x, rate, pt) <= 2 * pt * WAD,
        pt > 0 ==> purchase_cost(fee_bps, x, rate, pt) > 0,
{
    lemma_scaled_share(pt, x);
    let gross = pt * WAD / x;
    lemma_fee_share(gross, fee_bps);
    let net = gross - gross * fee_bps / (BPS_DENOMINATOR as int);
    assert(0 <= net * WAD / rate <= pt * WAD / rate) by (nonlinear_arith)
        requires
            0 <= net <= pt,
            rate > 0,
            WAD > 0,
    ;
    let gross_up = ceil_div(pt * WAD, x);
    lemma_fee_share(gross_up, fee_bps);
    let total = gross_up + ceil_div(gross_up * fee_bps, BPS_DENOMINATOR as int);
    let n = total * WAD;
    assert(0 <= ceil_div(n, rate) <= n && (n > 0 ==> ceil_div(n, rate) > 0)) by {
        assert(0 <= n / rate <= n && (n % rate != 0 ==> n / rate < n) && (n > 0 && n % rate == 0
            ==> n / rate > 0)) by (nonlinear_arith)
            requires
                n >= 0,
                rate > 0,
        ;
    }
}

/// A principal token never costs more than its face and the fee on it: it is
/// worth one unit of the asset at maturity, and not more before.
pub proof fn lemma_purchase_at_most_par_and_fee(fee_bps: int, x: int, rate: int, pt_out: int)
    requires
        0 <= fee_bps < BPS_DENOMINATOR,
        x >= WAD,
        rate > 0,
        pt_out >= 0,
    ensures
        purchase_cost(fee_bps, x, rate, pt_out) <= ceil_div(
            (pt_out + ceil_div(pt_out * fee_bps, BPS_DENOMINATOR as int)) * WAD,
            rate,
        ),
{
    lemma_scaled_share(pt_out, x);
    let gross = ceil_div(pt_out * WAD, x);
    lemma_fee_share(gross, fee_bps);
    lemma_fee_share(pt_out, fee_bps);
    let bps = BPS_DENOMINATOR as int;
    let part = gross * fee_bps;
    let whole = pt_out * fee_bps;
    assert(part <= whole) by (nonlinear_arith)
        requires
            part == gross * fee_bps,
            whole == pt_out * fee_bps,
            gross <= pt_out,
            fee_bps >= 0,
    ;
    let charged = (gross + ceil_div(part, bps)) * WAD;
    let limit = (pt_out + ceil_div(whole, bps)) * WAD;
    assert(charged / rate <= limit / rate && (charged / rate == limit / rate && limit % rate == 0
        ==> charged % rate == 0)) by (nonlinear_arith)
        requires
            0 <= charged <= limit,
            rate > 0,
    ;
}

/// What a feasible purchase says of the market that it leaves.
pub proof fn lemma_feasible_purchase(config: Config, state: State, comp: Precompute, pt_out: int)
    requires
        config.wf(),
        state.wf(),
        comp.wf(),
        feasible_purchase(config, state, comp, pt_out) is Some,
    ensures
        0 < pt_out < state.total_pt,
        0 < feasible_purchase(config, state, comp, pt_out)->0,
        state.total_sy + feasible_purchase(config, state, comp, pt_out)->0 <= MAX_RESERVE_UNITS,
{
    let x = exchange_rate(
        state.total_pt as int,
        comp.total_asset as int,
        comp.rate_scalar as int,
        comp.rate_anchor as int,
        pt_out,
    )->Ok_0;
    lemma_price_bounds(config.fee_bps as int, x as int, comp.rate as int, pt_out);
}

/// Whether a trade may leave the market with these reserves.
pub fn post_trade_feasible(comp: &Precompute, new_total_pt: i128, new_total_sy: i128) -> (r: bool)
    requires
        comp.wf(),
    ensures
        r == feasible(*comp, new_total_pt as int, new_total_sy as int),
{
    if new_total_pt <= 0 || new_total_sy <= 0 || new_total_pt > MAX_RESERVE_UNITS || new_total_sy
        > MAX_RESERVE_UNITS {
        return false;
    }
    proof {
        let n = new_total_sy * comp.rate;
        assert(n >= 0) by (nonlinear_arith)
            requires
                n == new_total_sy * comp.rate,
                new_total_sy > 0,
                comp.rate > 0,
        ;
    }
    match new_total_sy.checked_mul(comp.rate) {
        None => false,
        Some(scaled) => {
            let new_total_asset: i128 = scaled / WAD;
            if new_total_asset <= 0 {
                return false;
            }
            try_get_exchange_rate(
                new_total_pt,
                new_total_asset,
                comp.rate_scalar,
                comp.rate_anchor,
                0,
            ).is_some()
        },
    }
}

/// Shares for selling `pt_in` principal tokens.
pub fn exact_pt_in_sy_out(config: &Config, state: &State, comp: &Precompute, pt_in: i128) -> (r:
    Result<i128, Error>)
    requires
        config.wf(),
        state.wf(),
        comp.wf(),
    ensures
        r == sy_out_for_pt_in(*config, *state, *comp, pt_in as int),
        r is Ok ==> 0 < pt_in && fits((state.total_pt + pt_in) * WAD),
{
    if pt_in == i128::MIN {
        return Err(Error::MathOverflow);
    }
    let exchange_rate: i128 = get_exchange_rate(
        state.total_pt,
        comp.total_asset,
        comp.rate_scalar,
        comp.rate_anchor,
        -pt_in,
    )?;
    proof {
        let x = exchange_rate as int;
        lemma_trunc_div_fits(pt_in * WAD, x);
        if pt_in >= 0 {
            lemma_scaled_share(pt_in as int, x);
            lemma_quotient_nonneg(pt_in as int, WAD as int, x);
            let gross = pt_in * WAD / x;
            lemma_fee_share(gross, config.fee_bps as int);
            lemma_quotient_nonneg(gross, config.fee_bps as int, BPS_DENOMINATOR as int);
            let net = gross - gross * config.fee_bps / (BPS_DENOMINATOR as int);
            lemma_quotient_nonneg(net, WAD as int, comp.rate as int);
        }
    }
    let pre_fee_asset_out: i128 = mul_div_down(pt_in, WAD, exchange_rate)?;
    if pre_fee_asset_out < 0 {
        return Err(Error::MathOverflow);
    }
    if pt_in <= 0 {
        return Err(Error::InsufficientLiquidity);
    }
    let fee: i128 = mul_div_down(pre_fee_asset_out, config.fee_bps, BPS_DENOMINATOR)?;
    let asset_out: i128 = checked_sub(pre_fee_asset_out, fee)?;
    let sy_out: i128 = asset_to_sy_down(asset_out, comp.rate)?;
    if sy_out <= 0 || sy_out >= state.total_sy {
        return Err(Error::InsufficientLiquidity);
    }
    Ok(sy_out)
}

/// [`exact_pt_in_sy_out`], where the sale leaves a market the curve can price.
pub fn feasible_pt_in_sy_out(config: &Config, state: &State, comp: &Precompute, pt_in: i128) -> (r:
    Result<i128, Error>)
    requires
        config.wf(),
        state.wf(),
        comp.wf(),
    ensures
        r == sale_quote(*config, *state, *comp, pt_in as int),
{
    let sy_out: i128 = exact_pt_in_sy_out(config, state, comp, pt_in)?;
    if post_trade_feasible(comp, state.total_pt + pt_in, state.total_sy - sy_out) {
        Ok(sy_out)
    } else {
        Err(Error::TradeNotFound)
    }
}

/// [`feasible_pt_in_sy_out`] for a candidate trade, which simply is no candidate
/// where there is no price for it.
pub fn try_exact_pt_in_sy_out(config: &Config, state: &State, comp: &Precompute, pt_in: i128) -> (r:
    Option<i128>)
    requires
        config.wf(),
        state.wf(),
        comp.wf(),
    ensures
        r == feasible_sale(*config, *state, *comp, pt_in as int),
{
    match feasible_pt_in_sy_out(config, state, comp, pt_in) {
        Err(_) => None,
        Ok(sy_out) => Some(sy_out),
    }
}

/// Shares charged for `pt_out` principal tokens at the given exchange rate.
pub fn charge_for_pt_out(fee_bps: i128, exchange_rate: i128, rate: i128, pt_out: i128) -> (r: i128)
    requires
        0 <= fee_bps < BPS_DENOMINATOR,
        exchange_rate >= WAD,
        rate > 0,
        0 < pt_out <= MAX_RESERVE_UNITS,
    ensures
        r == purchase_cost(fee_bps as int, exchange_rate as int, rate as int, pt_out as int),
        0 < r <= 2 * pt_out * WAD,
{
    proof {
        let x = exchange_rate as int;
        lemma_scaled_share(pt_out as int, x);
        lemma_quotient_nonneg(pt_out as int, WAD as int, x);
        let gross = ceil_div(pt_out * WAD, x);
        lemma_fee_share(gross, fee_bps as int);
        lemma_quotient_nonneg(gross, fee_bps as int, BPS_DENOMINATOR as int);
        let total = gross + ceil_div(gross * fee_bps, BPS_DENOMINATOR as int);
        lemma_quotient_nonneg(total, WAD as int, rate as int);
        lemma_price_bounds(fee_bps as int, x, rate as int, pt_out as int);
    }
    let pre_fee_asset_in: i128 = mul_div_up(pt_out, WAD, exchange_rate).unwrap();
    let fee: i128 = mul_div_up(pre_fee_asset_in, fee_bps, BPS_DENOMINATOR).unwrap();
    asset_to_sy_up(pre_fee_asset_in + fee, rate).unwrap()
}

pub fn try_exact_pt_out_sy_in(config: &Config, state: &State, comp: &Precompute, pt_out: i128) -> (
r: Option<i128>)
    requires
        config.wf(),
        state.wf(),
        comp.wf(),
    ensures
        r == feasible_purchase(*config, *state, *comp, pt_out as int),
{
    if pt_out <= 0 || pt_out >= state.total_pt {
        return None;
    }
    match try_get_exchange_rate(
        state.total_pt,
        comp.total_asset,
        comp.rate_scalar,
        comp.rate_anchor,
        pt_out,
    ) {
        None => None,
        Some(exchange_rate) => {
            let sy_required: i128 = charge_for_pt_out(
                config.fee_bps,
                exchange_rate,
                comp.rate,
                pt_out,
            );
            if post_trade_feasible(
                comp,
                state.total_pt - pt_out,
                state.total_sy + sy_required,
            ) {
                Some(sy_required)
            } else {
                None
            }
        },
    }
}

pub fn exact_pt_out_sy_in(config: &Config, state: &State, comp: &Precompute, pt_out: i128) -> (r:
    Result<i128, Error>)
    requires
        config.wf(),
        state.wf(),
        comp.wf(),
    ensures
        r == feasible_purchase(*config, *state, *comp, pt_out as int).ok_or(Error::TradeNotFound),
{
    match try_exact_pt_out_sy_in(config, state, comp, pt_out) {
        Some(value) => Ok(value),
        None => Err(Error::TradeNotFound),
    }
}

} // verus!
