//! What a trade does to the market's reserves, its fees and its rate
//! observations.
use super::checked::{
    checked_add, checked_bounded_reserve_add, checked_sub, difference, grown_reserve,
    lemma_quotient_nonneg, mul_div_down, quotient, sum, BPS_DENOMINATOR, MAX_RESERVE_UNITS,
};
use super::curve::{exchange_rate, get_ln_implied_rate, ln_implied_rate_at, MAX_LN_IMPLIED_RATE};
use super::pricing::{feasible, feasible_purchase, feasible_sale, sy_to_asset, Precompute};
use super::types::{Config, Error, State};
use crate::address::Address;
use crate::arith::{fits, WAD};
use vstd::prelude::*;

verus! {

/// Ceiling on the protocol's share of the swap fee: half. Whatever governance
/// decides, liquidity providers keep the rest.
pub const MAX_PROTOCOL_FEE_SHARE_BPS: i128 = 5_000;

/// The protocol's claim on swap fees.
#[derive(Copy, Clone, Debug, PartialEq, Eq, Structural)]
pub struct ProtocolFees {
    /// Share of the fee, not of the trade.
    pub share_bps: i128,
    /// Where the share goes. Unset until configured.
    pub treasury: Option<Address>,
    /// Shares owed to the treasury and not yet withdrawn.
    pub accrued: i128,
}

impl ProtocolFees {
    pub open spec fn wf(self) -> bool {
        0 <= self.share_bps <= MAX_PROTOCOL_FEE_SHARE_BPS && 0 <= self.accrued
    }
}

/// `state` with new reserves and the rate that the curve implies at them.
pub open spec fn repriced(comp: Precompute, state: State, total_pt: i128, total_sy: i128) -> Result<
    State,
    Error,
> {
    match quotient(total_sy as int, comp.rate as int, WAD as int) {
        Err(e) => Err(e),
        Ok(asset) => match ln_implied_rate_at(
            total_pt as int,
            asset as int,
            comp.rate_scalar as int,
            comp.rate_anchor as int,
            comp.time_to_expiry as int,
        ) {
            Err(e) => Err(e),
            Ok(ln_rate) => Ok(
                State { total_pt, total_sy, last_ln_implied_rate: ln_rate, ..state },
            ),
        },
    }
}

/// The market after it bought `pt_in` for `sy_out`.
pub open spec fn after_sale(
    comp: Precompute,
    state: State,
    pt_in: int,
    sy_out: int,
    min_sy_out: int,
) -> Result<State, Error> {
    if sy_out < min_sy_out {
        Err(Error::SlippageExceeded)
    } else {
        match grown_reserve(state.total_pt as int, pt_in) {
            Err(e) => Err(e),
            Ok(total_pt) => match difference(state.total_sy as int, sy_out) {
                Err(e) => Err(e),
                Ok(total_sy) => repriced(comp, state, total_pt, total_sy),
            },
        }
    }
}

/// The market after it sold `pt_out` for `required_sy`, of which the buyer was
/// ready to pay `sy_in`. The reserves grow by what is charged, never by what
/// was offered.
pub open spec fn after_purchase(
    comp: Precompute,
    state: State,
    sy_in: int,
    pt_out: int,
    required_sy: int,
) -> Result<State, Error> {
    if required_sy > sy_in {
        Err(Error::SlippageExceeded)
    } else {
        match difference(state.total_pt as int, pt_out) {
            Err(e) => Err(e),
            Ok(total_pt) => match grown_reserve(state.total_sy as int, required_sy) {
                Err(e) => Err(e),
                Ok(total_sy) => repriced(comp, state, total_pt, total_sy),
            },
        }
    }
}

/// The fee inside a payout from which it was taken.
pub open spec fn fee_in_payout(sy_out: int, fee_bps: int) -> int {
    sy_out * fee_bps / (BPS_DENOMINATOR - fee_bps)
}

/// The fee inside a charge to which it was added.
pub open spec fn fee_in_charge(sy_in: int, fee_bps: int) -> int {
    sy_in * fee_bps / (BPS_DENOMINATOR + fee_bps)
}

/// What the protocol takes of a fee: its share, unless that would empty the
/// reserve.
pub open spec fn protocol_cut(fee_sy: int, share_bps: int, total_sy: int) -> int {
    let cut = fee_sy * share_bps / (BPS_DENOMINATOR as int);
    if 0 < fee_sy && 0 < cut < total_sy {
        cut
    } else {
        0
    }
}

/// Reserves and accrued fees once the protocol has taken its cut of `fee_sy`.
pub open spec fn after_protocol_cut(state: State, fees: ProtocolFees, fee_sy: int) -> Result<
    (State, ProtocolFees),
    Error,
> {
    let cut = protocol_cut(fee_sy, fees.share_bps as int, state.total_sy as int);
    if fee_sy > 0 && !fits(fee_sy * fees.share_bps) {
        Err(Error::MathOverflow)
    } else {
        match sum(fees.accrued as int, cut) {
            Err(e) => Err(e),
            Ok(accrued) => Ok(
                (
                    State { total_sy: (state.total_sy - cut) as i128, ..state },
                    ProtocolFees { accrued, ..fees },
                ),
            ),
        }
    }
}

/// Reserves once the dust that a flash route left in the pool is part of them.
pub open spec fn with_dust(state: State, pt_dust: int, sy_dust: int) -> Result<State, Error> {
    match (if pt_dust > 0 {
        grown_reserve(state.total_pt as int, pt_dust)
    } else {
        Ok(state.total_pt)
    }) {
        Err(e) => Err(e),
        Ok(total_pt) => match (if sy_dust > 0 {
            grown_reserve(state.total_sy as int, sy_dust)
        } else {
            Ok(state.total_sy)
        }) {
            Err(e) => Err(e),
            Ok(total_sy) => Ok(State { total_pt, total_sy, ..state }),
        },
    }
}

/// Seconds since the last observation; none where the clock stands before it.
pub open spec fn elapsed(state: State, now: u64) -> int {
    if now > state.last_observation {
        now - state.last_observation
    } else {
        0
    }
}

/// Weight of a new observation, by the part of the window that it covers.
pub open spec fn observation_weight(config: Config, state: State, now: u64) -> int {
    elapsed(state, now) * WAD / (config.twap_window as int)
}

/// The averaged log rate after `observed_ln_rate` was seen at `now`. After an
/// idle gap of a full window nothing is left to average with: the average
/// becomes the observation, and warm-up starts again.
pub open spec fn after_observation(
    config: Config,
    state: State,
    observed_ln_rate: i128,
    now: u64,
) -> Result<State, Error> {
    let weight = observation_weight(config, state, now);
    let old_part = state.twap_ln_implied_rate * (WAD - weight);
    let new_part = observed_ln_rate * weight;
    if elapsed(state, now) == 0 {
        Ok(state)
    } else if elapsed(state, now) >= config.twap_window {
        Ok(
            State {
                twap_ln_implied_rate: observed_ln_rate,
                warmup_until: (now + config.twap_window) as u64,
                last_observation: now,
                ..state
            },
        )
    } else if !fits(old_part) || !fits(new_part) {
        Err(Error::MathOverflow)
    } else {
        Ok(
            State {
                twap_ln_implied_rate: (old_part / (WAD as int) + new_part / (WAD as int)) as i128,
                last_observation: now,
                ..state
            },
        )
    }
}

/// The end of a new warm-up, where one is due, is representable.
pub open spec fn warmup_fits(config: Config, state: State, now: u64) -> bool {
    elapsed(state, now) >= config.twap_window ==> now + config.twap_window <= u64::MAX
}

/// The market once a trade's dust is booked and its rate observed.
pub open spec fn settled(
    config: Config,
    state: State,
    pt_dust: int,
    sy_dust: int,
    now: u64,
) -> Result<State, Error> {
    match with_dust(state, pt_dust, sy_dust) {
        Err(e) => Err(e),
        Ok(next) => after_observation(config, next, state.last_ln_implied_rate, now),
    }
}

/// A trade that leaves a feasible market can be booked.
proof fn lemma_feasible_repriced(comp: Precompute, state: State, total_pt: i128, total_sy: i128)
    requires
        comp.wf(),
        feasible(comp, total_pt as int, total_sy as int),
    ensures
        repriced(comp, state, total_pt, total_sy) is Ok,
{
    lemma_quotient_nonneg(total_sy as int, comp.rate as int, WAD as int);
}

/// Whatever sale the search considers feasible, the books can take: it cannot
/// fail on the way out.
pub proof fn lemma_feasible_sale_applies(
    config: Config,
    state: State,
    comp: Precompute,
    pt_in: int,
    min_sy_out: int,
)
    requires
        state.wf(),
        comp.wf(),
        feasible_sale(config, state, comp, pt_in) matches Some(sy_out) && sy_out >= min_sy_out,
    ensures
        ({
            let sy_out = feasible_sale(config, state, comp, pt_in)->0;
            after_sale(comp, state, pt_in, sy_out as int, min_sy_out) matches Ok(next) && {
                &&& next.total_pt == state.total_pt + pt_in
                &&& next.total_sy == state.total_sy - sy_out
                &&& next.seeded() == state.seeded()
            }
        }),
{
    let sy_out = feasible_sale(config, state, comp, pt_in)->0;
    lemma_feasible_repriced(
        comp,
        state,
        (state.total_pt + pt_in) as i128,
        (state.total_sy - sy_out) as i128,
    );
}

/// Whatever purchase the search considers feasible, the books can take: it
/// cannot fail on the way out.
pub proof fn lemma_feasible_purchase_applies(
    config: Config,
    state: State,
    comp: Precompute,
    sy_in: int,
    pt_out: int,
)
    requires
        config.wf(),
        state.wf(),
        comp.wf(),
        feasible_purchase(config, state, comp, pt_out) matches Some(cost) && cost <= sy_in,
    ensures
        ({
            let cost = feasible_purchase(config, state, comp, pt_out)->0;
            after_purchase(comp, state, sy_in, pt_out, cost as int) matches Ok(next) && {
                &&& next.total_pt == state.total_pt - pt_out
                &&& next.total_sy == state.total_sy + cost
                &&& next.seeded() == state.seeded()
            }
        }),
{
    let cost = feasible_purchase(config, state, comp, pt_out)->0;
    let x = exchange_rate(
        state.total_pt as int,
        comp.total_asset as int,
        comp.rate_scalar as int,
        comp.rate_anchor as int,
        pt_out,
    )->Ok_0;
    super::pricing::lemma_price_bounds(config.fee_bps as int, x as int, comp.rate as int, pt_out);
    lemma_feasible_repriced(
        comp,
        state,
        (state.total_pt - pt_out) as i128,
        (state.total_sy + cost) as i128,
    );
}

/// The protocol never takes more than half of a fee.
pub proof fn lemma_cut_at_most_half(fee_sy: int, share_bps: int, total_sy: int)
    requires
        0 <= share_bps <= MAX_PROTOCOL_FEE_SHARE_BPS,
    ensures
        0 <= protocol_cut(fee_sy, share_bps, total_sy),
        fee_sy >= 0 ==> 2 * protocol_cut(fee_sy, share_bps, total_sy) <= fee_sy,
        fee_sy <= 0 ==> protocol_cut(fee_sy, share_bps, total_sy) == 0,
        share_bps == 0 ==> protocol_cut(fee_sy, share_bps, total_sy) == 0,
{
    let n = fee_sy * share_bps;
    assert((0 <= fee_sy ==> 0 <= n <= fee_sy * MAX_PROTOCOL_FEE_SHARE_BPS) && (share_bps == 0 ==> n
        == 0)) by (nonlinear_arith)
        requires
            n == fee_sy * share_bps,
            0 <= share_bps <= MAX_PROTOCOL_FEE_SHARE_BPS,
    ;
}

/// The fee inside a payout or a charge, as the books reckon it, never exceeds
/// the fee that was added to it or taken from it.
pub proof fn lemma_fee_is_part(amount: int, fee_bps: int)
    requires
        0 <= amount,
        0 <= fee_bps < BPS_DENOMINATOR,
    ensures
        0 <= fee_in_charge(amount, fee_bps) <= amount,
        0 <= fee_in_payout(amount, fee_bps) <= amount * fee_bps,
        fee_bps == 0 ==> fee_in_charge(amount, fee_bps) == 0 && fee_in_payout(amount, fee_bps) == 0,
{
    let n = amount * fee_bps;
    let d = BPS_DENOMINATOR + fee_bps;
    let e = BPS_DENOMINATOR - fee_bps;
    assert(0 <= n / d <= amount && 0 <= n / e <= n && (fee_bps == 0 ==> n == 0)) by (
    nonlinear_arith)
        requires
            n == amount * fee_bps,
            d == BPS_DENOMINATOR + fee_bps,
            0 <= amount,
            0 <= fee_bps,
            BPS_DENOMINATOR > 0,
            e > 0,
    ;
}

/// The average stays between what it was and what was observed, but for the
/// two units that rounding may take.
pub proof fn lemma_twap_between(config: Config, state: State, observed_ln_rate: i128, now: u64)
    requires
        0 <= state.twap_ln_implied_rate,
        0 <= observed_ln_rate,
        0 < config.twap_window,
        after_observation(config, state, observed_ln_rate, now) is Ok,
    ensures
        ({
            let next = after_observation(
                config,
                state,
                observed_ln_rate,
                now,
            )->Ok_0.twap_ln_implied_rate;
            let old_rate = state.twap_ln_implied_rate;
            &&& next <= old_rate || next <= observed_ln_rate
            &&& next >= old_rate - 2 || next >= observed_ln_rate - 2
            &&& next >= 0
        }),
{
    let window = config.twap_window as int;
    let weight = observation_weight(config, state, now);
    let e = elapsed(state, now);
    if 0 < e < window {
        assert(0 <= weight < WAD) by (nonlinear_arith)
            requires
                weight == e * WAD / window,
                0 < e < window,
                WAD > 0,
        ;
        let t = state.twap_ln_implied_rate as int;
        let o = observed_ln_rate as int;
        let hi = if t <= o { o } else { t };
        let lo = if t <= o { t } else { o };
        let retained = WAD - weight;
        assert(0 <= t * retained && 0 <= o * weight && lo * WAD <= t * retained + o * weight <= hi
            * WAD) by (nonlinear_arith)
            requires
                0 <= lo <= t <= hi,
                lo <= o <= hi,
                retained + weight == WAD,
                0 <= retained,
                0 <= weight,
        ;
    }
}

/// Books new reserves and the rate that the curve implies at them.
fn reprice(comp: &Precompute, state: &State, total_pt: i128, total_sy: i128) -> (r: Result<
    State,
    Error,
>)
    requires
        comp.wf(),
        0 < total_pt,
        0 <= total_sy,
    ensures
        r == repriced(*comp, *state, total_pt, total_sy),
        r is Ok ==> 0 <= r->Ok_0.last_ln_implied_rate <= MAX_LN_IMPLIED_RATE,
{
    proof {
        if fits(total_sy * comp.rate) {
            lemma_quotient_nonneg(total_sy as int, comp.rate as int, WAD as int);
        }
    }
    let total_asset: i128 = sy_to_asset(total_sy, comp.rate)?;
    let last_ln_implied_rate: i128 = get_ln_implied_rate(
        total_pt,
        total_asset,
        comp.rate_scalar,
        comp.rate_anchor,
        comp.time_to_expiry,
    )?;
    Ok(State { total_pt, total_sy, last_ln_implied_rate, ..*state })
}

/// Books a sale of `pt_in` to the pool for `sy_out`.
pub fn apply_exact_pt_in_trade_with_sy_out(
    comp: &Precompute,
    state: &State,
    pt_in: i128,
    sy_out: i128,
    min_sy_out: i128,
) -> (r: Result<State, Error>)
    requires
        comp.wf(),
        state.wf(),
        0 < pt_in,
    ensures
        r == after_sale(*comp, *state, pt_in as int, sy_out as int, min_sy_out as int),
        r is Ok ==> 0 <= r->Ok_0.last_ln_implied_rate <= MAX_LN_IMPLIED_RATE,
{
    if sy_out < min_sy_out {
        return Err(Error::SlippageExceeded);
    }
    let total_pt: i128 = checked_bounded_reserve_add(state.total_pt, pt_in)?;
    let total_sy: i128 = checked_sub(state.total_sy, sy_out)?;
    reprice(comp, state, total_pt, total_sy)
}

/// Books a purchase of `pt_out` from the pool for `required_sy`.
pub fn apply_exact_sy_in_trade_with_required_sy(
    comp: &Precompute,
    state: &State,
    sy_in: i128,
    pt_out: i128,
    required_sy: i128,
) -> (r: Result<State, Error>)
    requires
        comp.wf(),
        state.wf(),
        pt_out < state.total_pt,
        0 <= required_sy,
    ensures
        r == after_purchase(*comp, *state, sy_in as int, pt_out as int, required_sy as int),
        r is Ok ==> 0 <= r->Ok_0.last_ln_implied_rate <= MAX_LN_IMPLIED_RATE,
{
    if required_sy > sy_in {
        return Err(Error::SlippageExceeded);
    }
    let total_pt: i128 = checked_sub(state.total_pt, pt_out)?;
    let total_sy: i128 = checked_bounded_reserve_add(state.total_sy, required_sy)?;
    reprice(comp, state, total_pt, total_sy)
}

pub fn fee_from_payout(sy_out: i128, fee_bps: i128) -> (fee: i128)
    requires
        0 <= sy_out <= MAX_RESERVE_UNITS,
        0 <= fee_bps < BPS_DENOMINATOR,
    ensures
        fee == fee_in_payout(sy_out as int, fee_bps as int),
        0 <= fee <= MAX_RESERVE_UNITS * BPS_DENOMINATOR,
{
    proof {
        lemma_fee_is_part(sy_out as int, fee_bps as int);
        lemma_fee_product(sy_out as int, fee_bps as int);
        lemma_quotient_nonneg(sy_out as int, fee_bps as int, BPS_DENOMINATOR - fee_bps);
    }
    if fee_bps <= 0 {
        return 0;
    }
    mul_div_down(sy_out, fee_bps, BPS_DENOMINATOR - fee_bps).unwrap()
}

pub fn fee_from_charge(sy_in: i128, fee_bps: i128) -> (fee: i128)
    requires
        0 <= sy_in <= MAX_RESERVE_UNITS,
        0 <= fee_bps < BPS_DENOMINATOR,
    ensures
        fee == fee_in_charge(sy_in as int, fee_bps as int),
        0 <= fee <= MAX_RESERVE_UNITS,
{
    proof {
        lemma_fee_is_part(sy_in as int, fee_bps as int);
        lemma_fee_product(sy_in as int, fee_bps as int);
        lemma_quotient_nonneg(sy_in as int, fee_bps as int, BPS_DENOMINATOR + fee_bps);
    }
    if fee_bps <= 0 {
        return 0;
    }
    mul_div_down(sy_in, fee_bps, BPS_DENOMINATOR + fee_bps).unwrap()
}

proof fn lemma_fee_product(amount: int, fee_bps: int)
    requires
        0 <= amount,
        0 <= fee_bps <= BPS_DENOMINATOR,
    ensures
        0 <= amount * fee_bps <= amount * BPS_DENOMINATOR,
{
    assert(0 <= amount * fee_bps <= amount * BPS_DENOMINATOR) by (nonlinear_arith)
        requires
            0 <= amount,
            0 <= fee_bps <= BPS_DENOMINATOR,
    ;
}

/// Takes the protocol's cut of `fee_sy` out of the reserve and books it as
/// owed to the treasury.
pub fn accrue_protocol_fee(state: &State, fees: &ProtocolFees, fee_sy: i128) -> (r: Result<
    (State, ProtocolFees),
    Error,
>)
    requires
        0 <= fees.share_bps <= MAX_PROTOCOL_FEE_SHARE_BPS,
    ensures
        r == after_protocol_cut(*state, *fees, fee_sy as int),
        r matches Ok(next) ==> (fees.wf() ==> next.1.wf()) && next.1.accrued >= fees.accrued
            && (fees.share_bps == 0 ==> next.1 == *fees) && next.0.total_sy <= state.total_sy && (state.total_sy
            > 0 ==> next.0.total_sy > 0),
{
    proof {
        lemma_cut_at_most_half(fee_sy as int, fees.share_bps as int, state.total_sy as int);
        if fee_sy > 0 {
            let n = fee_sy * fees.share_bps;
            assert(0 <= n && (fees.share_bps == 0 ==> n == 0)) by (nonlinear_arith)
                requires
                    n == fee_sy * fees.share_bps,
                    0 < fee_sy,
                    0 <= fees.share_bps,
            ;
            if fits(n) {
                lemma_quotient_nonneg(
                    fee_sy as int,
                    fees.share_bps as int,
                    BPS_DENOMINATOR as int,
                );
            }
        }
    }
    if fee_sy <= 0 || fees.share_bps <= 0 {
        return Ok((*state, *fees));
    }
    let cut: i128 = mul_div_down(fee_sy, fees.share_bps, BPS_DENOMINATOR)?;
    if cut <= 0 || cut >= state.total_sy {
        return Ok((*state, *fees));
    }
    let total_sy: i128 = checked_sub(state.total_sy, cut)?;
    let accrued: i128 = checked_add(fees.accrued, cut)?;
    Ok((State { total_sy, ..*state }, ProtocolFees { accrued, ..*fees }))
}

/// Books the dust of a flash route, as measured from what the route returned.
pub fn credit_flash_dust(state: &State, pt_dust: i128, sy_dust: i128) -> (r: Result<State, Error>)
    ensures
        r == with_dust(*state, pt_dust as int, sy_dust as int),
{
    let total_pt: i128 = if pt_dust > 0 {
        checked_bounded_reserve_add(state.total_pt, pt_dust)?
    } else {
        state.total_pt
    };
    let total_sy: i128 = if sy_dust > 0 {
        checked_bounded_reserve_add(state.total_sy, sy_dust)?
    } else {
        state.total_sy
    };
    Ok(State { total_pt, total_sy, ..*state })
}

/// Folds a rate observation into the average.
pub fn sync_twap(config: &Config, state: &State, observed_ln_rate: i128, now: u64) -> (r: Result<
    State,
    Error,
>)
    requires
        0 < config.twap_window,
        0 <= state.twap_ln_implied_rate <= MAX_LN_IMPLIED_RATE,
        0 <= observed_ln_rate <= MAX_LN_IMPLIED_RATE,
        warmup_fits(*config, *state, now),
    ensures
        r == after_observation(*config, *state, observed_ln_rate, now),
        r matches Ok(next) ==> 0 <= next.twap_ln_implied_rate <= MAX_LN_IMPLIED_RATE,
{
    let elapsed: u64 = now.saturating_sub(state.last_observation);
    if elapsed == 0 {
        return Ok(*state);
    }
    if elapsed >= config.twap_window {
        return Ok(
            State {
                twap_ln_implied_rate: observed_ln_rate,
                warmup_until: now + config.twap_window,
                last_observation: now,
                ..*state
            },
        );
    }
    proof {
        let w = config.twap_window as int;
        let e = elapsed as int;
        assert(0 <= e * WAD / w <= WAD) by (nonlinear_arith)
            requires
                0 <= e <= w,
                0 < w,
                WAD > 0,
        ;
        lemma_quotient_nonneg(e, WAD as int, w);
        let weight = e * WAD / w;
        if fits(state.twap_ln_implied_rate * (WAD - weight)) {
            lemma_quotient_nonneg(state.twap_ln_implied_rate as int, WAD - weight, WAD as int);
        }
        if fits(observed_ln_rate * weight) {
            lemma_quotient_nonneg(observed_ln_rate as int, weight, WAD as int);
        }
        if after_observation(*config, *state, observed_ln_rate, now) is Ok {
            lemma_twap_between(*config, *state, observed_ln_rate, now);
        }
    }
    let weight: i128 = mul_div_down(elapsed as i128, WAD, config.twap_window as i128)?;
    let retained: i128 = checked_sub(WAD, weight)?;
    let carried: i128 = mul_div_down(state.twap_ln_implied_rate, retained, WAD)?;
    let fresh: i128 = mul_div_down(observed_ln_rate, weight, WAD)?;
    let twap_ln_implied_rate: i128 = checked_add(carried, fresh)?;
    Ok(State { twap_ln_implied_rate, last_observation: now, ..*state })
}

/// Books a trade's dust and observes the rate that it left.
pub fn settle_and_record(
    config: &Config,
    state: &State,
    pt_dust: i128,
    sy_dust: i128,
    now: u64,
) -> (r: Result<State, Error>)
    requires
        0 < config.twap_window,
        state.wf(),
        state.seeded(),
        warmup_fits(*config, *state, now),
    ensures
        r == settled(*config, *state, pt_dust as int, sy_dust as int, now),
        r is Ok ==> r->Ok_0.wf() && r->Ok_0.seeded(),
{
    let credited: State = credit_flash_dust(state, pt_dust, sy_dust)?;
    sync_twap(config, &credited, state.last_ln_implied_rate, now)
}

} // verus!
