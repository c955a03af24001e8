//! What trades leave in the books, said of the books before and after.
use super::checked::lemma_quotient_nonneg;
use super::curve::{exchange_rate, lemma_ln_implied_rate_range};
use super::exponential::exp_wad;
use super::logarithm::ln_wad;
use super::market::AmmMarket;
use super::price_laws::{
    lemma_loaded_market, lemma_purchase_is_the_most_for_its_price, lemma_rate_is_on_curve,
    lemma_sale_pays_its_price, lemma_yt_purchase_is_the_most_for_its_price,
    lemma_yt_sale_pays_its_price, market_curve, stands_with,
};
use super::pricing::Precompute;
use super::swaps::{YtPurchase, YtSale};
use super::trade::{
    after_observation, after_protocol_cut, fee_in_charge, fee_in_payout, lemma_fee_is_part,
    repriced, with_dust, ProtocolFees,
};
use super::types::{Config, Error, State};
use super::yields::yearly_yield;
use crate::address::Address;
use crate::arith::{fits, trunc_div, WAD};
use crate::rounding::{
    lemma_rounded_down, lemma_rounded_toward_zero, rounded_down, rounded_toward_zero,
};
use vstd::prelude::*;

verus! {

/// `ln_rate` is the yearly log rate at which a market with these reserves stands
/// on the curve, `time` seconds before maturity.
pub open spec fn implied_at(
    ln_rate: int,
    pt: int,
    sy: int,
    scalar: int,
    anchor: int,
    rate: int,
    time: int,
) -> bool {
    exists|x: int, asset: int|
        #[trigger] stands_with(x, asset, pt, sy, scalar, anchor, rate) && rounded_down(
            ln_rate,
            ln_wad(x) * 31_536_000,
            time,
        )
}

/// The average of `old` and `seen` that gives `seen` the weight `weight`, in parts of a wad,
/// is the sum of `kept` and `added`.
pub open spec fn averaged(
    old_rate: int,
    seen: int,
    weight: int,
    kept: int,
    added: int,
) -> bool {
    &&& rounded_down(kept, old_rate * (WAD - weight), WAD as int)
    &&& rounded_down(added, seen * weight, WAD as int)
}

/// `next` has observed the rate `seen` at `now`: a new observation counts for as much of
/// the average as the time since the last one makes of the window. After a full
/// window it is all that counts, and the average warms up anew; where no time has
/// passed nothing changes.
pub open spec fn observed(state: State, next: State, seen: int, now: u64, window: u64) -> bool {
    let passed = now - state.last_observation;
    if passed <= 0 {
        &&& next.twap_ln_implied_rate == state.twap_ln_implied_rate
        &&& next.last_observation == state.last_observation
        &&& next.warmup_until == state.warmup_until
    } else if passed >= window {
        &&& next.twap_ln_implied_rate == seen
        &&& next.last_observation == now
        &&& next.warmup_until == now + window
    } else {
        &&& next.last_observation == now
        &&& next.warmup_until == state.warmup_until
        &&& exists|weight: int, kept: int, added: int|
            {
                &&& rounded_down(weight, passed * WAD, window as int)
                &&& #[trigger] averaged(
                    state.twap_ln_implied_rate as int,
                    seen,
                    weight,
                    kept,
                    added,
                )
                &&& next.twap_ln_implied_rate == kept + added
            }
    }
}

/// The protocol takes `taken` of a fee of `fee` shares: its share of it, unless that is
/// nothing or as much as all of the reserve `sy`.
pub open spec fn takes(taken: int, fee: int, share_bps: int, sy: int) -> bool {
    exists|part: int|
        #[trigger] rounded_down(part, fee * share_bps, 10_000) && taken == (if 0 < part < sy {
            part
        } else {
            0
        })
}

/// The books after a trade whose fee is `fee` shares, which left `pt` principal tokens and
/// `sy` shares on the curve: the protocol has taken its share of the fee, the rate
/// is the one at the point that the trade left, and it has been observed.
pub open spec fn booked(
    market: AmmMarket,
    now: u64,
    sy_rate: int,
    pt: int,
    sy: int,
    fee: int,
    next: State,
    fees: ProtocolFees,
) -> bool {
    let state = market.state->0;
    let config = market.config->0;
    &&& next.total_pt == pt
    &&& next.total_sy == sy - (fees.accrued - market.fees.accrued)
    &&& next.total_lp == state.total_lp
    &&& takes(fees.accrued - market.fees.accrued, fee, market.fees.share_bps as int, sy)
    &&& fees.share_bps == market.fees.share_bps
    &&& fees.treasury == market.fees.treasury
    &&& rate_left(market, now, sy_rate, pt, sy, next.last_ln_implied_rate as int)
    &&& observed(state, next, next.last_ln_implied_rate as int, now, config.twap_window)
}

/// `ln_rate` is the rate at which reserves of `pt` principal tokens and `sy` shares stand on
/// the curve that the market traded on.
pub open spec fn rate_left(
    market: AmmMarket,
    now: u64,
    sy_rate: int,
    pt: int,
    sy: int,
    ln_rate: int,
) -> bool {
    exists|scalar: int, asset: int, anchor: int|
        #[trigger] market_curve(market, now, sy_rate, scalar, asset, anchor) && implied_at(
            ln_rate,
            pt,
            sy,
            scalar,
            anchor,
            sy_rate,
            market.config->0.maturity - now,
        )
}

proof fn lemma_implied_at(comp: Precompute, state: State, pt: i128, sy: i128)
    requires
        comp.wf(),
        0 < pt <= 1_000_000_000_000_000_000,
        0 < sy,
        repriced(comp, state, pt, sy) is Ok,
    ensures
        ({
            let next = repriced(comp, state, pt, sy)->Ok_0;
            &&& implied_at(
                next.last_ln_implied_rate as int,
                pt as int,
                sy as int,
                comp.rate_scalar as int,
                comp.rate_anchor as int,
                comp.rate as int,
                comp.time_to_expiry as int,
            )
            &&& next == State {
                total_pt: pt,
                total_sy: sy,
                last_ln_implied_rate: next.last_ln_implied_rate,
                ..state
            }
        }),
{
    let rate = comp.rate as int;
    let scalar = comp.rate_scalar as int;
    let anchor = comp.rate_anchor as int;
    let time = comp.time_to_expiry as int;
    let n = sy * rate;
    assert(n > 0) by (nonlinear_arith)
        requires
            n == sy * rate,
            sy > 0,
            rate > 0,
    ;
    lemma_quotient_nonneg(sy as int, rate, WAD as int);
    let asset = n / (WAD as int);
    lemma_rounded_down(asset, n, WAD as int);
    let x = exchange_rate(pt as int, asset, scalar, anchor, 0)->Ok_0 as int;
    assert(pt * WAD / (pt as int) == WAD) by (nonlinear_arith)
        requires
            pt > 0,
    ;
    lemma_rate_is_on_curve(pt as int, asset, scalar, anchor, 0, x);
    lemma_ln_implied_rate_range(pt as int, asset, scalar, anchor, time);
    let ln_rate = ln_wad(x) * 31_536_000 / time;
    lemma_rounded_down(ln_rate, ln_wad(x) * 31_536_000, time);
    assert(asset > 0);
    assert(stands_with(x, asset, pt as int, sy as int, scalar, anchor, rate));
}

proof fn lemma_observed(config: Config, state: State, seen: i128, now: u64)
    requires
        config.wf(),
        0 <= state.twap_ln_implied_rate,
        0 <= seen,
        state.last_observation + config.twap_window <= now ==> now + config.twap_window
            <= u64::MAX,
        after_observation(config, state, seen, now) is Ok,
    ensures
        observed(
            state,
            after_observation(config, state, seen, now)->Ok_0,
            seen as int,
            now,
            config.twap_window,
        ),
        ({
            let next = after_observation(config, state, seen, now)->Ok_0;
            next == State {
                twap_ln_implied_rate: next.twap_ln_implied_rate,
                last_observation: next.last_observation,
                warmup_until: next.warmup_until,
                ..state
            }
        }),
{
    let passed = now - state.last_observation;
    let window = config.twap_window as int;
    if 0 < passed < window {
        let weight = passed * WAD / window;
        lemma_rounded_down(weight, passed * WAD, window);
        assert(0 <= weight <= WAD) by (nonlinear_arith)
            requires
                weight == passed * WAD / window,
                0 < passed < window,
                WAD > 0,
        ;
        let a = state.twap_ln_implied_rate * (WAD - weight);
        let b = seen * weight;
        assert(a >= 0 && b >= 0) by (nonlinear_arith)
            requires
                a == state.twap_ln_implied_rate * (WAD - weight),
                b == seen * weight,
                0 <= state.twap_ln_implied_rate,
                0 <= seen,
                0 <= weight <= WAD,
        ;
        let kept = a / (WAD as int);
        let added = b / (WAD as int);
        lemma_rounded_down(kept, a, WAD as int);
        lemma_rounded_down(added, b, WAD as int);
        assert(averaged(
            state.twap_ln_implied_rate as int,
            seen as int,
            weight,
            kept,
            added,
        ));
    }
}

proof fn lemma_takes(state: State, fees: ProtocolFees, fee: int)
    requires
        fees.wf(),
        0 <= fee,
        0 < state.total_sy,
        after_protocol_cut(state, fees, fee) is Ok,
    ensures
        ({
            let (next, after) = after_protocol_cut(state, fees, fee)->Ok_0;
            let taken = after.accrued - fees.accrued;
            &&& takes(taken, fee, fees.share_bps as int, state.total_sy as int)
            &&& next == State { total_sy: next.total_sy, ..state }
            &&& next.total_sy == state.total_sy - taken
            &&& after == ProtocolFees { accrued: after.accrued, ..fees }
        }),
{
    let part = fee * fees.share_bps / 10_000;
    lemma_rounded_down(part, fee * fees.share_bps, 10_000);
    if fee == 0 {
        assert(0 * fees.share_bps == 0) by (nonlinear_arith);
    }
    assert(rounded_down(part, fee * fees.share_bps, 10_000));
}

/// What a sale of principal tokens leaves in the books. The fee is the part of
/// the payout before it was taken off that the fee rate says.
pub proof fn lemma_sale_is_booked(
    market: AmmMarket,
    now: u64,
    sy_rate: i128,
    pt_in: i128,
    min_sy_out: i128,
) -> (fee: int)
    requires
        market.wf(),
        market.warmup_fits(now),
        market.pt_for_sy(now, sy_rate, pt_in, min_sy_out) is Ok,
    ensures
        ({
            let (sy_out, next, fees) = market.pt_for_sy(now, sy_rate, pt_in, min_sy_out)->Ok_0;
            let state = market.state->0;
            let fee_bps = market.config->0.fee_bps as int;
            &&& rounded_down(fee, sy_out * fee_bps, 10_000 - fee_bps)
            &&& booked(
                market,
                now,
                sy_rate as int,
                state.total_pt + pt_in,
                state.total_sy - sy_out,
                fee,
                next,
                fees,
            )
        }),
{
    let (config, state, comp) = market.open_market(pt_in as int, now, sy_rate)->Ok_0;
    let (sy_out, next, fees) = market.pt_for_sy(now, sy_rate, pt_in, min_sy_out)->Ok_0;
    lemma_loaded_market(market, pt_in as int, now, sy_rate);
    lemma_sale_pays_its_price(market, now, sy_rate, pt_in, min_sy_out);
    let pt = (state.total_pt + pt_in) as i128;
    let sy = (state.total_sy - sy_out) as i128;
    lemma_implied_at(comp, state, pt, sy);
    let sold = repriced(comp, state, pt, sy)->Ok_0;
    let fee_bps = config.fee_bps as int;
    let fee = fee_in_payout(sy_out as int, fee_bps);
    lemma_fee_is_part(sy_out as int, fee_bps);
    lemma_rounded_down(fee, sy_out * fee_bps, 10_000 - fee_bps);
    lemma_takes(sold, market.fees, fee);
    let cut = after_protocol_cut(sold, market.fees, fee)->Ok_0.0;
    lemma_rate_nonneg(comp, state, pt, sy);
    lemma_observed(config, cut, sold.last_ln_implied_rate, now);
    fee
}

proof fn lemma_rate_nonneg(comp: Precompute, state: State, pt: i128, sy: i128)
    requires
        comp.wf(),
        0 < pt,
        0 < sy,
        repriced(comp, state, pt, sy) is Ok,
    ensures
        repriced(comp, state, pt, sy)->Ok_0.last_ln_implied_rate >= 0,
{
    lemma_quotient_nonneg(sy as int, comp.rate as int, WAD as int);
    let n = sy * comp.rate;
    lemma_ln_implied_rate_range(
        pt as int,
        n / (WAD as int),
        comp.rate_scalar as int,
        comp.rate_anchor as int,
        comp.time_to_expiry as int,
    );
}

/// What a purchase of principal tokens leaves in the books. The fee is the part
/// of the charge that was put on top.
pub proof fn lemma_purchase_is_booked(
    market: AmmMarket,
    now: u64,
    sy_rate: i128,
    sy_in: i128,
    min_pt_out: i128,
) -> (fee: int)
    requires
        market.wf(),
        market.warmup_fits(now),
        market.sy_for_pt(now, sy_rate, sy_in, min_pt_out) is Ok,
    ensures
        ({
            let (pt_out, charged, next, fees) = market.sy_for_pt(
                now,
                sy_rate,
                sy_in,
                min_pt_out,
            )->Ok_0;
            let state = market.state->0;
            let fee_bps = market.config->0.fee_bps as int;
            &&& rounded_down(fee, charged * fee_bps, 10_000 + fee_bps)
            &&& booked(
                market,
                now,
                sy_rate as int,
                state.total_pt - pt_out,
                state.total_sy + charged,
                fee,
                next,
                fees,
            )
        }),
{
    let (config, state, comp) = market.open_market(sy_in as int, now, sy_rate)->Ok_0;
    let (pt_out, charged, next, fees) = market.sy_for_pt(now, sy_rate, sy_in, min_pt_out)->Ok_0;
    lemma_loaded_market(market, sy_in as int, now, sy_rate);
    lemma_purchase_is_the_most_for_its_price(market, now, sy_rate, sy_in, min_pt_out);
    let pt = (state.total_pt - pt_out) as i128;
    let sy = (state.total_sy + charged) as i128;
    lemma_implied_at(comp, state, pt, sy);
    let bought = repriced(comp, state, pt, sy)->Ok_0;
    let fee_bps = config.fee_bps as int;
    let fee = fee_in_charge(charged as int, fee_bps);
    lemma_fee_is_part(charged as int, fee_bps);
    lemma_rounded_down(fee, charged * fee_bps, 10_000 + fee_bps);
    lemma_takes(bought, market.fees, fee);
    let cut = after_protocol_cut(bought, market.fees, fee)->Ok_0.0;
    lemma_rate_nonneg(comp, state, pt, sy);
    lemma_observed(config, cut, bought.last_ln_implied_rate, now);
    fee
}

/// What a purchase of yield tokens makes of the reserves before the split: the
/// pool has bought the principal tokens of the split for what the buyer does not
/// pay, and the rate is the one at the point that this left.
pub proof fn lemma_yt_purchase_moves_reserves(
    market: AmmMarket,
    now: u64,
    sy_rate: i128,
    from: Address,
    sy_in: i128,
    min_yt_out: i128,
)
    requires
        market.wf(),
        market.sy_for_yt(now, sy_rate, from, sy_in, min_yt_out) is Ok,
    ensures
        ({
            let purchase = market.sy_for_yt(now, sy_rate, from, sy_in, min_yt_out)->Ok_0;
            let state = market.state->0;
            let left = purchase.state;
            let pt = state.total_pt + purchase.yt_out;
            let sy = state.total_sy - (purchase.shares_to_split - purchase.buyer_cost);
            &&& left == State {
                total_pt: pt as i128,
                total_sy: sy as i128,
                last_ln_implied_rate: left.last_ln_implied_rate,
                ..state
            }
            &&& fits(pt) && fits(sy)
            &&& rate_left(
                market,
                now,
                sy_rate as int,
                pt,
                sy,
                left.last_ln_implied_rate as int,
            )
        }),
{
    let (config, state, comp) = market.open_market(sy_in as int, now, sy_rate)->Ok_0;
    let purchase = market.sy_for_yt(now, sy_rate, from, sy_in, min_yt_out)->Ok_0;
    lemma_loaded_market(market, sy_in as int, now, sy_rate);
    lemma_yt_purchase_is_the_most_for_its_price(market, now, sy_rate, from, sy_in, min_yt_out);
    let pt = (state.total_pt + purchase.yt_out) as i128;
    let sy = (state.total_sy - (purchase.shares_to_split - purchase.buyer_cost)) as i128;
    lemma_implied_at(comp, state, pt, sy);
}

/// What a sale of yield tokens makes of the reserves before the recombination:
/// the pool has sold as many principal tokens for what the seller does not get,
/// and the rate is the one at the point that this left.
pub proof fn lemma_yt_sale_moves_reserves(
    market: AmmMarket,
    now: u64,
    sy_rate: i128,
    from: Address,
    yt_in: i128,
    min_sy_out: i128,
)
    requires
        market.wf(),
        market.yt_for_sy(now, sy_rate, from, yt_in, min_sy_out) is Ok,
    ensures
        ({
            let sale = market.yt_for_sy(now, sy_rate, from, yt_in, min_sy_out)->Ok_0;
            let state = market.state->0;
            let left = sale.state;
            let pt = state.total_pt - yt_in;
            let sy = state.total_sy + (sale.sy_value - sale.sy_out);
            &&& left == State {
                total_pt: pt as i128,
                total_sy: sy as i128,
                last_ln_implied_rate: left.last_ln_implied_rate,
                ..state
            }
            &&& fits(pt) && fits(sy)
            &&& rate_left(
                market,
                now,
                sy_rate as int,
                pt,
                sy,
                left.last_ln_implied_rate as int,
            )
        }),
{
    let (config, state, comp) = market.open_market(yt_in as int, now, sy_rate)->Ok_0;
    let sale = market.yt_for_sy(now, sy_rate, from, yt_in, min_sy_out)->Ok_0;
    lemma_loaded_market(market, yt_in as int, now, sy_rate);
    lemma_yt_sale_pays_its_price(market, now, sy_rate, from, yt_in, min_sy_out);
    let pt = (state.total_pt - yt_in) as i128;
    let sy = (state.total_sy + (sale.sy_value - sale.sy_out)) as i128;
    lemma_implied_at(comp, state, pt, sy);
}

/// Booking a purchase of yield tokens: what the split minted beyond the yield
/// tokens bought joins the principal-token reserve, and the rate is observed. A
/// split that minted too little is refused.
pub proof fn lemma_yt_purchase_is_booked(
    market: AmmMarket,
    now: u64,
    purchase: YtPurchase,
    pt_minted: i128,
    yt_minted: i128,
)
    requires
        market.config matches Some(config) && config.wf() && (purchase.state.last_observation
            + config.twap_window <= now ==> now + config.twap_window <= u64::MAX),
        purchase.state.wf(),
        market.yt_purchase_settled(now, purchase, pt_minted, yt_minted) is Ok,
    ensures
        ({
            let next = market.yt_purchase_settled(now, purchase, pt_minted, yt_minted)->Ok_0;
            let state = purchase.state;
            let over = pt_minted - purchase.yt_out;
            &&& purchase.yt_out <= yt_minted
            &&& next.total_pt == state.total_pt + (if over > 0 {
                over
            } else {
                0
            })
            &&& next.total_pt <= 1_000_000_000_000_000_000
            &&& next.total_sy == state.total_sy
            &&& next.total_lp == state.total_lp
            &&& next.last_ln_implied_rate == state.last_ln_implied_rate
            &&& observed(
                state,
                next,
                state.last_ln_implied_rate as int,
                now,
                market.config->0.twap_window,
            )
        }),
{
    let config = market.config->0;
    let over = pt_minted - purchase.yt_out;
    let dusted = with_dust(purchase.state, over, 0)->Ok_0;
    lemma_observed(config, dusted, purchase.state.last_ln_implied_rate, now);
}

/// Booking a sale of yield tokens: what the recombination brought beyond what the
/// sale counted on joins the share reserve, and the rate is observed. One that
/// brought too little is refused.
pub proof fn lemma_yt_sale_is_booked(
    market: AmmMarket,
    now: u64,
    sale: YtSale,
    sy_from_recombine: i128,
)
    requires
        market.config matches Some(config) && config.wf() && (sale.state.last_observation
            + config.twap_window <= now ==> now + config.twap_window <= u64::MAX),
        sale.state.wf(),
        market.yt_sale_settled(now, sale, sy_from_recombine) is Ok,
    ensures
        ({
            let next = market.yt_sale_settled(now, sale, sy_from_recombine)->Ok_0;
            let state = sale.state;
            &&& sale.sy_value <= sy_from_recombine
            &&& next.total_pt == state.total_pt
            &&& next.total_sy == state.total_sy + (sy_from_recombine - sale.sy_value)
            &&& next.total_sy <= 1_000_000_000_000_000_000
            &&& next.total_lp == state.total_lp
            &&& next.last_ln_implied_rate == state.last_ln_implied_rate
            &&& observed(
                state,
                next,
                state.last_ln_implied_rate as int,
                now,
                market.config->0.twap_window,
            )
        }),
{
    let config = market.config->0;
    let dusted = with_dust(sale.state, 0, sy_from_recombine - sale.sy_value)->Ok_0;
    lemma_observed(config, dusted, sale.state.last_ln_implied_rate, now);
}

/// Yields are growth rates: a yearly log rate of `ln_rate` grows a wad to `growth` in a
/// year, and the yield is what that adds, in basis points.
pub proof fn lemma_yield_is_growth(ln_rate: int, growth: int)
    requires
        exp_wad(ln_rate) == Some(growth),
        fits((growth - WAD) * 10_000),
    ensures
        yearly_yield(ln_rate) matches Ok(bps) && rounded_toward_zero(
            bps as int,
            (growth - WAD) * 10_000,
            WAD as int,
        ),
{
    let n = (growth - WAD) * 10_000;
    lemma_rounded_toward_zero(trunc_div(n, WAD as int), n, WAD as int);
}

/// A market reports the yield of the rate that its last trade left, and none
/// before it is opened or once it has matured.
pub proof fn lemma_market_yield(market: AmmMarket, now: u64)
    requires
        market.wf(),
        market.config is Some,
        market.state is Some,
    ensures
        now >= market.config->0.maturity || market.state->0.total_lp == 0 ==> market.last_yield(now)
            == Ok::<i128, Error>(0),
        now < market.config->0.maturity && market.state->0.total_lp > 0 ==> market.last_yield(now)
            == yearly_yield(market.state->0.last_ln_implied_rate as int),
{
}

} // verus!
