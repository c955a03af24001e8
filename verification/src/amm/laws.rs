//! What holds of the market across its operations.
use super::accuracy::lemma_exp_near_ln;
use super::checked::{lemma_quotient_nonneg, quotient, BPS_DENOMINATOR, MAX_RESERVE_UNITS};
use super::curve::{
    curve_point, exchange_rate, implied_exchange_rate, lemma_anchor_keeps_rate, lemma_curve_rises,
    lemma_ln_implied_rate_range, lemma_trunc_div_order, proportion, IMPLIED_RATE_TIME,
};
use super::exponential::exp_wad;
use super::logarithm::{lemma_ln_wad_range, lemma_ln_wad_sign, ln_wad};
use super::market::{config_fault, unseeded, AmmMarket};
use super::pricing::{
    feasible, feasible_purchase, feasible_sale, lemma_feasible_purchase, lemma_price_bounds,
    lemma_purchase_at_most_par_and_fee, purchase_cost, sale_proceeds, sale_quote, sy_out_for_pt_in,
    Precompute,
};
use super::solver::{
    affordable_pt, affordable_yt, best_purchase, best_yt_purchase, bisect, lemma_bisect,
    lemma_shares_for_face, shares_for_face,
};
use super::swaps::yt_sale_terms;
use super::trade::{
    after_observation, after_protocol_cut, after_purchase, after_sale, elapsed, fee_in_charge,
    fee_in_payout, lemma_cut_at_most_half, lemma_feasible_purchase_applies,
    lemma_feasible_sale_applies, lemma_fee_is_part, observation_weight,
};
use super::types::{Config, Error, State};
use crate::address::{Address, PendingUpgrade};
use crate::arith::{ceil_div, fits, lemma_div_cross, WAD};
use crate::governance::{Governance, UPGRADE_TIMELOCK_SECONDS};
use vstd::prelude::*;

verus! {

/// What the search found is a purchase that it may make.
proof fn lemma_best_purchase_is_feasible(
    config: Config,
    state: State,
    comp: Precompute,
    sy_in: int,
)
    requires
        state.wf(),
        state.seeded(),
        best_purchase(config, state, comp, sy_in) is Ok,
    ensures
        ({
            let best = best_purchase(config, state, comp, sy_in)->Ok_0;
            &&& feasible_purchase(config, state, comp, best.0 as int) == Some(best.1)
            &&& best.1 <= sy_in
        }),
{
    lemma_bisect(1, state.total_pt - 1, affordable_pt(config, state, comp, sy_in));
}

/// A purchase moves exactly what it charges and what it delivers: the reserve
/// and the protocol's fees together grow by the charge, the principal tokens
/// shrink by the delivery, and the charge is within the buyer's budget.
pub proof fn lemma_purchase_conserves(
    market: AmmMarket,
    now: u64,
    sy_rate: i128,
    sy_in: i128,
    min_pt_out: i128,
)
    requires
        market.wf(),
        market.sy_for_pt(now, sy_rate, sy_in, min_pt_out) is Ok,
    ensures
        ({
            let (pt_out, charged, next, fees) = market.sy_for_pt(
                now,
                sy_rate,
                sy_in,
                min_pt_out,
            )->Ok_0;
            let state = market.state->0;
            &&& next.total_sy + fees.accrued == state.total_sy + market.fees.accrued + charged
            &&& next.total_pt == state.total_pt - pt_out
            &&& next.total_lp == state.total_lp
            &&& 0 < charged <= sy_in
            &&& pt_out >= min_pt_out
        }),
{
    let (config, state, comp) = market.open_market(sy_in as int, now, sy_rate)->Ok_0;
    lemma_open_market(market, sy_in, now, sy_rate);
    lemma_best_purchase_is_feasible(config, state, comp, sy_in as int);
    let (pt_out, charged) = best_purchase(config, state, comp, sy_in as int)->Ok_0;
    lemma_feasible_purchase(config, state, comp, pt_out as int);
    lemma_feasible_purchase_applies(config, state, comp, sy_in as int, pt_out as int);
    lemma_fee_is_part(charged as int, config.fee_bps as int);
}

/// A sale moves exactly what it takes and what it pays: the principal tokens
/// grow by the sale, and the reserve and the protocol's fees together shrink by
/// the payout.
pub proof fn lemma_sale_conserves(
    market: AmmMarket,
    now: u64,
    sy_rate: i128,
    pt_in: i128,
    min_sy_out: i128,
)
    requires
        market.wf(),
        market.pt_for_sy(now, sy_rate, pt_in, min_sy_out) is Ok,
    ensures
        ({
            let (sy_out, next, fees) = market.pt_for_sy(now, sy_rate, pt_in, min_sy_out)->Ok_0;
            let state = market.state->0;
            &&& next.total_sy + fees.accrued == state.total_sy + market.fees.accrued - sy_out
            &&& next.total_pt == state.total_pt + pt_in
            &&& next.total_lp == state.total_lp
            &&& sy_out >= min_sy_out
            &&& 0 < sy_out < state.total_sy
        }),
{
    let (config, state, comp) = market.open_market(pt_in as int, now, sy_rate)->Ok_0;
    let sy_out = sy_out_for_pt_in(config, state, comp, pt_in as int)->Ok_0;
    lemma_fee_is_part(sy_out as int, config.fee_bps as int);
}

proof fn lemma_open_market(market: AmmMarket, amount: i128, now: u64, sy_rate: i128)
    requires
        market.wf(),
        market.open_market(amount as int, now, sy_rate) is Ok,
    ensures
        ({
            let (config, state, comp) = market.open_market(amount as int, now, sy_rate)->Ok_0;
            &&& config.wf() && state.wf() && state.seeded() && comp.wf()
            &&& comp.rate == sy_rate
        }),
{
}

/// A purchase of yield tokens through the tokenizer moves the books by exactly
/// what moves in the pool's custody: the buyer's payment less the shares that
/// are split, and, once the split's principal tokens are booked, all of them.
pub proof fn lemma_yt_purchase_conserves(
    market: AmmMarket,
    now: u64,
    sy_rate: i128,
    from: Address,
    sy_in: i128,
    min_yt_out: i128,
    pt_minted: i128,
    yt_minted: i128,
)
    requires
        market.wf(),
        market.sy_for_yt(now, sy_rate, from, sy_in, min_yt_out) matches Ok(purchase)
            && market.yt_purchase_settled(now, purchase, pt_minted, yt_minted) is Ok,
    ensures
        ({
            let purchase = market.sy_for_yt(now, sy_rate, from, sy_in, min_yt_out)->Ok_0;
            let next = market.yt_purchase_settled(now, purchase, pt_minted, yt_minted)->Ok_0;
            let state = market.state->0;
            &&& next.total_sy == state.total_sy + purchase.buyer_cost - purchase.shares_to_split
            &&& next.total_pt == state.total_pt + pt_minted
            &&& next.total_lp == state.total_lp
            &&& 0 < purchase.buyer_cost <= sy_in
            &&& purchase.yt_out >= min_yt_out
            &&& purchase.yt_out <= yt_minted
        }),
{
    let (config, state, comp) = market.open_market(sy_in as int, now, sy_rate)->Ok_0;
    lemma_open_market(market, sy_in, now, sy_rate);
    lemma_best_yt_purchase(config, state, comp, sy_in as int);
    let (yt_out, sy_paid) = best_yt_purchase(config, state, comp, sy_in as int)->Ok_0;
    lemma_feasible_sale_applies(config, state, comp, yt_out as int, 0);
}

proof fn lemma_best_yt_purchase(config: Config, state: State, comp: Precompute, sy_in: int)
    requires
        state.wf(),
        comp.wf(),
        0 <= sy_in <= WAD,
        best_yt_purchase(config, state, comp, sy_in) is Ok,
    ensures
        ({
            let best = best_yt_purchase(config, state, comp, sy_in)->Ok_0;
            let shares = shares_for_face(best.0 as int, comp.rate as int);
            &&& best.0 > 0
            &&& feasible_sale(config, state, comp, best.0 as int) == Some(best.1)
            &&& 0 < shares - best.1 <= sy_in
            &&& shares <= i128::MAX
        }),
{
    let high = quotient(sy_in + state.total_sy, comp.rate as int, WAD as int);
    lemma_quotient_nonneg(sy_in + state.total_sy, comp.rate as int, WAD as int);
    let accepted = affordable_yt(config, state, comp, sy_in);
    lemma_bisect(1, high->Ok_0 as int, accepted);
    let best = bisect(1, high->Ok_0 as int, accepted);
    lemma_shares_for_face(best as i128, comp.rate);
}

/// A sale of yield tokens through the tokenizer moves the books by exactly what
/// moves in the pool's custody: the shares that the recombination brings less
/// those paid to the seller, and the principal tokens that it uses up.
pub proof fn lemma_yt_sale_conserves(
    market: AmmMarket,
    now: u64,
    sy_rate: i128,
    from: Address,
    yt_in: i128,
    min_sy_out: i128,
    sy_from_recombine: i128,
)
    requires
        market.wf(),
        market.yt_for_sy(now, sy_rate, from, yt_in, min_sy_out) matches Ok(sale)
            && market.yt_sale_settled(now, sale, sy_from_recombine) is Ok,
    ensures
        ({
            let sale = market.yt_for_sy(now, sy_rate, from, yt_in, min_sy_out)->Ok_0;
            let next = market.yt_sale_settled(now, sale, sy_from_recombine)->Ok_0;
            let state = market.state->0;
            &&& next.total_sy == state.total_sy + sy_from_recombine - sale.sy_out
            &&& next.total_pt == state.total_pt - yt_in
            &&& next.total_lp == state.total_lp
            &&& 0 < sale.sy_out
            &&& sale.sy_out >= min_sy_out
        }),
{
    let (config, state, comp) = market.open_market(yt_in as int, now, sy_rate)->Ok_0;
    lemma_open_market(market, yt_in, now, sy_rate);
    let (sy_value, sy_cost) = yt_sale_terms(config, state, comp, yt_in as int)->Ok_0;
    lemma_feasible_purchase(config, state, comp, yt_in as int);
    lemma_feasible_purchase_applies(config, state, comp, sy_cost as int, yt_in as int);
    lemma_quotient_nonneg(yt_in as int, WAD as int, comp.rate as int);
}

/// A purchase is charged at most the tokens' face and the fee on it.
pub proof fn lemma_purchase_price_capped(
    market: AmmMarket,
    now: u64,
    sy_rate: i128,
    sy_in: i128,
    min_pt_out: i128,
)
    requires
        market.wf(),
        market.sy_for_pt(now, sy_rate, sy_in, min_pt_out) is Ok,
    ensures
        ({
            let (pt_out, charged, _, _) = market.sy_for_pt(
                now,
                sy_rate,
                sy_in,
                min_pt_out,
            )->Ok_0;
            let fee_bps = market.config->0.fee_bps as int;
            charged <= ceil_div(
                (pt_out + ceil_div(pt_out * fee_bps, BPS_DENOMINATOR as int)) * WAD,
                sy_rate as int,
            )
        }),
{
    let (config, state, comp) = market.open_market(sy_in as int, now, sy_rate)->Ok_0;
    lemma_open_market(market, sy_in, now, sy_rate);
    lemma_best_purchase_is_feasible(config, state, comp, sy_in as int);
    let (pt_out, charged) = best_purchase(config, state, comp, sy_in as int)->Ok_0;
    lemma_feasible_purchase(config, state, comp, pt_out as int);
    let x = exchange_rate(
        state.total_pt as int,
        comp.total_asset as int,
        comp.rate_scalar as int,
        comp.rate_anchor as int,
        pt_out as int,
    )->Ok_0;
    lemma_price_bounds(
        config.fee_bps as int,
        x as int,
        comp.rate as int,
        pt_out as int,
    );
    lemma_purchase_at_most_par_and_fee(
        config.fee_bps as int,
        x as int,
        comp.rate as int,
        pt_out as int,
    );
}

/// A sale that the books can take leaves a market the curve can price.
pub proof fn lemma_booked_sale_is_feasible(
    comp: Precompute,
    state: State,
    pt_in: i128,
    sy_out: i128,
    min_sy_out: i128,
)
    requires
        state.wf(),
        comp.wf(),
        0 < pt_in,
        sy_out < state.total_sy,
        after_sale(comp, state, pt_in as int, sy_out as int, min_sy_out as int) is Ok,
        0 < sy_out,
    ensures
        feasible(comp, state.total_pt + pt_in, state.total_sy - sy_out),
{
    let total_sy = state.total_sy - sy_out;
    assert(total_sy * comp.rate >= 0) by (nonlinear_arith)
        requires
            total_sy > 0,
            comp.rate > 0,
    ;
    lemma_quotient_nonneg(total_sy, comp.rate as int, WAD as int);
    let total_pt = state.total_pt + pt_in;
    assert(total_pt * WAD / total_pt == WAD) by (nonlinear_arith)
        requires
            total_pt > 0,
    ;
}

/// What is quoted is what is executed: a purchase delivers and charges, and a
/// sale pays, what the quote for it at the same time and rate says.
pub proof fn lemma_quotes_are_executed(
    market: AmmMarket,
    now: u64,
    sy_rate: i128,
    amount: i128,
    min_out: i128,
)
    requires
        market.wf(),
    ensures
        market.sy_for_pt(now, sy_rate, amount, min_out) matches Ok(swap) ==> {
            &&& market.live_market(amount as int, now, sy_rate) matches Ok(m)
            &&& best_purchase(m.0, m.1, m.2, amount as int) == Ok::<(i128, i128), Error>(
                (swap.0, swap.1),
            )
        },
        market.pt_for_sy(now, sy_rate, amount, min_out) matches Ok(swap) ==> {
            &&& market.live_market(amount as int, now, sy_rate) matches Ok(m)
            &&& sale_quote(m.0, m.1, m.2, amount as int) == Ok::<i128, Error>(swap.0)
        },
        forall|from: Address|
            (#[trigger] market.sy_for_yt(now, sy_rate, from, amount, min_out)) matches Ok(swap)
                ==> {
                &&& market.live_market(amount as int, now, sy_rate) matches Ok(m)
                &&& best_yt_purchase(m.0, m.1, m.2, amount as int) matches Ok(best)
                &&& best.0 == swap.yt_out
                &&& shares_for_face(best.0 as int, m.2.rate as int) - best.1 == swap.buyer_cost
            },
        forall|from: Address|
            (#[trigger] market.yt_for_sy(now, sy_rate, from, amount, min_out)) matches Ok(swap)
                ==> {
                &&& market.live_market(amount as int, now, sy_rate) matches Ok(m)
                &&& yt_sale_terms(m.0, m.1, m.2, amount as int) matches Ok(terms)
                &&& terms.0 - terms.1 == swap.sy_out
            },
{
    if market.open_market(amount as int, now, sy_rate) is Ok {
        let (config, state, comp) = market.open_market(amount as int, now, sy_rate)->Ok_0;
        lemma_open_market(market, amount, now, sy_rate);
        if let Ok((sy_out, _, _)) = market.pt_for_sy(now, sy_rate, amount, min_out) {
            lemma_booked_sale_is_feasible(comp, state, amount, sy_out, min_out);
        }
        if best_yt_purchase(config, state, comp, amount as int) is Ok {
            lemma_best_yt_purchase(config, state, comp, amount as int);
        }
        if yt_sale_terms(config, state, comp, amount as int) is Ok {
            lemma_feasible_purchase(config, state, comp, amount as int);
            lemma_quotient_nonneg(amount as int, WAD as int, comp.rate as int);
        }
    }
}

/// A trade that the market quotes does not fail on the curve when it is made:
/// the point that it leaves behind was checked before.
pub proof fn lemma_quoted_trades_are_booked(
    market: AmmMarket,
    now: u64,
    sy_rate: i128,
    amount: i128,
)
    requires
        market.wf(),
        market.open_market(amount as int, now, sy_rate) is Ok,
    ensures
        ({
            let (config, state, comp) = market.open_market(amount as int, now, sy_rate)->Ok_0;
            &&& sale_quote(config, state, comp, amount as int) matches Ok(sy_out) ==> after_sale(
                comp,
                state,
                amount as int,
                sy_out as int,
                sy_out as int,
            ) is Ok
            &&& best_purchase(config, state, comp, amount as int) matches Ok((pt_out, charged))
                ==> after_purchase(
                comp,
                state,
                amount as int,
                pt_out as int,
                charged as int,
            ) is Ok
            &&& best_yt_purchase(config, state, comp, amount as int) matches Ok((yt_out, sy_paid))
                ==> after_sale(comp, state, yt_out as int, sy_paid as int, 0) is Ok
            &&& yt_sale_terms(config, state, comp, amount as int) matches Ok((_, sy_cost))
                ==> after_purchase(
                comp,
                state,
                sy_cost as int,
                amount as int,
                sy_cost as int,
            ) is Ok
        }),
{
    let (config, state, comp) = market.open_market(amount as int, now, sy_rate)->Ok_0;
    lemma_open_market(market, amount, now, sy_rate);
    if let Ok(sy_out) = sale_quote(config, state, comp, amount as int) {
        lemma_feasible_sale_applies(config, state, comp, amount as int, sy_out as int);
    }
    if let Ok((pt_out, charged)) = best_purchase(config, state, comp, amount as int) {
        lemma_best_purchase_is_feasible(config, state, comp, amount as int);
        lemma_feasible_purchase_applies(config, state, comp, amount as int, pt_out as int);
    }
    if let Ok((yt_out, sy_paid)) = best_yt_purchase(config, state, comp, amount as int) {
        lemma_best_yt_purchase(config, state, comp, amount as int);
        lemma_feasible_sale_applies(config, state, comp, yt_out as int, 0);
    }
    if let Ok((_, sy_cost)) = yt_sale_terms(config, state, comp, amount as int) {
        lemma_feasible_purchase_applies(config, state, comp, sy_cost as int, amount as int);
    }
}

/// A sale of principal tokens that is quoted can be made, for what was quoted,
/// as long as the books can hold the fees and the average that come of it.
pub proof fn lemma_quoted_sale_is_made(
    market: AmmMarket,
    now: u64,
    sy_rate: i128,
    pt_in: i128,
    min_sy_out: i128,
)
    requires
        market.wf(),
        !market.governance.paused,
        market.live_market(pt_in as int, now, sy_rate) matches Ok(m) && {
            &&& sale_quote(m.0, m.1, m.2, pt_in as int) matches Ok(sy_out)
            &&& min_sy_out <= sy_out
            &&& after_sale(m.2, m.1, pt_in as int, sy_out as int, min_sy_out as int) matches Ok(sold)
            &&& fits(sold.last_ln_implied_rate * WAD)
        },
        fits(market.state->0.twap_ln_implied_rate * WAD),
        market.fees.accrued + MAX_RESERVE_UNITS * BPS_DENOMINATOR <= i128::MAX,
    ensures
        ({
            let (config, state, comp) = market.live_market(pt_in as int, now, sy_rate)->Ok_0;
            market.pt_for_sy(now, sy_rate, pt_in, min_sy_out) matches Ok((sy_out, _, _)) && sy_out
                == sale_quote(config, state, comp, pt_in as int)->Ok_0
        }),
{
    let (config, state, comp) = market.live_market(pt_in as int, now, sy_rate)->Ok_0;
    let sy_out = sale_quote(config, state, comp, pt_in as int)->Ok_0;
    let sold = after_sale(comp, state, pt_in as int, sy_out as int, min_sy_out as int)->Ok_0;
    let fee = fee_in_payout(sy_out as int, config.fee_bps as int);
    let share = market.fees.share_bps as int;
    lemma_fee_is_part(sy_out as int, config.fee_bps as int);
    lemma_cut_at_most_half(fee, share, sold.total_sy as int);
    let limit = MAX_RESERVE_UNITS * BPS_DENOMINATOR;
    assert(fee <= limit) by (nonlinear_arith)
        requires
            fee <= sy_out * config.fee_bps,
            0 <= sy_out <= MAX_RESERVE_UNITS,
            0 <= config.fee_bps <= BPS_DENOMINATOR,
            limit == MAX_RESERVE_UNITS * BPS_DENOMINATOR,
    ;
    assert(fee * share <= limit * 5_000) by (nonlinear_arith)
        requires
            0 <= fee <= limit,
            0 <= share <= 5_000,
    ;
    assert(fee * share >= 0) by (nonlinear_arith)
        requires
            0 <= fee,
            0 <= share,
    ;
    let cut = after_protocol_cut(sold, market.fees, fee)->Ok_0.0;
    lemma_ln_implied_rate_range(
        sold.total_pt as int,
        quotient(sold.total_sy as int, comp.rate as int, WAD as int)->Ok_0 as int,
        comp.rate_scalar as int,
        comp.rate_anchor as int,
        comp.time_to_expiry as int,
    );
    if 0 < elapsed(cut, now) < config.twap_window {
        let weight = observation_weight(config, cut, now);
        let e = elapsed(cut, now);
        let window = config.twap_window as int;
        assert(0 <= weight <= WAD) by (nonlinear_arith)
            requires
                weight == e * WAD / window,
                0 < e < window,
                WAD > 0,
        ;
        let t = cut.twap_ln_implied_rate;
        let o = cut.last_ln_implied_rate;
        assert(0 <= t * (WAD - weight) <= t * WAD && 0 <= o * weight <= o * WAD) by (nonlinear_arith)
            requires
                0 <= t,
                0 <= o,
                0 <= weight <= WAD,
        ;
    }
}

/// The average can be held where both rates, scaled, can.
proof fn lemma_average_fits(config: Config, state: State, now: u64)
    requires
        config.wf(),
        0 <= state.twap_ln_implied_rate,
        0 <= state.last_ln_implied_rate,
        fits(state.twap_ln_implied_rate * WAD),
        fits(state.last_ln_implied_rate * WAD),
    ensures
        after_observation(config, state, state.last_ln_implied_rate, now) is Ok,
{
    if 0 < elapsed(state, now) < config.twap_window {
        let weight = observation_weight(config, state, now);
        let e = elapsed(state, now);
        let window = config.twap_window as int;
        assert(0 <= weight <= WAD) by (nonlinear_arith)
            requires
                weight == e * WAD / window,
                0 < e < window,
                WAD > 0,
        ;
        let t = state.twap_ln_implied_rate;
        let o = state.last_ln_implied_rate;
        assert(0 <= t * (WAD - weight) <= t * WAD && 0 <= o * weight <= o * WAD) by (nonlinear_arith)
            requires
                0 <= t,
                0 <= o,
                0 <= weight <= WAD,
        ;
    }
}

/// A purchase of principal tokens that is quoted can be made, as quoted, as long
/// as the books can hold the fees and the average that come of it.
pub proof fn lemma_quoted_purchase_is_made(
    market: AmmMarket,
    now: u64,
    sy_rate: i128,
    sy_in: i128,
    min_pt_out: i128,
)
    requires
        market.wf(),
        !market.governance.paused,
        market.live_market(sy_in as int, now, sy_rate) matches Ok(m) && {
            &&& best_purchase(m.0, m.1, m.2, sy_in as int) matches Ok((pt_out, charged))
            &&& min_pt_out <= pt_out
            &&& after_purchase(
                m.2,
                m.1,
                sy_in as int,
                pt_out as int,
                charged as int,
            ) matches Ok(bought)
            &&& fits(bought.last_ln_implied_rate * WAD)
        },
        fits(market.state->0.twap_ln_implied_rate * WAD),
        market.fees.accrued + MAX_RESERVE_UNITS <= i128::MAX,
    ensures
        ({
            let (config, state, comp) = market.live_market(sy_in as int, now, sy_rate)->Ok_0;
            market.sy_for_pt(now, sy_rate, sy_in, min_pt_out) matches Ok((pt_out, charged, _, _))
                && best_purchase(config, state, comp, sy_in as int) == Ok::<(i128, i128), Error>(
                (pt_out, charged),
            )
        }),
{
    let (config, state, comp) = market.live_market(sy_in as int, now, sy_rate)->Ok_0;
    lemma_open_market(market, sy_in, now, sy_rate);
    let (pt_out, charged) = best_purchase(config, state, comp, sy_in as int)->Ok_0;
    lemma_best_purchase_is_feasible(config, state, comp, sy_in as int);
    lemma_feasible_purchase(config, state, comp, pt_out as int);
    let bought = after_purchase(comp, state, sy_in as int, pt_out as int, charged as int)->Ok_0;
    let fee = fee_in_charge(charged as int, config.fee_bps as int);
    let share = market.fees.share_bps as int;
    lemma_fee_is_part(charged as int, config.fee_bps as int);
    lemma_cut_at_most_half(fee, share, bought.total_sy as int);
    assert(0 <= fee * share <= MAX_RESERVE_UNITS * 5_000) by (nonlinear_arith)
        requires
            0 <= fee <= MAX_RESERVE_UNITS,
            0 <= share <= 5_000,
    ;
    let cut = after_protocol_cut(bought, market.fees, fee)->Ok_0.0;
    lemma_ln_implied_rate_range(
        bought.total_pt as int,
        quotient(bought.total_sy as int, comp.rate as int, WAD as int)->Ok_0 as int,
        comp.rate_scalar as int,
        comp.rate_anchor as int,
        comp.time_to_expiry as int,
    );
    lemma_average_fits(config, cut, now);
}

/// A trade of yield tokens that is quoted can be made, as quoted.
pub proof fn lemma_quoted_yt_trades_are_made(
    market: AmmMarket,
    now: u64,
    sy_rate: i128,
    from: Address,
    amount: i128,
    min_out: i128,
)
    requires
        market.wf(),
        market.open_market(amount as int, now, sy_rate) is Ok,
    ensures
        ({
            let (config, state, comp) = market.open_market(amount as int, now, sy_rate)->Ok_0;
            &&& best_yt_purchase(config, state, comp, amount as int) matches Ok((yt_out, _))
                ==> min_out <= yt_out ==> (market.sy_for_yt(
                now,
                sy_rate,
                from,
                amount,
                min_out,
            ) matches Ok(purchase) && purchase.yt_out == yt_out)
            &&& yt_sale_terms(config, state, comp, amount as int) matches Ok((sy_value, sy_cost))
                ==> min_out <= sy_value - sy_cost ==> (market.yt_for_sy(
                now,
                sy_rate,
                from,
                amount,
                min_out,
            ) matches Ok(sale) && sale.sy_out == sy_value - sy_cost)
        }),
{
    lemma_quoted_trades_are_booked(market, now, sy_rate, amount);
    lemma_quotes_are_executed(market, now, sy_rate, amount, min_out);
}

/// Every trade leaves the reserves that it books at a point that the curve can
/// price, within their bounds.
pub proof fn lemma_trades_stay_on_curve(
    market: AmmMarket,
    now: u64,
    sy_rate: i128,
    from: Address,
    amount: i128,
    min_out: i128,
)
    requires
        market.wf(),
    ensures
        ({
            let state = market.state->0;
            let comp = market.open_market(amount as int, now, sy_rate)->Ok_0.2;
            &&& market.pt_for_sy(now, sy_rate, amount, min_out) matches Ok((sy_out, _, _))
                ==> feasible(comp, state.total_pt + amount, state.total_sy - sy_out)
            &&& market.sy_for_pt(now, sy_rate, amount, min_out) matches Ok((pt_out, charged, _, _))
                ==> feasible(comp, state.total_pt - pt_out, state.total_sy + charged)
            &&& market.sy_for_yt(now, sy_rate, from, amount, min_out) matches Ok(purchase)
                ==> feasible(
                comp,
                state.total_pt + purchase.yt_out,
                state.total_sy + purchase.buyer_cost - purchase.shares_to_split,
            )
            &&& market.yt_for_sy(now, sy_rate, from, amount, min_out) matches Ok(sale)
                ==> feasible(
                comp,
                state.total_pt - amount,
                state.total_sy + sale.sy_value - sale.sy_out,
            )
        }),
{
    if market.open_market(amount as int, now, sy_rate) is Ok {
        let (config, state, comp) = market.open_market(amount as int, now, sy_rate)->Ok_0;
        lemma_open_market(market, amount, now, sy_rate);
        if let Ok((sy_out, _, _)) = market.pt_for_sy(now, sy_rate, amount, min_out) {
            lemma_booked_sale_is_feasible(comp, state, amount, sy_out, min_out);
        }
        if market.sy_for_pt(now, sy_rate, amount, min_out) is Ok {
            lemma_best_purchase_is_feasible(config, state, comp, amount as int);
            let (pt_out, _) = best_purchase(config, state, comp, amount as int)->Ok_0;
            lemma_feasible_purchase_applies(config, state, comp, amount as int, pt_out as int);
        }
        if market.sy_for_yt(now, sy_rate, from, amount, min_out) is Ok {
            lemma_best_yt_purchase(config, state, comp, amount as int);
            let (yt_out, sy_paid) = best_yt_purchase(config, state, comp, amount as int)->Ok_0;
            assert(feasible(comp, state.total_pt + yt_out, state.total_sy - sy_paid));
        }
        if market.yt_for_sy(now, sy_rate, from, amount, min_out) is Ok {
            let (sy_value, sy_cost) = yt_sale_terms(config, state, comp, amount as int)->Ok_0;
            lemma_feasible_purchase_applies(config, state, comp, sy_cost as int, amount as int);
            lemma_quotient_nonneg(amount as int, WAD as int, comp.rate as int);
            assert(feasible(comp, state.total_pt - amount, state.total_sy + sy_cost));
        }
    }
}

/// A principal token and a yield token together are priced at their face: what
/// a buyer of yield tokens pays and what the pool gives for as many principal
/// tokens add up to the shares that the face calls for, and what a seller of
/// yield tokens gets and what the pool charges for as many principal tokens add
/// up to the shares that the face redeems for.
pub proof fn lemma_pair_is_priced_at_face(
    market: AmmMarket,
    now: u64,
    sy_rate: i128,
    from: Address,
    amount: i128,
    min_out: i128,
)
    requires
        market.wf(),
    ensures
        market.sy_for_yt(now, sy_rate, from, amount, min_out) matches Ok(purchase) ==> {
            &&& market.open_market(amount as int, now, sy_rate) matches Ok(m)
            &&& sy_out_for_pt_in(m.0, m.1, m.2, purchase.yt_out as int) matches Ok(sy_paid)
            &&& purchase.buyer_cost + sy_paid == ceil_div(purchase.yt_out * WAD, sy_rate as int)
        },
        market.yt_for_sy(now, sy_rate, from, amount, min_out) matches Ok(sale) ==> {
            &&& market.open_market(amount as int, now, sy_rate) matches Ok(m)
            &&& feasible_purchase(m.0, m.1, m.2, amount as int) matches Some(sy_cost)
            &&& sale.sy_out + sy_cost == amount * WAD / (sy_rate as int)
        },
{
    if market.open_market(amount as int, now, sy_rate) is Ok {
        let (config, state, comp) = market.open_market(amount as int, now, sy_rate)->Ok_0;
        lemma_open_market(market, amount, now, sy_rate);
        if market.sy_for_yt(now, sy_rate, from, amount, min_out) is Ok {
            lemma_best_yt_purchase(config, state, comp, amount as int);
        }
        if market.yt_for_sy(now, sy_rate, from, amount, min_out) is Ok {
            lemma_feasible_purchase(config, state, comp, amount as int);
            lemma_quotient_nonneg(amount as int, WAD as int, comp.rate as int);
        }
    }
}

/// Splitting the shares that a face calls for mints at least that face, and
/// too little above it to be worth a whole share.
pub proof fn lemma_split_covers_face(face: int, rate: int)
    requires
        face >= 0,
        rate > 0,
    ensures
        ({
            let minted = shares_for_face(face, rate) * rate / (WAD as int);
            &&& minted >= face
            &&& (minted - face) * WAD < rate
        }),
{
    let shares = shares_for_face(face, rate);
    let n = face * WAD;
    let value = shares * rate;
    assert(n <= value < n + rate) by (nonlinear_arith)
        requires
            value == shares * rate,
            shares == n / rate + (if n % rate == 0 { 0int } else { 1int }),
            rate > 0,
    ;
}

/// Prices round in the pool's favour: what is paid out is worth no more, and
/// what is charged is worth no less, than the curve says.
pub proof fn lemma_rounding_favours_pool(fee_bps: int, x: int, rate: int, pt: int)
    requires
        0 <= fee_bps < BPS_DENOMINATOR,
        x >= WAD,
        rate > 0,
        pt >= 0,
    ensures
        sale_proceeds(fee_bps, x, rate, pt) * rate * x <= pt * WAD * WAD,
        purchase_cost(fee_bps, x, rate, pt) * rate * x >= pt * WAD * WAD,
{
    let gross = pt * WAD / x;
    let fee = gross * fee_bps / (BPS_DENOMINATOR as int);
    assert(0 <= gross && gross * x <= pt * WAD) by (nonlinear_arith)
        requires
            gross == pt * WAD / x,
            pt >= 0,
            x > 0,
            WAD > 0,
    ;
    assert(fee >= 0) by (nonlinear_arith)
        requires
            fee == gross * fee_bps / (BPS_DENOMINATOR as int),
            gross >= 0,
            fee_bps >= 0,
            BPS_DENOMINATOR == 10_000,
    ;
    let net = gross - fee;
    let out = net * WAD / rate;
    assert(out * rate <= net * WAD) by (nonlinear_arith)
        requires
            out == net * WAD / rate,
            rate > 0,
    ;
    assert(out * rate * x <= pt * WAD * WAD) by (nonlinear_arith)
        requires
            out * rate <= net * WAD,
            net <= gross,
            gross * x <= pt * WAD,
            x > 0,
            WAD > 0,
    {
        assert(out * rate * x <= net * WAD * x);
        assert(net * WAD * x <= gross * WAD * x);
        assert(gross * WAD * x == (gross * x) * WAD);
        assert((gross * x) * WAD <= pt * WAD * WAD);
    }
    let up = ceil_div(pt * WAD, x);
    let n = pt * WAD;
    assert(up >= 0 && up * x >= n) by (nonlinear_arith)
        requires
            up == n / x + (if n % x == 0 { 0int } else { 1int }),
            n >= 0,
            x > 0,
    ;
    let up_fee = ceil_div(up * fee_bps, BPS_DENOMINATOR as int);
    assert(up * fee_bps >= 0) by (nonlinear_arith)
        requires
            up >= 0,
            fee_bps >= 0,
    ;
    let total = up + up_fee;
    let m = total * WAD;
    let cost = ceil_div(m, rate);
    assert(cost * rate >= m) by (nonlinear_arith)
        requires
            cost == m / rate + (if m % rate == 0 { 0int } else { 1int }),
            rate > 0,
    ;
    assert(cost * rate * x >= pt * WAD * WAD) by (nonlinear_arith)
        requires
            cost * rate >= m,
            m == total * WAD,
            total >= up,
            up * x >= n,
            n == pt * WAD,
            x > 0,
            WAD > 0,
    {
        assert(cost * rate * x >= m * x);
        assert(m * x == (total * x) * WAD);
        assert(total * x >= up * x);
        assert((total * x) * WAD >= n * WAD);
    }
}

/// Where a sale is made at a rate at most `slip` parts in a wad below that of a
/// purchase of as many principal tokens, it pays no more than the purchase took,
/// but for the slip.
proof fn lemma_round_trip_at_rates(
    fee_bps: int,
    bought_at: int,
    sold_at: int,
    slip: int,
    rate: int,
    pt: int,
)
    requires
        0 <= fee_bps < BPS_DENOMINATOR,
        WAD <= bought_at,
        WAD <= sold_at,
        bought_at * (WAD - slip) <= sold_at * WAD,
        0 < rate,
        pt >= 0,
    ensures
        sale_proceeds(fee_bps, sold_at, rate, pt) * (WAD - slip) <= purchase_cost(
            fee_bps,
            bought_at,
            rate,
            pt,
        ) * WAD,
{
    lemma_rounding_favours_pool(fee_bps, bought_at, rate, pt);
    lemma_rounding_favours_pool(fee_bps, sold_at, rate, pt);
    lemma_price_bounds(fee_bps, sold_at, rate, pt);
    let paid = sale_proceeds(fee_bps, sold_at, rate, pt);
    let cost = purchase_cost(fee_bps, bought_at, rate, pt);
    let sold = paid * sold_at;
    let bought = cost * bought_at;
    assert(paid * rate * sold_at == sold * rate && cost * rate * bought_at == bought * rate) by (
    nonlinear_arith)
        requires
            sold == paid * sold_at,
            bought == cost * bought_at,
    ;
    assert(sold <= bought) by (nonlinear_arith)
        requires
            sold * rate <= bought * rate,
            rate > 0,
    ;
    let w = WAD as int;
    let kept = w - slip;
    assert((paid * kept) * bought_at <= (cost * w) * bought_at) by (nonlinear_arith)
        requires
            sold == paid * sold_at,
            bought == cost * bought_at,
            sold <= bought,
            bought_at * kept <= sold_at * w,
            paid >= 0,
            w > 0,
    {
        assert(paid * (bought_at * kept) <= paid * (sold_at * w));
        assert(paid * (bought_at * kept) == (paid * kept) * bought_at);
        assert(paid * (sold_at * w) == sold * w);
        assert(sold * w <= bought * w);
        assert(bought * w == (cost * w) * bought_at);
    }
    assert(paid * kept <= cost * w) by (nonlinear_arith)
        requires
            (paid * kept) * bought_at <= (cost * w) * bought_at,
            bought_at > 0,
    ;
}

/// A purchase that adds more than its face to the reserve's value costs more
/// than selling it back can pay.
proof fn lemma_dear_purchase(charged: int, paid: int, total_sy: int, rate: int, pt: int)
    requires
        rate > 0,
        paid <= pt * WAD / rate,
        (total_sy + charged) * rate / (WAD as int) - total_sy * rate / (WAD as int) > pt,
    ensures
        paid < charged,
{
    let w = WAD as int;
    let added = charged * rate;
    assert((total_sy + charged) * rate == total_sy * rate + added) by (nonlinear_arith)
        requires
            added == charged * rate,
    ;
    assert(added > pt * w);
    let n = pt * w;
    let most = n / rate;
    assert(most * rate <= n) by (nonlinear_arith)
        requires
            most == n / rate,
            rate > 0,
    ;
    assert(paid < charged) by (nonlinear_arith)
        requires
            paid <= most,
            most * rate <= n,
            n < charged * rate,
            rate > 0,
    ;
}

/// How many parts in a wad the anchor may lose of a rate that was booked
/// `time_to_expiry` seconds before maturity: the rounding of the logarithm, of
/// its scaling to a year and back, and of the exponential.
pub open spec fn anchor_slip(time_to_expiry: int) -> int {
    608 + 5 * (time_to_expiry / (IMPLIED_RATE_TIME as int))
}

/// The rate that an anchor is derived from falls short of the one that was
/// booked by the slip at most.
proof fn lemma_booked_rate_kept(booked: int, time_to_expiry: int)
    requires
        WAD <= booked <= i128::MAX,
        0 < time_to_expiry <= u64::MAX,
        implied_exchange_rate(
            ln_wad(booked) * IMPLIED_RATE_TIME / time_to_expiry,
            time_to_expiry,
        ) is Ok,
    ensures
        ({
            let rate = ln_wad(booked) * IMPLIED_RATE_TIME / time_to_expiry;
            let derived = implied_exchange_rate(rate, time_to_expiry)->Ok_0;
            booked * (WAD - anchor_slip(time_to_expiry)) <= derived * WAD
        }),
{
    let t = time_to_expiry;
    let w = WAD as int;
    let year = IMPLIED_RATE_TIME as int;
    let ln = ln_wad(booked);
    lemma_ln_wad_sign(booked);
    let scaled = ln * year;
    let rate = scaled / t;
    let back = rate * t;
    assert(0 <= rate && scaled - t < back <= scaled) by (nonlinear_arith)
        requires
            rate == scaled / t,
            back == rate * t,
            t > 0,
            scaled >= 0,
    ;
    assert(back >= 0) by (nonlinear_arith)
        requires
            back == rate * t,
            rate >= 0,
            t > 0,
    ;
    let exponent = back / year;
    let d = ln - exponent;
    let years = t / year;
    assert(0 <= d <= years + 1);
    assert(exponent <= ln <= i128::MAX) by {
        lemma_ln_wad_range(booked);
    }
    lemma_exp_near_ln(booked, d);
    let derived = exp_wad(exponent)->0;
    let slip = anchor_slip(t);
    let n = booked * (601 + 5 * d);
    let lost = n / w;
    assert(lost * w <= n) by (nonlinear_arith)
        requires
            lost == n / w,
            w > 0,
    ;
    assert(n + 2 * booked <= booked * slip) by (nonlinear_arith)
        requires
            n == booked * (601 + 5 * d),
            603 + 5 * d <= slip,
            booked >= 0,
    ;
    assert(booked * (w - slip) == booked * w - booked * slip) by (nonlinear_arith);
    assert(booked * w - derived * w <= (lost + 2) * w) by (nonlinear_arith)
        requires
            booked - derived <= lost + 2,
            w > 0,
    ;
    assert((lost + 2) * w == lost * w + 2 * w) by (nonlinear_arith);
}

/// Buying principal tokens and selling them back at once is no way to gain: on
/// the market that the purchase leaves behind, the sale pays at most what the
/// purchase took, but for the share of it that the anchor may lose in rounding.
pub proof fn lemma_round_trip_does_not_gain(
    market: AmmMarket,
    now: u64,
    sy_rate: i128,
    sy_in: i128,
    min_pt_out: i128,
    min_sy_out: i128,
)
    requires
        market.wf(),
        market.sy_for_pt(now, sy_rate, sy_in, min_pt_out) matches Ok((pt_out, charged, next, fees))
            && {
            let left = AmmMarket { state: Some(next), fees, ..market };
            left.pt_for_sy(now, sy_rate, pt_out, min_sy_out) is Ok
        },
    ensures
        ({
            let (pt_out, charged, next, fees) = market.sy_for_pt(
                now,
                sy_rate,
                sy_in,
                min_pt_out,
            )->Ok_0;
            let left = AmmMarket { state: Some(next), fees, ..market };
            let sy_out = left.pt_for_sy(now, sy_rate, pt_out, min_sy_out)->Ok_0.0;
            let time = market.config->0.maturity - now;
            sy_out <= charged + sy_out * anchor_slip(time) / (WAD as int)
        }),
{
    let (config, state, comp) = market.open_market(sy_in as int, now, sy_rate)->Ok_0;
    lemma_open_market(market, sy_in, now, sy_rate);
    lemma_best_purchase_is_feasible(config, state, comp, sy_in as int);
    let (pt_out, charged, next, fees) = market.sy_for_pt(now, sy_rate, sy_in, min_pt_out)->Ok_0;
    lemma_feasible_purchase(config, state, comp, pt_out as int);
    lemma_feasible_purchase_applies(config, state, comp, sy_in as int, pt_out as int);
    let left = AmmMarket { state: Some(next), fees, ..market };
    let later = left.open_market(pt_out as int, now, sy_rate)->Ok_0.2;
    let n = pt_out as int;
    let pt = state.total_pt as int;
    let asset = comp.total_asset as int;
    let grown = (state.total_sy + charged) * sy_rate / (WAD as int);
    let after = later.total_asset as int;
    let scalar = comp.rate_scalar as int;
    let anchor = comp.rate_anchor as int;
    let bought_at = exchange_rate(pt, asset, scalar, anchor, n)->Ok_0 as int;
    let booked = exchange_rate(pt - n, grown, scalar, anchor, 0)->Ok_0 as int;
    let sold_at = exchange_rate(
        pt - n,
        after,
        scalar,
        later.rate_anchor as int,
        -n,
    )->Ok_0 as int;
    let time = comp.time_to_expiry as int;
    let slip = anchor_slip(time);
    let w = WAD as int;
    let bps = config.fee_bps as int;
    let sy_out = sale_proceeds(bps, sold_at, sy_rate as int, n);
    lemma_quotient_nonneg(state.total_sy as int, sy_rate as int, w);
    lemma_quotient_nonneg(state.total_sy + charged, sy_rate as int, w);
    lemma_price_bounds(bps, sold_at, sy_rate as int, n);
    if grown - asset <= n {
        let p = proportion(pt, asset, n);
        let q = proportion(pt - n, grown, 0);
        let now_at = proportion(pt - n, after, 0);
        let sold_p = proportion(pt - n, after, -n);
        lemma_trunc_div_order((pt - n) * WAD, pt * WAD, pt - n + after);
        lemma_curve_rises(now_at, sold_p, scalar, later.rate_anchor as int);
        lemma_anchor_keeps_rate(pt - n, next.last_ln_implied_rate as int, after, scalar, time);
        let derived = implied_exchange_rate(next.last_ln_implied_rate as int, time)->Ok_0 as int;
        assert(curve_point(now_at, scalar, later.rate_anchor as int) == derived);
        assert(curve_point(q, scalar, anchor) == booked);
        assert(((pt - n) * WAD) * (pt - n + grown) <= ((pt - n) * WAD) * (pt + asset)) by (
        nonlinear_arith)
            requires
                pt - n + grown <= pt + asset,
                pt - n > 0,
                WAD > 0,
        ;
        lemma_div_cross((pt - n) * WAD, pt + asset, (pt - n) * WAD, pt - n + grown);
        lemma_curve_rises(p, q, scalar, anchor);
        lemma_ln_implied_rate_range(pt - n, grown, scalar, anchor, time);
        lemma_booked_rate_kept(booked, time);
        assert(bought_at * (w - slip) <= booked * (w - slip) && derived * w <= sold_at * w) by (
        nonlinear_arith)
            requires
                bought_at <= booked,
                derived <= sold_at,
                slip <= w,
                w > 0,
        ;
        lemma_round_trip_at_rates(bps, bought_at, sold_at, slip, sy_rate as int, n);
    } else {
        lemma_dear_purchase(charged as int, sy_out, state.total_sy as int, sy_rate as int, n);
        assert(sy_out * (w - slip) <= charged * w) by (nonlinear_arith)
            requires
                0 <= sy_out <= charged,
                0 <= slip,
                w > 0,
        {
            assert(sy_out * slip >= 0);
            assert(sy_out * (w - slip) <= sy_out * w);
        }
    }
    let extra = sy_out * slip;
    assert(sy_out * (w - slip) == sy_out * w - extra) by (nonlinear_arith)
        requires
            extra == sy_out * slip,
    ;
    assert((sy_out - charged) * w <= extra) by (nonlinear_arith)
        requires
            sy_out * w - extra <= charged * w,
    ;
}

/// After an idle gap of a full window the averaged rate is a single
/// observation, and it counts as warming up until a full window has passed.
pub proof fn lemma_idle_gap_restarts_warmup(
    config: Config,
    state: State,
    observed_ln_rate: i128,
    now: u64,
)
    requires
        config.twap_window > 0,
        elapsed(state, now) >= config.twap_window,
        now + config.twap_window <= u64::MAX,
    ensures
        after_observation(config, state, observed_ln_rate, now) matches Ok(next) && {
            &&& next.twap_ln_implied_rate == observed_ln_rate
            &&& next.warmup_until == now + config.twap_window
            &&& next.last_observation == now
        },
{
}

/// Maturity closes every way in.
pub proof fn lemma_maturity_closes_trading(
    market: AmmMarket,
    now: u64,
    sy_rate: i128,
    from: Address,
    amount: i128,
    other: i128,
    min_out: i128,
)
    requires
        market.config matches Some(config) && now >= config.maturity,
    ensures
        market.sy_for_pt(now, sy_rate, amount, min_out) is Err,
        market.pt_for_sy(now, sy_rate, amount, min_out) is Err,
        market.sy_for_yt(now, sy_rate, from, amount, min_out) is Err,
        market.yt_for_sy(now, sy_rate, from, amount, min_out) is Err,
        market.deposited(now, sy_rate, from, amount, other, min_out) is Err,
{
}

/// A pause closes every way in.
pub proof fn lemma_pause_closes_entries(
    market: AmmMarket,
    now: u64,
    sy_rate: i128,
    from: Address,
    amount: i128,
    other: i128,
    min_out: i128,
)
    requires
        market.governance.paused,
    ensures
        market.sy_for_pt(now, sy_rate, amount, min_out) is Err,
        market.pt_for_sy(now, sy_rate, amount, min_out) is Err,
        market.sy_for_yt(now, sy_rate, from, amount, min_out) is Err,
        market.yt_for_sy(now, sy_rate, from, amount, min_out) is Err,
        market.deposited(now, sy_rate, from, amount, other, min_out) is Err,
{
}

/// Nothing that governance can record keeps a holder from taking liquidity
/// out, or anyone from a quote.
pub proof fn lemma_governance_never_blocks_exits(
    market: AmmMarket,
    governance: Governance,
    now: u64,
    sy_rate: i128,
    from: Address,
    amount: i128,
    min_pt_out: i128,
    min_sy_out: i128,
)
    ensures
        ({
            let governed = AmmMarket { governance, ..market };
            &&& governed.withdrawn(from, amount, min_pt_out, min_sy_out) == market.withdrawn(
                from,
                amount,
                min_pt_out,
                min_sy_out,
            )
            &&& governed.live_market(amount as int, now, sy_rate) == market.live_market(
                amount as int,
                now,
                sy_rate,
            )
        }),
{
}

/// A holder of liquidity shares in an open market can take out any part of them
/// that is worth a unit of either token.
pub proof fn lemma_holders_can_exit(market: AmmMarket, from: Address, lp_in: i128)
    requires
        market.wf(),
        market.state is Some,
        0 < lp_in <= WAD,
        lp_in <= market.lp_balances.amount(from),
        lp_in * market.state->0.total_pt >= market.state->0.total_lp || lp_in
            * market.state->0.total_sy >= market.state->0.total_lp,
    ensures
        market.withdrawn(from, lp_in, 0, 0) is Ok,
{
    let state = market.state->0;
    let lp = state.total_lp as int;
    market.lp_balances.lemma_amount_within_total(from);
    if lp > 0 {
        let a = lp_in * state.total_pt;
        let b = lp_in * state.total_sy;
        assert(a >= 0 && b >= 0) by (nonlinear_arith)
            requires
                a == lp_in * state.total_pt,
                b == lp_in * state.total_sy,
                lp_in > 0,
                state.total_pt >= 0,
                state.total_sy >= 0,
        ;
        assert(a / lp >= 0 && b / lp >= 0 && (a >= lp ==> a / lp > 0) && (b >= lp ==> b / lp > 0))
            by (nonlinear_arith)
            requires
                a >= 0,
                b >= 0,
                lp > 0,
        ;
    }
}

/// With no share set, the protocol takes nothing, and with any share it may
/// take no more than half of the fee.
pub proof fn lemma_protocol_fee_is_part_of_fee(
    market: AmmMarket,
    now: u64,
    sy_rate: i128,
    amount: i128,
    min_out: i128,
)
    requires
        market.wf(),
    ensures
        market.sy_for_pt(now, sy_rate, amount, min_out) matches Ok((_, charged, _, fees)) ==> {
            &&& 2 * (fees.accrued - market.fees.accrued) <= fee_in_charge(
                charged as int,
                market.config->0.fee_bps as int,
            )
            &&& fees.accrued >= market.fees.accrued
            &&& market.fees.share_bps == 0 ==> fees == market.fees
        },
        market.pt_for_sy(now, sy_rate, amount, min_out) matches Ok((sy_out, _, fees)) ==> {
            &&& 2 * (fees.accrued - market.fees.accrued) <= fee_in_payout(
                sy_out as int,
                market.config->0.fee_bps as int,
            )
            &&& fees.accrued >= market.fees.accrued
            &&& market.fees.share_bps == 0 ==> fees == market.fees
        },
{
    if market.open_market(amount as int, now, sy_rate) is Ok {
        let (config, state, comp) = market.open_market(amount as int, now, sy_rate)->Ok_0;
        lemma_open_market(market, amount, now, sy_rate);
        let share = market.fees.share_bps as int;
        if market.sy_for_pt(now, sy_rate, amount, min_out) is Ok {
            lemma_best_purchase_is_feasible(config, state, comp, amount as int);
            let (pt_out, charged) = best_purchase(config, state, comp, amount as int)->Ok_0;
            lemma_feasible_purchase(config, state, comp, pt_out as int);
            lemma_fee_is_part(charged as int, config.fee_bps as int);
            let bought = after_purchase(
                comp,
                state,
                amount as int,
                pt_out as int,
                charged as int,
            )->Ok_0;
            lemma_cut_at_most_half(
                fee_in_charge(charged as int, config.fee_bps as int),
                share,
                bought.total_sy as int,
            );
        }
        if market.pt_for_sy(now, sy_rate, amount, min_out) is Ok {
            let sy_out = sy_out_for_pt_in(config, state, comp, amount as int)->Ok_0;
            lemma_fee_is_part(sy_out as int, config.fee_bps as int);
            let sold = after_sale(
                comp,
                state,
                amount as int,
                sy_out as int,
                min_out as int,
            )->Ok_0;
            lemma_cut_at_most_half(
                fee_in_payout(sy_out as int, config.fee_bps as int),
                share,
                sold.total_sy as int,
            );
        }
    }
}

/// Once governance is renounced nobody can pause, announce or run an upgrade,
/// sweep, or change the fee.
pub proof fn lemma_renounced_is_final(market: AmmMarket, caller: Address, token: Address, now: u64)
    requires
        market.wf(),
        market.governance.renounced,
    ensures
        market.governor_rejection(caller) is Some,
        market.sweep_rejection(caller, token) is Some,
        !market.governance.spec_may_pause(market.config->0.admin, caller),
        market.governance.spec_due_upgrade(now) is None,
{
}

/// Fees accrue to the treasury in force and to nobody else: a trade adds to what
/// it is owed what the protocol takes, and leaves what others are owed.
pub proof fn lemma_fees_accrue_to_treasury(
    market: AmmMarket,
    now: u64,
    sy_rate: i128,
    amount: i128,
    min_out: i128,
    holder: Address,
)
    requires
        market.wf(),
    ensures
        market.sy_for_pt(now, sy_rate, amount, min_out) matches Ok((_, _, next, fees)) ==> {
            let traded = AmmMarket { state: Some(next), fees, ..market };
            traded.fees_owed(holder) - market.fees_owed(holder) == (if market.fees.treasury == Some(
                holder,
            ) {
                fees.accrued - market.fees.accrued
            } else {
                0
            })
        },
        market.pt_for_sy(now, sy_rate, amount, min_out) matches Ok((_, next, fees)) ==> {
            let traded = AmmMarket { state: Some(next), fees, ..market };
            traded.fees_owed(holder) - market.fees_owed(holder) == (if market.fees.treasury == Some(
                holder,
            ) {
                fees.accrued - market.fees.accrued
            } else {
                0
            })
        },
{
}

/// Whoever guards the market may halt it but, unless they are the admin, can
/// neither resume it nor govern it otherwise.
pub proof fn lemma_guardian_can_only_halt(market: AmmMarket, guardian: Address)
    requires
        market.config matches Some(config) && guardian != config.admin,
        market.governance.guardian == Some(guardian),
        !market.governance.renounced,
    ensures
        market.governance.spec_may_pause(market.config->0.admin, guardian),
        market.admin_rejection(guardian) is Some,
        market.governor_rejection(guardian) is Some,
{
}

/// Nobody can sweep the tokens that the reserves consist of.
pub proof fn lemma_sweep_spares_reserves(market: AmmMarket, caller: Address)
    requires
        market.config is Some,
    ensures
        market.sweep_rejection(caller, market.config->0.pt_token) is Some,
        market.sweep_rejection(caller, market.config->0.sy_token) is Some,
{
}

/// An upgrade announced at one time cannot run before the timelock of three days
/// has passed.
pub proof fn lemma_upgrade_waits(governance: Governance, announced: u64, now: u64)
    requires
        announced + UPGRADE_TIMELOCK_SECONDS <= u64::MAX,
        governance.pending_upgrade matches Some(upgrade) && upgrade.eta == announced
            + UPGRADE_TIMELOCK_SECONDS,
        now < announced + 72 * 60 * 60,
    ensures
        governance.spec_due_upgrade(now) is None,
{
}

/// The admin alone governs, until governance is renounced; guardian and admin
/// alone may pause, until then.
pub proof fn lemma_who_may_govern(
    market: AmmMarket,
    caller: Address,
    token: Address,
    now: u64,
)
    requires
        market.config is Some,
    ensures
        ({
            let config = market.config->0;
            let governance = market.governance;
            &&& market.admin_rejection(caller) is None <==> caller == config.admin
            &&& market.governor_rejection(caller) is None <==> caller == config.admin
                && !governance.renounced
            &&& market.sweep_rejection(caller, token) is None <==> caller == config.admin
                && !governance.renounced && token != config.pt_token && token != config.sy_token
            &&& governance.spec_may_pause(config.admin, caller) <==> !governance.renounced && (caller
                == config.admin || governance.guardian == Some(caller))
            &&& forall|upgrade: PendingUpgrade|
                #[trigger] governance.spec_due_upgrade(now) == Some(upgrade) <==> (
                governance.pending_upgrade == Some(upgrade) && upgrade.eta <= now)
        }),
{
}

/// The parameters that a market may be set up with, and the market that it then
/// is: empty, and warming up for one window.
pub proof fn lemma_sound_parameters(config: Config, now: u64)
    ensures
        config_fault(config, now) is None <==> {
            &&& now < config.maturity
            &&& 0 < config.scalar_root <= 10_000_000_000_000_000_000
            &&& 1_000_000_000_000_000_000 <= config.initial_anchor <= 2_000_000_000_000_000_000
            &&& 0 <= config.fee_bps < 10_000
            &&& 0 < config.twap_window
        },
        now + config.twap_window <= u64::MAX ==> {
            let state = unseeded(config, now);
            &&& state.total_pt == 0 && state.total_sy == 0 && state.total_lp == 0
            &&& state.last_ln_implied_rate == 0 && state.twap_ln_implied_rate == 0
            &&& state.last_observation == now
            &&& state.warmup_until == now + config.twap_window
        },
{
}

} // verus!
