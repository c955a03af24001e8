//! What trades cost, said of their results alone: relations that the amounts of a
//! quote or a swap satisfy, whichever way they were computed.
use super::checked::lemma_quotient_nonneg;
use super::curve::{
    curve_point, exchange_rate, implied_exchange_rate, lemma_curve_rises, lemma_log_odds,
    proportion,
};
use super::exponential::{exp_wad, lemma_exp_wad_sign};
use super::laws::lemma_booked_sale_is_feasible;
use super::logarithm::ln_wad;
use super::market::AmmMarket;
use super::pricing::{
    feasible, feasible_purchase, feasible_sale, lemma_feasible_purchase, lemma_price_bounds,
    purchase_cost, sale_proceeds, sale_quote, Precompute,
};
use super::solver::{
    affordable_pt, affordable_yt, best_purchase, best_yt_purchase, bisect,
    lemma_best_purchase_is_largest, lemma_bisect, lemma_shares_for_face, on_curve,
    shares_for_face,
};
use super::swaps::yt_sale_terms;
use super::types::Error;
use crate::address::Address;
use crate::arith::{ceil_div, fits, WAD};
use crate::rounding::{
    lemma_rounded_down, lemma_rounded_toward_zero, lemma_rounded_up, rounded_down,
    rounded_toward_zero, rounded_up,
};
use vstd::prelude::*;

verus! {

/// `x` lies on the curve with steepness `scalar` and height `anchor` where
/// principal tokens make up the part `p` of the pool, at odds of `odds`.
pub open spec fn on_line(x: int, p: int, odds: int, scalar: int, anchor: int) -> bool {
    &&& 0 < p < WAD
    &&& rounded_down(odds, p * WAD, WAD - p)
    &&& rounded_toward_zero(x - anchor, ln_wad(odds) * WAD, scalar)
}

/// `x` is the curve's height where `pt` of a pool of `total` are principal tokens.
pub open spec fn passes_through(x: int, pt: int, total: int, scalar: int, anchor: int) -> bool {
    exists|p: int, odds: int|
        rounded_down(p, pt * WAD, total) && #[trigger] on_line(x, p, odds, scalar, anchor)
}

/// `x` is the rate at which the market trades there: the curve's height, where
/// principal tokens make up no more than 96% of the pool and a unit of the asset
/// costs at least its face in them.
pub open spec fn trades_at(x: int, pt: int, total: int, scalar: int, anchor: int) -> bool {
    &&& passes_through(x, pt, total, scalar, anchor)
    &&& 100 * (pt * WAD / total) <= 96 * WAD
    &&& WAD <= x <= i128::MAX
}

/// The curve has one height at each point.
pub proof fn lemma_passes_through(x: int, pt: int, total: int, scalar: int, anchor: int)
    requires
        0 < total,
        0 < scalar,
        0 <= pt,
    ensures
        passes_through(x, pt, total, scalar, anchor) <==> {
            let p = pt * WAD / total;
            0 < p < WAD && x == curve_point(p, scalar, anchor)
        },
{
    let p = pt * WAD / total;
    lemma_rounded_down(p, pt * WAD, total);
    if 0 < p < WAD {
        let odds = p * WAD / (WAD - p);
        lemma_rounded_down(odds, p * WAD, WAD - p);
        lemma_rounded_toward_zero(x - anchor, ln_wad(odds) * WAD, scalar);
        if x == curve_point(p, scalar, anchor) {
            assert(on_line(x, p, odds, scalar, anchor));
        }
    }
    if passes_through(x, pt, total, scalar, anchor) {
        let (q, o) = choose|q: int, o: int|
            rounded_down(q, pt * WAD, total) && #[trigger] on_line(x, q, o, scalar, anchor);
        lemma_rounded_down(q, pt * WAD, total);
        lemma_rounded_down(o, p * WAD, WAD - p);
    }
}

/// The rate at which principal tokens leave or join a pool is the curve's height
/// at the share of the pool that they make up then.
pub proof fn lemma_rate_is_on_curve(
    total_pt: int,
    total_asset: int,
    scalar: int,
    anchor: int,
    net_pt: int,
    x: int,
)
    requires
        0 < scalar,
        0 < total_pt + total_asset <= i128::MAX,
        0 <= total_pt - net_pt,
        fits((total_pt - net_pt) * WAD),
        fits(x),
    ensures
        exchange_rate(total_pt, total_asset, scalar, anchor, net_pt) == Ok::<i128, Error>(x as i128)
            <==> trades_at(x, total_pt - net_pt, total_pt + total_asset, scalar, anchor),
{
    let pt = total_pt - net_pt;
    let total = total_pt + total_asset;
    lemma_passes_through(x, pt, total, scalar, anchor);
    let n = pt * WAD;
    assert(n >= 0) by (nonlinear_arith)
        requires
            n == pt * WAD,
            pt >= 0,
            WAD > 0,
    ;
    assert(proportion(total_pt, total_asset, net_pt) == n / total);
}

/// `x` is what the yearly log rate `ln_rate` comes to over `time` seconds.
pub open spec fn stands_at(x: int, ln_rate: int, time: int) -> bool {
    exists|e: int| rounded_down(e, ln_rate * time, 31_536_000) && #[trigger] exp_wad(e) == Some(x)
}

/// The curve that a market trades on at `now`, with shares at `sy_rate`: it is as
/// many times steeper than a year before maturity as the time left goes into a
/// year, it sets the principal tokens against the asset value of the shares, and
/// at the present reserves it passes through the rate that the market stands at.
pub open spec fn market_curve(
    market: AmmMarket,
    now: u64,
    sy_rate: int,
    scalar: int,
    asset: int,
    anchor: int,
) -> bool {
    let config = market.config->0;
    let state = market.state->0;
    let time = config.maturity - now;
    &&& market.config is Some
    &&& market.state is Some
    &&& 0 < time
    &&& 0 < sy_rate
    &&& 0 < scalar
    &&& 0 < asset
    &&& rounded_down(scalar, config.scalar_root * 31_536_000, time)
    &&& rounded_down(asset, state.total_sy * sy_rate, WAD as int)
    &&& exists|x: int|
        #[trigger] stands_at(x, state.last_ln_implied_rate as int, time) && passes_through(
            x,
            state.total_pt as int,
            state.total_pt + asset,
            scalar,
            anchor,
        )
}

/// There is one such curve.
pub proof fn lemma_market_curve_is_unique(
    market: AmmMarket,
    now: u64,
    sy_rate: int,
    scalar: int,
    asset: int,
    anchor: int,
    other_scalar: int,
    other_asset: int,
    other_anchor: int,
)
    requires
        market.wf(),
        market_curve(market, now, sy_rate, scalar, asset, anchor),
        market_curve(market, now, sy_rate, other_scalar, other_asset, other_anchor),
    ensures
        scalar == other_scalar,
        asset == other_asset,
        anchor == other_anchor,
{
    let config = market.config->0;
    let state = market.state->0;
    let time = config.maturity - now;
    let l = state.last_ln_implied_rate as int;
    let pt = state.total_pt as int;
    lemma_rounded_down(scalar, config.scalar_root * 31_536_000, time);
    lemma_rounded_down(other_scalar, config.scalar_root * 31_536_000, time);
    lemma_rounded_down(asset, state.total_sy * sy_rate, WAD as int);
    lemma_rounded_down(other_asset, state.total_sy * sy_rate, WAD as int);
    let x = choose|x: int|
        #[trigger] stands_at(x, l, time) && passes_through(x, pt, pt + asset, scalar, anchor);
    let y = choose|y: int|
        #[trigger] stands_at(y, l, time) && passes_through(y, pt, pt + asset, scalar, other_anchor);
    lemma_stands_at(x, l, time);
    lemma_stands_at(y, l, time);
    lemma_passes_through(x, pt, pt + asset, scalar, anchor);
    lemma_passes_through(y, pt, pt + asset, scalar, other_anchor);
}

proof fn lemma_stands_at(x: int, ln_rate: int, time: int)
    ensures
        stands_at(x, ln_rate, time) <==> exp_wad(ln_rate * time / 31_536_000) == Some(x),
{
    let e = ln_rate * time / 31_536_000;
    lemma_rounded_down(e, ln_rate * time, 31_536_000);
    if stands_at(x, ln_rate, time) {
        let f = choose|f: int|
            rounded_down(f, ln_rate * time, 31_536_000) && #[trigger] exp_wad(f) == Some(x);
        lemma_rounded_down(f, ln_rate * time, 31_536_000);
    }
}

/// A market that is loaded for a trade or a quote is loaded with its own curve,
/// at the time of the trade and at the shares' rate.
pub proof fn lemma_loaded_market(market: AmmMarket, amount: int, now: u64, sy_rate: i128)
    requires
        market.wf(),
        market.live_market(amount, now, sy_rate) is Ok,
    ensures
        ({
            let (config, state, comp) = market.live_market(amount, now, sy_rate)->Ok_0;
            &&& 0 < amount <= 1_000_000_000_000_000_000
            &&& market.config == Some(config)
            &&& market.state == Some(state)
            &&& market_curve(
                market,
                now,
                sy_rate as int,
                comp.rate_scalar as int,
                comp.total_asset as int,
                comp.rate_anchor as int,
            )
            &&& comp.rate == sy_rate
            &&& comp.time_to_expiry == config.maturity - now
            &&& state.seeded()
            &&& config.wf()
            &&& state.wf()
            &&& comp.wf()
            &&& fits(state.total_sy * sy_rate)
        }),
{
    let (config, state, comp) = market.live_market(amount, now, sy_rate)->Ok_0;
    let time = config.maturity - now;
    let l = state.last_ln_implied_rate as int;
    let pt = state.total_pt as int;
    let asset = comp.total_asset as int;
    let scalar = comp.rate_scalar as int;
    let anchor = comp.rate_anchor as int;
    let root = config.scalar_root * 31_536_000;
    lemma_rounded_down(scalar, root, time);
    assert(0 <= root / time <= root) by (nonlinear_arith)
        requires
            root >= 0,
            time > 0,
    ;
    lemma_quotient_nonneg(state.total_sy as int, sy_rate as int, WAD as int);
    lemma_rounded_down(asset, state.total_sy * sy_rate, WAD as int);
    let n = l * time;
    assert(n >= 0) by (nonlinear_arith)
        requires
            n == l * time,
            l >= 0,
            time >= 0,
    ;
    let e = n / 31_536_000;
    lemma_exp_wad_fits(e);
    let x = exp_wad(e)->0;
    lemma_stands_at(x, l, time);
    assert(implied_exchange_rate(l, time) == Ok::<i128, Error>(x as i128));
    let m = pt * WAD;
    assert(m >= 0) by (nonlinear_arith)
        requires
            m == pt * WAD,
            pt >= 0,
            WAD > 0,
    ;
    let p = m / (pt + asset);
    assert(proportion(pt, asset, 0) == p);
    lemma_log_odds(p);
    lemma_passes_through(x, pt, pt + asset, scalar, anchor);
}

/// A market whose curve can be held is loaded for any amount within bounds.
pub proof fn lemma_market_loads(
    market: AmmMarket,
    amount: int,
    now: u64,
    sy_rate: i128,
    scalar: int,
    asset: int,
    anchor: int,
)
    requires
        market.wf(),
        market_curve(market, now, sy_rate as int, scalar, asset, anchor),
        market.state->0.total_lp > 0,
        0 < amount <= 1_000_000_000_000_000_000,
        market.state->0.total_sy * sy_rate <= i128::MAX,
        market.state->0.last_ln_implied_rate * (market.config->0.maturity - now) <= i128::MAX,
        0 <= anchor <= i128::MAX,
    ensures
        market.live_market(amount, now, sy_rate) is Ok,
        !market.governance.paused ==> market.open_market(amount, now, sy_rate) is Ok,
        market.governance.paused ==> market.open_market(amount, now, sy_rate) is Err,
{
    let config = market.config->0;
    let state = market.state->0;
    let time = config.maturity - now;
    let l = state.last_ln_implied_rate as int;
    let pt = state.total_pt as int;
    let root = config.scalar_root * 31_536_000;
    lemma_rounded_down(scalar, root, time);
    assert(0 <= root / time <= root) by (nonlinear_arith)
        requires
            root >= 0,
            time > 0,
    ;
    let n = state.total_sy * sy_rate;
    assert(n >= 0) by (nonlinear_arith)
        requires
            n == state.total_sy * sy_rate,
            state.total_sy >= 0,
            sy_rate >= 0,
    ;
    lemma_quotient_nonneg(state.total_sy as int, sy_rate as int, WAD as int);
    lemma_rounded_down(asset, n, WAD as int);
    let k = l * time;
    assert(k >= 0) by (nonlinear_arith)
        requires
            k == l * time,
            l >= 0,
            time >= 0,
    ;
    let e = k / 31_536_000;
    let x = choose|x: int|
        #[trigger] stands_at(x, l, time) && passes_through(x, pt, pt + asset, scalar, anchor);
    lemma_stands_at(x, l, time);
    lemma_exp_wad_fits(e);
    lemma_exp_wad_sign(e);
    lemma_passes_through(x, pt, pt + asset, scalar, anchor);
    let m = pt * WAD;
    let p = m / (pt + asset);
    assert(m >= 0) by (nonlinear_arith)
        requires
            m == pt * WAD,
            pt >= 0,
            WAD > 0,
    ;
    assert(proportion(pt, asset, 0) == p);
    lemma_log_odds(p);
}

proof fn lemma_exp_wad_fits(e: int)
    requires
        0 <= e,
    ensures
        exp_wad(e) matches Some(x) ==> fits(x),
{
}

/// Selling `pt_in` at `x` brings `gross` of the asset, of which `fee` stays with the
/// pool; the rest is paid in `sy_out` shares.
pub open spec fn sale_steps(
    sy_out: int,
    pt_in: int,
    x: int,
    fee_bps: int,
    rate: int,
    gross: int,
    fee: int,
) -> bool {
    &&& rounded_down(gross, pt_in * WAD, x)
    &&& rounded_down(fee, gross * fee_bps, 10_000)
    &&& rounded_down(sy_out, (gross - fee) * WAD, rate)
}

/// `sy_out` shares are what `pt_in` principal tokens sell for at `x`.
pub open spec fn sells_for(sy_out: int, pt_in: int, x: int, fee_bps: int, rate: int) -> bool {
    exists|gross: int, fee: int| #[trigger]
        sale_steps(sy_out, pt_in, x, fee_bps, rate, gross, fee)
}

/// Buying `pt_out` at `x` takes `gross` of the asset and `fee` on top; both are
/// charged in `cost` shares.
pub open spec fn purchase_steps(
    cost: int,
    pt_out: int,
    x: int,
    fee_bps: int,
    rate: int,
    gross: int,
    fee: int,
) -> bool {
    &&& rounded_up(gross, pt_out * WAD, x)
    &&& rounded_up(fee, gross * fee_bps, 10_000)
    &&& rounded_up(cost, (gross + fee) * WAD, rate)
}

/// `cost` shares are what `pt_out` principal tokens cost at `x`.
pub open spec fn costs(cost: int, pt_out: int, x: int, fee_bps: int, rate: int) -> bool {
    exists|gross: int, fee: int| #[trigger]
        purchase_steps(cost, pt_out, x, fee_bps, rate, gross, fee)
}

proof fn lemma_sells_for(sy_out: int, pt_in: int, x: int, fee_bps: int, rate: int)
    requires
        0 < x,
        0 < rate,
    ensures
        sells_for(sy_out, pt_in, x, fee_bps, rate) <==> sy_out == sale_proceeds(
            fee_bps,
            x,
            rate,
            pt_in,
        ),
{
    let gross = pt_in * WAD / x;
    let fee = gross * fee_bps / 10_000;
    lemma_rounded_down(gross, pt_in * WAD, x);
    lemma_rounded_down(fee, gross * fee_bps, 10_000);
    lemma_rounded_down(sy_out, (gross - fee) * WAD, rate);
    if sy_out == sale_proceeds(fee_bps, x, rate, pt_in) {
        assert(sale_steps(sy_out, pt_in, x, fee_bps, rate, gross, fee));
    }
    if sells_for(sy_out, pt_in, x, fee_bps, rate) {
        let (g, f) = choose|g: int, f: int| #[trigger]
            sale_steps(sy_out, pt_in, x, fee_bps, rate, g, f);
        lemma_rounded_down(g, pt_in * WAD, x);
        lemma_rounded_down(f, gross * fee_bps, 10_000);
    }
}

proof fn lemma_costs(cost: int, pt_out: int, x: int, fee_bps: int, rate: int)
    requires
        0 < x,
        0 < rate,
    ensures
        costs(cost, pt_out, x, fee_bps, rate) <==> cost == purchase_cost(fee_bps, x, rate, pt_out),
{
    let gross = ceil_div(pt_out * WAD, x);
    let fee = ceil_div(gross * fee_bps, 10_000);
    lemma_rounded_up(gross, pt_out * WAD, x);
    lemma_rounded_up(fee, gross * fee_bps, 10_000);
    lemma_rounded_up(cost, (gross + fee) * WAD, rate);
    if cost == purchase_cost(fee_bps, x, rate, pt_out) {
        assert(purchase_steps(cost, pt_out, x, fee_bps, rate, gross, fee));
    }
    if costs(cost, pt_out, x, fee_bps, rate) {
        let (g, f) = choose|g: int, f: int| #[trigger]
            purchase_steps(cost, pt_out, x, fee_bps, rate, g, f);
        lemma_rounded_up(g, pt_out * WAD, x);
        lemma_rounded_up(f, gross * fee_bps, 10_000);
    }
}

/// The asset value of `sy` shares, at `rate`, is `asset`, and a market of `pt` principal
/// tokens against it trades at `x`.
pub open spec fn stands_with(
    x: int,
    asset: int,
    pt: int,
    sy: int,
    scalar: int,
    anchor: int,
    rate: int,
) -> bool {
    &&& rounded_down(asset, sy * rate, WAD as int)
    &&& 0 < asset
    &&& trades_at(x, pt, pt + asset, scalar, anchor)
}

/// A market may be left with `pt` principal tokens and `sy` shares: both are within
/// bounds, and the curve has a price for them.
pub open spec fn may_stand(pt: int, sy: int, scalar: int, anchor: int, rate: int) -> bool {
    &&& 0 < pt <= 1_000_000_000_000_000_000
    &&& 0 < sy <= 1_000_000_000_000_000_000
    &&& sy * rate <= i128::MAX
    &&& exists|x: int, asset: int| #[trigger]
        stands_with(x, asset, pt, sy, scalar, anchor, rate)
}

/// The pool may buy `pt_in` principal tokens for `sy_out` shares: it does so at the
/// curve's height with those tokens in the pool, and what it is left with may
/// stand.
pub open spec fn may_sell(
    market: AmmMarket,
    scalar: int,
    asset: int,
    anchor: int,
    rate: int,
    pt_in: int,
    sy_out: int,
) -> bool {
    let pt = market.state->0.total_pt as int;
    let sy = market.state->0.total_sy as int;
    let fee_bps = market.config->0.fee_bps as int;
    &&& 0 < pt_in
    &&& 0 < sy_out < sy
    &&& may_stand(pt + pt_in, sy - sy_out, scalar, anchor, rate)
    &&& exists|x: int| #[trigger]
        trades_at(x, pt + pt_in, pt + asset, scalar, anchor) && sells_for(
            sy_out,
            pt_in,
            x,
            fee_bps,
            rate,
        )
}

/// The pool may sell `pt_out` principal tokens for `cost` shares: it does so at the
/// curve's height without those tokens in the pool, and what it is left with may
/// stand.
pub open spec fn may_buy(
    market: AmmMarket,
    scalar: int,
    asset: int,
    anchor: int,
    rate: int,
    pt_out: int,
    cost: int,
) -> bool {
    let pt = market.state->0.total_pt as int;
    let sy = market.state->0.total_sy as int;
    let fee_bps = market.config->0.fee_bps as int;
    &&& 0 < pt_out < pt
    &&& may_stand(pt - pt_out, sy + cost, scalar, anchor, rate)
    &&& exists|x: int| #[trigger]
        trades_at(x, pt - pt_out, pt + asset, scalar, anchor) && costs(
            cost,
            pt_out,
            x,
            fee_bps,
            rate,
        )
}

proof fn lemma_may_stand(comp: Precompute, pt: int, sy: int)
    requires
        comp.wf(),
    ensures
        feasible(comp, pt, sy) <==> may_stand(
            pt,
            sy,
            comp.rate_scalar as int,
            comp.rate_anchor as int,
            comp.rate as int,
        ),
{
    let scalar = comp.rate_scalar as int;
    let anchor = comp.rate_anchor as int;
    let rate = comp.rate as int;
    if 0 < pt <= 1_000_000_000_000_000_000 && 0 < sy <= 1_000_000_000_000_000_000 && sy * rate
        <= i128::MAX {
        let n = sy * rate;
        assert(n > 0) by (nonlinear_arith)
            requires
                n == sy * rate,
                sy > 0,
                rate > 0,
        ;
        let asset = n / (WAD as int);
        lemma_rounded_down(asset, n, WAD as int);
        if feasible(comp, pt, sy) {
            let x = exchange_rate(pt, asset, scalar, anchor, 0)->Ok_0 as int;
            lemma_rate_is_on_curve(pt, asset, scalar, anchor, 0, x);
            assert(stands_with(x, asset, pt, sy, scalar, anchor, rate));
        }
        if may_stand(pt, sy, scalar, anchor, rate) {
            let (x, a) = choose|x: int, a: int| #[trigger]
                stands_with(x, a, pt, sy, scalar, anchor, rate);
            lemma_rounded_down(a, n, WAD as int);
            lemma_rate_is_on_curve(pt, asset, scalar, anchor, 0, x);
        }
    }
}

/// Sales that are considered are those that the pool may make, for what they
/// bring.
proof fn lemma_may_sell(
    market: AmmMarket,
    amount: int,
    now: u64,
    sy_rate: i128,
    pt_in: int,
    sy_out: int,
)
    requires
        market.wf(),
        market.live_market(amount, now, sy_rate) is Ok,
    ensures
        ({
            let (config, state, comp) = market.live_market(amount, now, sy_rate)->Ok_0;
            feasible_sale(config, state, comp, pt_in) == Some(sy_out as i128) && fits(sy_out)
                <==> may_sell(
                market,
                comp.rate_scalar as int,
                comp.total_asset as int,
                comp.rate_anchor as int,
                sy_rate as int,
                pt_in,
                sy_out,
            )
        }),
{
    lemma_loaded_market(market, amount, now, sy_rate);
    let (config, state, comp) = market.live_market(amount, now, sy_rate)->Ok_0;
    let scalar = comp.rate_scalar as int;
    let asset = comp.total_asset as int;
    let anchor = comp.rate_anchor as int;
    let rate = sy_rate as int;
    let pt = state.total_pt as int;
    let bps = config.fee_bps as int;
    lemma_may_stand(comp, pt + pt_in, state.total_sy - sy_out);
    if pt_in > 0 && fits((pt + pt_in) * WAD) {
        if exchange_rate(pt, asset, scalar, anchor, -pt_in) is Ok {
            let x = exchange_rate(pt, asset, scalar, anchor, -pt_in)->Ok_0 as int;
            lemma_rate_is_on_curve(pt, asset, scalar, anchor, -pt_in, x);
            lemma_sells_for(sy_out, pt_in, x, bps, rate);
            lemma_price_bounds(bps, x, rate, pt_in);
            lemma_quotient_nonneg(pt_in, WAD as int, x);
        }
        if may_sell(market, scalar, asset, anchor, rate, pt_in, sy_out) {
            let x = choose|x: int| #[trigger]
                trades_at(x, pt + pt_in, pt + asset, scalar, anchor) && sells_for(
                    sy_out,
                    pt_in,
                    x,
                    bps,
                    rate,
                );
            lemma_rate_is_on_curve(pt, asset, scalar, anchor, -pt_in, x);
        }
    }
    if may_sell(market, scalar, asset, anchor, rate, pt_in, sy_out) {
        assert(0 <= (pt + pt_in) * WAD <= i128::MAX);
    }
}

/// Purchases that are considered are those that the pool may make, for what they
/// cost.
proof fn lemma_may_buy(
    market: AmmMarket,
    amount: int,
    now: u64,
    sy_rate: i128,
    pt_out: int,
    cost: int,
)
    requires
        market.wf(),
        market.live_market(amount, now, sy_rate) is Ok,
    ensures
        ({
            let (config, state, comp) = market.live_market(amount, now, sy_rate)->Ok_0;
            feasible_purchase(config, state, comp, pt_out) == Some(cost as i128) && fits(cost)
                <==> may_buy(
                market,
                comp.rate_scalar as int,
                comp.total_asset as int,
                comp.rate_anchor as int,
                sy_rate as int,
                pt_out,
                cost,
            )
        }),
{
    lemma_loaded_market(market, amount, now, sy_rate);
    let (config, state, comp) = market.live_market(amount, now, sy_rate)->Ok_0;
    let scalar = comp.rate_scalar as int;
    let asset = comp.total_asset as int;
    let anchor = comp.rate_anchor as int;
    let rate = sy_rate as int;
    let pt = state.total_pt as int;
    let bps = config.fee_bps as int;
    if 0 < pt_out < pt {
        assert(0 <= (pt - pt_out) * WAD <= i128::MAX);
        if exchange_rate(pt, asset, scalar, anchor, pt_out) is Ok {
            let x = exchange_rate(pt, asset, scalar, anchor, pt_out)->Ok_0 as int;
            lemma_rate_is_on_curve(pt, asset, scalar, anchor, pt_out, x);
            lemma_costs(cost, pt_out, x, bps, rate);
            lemma_price_bounds(bps, x, rate, pt_out);
            lemma_may_stand(comp, pt - pt_out, state.total_sy + cost);
            lemma_may_stand(
                comp,
                pt - pt_out,
                state.total_sy + purchase_cost(bps, x, rate, pt_out),
            );
        }
        if may_buy(market, scalar, asset, anchor, rate, pt_out, cost) {
            let x = choose|x: int| #[trigger]
                trades_at(x, pt - pt_out, pt + asset, scalar, anchor) && costs(
                    cost,
                    pt_out,
                    x,
                    bps,
                    rate,
                );
            lemma_rate_is_on_curve(pt, asset, scalar, anchor, pt_out, x);
        }
    }
}

/// On the market's curve at `now`, with shares at `sy_rate`, the pool may buy `pt_in`
/// principal tokens for `sy_out` shares.
pub open spec fn sells(market: AmmMarket, now: u64, sy_rate: int, pt_in: int, sy_out: int) -> bool {
    exists|scalar: int, asset: int, anchor: int| #[trigger]
        market_curve(market, now, sy_rate, scalar, asset, anchor) && may_sell(
            market,
            scalar,
            asset,
            anchor,
            sy_rate,
            pt_in,
            sy_out,
        )
}

/// On the market's curve at `now`, with shares at `sy_rate`, the pool may sell
/// `pt_out` principal tokens for `cost` shares.
pub open spec fn buys(market: AmmMarket, now: u64, sy_rate: int, pt_out: int, cost: int) -> bool {
    exists|scalar: int, asset: int, anchor: int| #[trigger]
        market_curve(market, now, sy_rate, scalar, asset, anchor) && may_buy(
            market,
            scalar,
            asset,
            anchor,
            sy_rate,
            pt_out,
            cost,
        )
}

/// `cost` shares are what a buyer of `yt` yield tokens adds to what the pool pays for
/// as many principal tokens, so that together they are enough to split.
pub open spec fn yt_steps(
    market: AmmMarket,
    now: u64,
    sy_rate: int,
    yt: int,
    cost: int,
    paid: int,
) -> bool {
    sells(market, now, sy_rate, yt, paid) && rounded_up(cost + paid, yt * WAD, sy_rate)
}

pub open spec fn yt_costs(market: AmmMarket, now: u64, sy_rate: int, yt: int, cost: int) -> bool {
    exists|paid: int| #[trigger] yt_steps(market, now, sy_rate, yt, cost, paid)
}

/// `yt` yield tokens are to be had for `budget` shares.
pub open spec fn yt_within(market: AmmMarket, now: u64, sy_rate: int, yt: int, budget: int) -> bool {
    exists|cost: int| #[trigger] yt_costs(market, now, sy_rate, yt, cost) && 0 < cost <= budget
}

proof fn lemma_sells(
    market: AmmMarket,
    amount: int,
    now: u64,
    sy_rate: i128,
    pt_in: int,
    sy_out: int,
)
    requires
        market.wf(),
        market.live_market(amount, now, sy_rate) is Ok,
    ensures
        ({
            let (config, state, comp) = market.live_market(amount, now, sy_rate)->Ok_0;
            feasible_sale(config, state, comp, pt_in) == Some(sy_out as i128) && fits(sy_out)
                <==> sells(market, now, sy_rate as int, pt_in, sy_out)
        }),
{
    let (config, state, comp) = market.live_market(amount, now, sy_rate)->Ok_0;
    let s = comp.rate_scalar as int;
    let a = comp.total_asset as int;
    let h = comp.rate_anchor as int;
    lemma_loaded_market(market, amount, now, sy_rate);
    lemma_may_sell(market, amount, now, sy_rate, pt_in, sy_out);
    assert(market_curve(market, now, sy_rate as int, s, a, h));
    if sells(market, now, sy_rate as int, pt_in, sy_out) {
        let (scalar, asset, anchor) = choose|scalar: int, asset: int, anchor: int| #[trigger]
            market_curve(market, now, sy_rate as int, scalar, asset, anchor) && may_sell(
                market,
                scalar,
                asset,
                anchor,
                sy_rate as int,
                pt_in,
                sy_out,
            );
        lemma_market_curve_is_unique(market, now, sy_rate as int, scalar, asset, anchor, s, a, h);
    }
}

proof fn lemma_buys(
    market: AmmMarket,
    amount: int,
    now: u64,
    sy_rate: i128,
    pt_out: int,
    cost: int,
)
    requires
        market.wf(),
        market.live_market(amount, now, sy_rate) is Ok,
    ensures
        ({
            let (config, state, comp) = market.live_market(amount, now, sy_rate)->Ok_0;
            feasible_purchase(config, state, comp, pt_out) == Some(cost as i128) && fits(cost)
                <==> buys(market, now, sy_rate as int, pt_out, cost)
        }),
{
    let (config, state, comp) = market.live_market(amount, now, sy_rate)->Ok_0;
    let s = comp.rate_scalar as int;
    let a = comp.total_asset as int;
    let h = comp.rate_anchor as int;
    lemma_loaded_market(market, amount, now, sy_rate);
    lemma_may_buy(market, amount, now, sy_rate, pt_out, cost);
    assert(market_curve(market, now, sy_rate as int, s, a, h));
    if buys(market, now, sy_rate as int, pt_out, cost) {
        let (scalar, asset, anchor) = choose|scalar: int, asset: int, anchor: int| #[trigger]
            market_curve(market, now, sy_rate as int, scalar, asset, anchor) && may_buy(
                market,
                scalar,
                asset,
                anchor,
                sy_rate as int,
                pt_out,
                cost,
            );
        lemma_market_curve_is_unique(market, now, sy_rate as int, scalar, asset, anchor, s, a, h);
    }
}

/// A sale of principal tokens is quoted exactly where the pool may make it, and
/// for what it then pays: the price at the point of the curve that the sale
/// itself leaves, less the fee.
pub proof fn lemma_sale_is_quoted_at_its_price(
    market: AmmMarket,
    now: u64,
    sy_rate: i128,
    pt_in: i128,
    sy_out: int,
)
    requires
        market.wf(),
        market.live_market(pt_in as int, now, sy_rate) is Ok,
    ensures
        ({
            let (config, state, comp) = market.live_market(pt_in as int, now, sy_rate)->Ok_0;
            sale_quote(config, state, comp, pt_in as int) == Ok::<i128, Error>(sy_out as i128)
                && fits(sy_out) <==> sells(market, now, sy_rate as int, pt_in as int, sy_out)
        }),
{
    lemma_sells(market, pt_in as int, now, sy_rate, pt_in as int, sy_out);
}

/// A sale of principal tokens pays the price at the point of the curve that the
/// sale itself leaves, less the fee.
pub proof fn lemma_sale_pays_its_price(
    market: AmmMarket,
    now: u64,
    sy_rate: i128,
    pt_in: i128,
    min_sy_out: i128,
)
    requires
        market.wf(),
        market.pt_for_sy(now, sy_rate, pt_in, min_sy_out) is Ok,
    ensures
        ({
            let (sy_out, next, fees) = market.pt_for_sy(now, sy_rate, pt_in, min_sy_out)->Ok_0;
            &&& sells(market, now, sy_rate as int, pt_in as int, sy_out as int)
            &&& min_sy_out <= sy_out
        }),
{
    let (config, state, comp) = market.open_market(pt_in as int, now, sy_rate)->Ok_0;
    lemma_loaded_market(market, pt_in as int, now, sy_rate);
    let (sy_out, next, fees) = market.pt_for_sy(now, sy_rate, pt_in, min_sy_out)->Ok_0;
    lemma_booked_sale_is_feasible(comp, state, pt_in, sy_out, min_sy_out);
    lemma_sells(market, pt_in as int, now, sy_rate, pt_in as int, sy_out as int);
}

proof fn lemma_best_purchase(market: AmmMarket, now: u64, sy_rate: i128, sy_in: i128)
    requires
        market.wf(),
        market.live_market(sy_in as int, now, sy_rate) is Ok,
    ensures
        ({
            let (config, state, comp) = market.live_market(sy_in as int, now, sy_rate)->Ok_0;
            match best_purchase(config, state, comp, sy_in as int) {
                Ok((pt_out, cost)) => {
                    &&& buys(market, now, sy_rate as int, pt_out as int, cost as int)
                    &&& 0 < cost <= sy_in
                    &&& forall|more: int|
                        #[trigger] buys(market, now, sy_rate as int, pt_out + 1, more) ==> sy_in
                            < more
                    &&& may_stand(
                        state.total_pt as int,
                        state.total_sy as int,
                        comp.rate_scalar as int,
                        comp.rate_anchor as int,
                        sy_rate as int,
                    ) ==> forall|n: int, more: int|
                        pt_out < n && #[trigger] buys(market, now, sy_rate as int, n, more)
                            ==> sy_in < more
                },
                Err(_) => {
                    &&& forall|more: int|
                        #[trigger] buys(market, now, sy_rate as int, 1, more) ==> sy_in < more
                    &&& may_stand(
                        state.total_pt as int,
                        state.total_sy as int,
                        comp.rate_scalar as int,
                        comp.rate_anchor as int,
                        sy_rate as int,
                    ) ==> forall|n: int, more: int|
                        #[trigger] buys(market, now, sy_rate as int, n, more) ==> sy_in < more
                },
            }
        }),
{
    let (config, state, comp) = market.live_market(sy_in as int, now, sy_rate)->Ok_0;
    lemma_loaded_market(market, sy_in as int, now, sy_rate);
    let rate = sy_rate as int;
    let accepted = affordable_pt(config, state, comp, sy_in as int);
    let found = bisect(1, state.total_pt - 1, accepted);
    lemma_bisect(1, state.total_pt - 1, accepted);
    assert forall|more: int| #[trigger] buys(market, now, rate, found + 1, more) implies sy_in
        < more by {
        lemma_buys(market, sy_in as int, now, sy_rate, found + 1, more);
    }
    lemma_may_stand(comp, state.total_pt as int, state.total_sy as int);
    lemma_rounded_down(comp.total_asset as int, state.total_sy * rate, WAD as int);
    if feasible(comp, state.total_pt as int, state.total_sy as int) {
        assert(on_curve(state, comp));
        assert forall|n: int, more: int|
            found < n && #[trigger] buys(market, now, rate, n, more) implies sy_in < more by {
            lemma_buys(market, sy_in as int, now, sy_rate, n, more);
            if more <= sy_in {
                lemma_best_purchase_is_largest(config, state, comp, sy_in as int, n);
            }
        }
    }
    if found > 0 {
        let cost = feasible_purchase(config, state, comp, found)->0;
        lemma_feasible_purchase(config, state, comp, found);
        lemma_buys(market, sy_in as int, now, sy_rate, found, cost as int);
    } else {
        assert forall|n: int, more: int| #[trigger]
            buys(market, now, rate, n, more) implies 0 < n by {
            lemma_buys(market, sy_in as int, now, sy_rate, n, more);
        }
    }
}

/// A budget buys as many principal tokens as it pays for: what is delivered is
/// charged its price, within the budget, and one token more would cost more than
/// the budget; and where the market stands on its curve, so would any larger
/// amount. The price is that at the point of the curve that the purchase itself
/// leaves, with the fee on top.
pub proof fn lemma_purchase_is_the_most_for_its_price(
    market: AmmMarket,
    now: u64,
    sy_rate: i128,
    sy_in: i128,
    min_pt_out: i128,
)
    requires
        market.wf(),
        market.sy_for_pt(now, sy_rate, sy_in, min_pt_out) is Ok,
    ensures
        ({
            let (pt_out, charged, next, fees) = market.sy_for_pt(
                now,
                sy_rate,
                sy_in,
                min_pt_out,
            )->Ok_0;
            &&& buys(market, now, sy_rate as int, pt_out as int, charged as int)
            &&& min_pt_out <= pt_out
            &&& 0 < charged <= sy_in
            &&& forall|more: int|
                #[trigger] buys(market, now, sy_rate as int, pt_out + 1, more) ==> sy_in < more
            &&& stands(market, now, sy_rate as int) ==> forall|n: int, more: int|
                pt_out < n && #[trigger] buys(market, now, sy_rate as int, n, more) ==> sy_in < more
        }),
{
    lemma_best_purchase(market, now, sy_rate, sy_in);
    lemma_stands(market, sy_in as int, now, sy_rate);
}

/// The market stands on its curve as it is.
pub open spec fn stands(market: AmmMarket, now: u64, sy_rate: int) -> bool {
    exists|scalar: int, asset: int, anchor: int| #[trigger]
        market_curve(market, now, sy_rate, scalar, asset, anchor) && may_stand(
            market.state->0.total_pt as int,
            market.state->0.total_sy as int,
            scalar,
            anchor,
            sy_rate,
        )
}

proof fn lemma_stands(market: AmmMarket, amount: int, now: u64, sy_rate: i128)
    requires
        market.wf(),
        market.live_market(amount, now, sy_rate) is Ok,
    ensures
        ({
            let (config, state, comp) = market.live_market(amount, now, sy_rate)->Ok_0;
            stands(market, now, sy_rate as int) ==> may_stand(
                state.total_pt as int,
                state.total_sy as int,
                comp.rate_scalar as int,
                comp.rate_anchor as int,
                sy_rate as int,
            )
        }),
{
    lemma_loaded_market(market, amount, now, sy_rate);
    let comp = market.live_market(amount, now, sy_rate)->Ok_0.2;
    if stands(market, now, sy_rate as int) {
        let (scalar, asset, anchor) = choose|scalar: int, asset: int, anchor: int| #[trigger]
            market_curve(market, now, sy_rate as int, scalar, asset, anchor) && may_stand(
                market.state->0.total_pt as int,
                market.state->0.total_sy as int,
                scalar,
                anchor,
                sy_rate as int,
            );
        lemma_market_curve_is_unique(
            market,
            now,
            sy_rate as int,
            scalar,
            asset,
            anchor,
            comp.rate_scalar as int,
            comp.total_asset as int,
            comp.rate_anchor as int,
        );
    }
}

/// The quote for a budget of shares is the purchase that it pays for, and there
/// is one wherever the market stands on its curve and the budget pays for
/// anything.
pub proof fn lemma_purchase_is_quoted_at_its_price(
    market: AmmMarket,
    now: u64,
    sy_rate: i128,
    sy_in: i128,
)
    requires
        market.wf(),
        market.live_market(sy_in as int, now, sy_rate) is Ok,
    ensures
        ({
            let (config, state, comp) = market.live_market(sy_in as int, now, sy_rate)->Ok_0;
            let quote = best_purchase(config, state, comp, sy_in as int);
            &&& quote matches Ok((pt_out, cost)) ==> {
                &&& buys(market, now, sy_rate as int, pt_out as int, cost as int)
                &&& 0 < cost <= sy_in
                &&& forall|more: int|
                    #[trigger] buys(market, now, sy_rate as int, pt_out + 1, more) ==> sy_in < more
                &&& stands(market, now, sy_rate as int) ==> forall|n: int, more: int|
                    pt_out < n && #[trigger] buys(market, now, sy_rate as int, n, more) ==> sy_in
                        < more
            }
            &&& quote is Err ==> {
                &&& forall|more: int|
                    #[trigger] buys(market, now, sy_rate as int, 1, more) ==> sy_in < more
                &&& stands(market, now, sy_rate as int) ==> forall|n: int, more: int|
                    #[trigger] buys(market, now, sy_rate as int, n, more) ==> sy_in < more
            }
        }),
{
    lemma_best_purchase(market, now, sy_rate, sy_in);
    lemma_stands(market, sy_in as int, now, sy_rate);
}

proof fn lemma_yt_accepted(
    market: AmmMarket,
    now: u64,
    sy_rate: i128,
    sy_in: i128,
    yt: int,
)
    requires
        market.wf(),
        market.live_market(sy_in as int, now, sy_rate) is Ok,
    ensures
        ({
            let (config, state, comp) = market.live_market(sy_in as int, now, sy_rate)->Ok_0;
            &&& affordable_yt(config, state, comp, sy_in as int)(yt) <==> yt_within(
                market,
                now,
                sy_rate as int,
                yt,
                sy_in as int,
            )
            &&& yt_within(market, now, sy_rate as int, yt, sy_in as int) ==> 0 < yt && yt * WAD <= (
            sy_in + state.total_sy) * sy_rate
        }),
{
    let (config, state, comp) = market.live_market(sy_in as int, now, sy_rate)->Ok_0;
    lemma_loaded_market(market, sy_in as int, now, sy_rate);
    let rate = sy_rate as int;
    let shares = shares_for_face(yt, rate);
    lemma_rounded_up(shares, yt * WAD, rate);
    if affordable_yt(config, state, comp, sy_in as int)(yt) {
        let paid = feasible_sale(config, state, comp, yt)->0 as int;
        lemma_sells(market, sy_in as int, now, sy_rate, yt, paid);
        assert(yt_steps(market, now, rate, yt, shares - paid, paid));
        assert(yt_costs(market, now, rate, yt, shares - paid));
    }
    if yt_within(market, now, rate, yt, sy_in as int) {
        let cost = choose|cost: int| #[trigger]
            yt_costs(market, now, rate, yt, cost) && 0 < cost <= sy_in;
        let paid = choose|paid: int| #[trigger] yt_steps(market, now, rate, yt, cost, paid);
        lemma_sells(market, sy_in as int, now, sy_rate, yt, paid);
        lemma_rounded_up(cost + paid, yt * WAD, rate);
        assert(paid < state.total_sy);
        assert((cost + paid) * rate <= (sy_in + state.total_sy) * rate) by (nonlinear_arith)
            requires
                cost + paid <= sy_in + state.total_sy,
                rate > 0,
        ;
    }
}

proof fn lemma_best_yt_purchase(market: AmmMarket, now: u64, sy_rate: i128, sy_in: i128)
    requires
        market.wf(),
        market.live_market(sy_in as int, now, sy_rate) is Ok,
    ensures
        ({
            let (config, state, comp) = market.live_market(sy_in as int, now, sy_rate)->Ok_0;
            let rate = sy_rate as int;
            match best_yt_purchase(config, state, comp, sy_in as int) {
                Ok((yt_out, paid)) => {
                    let cost = shares_for_face(yt_out as int, rate) - paid;
                    &&& yt_steps(market, now, rate, yt_out as int, cost, paid as int)
                    &&& 0 < cost <= sy_in
                    &&& !yt_within(market, now, rate, yt_out + 1, sy_in as int)
                    &&& within_reach_downward(market, now, rate, sy_in as int) ==> forall|n: int|
                        #[trigger] yt_within(market, now, rate, n, sy_in as int) ==> n <= yt_out
                },
                Err(_) => (sy_in + state.total_sy) * rate <= i128::MAX ==> {
                    &&& !yt_within(market, now, rate, 1, sy_in as int)
                    &&& within_reach_downward(market, now, rate, sy_in as int) ==> forall|n: int|
                        !#[trigger] yt_within(market, now, rate, n, sy_in as int)
                },
            }
        }),
{
    let (config, state, comp) = market.live_market(sy_in as int, now, sy_rate)->Ok_0;
    lemma_loaded_market(market, sy_in as int, now, sy_rate);
    let rate = sy_rate as int;
    let budget = sy_in as int;
    let whole = sy_in + state.total_sy;
    assert(whole * rate >= 0) by (nonlinear_arith)
        requires
            whole >= 0,
            rate > 0,
    ;
    if fits(whole * rate) {
        lemma_quotient_nonneg(whole, rate, WAD as int);
        let high = whole * rate / (WAD as int);
        let accepted = affordable_yt(config, state, comp, budget);
        lemma_bisect(1, high, accepted);
        let found = bisect(1, high, accepted);
        lemma_yt_accepted(market, now, sy_rate, sy_in, found + 1);
        lemma_yt_accepted(market, now, sy_rate, sy_in, found);
        if within_reach_downward(market, now, rate, budget) {
            assert forall|n: int| #[trigger] yt_within(market, now, rate, n, budget) implies n
                <= found by {
                lemma_yt_accepted(market, now, sy_rate, sy_in, n);
                if n > found {
                    assert(yt_within(market, now, rate, found + 1, budget));
                }
            }
        }
        if found > 0 {
            let paid = feasible_sale(config, state, comp, found)->0 as int;
            lemma_sells(market, budget, now, sy_rate, found, paid);
            lemma_rounded_up(shares_for_face(found, rate), found * WAD, rate);
        } else {
            assert forall|n: int| #[trigger] yt_within(market, now, rate, n, budget) implies 0
                < n by {
                lemma_yt_accepted(market, now, sy_rate, sy_in, n);
            }
        }
    }
}

/// Whatever is to be had for `budget` shares, less of it is too: as where costs
/// rise with size.
pub open spec fn within_reach_downward(
    market: AmmMarket,
    now: u64,
    sy_rate: int,
    budget: int,
) -> bool {
    forall|less: int, more: int|
        1 <= less <= more && #[trigger] yt_within(market, now, sy_rate, more, budget)
            ==> #[trigger] yt_within(market, now, sy_rate, less, budget)
}

/// A budget buys as many yield tokens as it pays for: the buyer pays what the
/// split takes beyond what the pool pays for the principal tokens, within the
/// budget, and one token more is not to be had for it; nor is any larger amount,
/// where costs rise with size.
pub proof fn lemma_yt_purchase_is_the_most_for_its_price(
    market: AmmMarket,
    now: u64,
    sy_rate: i128,
    from: Address,
    sy_in: i128,
    min_yt_out: i128,
)
    requires
        market.wf(),
        market.sy_for_yt(now, sy_rate, from, sy_in, min_yt_out) is Ok,
    ensures
        ({
            let purchase = market.sy_for_yt(now, sy_rate, from, sy_in, min_yt_out)->Ok_0;
            let rate = sy_rate as int;
            let yt_out = purchase.yt_out as int;
            &&& purchase.trader == from
            &&& purchase.sy_in == sy_in
            &&& min_yt_out <= yt_out
            &&& yt_steps(
                market,
                now,
                rate,
                yt_out,
                purchase.buyer_cost as int,
                purchase.shares_to_split - purchase.buyer_cost,
            )
            &&& 0 < purchase.buyer_cost <= sy_in
            &&& !yt_within(market, now, rate, yt_out + 1, sy_in as int)
            &&& within_reach_downward(market, now, rate, sy_in as int) ==> forall|n: int|
                #[trigger] yt_within(market, now, rate, n, sy_in as int) ==> n <= yt_out
        }),
{
    let (config, state, comp) = market.open_market(sy_in as int, now, sy_rate)->Ok_0;
    lemma_loaded_market(market, sy_in as int, now, sy_rate);
    lemma_best_yt_purchase(market, now, sy_rate, sy_in);
    let yt_out = best_yt_purchase(config, state, comp, sy_in as int)->Ok_0.0;
    let whole = sy_in + state.total_sy;
    lemma_yt_accepted(market, now, sy_rate, sy_in, yt_out as int);
    let paid = best_yt_purchase(config, state, comp, sy_in as int)->Ok_0.1;
    let cost = shares_for_face(yt_out as int, sy_rate as int) - paid;
    assert(yt_costs(market, now, sy_rate as int, yt_out as int, cost));
    lemma_quotient_nonneg(whole, sy_rate as int, WAD as int);
    lemma_shares_for_face(yt_out, sy_rate);
}

/// The quote for a budget of shares is the purchase of yield tokens that it pays
/// for.
pub proof fn lemma_yt_purchase_is_quoted_at_its_price(
    market: AmmMarket,
    now: u64,
    sy_rate: i128,
    sy_in: i128,
)
    requires
        market.wf(),
        market.live_market(sy_in as int, now, sy_rate) is Ok,
    ensures
        ({
            let (config, state, comp) = market.live_market(sy_in as int, now, sy_rate)->Ok_0;
            let rate = sy_rate as int;
            let quote = best_yt_purchase(config, state, comp, sy_in as int);
            &&& quote matches Ok((yt_out, paid)) ==> exists|cost: int|
                {
                    &&& #[trigger] yt_steps(market, now, rate, yt_out as int, cost, paid as int)
                    &&& 0 < cost <= sy_in
                    &&& !yt_within(market, now, rate, yt_out + 1, sy_in as int)
                    &&& within_reach_downward(market, now, rate, sy_in as int) ==> forall|n: int|
                        #[trigger] yt_within(market, now, rate, n, sy_in as int) ==> n <= yt_out
                }
            &&& quote is Err && (sy_in + state.total_sy) * rate <= i128::MAX ==> {
                &&& !yt_within(market, now, rate, 1, sy_in as int)
                &&& within_reach_downward(market, now, rate, sy_in as int) ==> forall|n: int|
                    !#[trigger] yt_within(market, now, rate, n, sy_in as int)
            }
        }),
{
    lemma_best_yt_purchase(market, now, sy_rate, sy_in);
}

/// A sale of yield tokens pays what recombining them brings, less what as many
/// principal tokens cost.
pub proof fn lemma_yt_sale_pays_its_price(
    market: AmmMarket,
    now: u64,
    sy_rate: i128,
    from: Address,
    yt_in: i128,
    min_sy_out: i128,
)
    requires
        market.wf(),
        market.yt_for_sy(now, sy_rate, from, yt_in, min_sy_out) is Ok,
    ensures
        ({
            let sale = market.yt_for_sy(now, sy_rate, from, yt_in, min_sy_out)->Ok_0;
            let rate = sy_rate as int;
            &&& sale.trader == from
            &&& sale.yt_in == yt_in
            &&& rounded_down(sale.sy_value as int, yt_in * WAD, rate)
            &&& buys(market, now, rate, yt_in as int, sale.sy_value - sale.sy_out)
            &&& min_sy_out <= sale.sy_out
            &&& 0 < sale.sy_out
        }),
{
    lemma_yt_sale_is_quoted_at_its_price(market, now, sy_rate, yt_in);
}

/// A sale of yield tokens is quoted exactly where the pool may sell as many
/// principal tokens for less than recombining brings, and for the difference.
pub proof fn lemma_yt_sale_is_quoted_at_its_price(
    market: AmmMarket,
    now: u64,
    sy_rate: i128,
    yt_in: i128,
)
    requires
        market.wf(),
        market.live_market(yt_in as int, now, sy_rate) is Ok,
    ensures
        ({
            let (config, state, comp) = market.live_market(yt_in as int, now, sy_rate)->Ok_0;
            let rate = sy_rate as int;
            let face = yt_in * WAD;
            &&& yt_sale_terms(config, state, comp, yt_in as int) matches Ok((sy_value, sy_cost)) ==> {
                &&& rounded_down(sy_value as int, yt_in * WAD, rate)
                &&& buys(market, now, rate, yt_in as int, sy_cost as int)
                &&& sy_cost < sy_value
            }
            &&& forall|sy_value: int, sy_cost: int|
                #[trigger] rounded_down(sy_value, face, rate) && #[trigger] buys(
                    market,
                    now,
                    rate,
                    yt_in as int,
                    sy_cost,
                ) && sy_cost < sy_value ==> yt_sale_terms(config, state, comp, yt_in as int)
                    == Ok::<(i128, i128), Error>((sy_value as i128, sy_cost as i128))
        }),
{
    let (config, state, comp) = market.live_market(yt_in as int, now, sy_rate)->Ok_0;
    lemma_loaded_market(market, yt_in as int, now, sy_rate);
    let rate = sy_rate as int;
    let n = yt_in * WAD;
    lemma_quotient_nonneg(yt_in as int, WAD as int, rate);
    lemma_rounded_down(n / rate, n, rate);
    if feasible_purchase(config, state, comp, yt_in as int) is Some {
        let cost = feasible_purchase(config, state, comp, yt_in as int)->0;
        lemma_buys(market, yt_in as int, now, sy_rate, yt_in as int, cost as int);
    }
    assert forall|sy_value: int, sy_cost: int|
        #[trigger] rounded_down(sy_value, n, rate) && #[trigger] buys(
            market,
            now,
            rate,
            yt_in as int,
            sy_cost,
        ) && sy_cost < sy_value implies yt_sale_terms(config, state, comp, yt_in as int) == Ok::<
        (i128, i128),
        Error,
    >((sy_value as i128, sy_cost as i128)) by {
        lemma_rounded_down(sy_value, n, rate);
        lemma_buys(market, yt_in as int, now, sy_rate, yt_in as int, sy_cost);
    }
}

/// At a rate no lower, more tokens bring no more per token, but for a unit of each.
proof fn lemma_average_proceeds(
    fee_bps: int,
    rate: int,
    less: int,
    x: int,
    paid: int,
    more: int,
    y: int,
    paid_more: int,
)
    requires
        0 <= fee_bps < 10_000,
        0 < rate,
        0 < less,
        0 < more,
        WAD <= x <= y,
        paid == sale_proceeds(fee_bps, x, rate, less),
        paid_more == sale_proceeds(fee_bps, y, rate, more),
    ensures
        paid_more * less * rate <= (paid + 1) * more * rate + (less + more) * WAD,
{
    let w = WAD as int;
    let f = 10_000 - fee_bps;
    let g = less * w / x;
    let h = more * w / y;
    lemma_rounded_down(g, less * w, x);
    lemma_rounded_down(h, more * w, y);
    let gf = g * fee_bps;
    let hf = h * fee_bps;
    let n = g - gf / 10_000;
    let m = h - hf / 10_000;
    lemma_rounded_down(paid, n * w, rate);
    lemma_rounded_down(paid_more, m * w, rate);
    assert(g * f == 10_000 * g - gf && h * f == 10_000 * h - hf) by (nonlinear_arith)
        requires
            gf == g * fee_bps,
            hf == h * fee_bps,
            f == 10_000 - fee_bps,
    ;
    assert(10_000 * n >= g * f);
    assert(10_000 * m <= h * f + 10_000);
    assert((h * less) * y <= (more * (g + 1)) * y) by (nonlinear_arith)
        requires
            h * y <= more * w,
            less * w <= g * x + x,
            0 < x <= y,
            0 < less,
            0 < more,
            0 <= g,
    {
        assert((h * less) * y == less * (h * y));
        assert(less * (h * y) <= less * (more * w));
        assert(less * (more * w) == more * (less * w));
        assert(more * (less * w) <= more * ((g + 1) * x));
        assert((g + 1) * x <= (g + 1) * y);
        assert(more * ((g + 1) * x) <= more * ((g + 1) * y));
        assert(more * ((g + 1) * y) == (more * (g + 1)) * y);
    }
    assert(g >= 0) by (nonlinear_arith)
        requires
            g == less * w / x,
            less > 0,
            w > 0,
            x > 0,
    ;
    assert(h * less <= more * (g + 1)) by (nonlinear_arith)
        requires
            (h * less) * y <= (more * (g + 1)) * y,
            y > 0,
    ;
    let hl = h * less;
    let mg = more * g;
    assert(more * (g + 1) == mg + more) by (nonlinear_arith)
        requires
            mg == more * g,
    ;
    assert(hl * f <= mg * f + 10_000 * more) by (nonlinear_arith)
        requires
            hl <= mg + more,
            0 < f <= 10_000,
            0 < more,
    {
        assert(hl * f <= (mg + more) * f);
        assert((mg + more) * f == mg * f + more * f);
        assert(more * f <= more * 10_000);
    }
    let lm = less * m;
    let mn = more * n;
    assert(10_000 * lm <= hl * f + 10_000 * less) by (nonlinear_arith)
        requires
            lm == less * m,
            hl == h * less,
            10_000 * m <= h * f + 10_000,
            less > 0,
    {
        assert(less * (10_000 * m) <= less * (h * f + 10_000));
        assert(less * (h * f) == (h * less) * f);
    }
    assert(10_000 * mn >= mg * f) by (nonlinear_arith)
        requires
            mn == more * n,
            mg == more * g,
            10_000 * n >= g * f,
            more > 0,
    {
        assert(more * (10_000 * n) >= more * (g * f));
        assert(more * (g * f) == (more * g) * f);
    }
    assert(lm <= mn + less + more);
    assert(paid_more * less * rate <= lm * w) by (nonlinear_arith)
        requires
            paid_more * rate <= m * w,
            lm == less * m,
            less > 0,
    {
        assert(paid_more * less * rate == less * (paid_more * rate));
        assert(less * (m * w) == (less * m) * w);
    }
    assert(mn * w <= (paid + 1) * more * rate) by (nonlinear_arith)
        requires
            n * w <= paid * rate + rate,
            mn == more * n,
            more > 0,
    {
        assert((paid + 1) * more * rate == more * (paid * rate + rate));
        assert(more * (n * w) == (more * n) * w);
    }
    assert(lm * w <= mn * w + (less + more) * w) by (nonlinear_arith)
        requires
            lm <= mn + less + more,
            w > 0,
    ;
}

/// Of two sales on one market the larger brings no more per token than the
/// smaller, but for rounding: `(less + more) * WAD` is a unit of the asset for each token
/// of both.
pub proof fn lemma_larger_sale_brings_less_each(
    market: AmmMarket,
    now: u64,
    sy_rate: i128,
    less: int,
    paid: int,
    more: int,
    paid_more: int,
)
    requires
        market.wf(),
        sells(market, now, sy_rate as int, less, paid),
        sells(market, now, sy_rate as int, more, paid_more),
        less <= more,
    ensures
        paid_more * less * sy_rate <= (paid + 1) * more * sy_rate + (less + more) * WAD,
{
    let rate = sy_rate as int;
    let pt = market.state->0.total_pt as int;
    let bps = market.config->0.fee_bps as int;
    let (scalar, asset, anchor) = choose|scalar: int, asset: int, anchor: int| #[trigger]
        market_curve(market, now, rate, scalar, asset, anchor) && may_sell(
            market,
            scalar,
            asset,
            anchor,
            rate,
            less,
            paid,
        );
    let (scalar2, asset2, anchor2) = choose|scalar: int, asset: int, anchor: int| #[trigger]
        market_curve(market, now, rate, scalar, asset, anchor) && may_sell(
            market,
            scalar,
            asset,
            anchor,
            rate,
            more,
            paid_more,
        );
    lemma_market_curve_is_unique(
        market,
        now,
        rate,
        scalar,
        asset,
        anchor,
        scalar2,
        asset2,
        anchor2,
    );
    let total = pt + asset;
    let x = choose|x: int| #[trigger]
        trades_at(x, pt + less, total, scalar, anchor) && sells_for(paid, less, x, bps, rate);
    let y = choose|y: int| #[trigger]
        trades_at(y, pt + more, total, scalar, anchor) && sells_for(paid_more, more, y, bps, rate);
    lemma_passes_through(x, pt + less, total, scalar, anchor);
    lemma_passes_through(y, pt + more, total, scalar, anchor);
    let p = (pt + less) * WAD / total;
    let q = (pt + more) * WAD / total;
    assert(p <= q) by (nonlinear_arith)
        requires
            p == (pt + less) * WAD / total,
            q == (pt + more) * WAD / total,
            less <= more,
            total > 0,
            WAD > 0,
    ;
    lemma_curve_rises(p, q, scalar, anchor);
    lemma_sells_for(paid, less, x, bps, rate);
    lemma_sells_for(paid_more, more, y, bps, rate);
    lemma_average_proceeds(bps, rate, less, x, paid, more, y, paid_more);
}

} // verus!
