//! What liquidity providers give and get, said of the amounts alone.
use super::checked::lemma_quotient_nonneg;
use super::curve::{exchange_rate, lemma_ln_implied_rate_range};
use super::liquidity::{lemma_deposit_within_offer, lp_for_deposit, reserve_for_lp};
use super::logarithm::ln_wad;
use super::market::AmmMarket;
use super::price_laws::{lemma_rate_is_on_curve, trades_at};
use super::sqrt::{is_floor_sqrt, lemma_floor_sqrt};
use crate::address::Address;
use crate::arith::WAD;
use crate::rounding::{lemma_rounded_down, lemma_rounded_up, rounded_down, rounded_up};
use vstd::prelude::*;

verus! {

/// `lp` is as many liquidity shares as both offers are good for, and no fewer.
pub open spec fn most_shares(
    lp: int,
    pt_in: int,
    sy_in: int,
    total_pt: int,
    total_sy: int,
    total_lp: int,
) -> bool {
    &&& lp * total_pt <= pt_in * total_lp
    &&& lp * total_sy <= sy_in * total_lp
    &&& (lp + 1) * total_pt > pt_in * total_lp || (lp + 1) * total_sy > sy_in * total_lp
}

proof fn lemma_most_shares(
    lp: int,
    pt_in: int,
    sy_in: int,
    total_pt: int,
    total_sy: int,
    total_lp: int,
)
    requires
        0 < total_pt,
        0 < total_sy,
        ({
            let a = pt_in * total_lp / total_pt;
            let b = sy_in * total_lp / total_sy;
            lp == if a <= b {
                a
            } else {
                b
            }
        }),
    ensures
        most_shares(lp, pt_in, sy_in, total_pt, total_sy, total_lp),
{
    let a = pt_in * total_lp / total_pt;
    let b = sy_in * total_lp / total_sy;
    lemma_rounded_down(a, pt_in * total_lp, total_pt);
    lemma_rounded_down(b, sy_in * total_lp, total_sy);
    assert(lp * total_pt <= a * total_pt && lp * total_sy <= b * total_sy) by (nonlinear_arith)
        requires
            lp <= a,
            lp <= b,
            0 < total_pt,
            0 < total_sy,
    ;
    assert((lp + 1) * total_pt == lp * total_pt + total_pt && (lp + 1) * total_sy == lp * total_sy
        + total_sy) by (nonlinear_arith);
}

/// A deposit into a market that is open mints as many liquidity shares as both
/// offers are good for, and takes of each token the part of the reserve that goes
/// with them, rounded up to a unit: what the other token does not match stays
/// with the provider.
pub proof fn lemma_deposit_takes_its_part(
    market: AmmMarket,
    now: u64,
    sy_rate: i128,
    from: Address,
    pt_in: i128,
    sy_in: i128,
    min_lp_out: i128,
)
    requires
        market.wf(),
        market.deposited(now, sy_rate, from, pt_in, sy_in, min_lp_out) is Ok,
        market.state->0.total_lp > 0,
    ensures
        ({
            let (terms, balance) = market.deposited(
                now,
                sy_rate,
                from,
                pt_in,
                sy_in,
                min_lp_out,
            )->Ok_0;
            let state = market.state->0;
            let lp_out = terms.lp_out as int;
            &&& most_shares(
                lp_out,
                pt_in as int,
                sy_in as int,
                state.total_pt as int,
                state.total_sy as int,
                state.total_lp as int,
            )
            &&& 0 < lp_out
            &&& min_lp_out <= lp_out
            &&& balance == market.lp_balances.amount(from) + lp_out
            &&& rounded_up(terms.pt_used as int, state.total_pt * lp_out, state.total_lp as int)
            &&& rounded_up(terms.sy_used as int, state.total_sy * lp_out, state.total_lp as int)
            &&& 0 < terms.pt_used <= pt_in
            &&& 0 < terms.sy_used <= sy_in
            &&& terms.state.total_pt == state.total_pt + terms.pt_used
            &&& terms.state.total_sy == state.total_sy + terms.sy_used
            &&& terms.state.total_lp == state.total_lp + lp_out
            &&& terms.state.last_ln_implied_rate == state.last_ln_implied_rate
            &&& terms.state.twap_ln_implied_rate == state.twap_ln_implied_rate
            &&& terms.state.last_observation == state.last_observation
            &&& terms.state.warmup_until == state.warmup_until
        }),
{
    let (terms, balance) = market.deposited(now, sy_rate, from, pt_in, sy_in, min_lp_out)->Ok_0;
    let state = market.state->0;
    let lp = state.total_lp as int;
    let lp_out = lp_for_deposit(state, pt_in as int, sy_in as int);
    lemma_quotient_nonneg(pt_in as int, lp, state.total_pt as int);
    lemma_quotient_nonneg(sy_in as int, lp, state.total_sy as int);
    lemma_most_shares(
        lp_out,
        pt_in as int,
        sy_in as int,
        state.total_pt as int,
        state.total_sy as int,
        lp,
    );
    lemma_deposit_within_offer(state.total_pt as int, pt_in as int, lp_out, lp);
    lemma_deposit_within_offer(state.total_sy as int, sy_in as int, lp_out, lp);
    let pt_used = reserve_for_lp(state.total_pt as int, lp_out, lp);
    let sy_used = reserve_for_lp(state.total_sy as int, lp_out, lp);
    lemma_rounded_up(pt_used, state.total_pt * lp_out, lp);
    lemma_rounded_up(sy_used, state.total_sy * lp_out, lp);
}

/// A deposit that is good for a liquidity share is taken, while the market is
/// open and the books can hold it.
pub proof fn lemma_deposit_is_taken(
    market: AmmMarket,
    now: u64,
    sy_rate: i128,
    from: Address,
    pt_in: i128,
    sy_in: i128,
)
    requires
        market.wf(),
        !market.governance.paused,
        market.config matches Some(config) && now < config.maturity,
        market.state->0.total_lp > 0,
        0 < pt_in,
        0 < sy_in,
        market.state->0.total_pt + pt_in <= 1_000_000_000_000_000_000,
        market.state->0.total_sy + sy_in <= 1_000_000_000_000_000_000,
        market.state->0.total_pt <= pt_in * market.state->0.total_lp <= i128::MAX,
        market.state->0.total_sy <= sy_in * market.state->0.total_lp <= i128::MAX,
        market.state->0.total_lp + pt_in * market.state->0.total_lp <= i128::MAX,
        market.lp_balances.amount(from) + pt_in * market.state->0.total_lp <= i128::MAX,
    ensures
        market.deposited(now, sy_rate, from, pt_in, sy_in, 1) is Ok,
{
    let state = market.state->0;
    let lp = state.total_lp as int;
    let a = pt_in * lp;
    let b = sy_in * lp;
    let lp_out = lp_for_deposit(state, pt_in as int, sy_in as int);
    lemma_quotient_nonneg(pt_in as int, lp, state.total_pt as int);
    lemma_quotient_nonneg(sy_in as int, lp, state.total_sy as int);
    assert(1 <= a / (state.total_pt as int) <= a && 1 <= b / (state.total_sy as int)) by (
    nonlinear_arith)
        requires
            0 < state.total_pt <= a,
            0 < state.total_sy <= b,
    ;
    lemma_deposit_within_offer(state.total_pt as int, pt_in as int, lp_out, lp);
    lemma_deposit_within_offer(state.total_sy as int, sy_in as int, lp_out, lp);
}

/// The yearly log rate at which a market opens: what the initial anchor makes of
/// the principal tokens against the asset value of the shares.
pub open spec fn opens_at(
    market: AmmMarket,
    now: u64,
    sy_rate: int,
    pt_in: int,
    sy_in: int,
    ln_rate: int,
    scalar: int,
    asset: int,
    x: int,
) -> bool {
    let config = market.config->0;
    let time = config.maturity - now;
    &&& 0 < time
    &&& 0 < sy_rate
    &&& rounded_down(scalar, config.scalar_root * 31_536_000, time)
    &&& rounded_down(asset, sy_in * sy_rate, WAD as int)
    &&& trades_at(x, pt_in, pt_in + asset, scalar, config.initial_anchor as int)
    &&& rounded_down(ln_rate, ln_wad(x) * 31_536_000, time)
}

/// There is a rounded square root.
proof fn lemma_sqrt_exists(v: int) -> (s: int)
    requires
        0 <= v,
    ensures
        is_floor_sqrt(s, v),
    decreases v,
{
    if v == 0 {
        0
    } else {
        let s = lemma_sqrt_exists(v - 1);
        let t = s + 1;
        assert((t + 1) * (t + 1) > t * t) by (nonlinear_arith)
            requires
                t >= 0,
        ;
        if t * t <= v {
            t
        } else {
            s
        }
    }
}

/// The deposit that opens a market takes all of both offers, mints the geometric
/// mean of the two, of which a thousand shares stay out of reach, and sets the
/// price by the asset value of the shares.
pub proof fn lemma_opening_deposit_sets_the_price(
    market: AmmMarket,
    now: u64,
    sy_rate: i128,
    from: Address,
    pt_in: i128,
    sy_in: i128,
    min_lp_out: i128,
) -> (curve: (int, int, int))
    requires
        market.wf(),
        market.deposited(now, sy_rate, from, pt_in, sy_in, min_lp_out) is Ok,
        market.state->0.total_lp == 0,
    ensures
        ({
            let (terms, balance) = market.deposited(
                now,
                sy_rate,
                from,
                pt_in,
                sy_in,
                min_lp_out,
            )->Ok_0;
            let gross = terms.lp_out + 1_000;
            &&& 0 < terms.lp_out
            &&& min_lp_out <= terms.lp_out
            &&& gross * gross <= pt_in * sy_in < (gross + 1) * (gross + 1)
            &&& balance == market.lp_balances.amount(from) + terms.lp_out
            &&& terms.pt_used == pt_in
            &&& terms.sy_used == sy_in
            &&& terms.state.total_pt == pt_in
            &&& terms.state.total_sy == sy_in
            &&& terms.state.total_lp == gross
            &&& terms.state.last_observation == now
            &&& terms.state.twap_ln_implied_rate == terms.state.last_ln_implied_rate
            &&& terms.state.warmup_until == market.state->0.warmup_until
            &&& opens_at(
                market,
                now,
                sy_rate as int,
                pt_in as int,
                sy_in as int,
                terms.state.last_ln_implied_rate as int,
                curve.0,
                curve.1,
                curve.2,
            )
        }),
{
    let (terms, balance) = market.deposited(now, sy_rate, from, pt_in, sy_in, min_lp_out)->Ok_0;
    let config = market.config->0;
    let time = config.maturity - now;
    let n = pt_in * sy_in;
    assert(0 < n <= 1_000_000_000_000_000_000 * 1_000_000_000_000_000_000) by (nonlinear_arith)
        requires
            n == pt_in * sy_in,
            0 < pt_in <= 1_000_000_000_000_000_000,
            0 < sy_in <= 1_000_000_000_000_000_000,
    ;
    let gross = lemma_sqrt_exists(n);
    lemma_floor_sqrt(gross, n);
    assert(gross <= 1_000_000_000_000_000_000) by (nonlinear_arith)
        requires
            gross * gross <= 1_000_000_000_000_000_000 * 1_000_000_000_000_000_000,
    ;
    let root = config.scalar_root * 31_536_000;
    let scalar = root / time;
    lemma_rounded_down(scalar, root, time);
    assert(0 <= scalar <= root) by (nonlinear_arith)
        requires
            scalar == root / time,
            root >= 0,
            time > 0,
    ;
    lemma_quotient_nonneg(sy_in as int, sy_rate as int, WAD as int);
    let asset = sy_in * sy_rate / (WAD as int);
    lemma_rounded_down(asset, sy_in * sy_rate, WAD as int);
    let anchor = config.initial_anchor as int;
    let x = exchange_rate(pt_in as int, asset, scalar, anchor, 0)->Ok_0 as int;
    lemma_rate_is_on_curve(pt_in as int, asset, scalar, anchor, 0, x);
    lemma_ln_implied_rate_range(pt_in as int, asset, scalar, anchor, time);
    lemma_rounded_down(ln_wad(x) * 31_536_000 / time, ln_wad(x) * 31_536_000, time);
    (scalar, asset, x)
}

/// A withdrawal pays of each reserve the part that goes with its liquidity shares,
/// to within a unit.
pub proof fn lemma_withdrawal_pays_its_part(
    market: AmmMarket,
    from: Address,
    lp_in: i128,
    min_pt_out: i128,
    min_sy_out: i128,
)
    requires
        market.wf(),
        market.withdrawn(from, lp_in, min_pt_out, min_sy_out) is Ok,
    ensures
        ({
            let (pt_out, sy_out) = market.withdrawn(from, lp_in, min_pt_out, min_sy_out)->Ok_0;
            let state = market.state->0;
            &&& rounded_down(pt_out as int, lp_in * state.total_pt, state.total_lp as int)
            &&& rounded_down(sy_out as int, lp_in * state.total_sy, state.total_lp as int)
            &&& 0 < lp_in <= market.lp_balances.amount(from)
            &&& lp_in < state.total_lp
            &&& min_pt_out <= pt_out
            &&& min_sy_out <= sy_out
            &&& 0 <= pt_out < state.total_pt
            &&& 0 <= sy_out < state.total_sy
        }),
{
    let state = market.state->0;
    let lp = state.total_lp as int;
    let a = lp_in * state.total_pt;
    let b = lp_in * state.total_sy;
    assert(0 <= a / lp < state.total_pt && 0 <= b / lp < state.total_sy) by (nonlinear_arith)
        requires
            a == lp_in * state.total_pt,
            b == lp_in * state.total_sy,
            0 < lp_in < lp,
            0 < state.total_pt,
            0 < state.total_sy,
    ;
    lemma_rounded_down(a / lp, a, lp);
    lemma_rounded_down(b / lp, b, lp);
}

} // verus!
