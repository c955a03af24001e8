//! Searches for the largest trade that a given amount of shares pays for.
use super::checked::{
    checked_add, checked_sub, lemma_quotient_nonneg, mul_div_down, quotient, BPS_DENOMINATOR,
};
use super::curve::{curve_point, exchange_rate, lemma_curve_rises, proportion};
use super::pricing::{
    feasible_purchase, feasible_sale, lemma_price_bounds, purchase_cost, shares_in_for_face_up,
    try_exact_pt_in_sy_out, try_exact_pt_out_sy_in, Precompute,
};
use super::types::{Config, Error, State};
use crate::arith::{ceil_div, fits, lemma_div_cross, WAD};
use vstd::prelude::*;

verus! {

/// Where a bisection of `low..=high` ends that moves up from an accepted
/// candidate and down from a rejected one: the last candidate accepted, or
/// `low - 1` where none was.
pub open spec fn bisect(low: int, high: int, accepted: spec_fn(int) -> bool) -> int
    decreases high - low + 1,
{
    if low > high {
        low - 1
    } else {
        let mid = low + (high - low) / 2;
        if accepted(mid) {
            bisect(mid + 1, high, accepted)
        } else {
            bisect(low, mid - 1, accepted)
        }
    }
}

/// A bisection ends on a candidate that was accepted while the next one was
/// not.
pub proof fn lemma_bisect(low: int, high: int, accepted: spec_fn(int) -> bool)
    requires
        low <= high + 1,
    ensures
        low - 1 <= bisect(low, high, accepted) <= high,
        bisect(low, high, accepted) >= low ==> accepted(bisect(low, high, accepted)),
        bisect(low, high, accepted) < high ==> !accepted(bisect(low, high, accepted) + 1),
    decreases high - low + 1,
{
    if low <= high {
        let mid = low + (high - low) / 2;
        if accepted(mid) {
            lemma_bisect(mid + 1, high, accepted);
        } else {
            lemma_bisect(low, mid - 1, accepted);
        }
    }
}

/// Where everything below an accepted candidate is accepted too, a bisection
/// ends on the largest accepted candidate.
pub proof fn lemma_bisect_finds_largest(
    low: int,
    high: int,
    accepted: spec_fn(int) -> bool,
    candidate: int,
)
    requires
        low <= candidate <= high,
        accepted(candidate),
        forall|c: int, d: int| low <= c <= d <= high && #[trigger] accepted(d) ==> #[trigger]
            accepted(c),
    ensures
        candidate <= bisect(low, high, accepted),
{
    lemma_bisect(low, high, accepted);
    let found = bisect(low, high, accepted);
    if found < candidate {
        assert(accepted(found + 1));
    }
}

/// The principal tokens on offer for at most `sy_in` shares.
pub open spec fn affordable_pt(
    config: Config,
    state: State,
    comp: Precompute,
    sy_in: int,
) -> spec_fn(int) -> bool {
    |pt_out: int|
        feasible_purchase(config, state, comp, pt_out) matches Some(cost) && cost <= sy_in
}

/// The purchase that `sy_in` shares pay for: `(pt_out, shares charged)`.
pub open spec fn best_purchase(
    config: Config,
    state: State,
    comp: Precompute,
    sy_in: int,
) -> Result<(i128, i128), Error> {
    let pt_out = bisect(1, state.total_pt - 1, affordable_pt(config, state, comp, sy_in));
    if pt_out <= 0 {
        Err(Error::TradeNotFound)
    } else {
        Ok((pt_out as i128, feasible_purchase(config, state, comp, pt_out)->0))
    }
}

/// Shares to split for `face`, rounded up.
pub open spec fn shares_for_face(face: int, rate: int) -> int {
    ceil_div(face * WAD, rate)
}

/// The yield tokens on offer for at most `sy_in` shares: the pool splits enough
/// shares to mint them, buys the principal tokens that come with them, and
/// leaves the buyer the difference to pay.
pub open spec fn affordable_yt(
    config: Config,
    state: State,
    comp: Precompute,
    sy_in: int,
) -> spec_fn(int) -> bool {
    |yt_out: int|
        feasible_sale(config, state, comp, yt_out) matches Some(sy_paid) && 0 < shares_for_face(
            yt_out,
            comp.rate as int,
        ) - sy_paid <= sy_in
}

/// The purchase of yield tokens that `sy_in` shares pay for: `(yt_out, shares
/// the pool pays for the principal tokens)`.
pub open spec fn best_yt_purchase(
    config: Config,
    state: State,
    comp: Precompute,
    sy_in: int,
) -> Result<(i128, i128), Error> {
    match quotient(sy_in + state.total_sy, comp.rate as int, WAD as int) {
        Err(e) => Err(e),
        Ok(high) => {
            let yt_out = bisect(1, high as int, affordable_yt(config, state, comp, sy_in));
            if yt_out <= 0 {
                Err(Error::TradeNotFound)
            } else {
                Ok((yt_out as i128, feasible_sale(config, state, comp, yt_out)->0))
            }
        },
    }
}

proof fn lemma_ceil_order(a: int, b: int, c: int, d: int)
    requires
        0 <= a,
        0 <= c,
        b > 0,
        d > 0,
        a * d <= c * b,
    ensures
        ceil_div(a, b) <= ceil_div(c, d),
{
    lemma_div_cross(a, b, c, d);
    let q = c / d;
    if c % d == 0 {
        assert(c == q * d) by (nonlinear_arith)
            requires
                q == c / d,
                c % d == 0,
                d > 0,
        ;
        assert(a <= q * b && (a / b == q ==> a % b == 0)) by (nonlinear_arith)
            requires
                c == q * d,
                a * d <= c * b,
                b > 0,
                d > 0,
                a / b <= q,
        {
            assert(a * d <= (q * b) * d);
            assert(a <= q * b);
            assert(a == b * (a / b) + a % b);
        }
    }
}

proof fn lemma_cost_order(fee_bps: int, x: int, y: int, rate: int, c: int, d: int)
    requires
        0 <= fee_bps < BPS_DENOMINATOR,
        0 <= c <= d,
        x >= y >= WAD,
        rate > 0,
    ensures
        purchase_cost(fee_bps, x, rate, c) <= purchase_cost(fee_bps, y, rate, d),
{
    let m = c * WAD;
    let n = d * WAD;
    assert(m * y <= n * x) by (nonlinear_arith)
        requires
            0 <= m <= n,
            0 <= y <= x,
    ;
    lemma_ceil_order(m, x, n, y);
    let g = ceil_div(m, x);
    let h = ceil_div(n, y);
    assert(0 <= g) by (nonlinear_arith)
        requires
            m >= 0,
            x > 0,
            g >= m / x,
    ;
    let bps = BPS_DENOMINATOR as int;
    let gf = g * fee_bps;
    let hf = h * fee_bps;
    assert(0 <= gf <= hf) by (nonlinear_arith)
        requires
            gf == g * fee_bps,
            hf == h * fee_bps,
            0 <= g <= h,
            fee_bps >= 0,
    ;
    lemma_ceil_order(gf, bps, hf, bps);
    let gt = (g + ceil_div(gf, bps)) * WAD;
    let ht = (h + ceil_div(hf, bps)) * WAD;
    assert(gt * rate <= ht * rate) by (nonlinear_arith)
        requires
            gt <= ht,
            rate > 0,
    ;
    lemma_ceil_order(gt, rate, ht, rate);
}

proof fn lemma_proportion_order(n: int, a: int, m: int, b: int)
    requires
        0 <= n <= m,
        0 < b <= a,
    ensures
        n * WAD / (n + a) <= m * WAD / (m + b),
{
    assert((n * WAD) * (m + b) <= (m * WAD) * (n + a)) by (nonlinear_arith)
        requires
            0 <= n <= m,
            0 < b <= a,
            WAD > 0,
    {
        assert(n * b <= m * a);
        assert(n * (m + b) <= m * (n + a));
        assert((n * (m + b)) * WAD <= (m * (n + a)) * WAD);
    }
    lemma_div_cross(n * WAD, n + a, m * WAD, m + b);
}

/// The market's present point lies on the curve, and `comp` was computed for
/// it.
pub open spec fn on_curve(state: State, comp: Precompute) -> bool {
    &&& fits(state.total_sy * comp.rate)
    &&& comp.total_asset == state.total_sy * comp.rate / (WAD as int)
    &&& exchange_rate(
        state.total_pt as int,
        comp.total_asset as int,
        comp.rate_scalar as int,
        comp.rate_anchor as int,
        0,
    ) is Ok
}

/// On the curve, whoever can buy some amount of principal tokens can also buy
/// any smaller one, for no more shares.
pub proof fn lemma_smaller_purchase(
    config: Config,
    state: State,
    comp: Precompute,
    less: int,
    more: int,
)
    requires
        config.wf(),
        state.wf(),
        comp.wf(),
        on_curve(state, comp),
        0 < less <= more,
        feasible_purchase(config, state, comp, more) is Some,
    ensures
        feasible_purchase(config, state, comp, less) is Some,
        feasible_purchase(config, state, comp, less)->0 <= feasible_purchase(
            config,
            state,
            comp,
            more,
        )->0,
{
    let pt = state.total_pt as int;
    let sy = state.total_sy as int;
    let asset = comp.total_asset as int;
    let scalar = comp.rate_scalar as int;
    let anchor = comp.rate_anchor as int;
    let rate = comp.rate as int;
    let bps = config.fee_bps as int;

    let p0 = proportion(pt, asset, 0);
    let p1 = proportion(pt, asset, less);
    let p2 = proportion(pt, asset, more);
    let total = pt + asset;
    assert(p2 <= p1 <= p0) by (nonlinear_arith)
        requires
            p0 == pt * WAD / total,
            p1 == (pt - less) * WAD / total,
            p2 == (pt - more) * WAD / total,
            0 <= less <= more <= pt,
            total > 0,
            WAD > 0,
    ;
    assert(p2 >= 0) by (nonlinear_arith)
        requires
            p2 == (pt - more) * WAD / total,
            more <= pt,
            total > 0,
            WAD > 0,
    ;
    lemma_curve_rises(p2, p1, scalar, anchor);
    lemma_curve_rises(p1, p0, scalar, anchor);
    let x1 = curve_point(p1, scalar, anchor);
    let x2 = curve_point(p2, scalar, anchor);
    let cost1 = purchase_cost(bps, x1, rate, less);
    let cost2 = purchase_cost(bps, x2, rate, more);
    lemma_cost_order(bps, x1, x2, rate, less, more);
    lemma_price_bounds(bps, x1, rate, less);
    lemma_price_bounds(bps, x2, rate, more);

    let value0 = sy * rate;
    let value1 = (sy + cost1) * rate;
    let value2 = (sy + cost2) * rate;
    assert(0 <= value0 <= value1 <= value2) by (nonlinear_arith)
        requires
            value0 == sy * rate,
            value1 == (sy + cost1) * rate,
            value2 == (sy + cost2) * rate,
            sy >= 0,
            rate > 0,
            0 <= cost1 <= cost2,
    ;
    let asset1 = value1 / (WAD as int);
    let asset2 = value2 / (WAD as int);
    lemma_proportion_order(pt - more, asset2, pt - less, asset1);
    lemma_proportion_order(pt - less, asset1, pt, asset);
    let q1 = proportion(pt - less, asset1, 0);
    let q2 = proportion(pt - more, asset2, 0);
    assert(q2 >= 0) by (nonlinear_arith)
        requires
            q2 == (pt - more) * WAD / (pt - more + asset2),
            more < pt,
            asset2 > 0,
            WAD > 0,
    ;
    lemma_curve_rises(q2, q1, scalar, anchor);
    lemma_curve_rises(q1, p0, scalar, anchor);
}

/// On the curve, the search ends on the largest purchase that the given shares
/// pay for.
pub proof fn lemma_best_purchase_is_largest(
    config: Config,
    state: State,
    comp: Precompute,
    sy_in: int,
    pt_out: int,
)
    requires
        config.wf(),
        state.wf(),
        comp.wf(),
        on_curve(state, comp),
        feasible_purchase(config, state, comp, pt_out) matches Some(cost) && cost <= sy_in,
    ensures
        best_purchase(config, state, comp, sy_in) matches Ok(best) && pt_out <= best.0,
{
    let accepted = affordable_pt(config, state, comp, sy_in);
    let high = state.total_pt - 1;
    assert(accepted(pt_out));
    assert forall|c: int, d: int| 1 <= c <= d <= high && #[trigger] accepted(d) implies #[trigger]
        accepted(c) by {
        lemma_smaller_purchase(config, state, comp, c, d);
    }
    lemma_bisect_finds_largest(1, high, accepted, pt_out);
    lemma_bisect(1, high, accepted);
}

/// `(pt_out, shares charged)` for at most `sy_in` shares.
pub fn exact_sy_in_pt_out_with_cost(
    config: &Config,
    state: &State,
    comp: &Precompute,
    sy_in: i128,
) -> (r: Result<(i128, i128), Error>)
    requires
        config.wf(),
        state.wf(),
        state.seeded(),
        comp.wf(),
    ensures
        r == best_purchase(*config, *state, *comp, sy_in as int),
        r matches Ok(best) ==> {
            &&& 0 < best.0 < state.total_pt
            &&& feasible_purchase(*config, *state, *comp, best.0 as int) == Some(best.1)
            &&& best.1 <= sy_in
        },
{
    let ghost accepted = affordable_pt(*config, *state, *comp, sy_in as int);
    let mut low: i128 = 1;
    let mut high: i128 = checked_sub(state.total_pt, 1)?;
    let mut best: i128 = 0;
    let mut best_required_sy: i128 = 0;
    while low <= high
        invariant
            config.wf(),
            state.wf(),
            comp.wf(),
            1 <= low <= high + 1 <= state.total_pt,
            accepted == affordable_pt(*config, *state, *comp, sy_in as int),
            bisect(low as int, high as int, accepted) == bisect(1, state.total_pt - 1, accepted),
            best == low - 1,
            best > 0 ==> feasible_purchase(*config, *state, *comp, best as int) == Some(
                best_required_sy,
            ),
        decreases high - low + 1,
    {
        let mid: i128 = low + (high - low) / 2;
        let required: Option<i128> = try_exact_pt_out_sy_in(config, state, comp, mid);
        assert(accepted(mid as int) == (required matches Some(cost) && cost <= sy_in));
        match required {
            Some(required_sy) => {
                if required_sy <= sy_in {
                    best = mid;
                    best_required_sy = required_sy;
                    low = mid + 1;
                } else {
                    high = mid - 1;
                }
            },
            None => {
                high = mid - 1;
            },
        }
    }
    proof {
        lemma_bisect(1, state.total_pt - 1, accepted);
    }
    if best <= 0 {
        return Err(Error::TradeNotFound);
    }
    Ok((best, best_required_sy))
}

/// `(yt_out, shares the pool pays for the principal tokens)` for at most
/// `sy_in` shares.
pub fn solve_yt_out_for_sy_in_with_cost(
    config: &Config,
    state: &State,
    comp: &Precompute,
    sy_in: i128,
) -> (r: Result<(i128, i128), Error>)
    requires
        config.wf(),
        state.wf(),
        comp.wf(),
        0 <= sy_in <= WAD,
    ensures
        r == best_yt_purchase(*config, *state, *comp, sy_in as int),
        r matches Ok(best) ==> {
            &&& best.0 > 0
            &&& feasible_sale(*config, *state, *comp, best.0 as int) == Some(best.1)
            &&& fits(best.0 * WAD)
            &&& 0 < shares_for_face(best.0 as int, comp.rate as int) - best.1 <= sy_in
        },
{
    let ghost accepted = affordable_yt(*config, *state, *comp, sy_in as int);
    let mut low: i128 = 1;
    let max_shares: i128 = checked_add(sy_in, state.total_sy)?;
    proof {
        if fits(max_shares * comp.rate) {
            lemma_quotient_nonneg(max_shares as int, comp.rate as int, WAD as int);
        }
    }
    let mut high: i128 = mul_div_down(max_shares, comp.rate, WAD)?;
    let ghost top = high as int;
    let mut best: i128 = 0;
    let mut best_sy_paid: i128 = 0;
    while low <= high
        invariant
            config.wf(),
            state.wf(),
            comp.wf(),
            0 <= sy_in <= WAD,
            1 <= low <= high + 1 <= top + 1,
            fits(top * WAD),
            accepted == affordable_yt(*config, *state, *comp, sy_in as int),
            bisect(low as int, high as int, accepted) == bisect(1, top, accepted),
            best == low - 1,
            best > 0 ==> feasible_sale(*config, *state, *comp, best as int) == Some(best_sy_paid),
        decreases high - low + 1,
    {
        let mid: i128 = low + (high - low) / 2;
        proof {
            lemma_shares_for_face(mid, comp.rate);
        }
        let shares_needed: i128 = shares_in_for_face_up(mid, comp.rate)?;
        let sale: Option<i128> = try_exact_pt_in_sy_out(config, state, comp, mid);
        assert(accepted(mid as int) == (sale matches Some(paid) && 0 < shares_needed - paid
            <= sy_in));
        match sale {
            Some(sy_paid) => {
                if shares_needed > sy_paid && shares_needed - sy_paid <= sy_in {
                    best = mid;
                    best_sy_paid = sy_paid;
                    low = mid + 1;
                } else {
                    high = mid - 1;
                }
            },
            None => {
                high = mid - 1;
            },
        }
    }
    proof {
        lemma_bisect(1, top, accepted);
    }
    if best <= 0 {
        return Err(Error::TradeNotFound);
    }
    Ok((best, best_sy_paid))
}

/// Shares for a face whose scaled value is representable are representable.
pub proof fn lemma_shares_for_face(face: i128, rate: i128)
    requires
        0 <= face,
        rate > 0,
        fits(face * WAD),
    ensures
        0 <= shares_for_face(face as int, rate as int) <= i128::MAX,
        super::checked::quotient_up(face as int, WAD as int, rate as int) == Ok::<i128, Error>(
            shares_for_face(face as int, rate as int) as i128,
        ),
{
    lemma_quotient_nonneg(face as int, WAD as int, rate as int);
    let n = face * WAD;
    let d = rate as int;
    assert(0 <= n / d <= n && (n % d != 0 ==> n / d < n)) by (nonlinear_arith)
        requires
            n >= 0,
            d > 0,
    ;
    if d == 1 {
        assert(n % 1 == 0);
    }
}

} // verus!
