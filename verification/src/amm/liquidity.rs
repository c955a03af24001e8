//! Adding liquidity to the pool and taking it out again.
use super::checked::{
    bounded_amount, checked_add, checked_bounded_reserve_add, checked_mul, grown_reserve,
    lemma_quotient_nonneg, mul_div_down, mul_div_up, quotient, require_bounded_amount_result, sum,
    MAX_RESERVE_UNITS,
};
use super::curve::{get_ln_implied_rate, get_rate_scalar, ln_implied_rate_at, rate_scalar_at};
use super::liquidity_laws::{lemma_deposit_takes_its_part, lemma_withdrawal_pays_its_part};
use super::market::{AmmMarket, MINIMUM_LIQUIDITY};
use super::pricing::{sy_to_asset, time_left, time_to_expiry};
use super::sqrt::{floor_sqrt, integer_sqrt};
use super::swaps::require_seeded_result;
use super::types::{AddLiquidity, Config, Error, RemoveLiquidity, State};
use crate::address::{Address, Transfer};
use crate::arith::{ceil_div, fits, min, WAD};
use crate::rounding::{rounded_down, rounded_up};
use vstd::prelude::*;

verus! {

/// A deposit that is booked: what the provider gives, and what is to be
/// published.
#[derive(Copy, Clone, Debug, PartialEq, Eq, Structural)]
pub struct LiquidityAdded {
    pub pt_in: Transfer,
    pub sy_in: Transfer,
    pub event: AddLiquidity,
}

/// A withdrawal that is booked: what the provider gets, and what is to be
/// published.
#[derive(Copy, Clone, Debug, PartialEq, Eq, Structural)]
pub struct LiquidityRemoved {
    pub pt_out: Transfer,
    pub sy_out: Transfer,
    pub event: RemoveLiquidity,
}

/// What a deposit takes, what it gives, and the market that it leaves.
#[derive(Copy, Clone, Debug, PartialEq, Eq, Structural)]
pub struct DepositTerms {
    pub pt_used: i128,
    pub sy_used: i128,
    pub lp_out: i128,
    pub state: State,
}

/// The deposit that opens a market, with shares at `sy_rate`. It sets the price
/// that the principal tokens have against the asset value of the shares, and
/// mints the geometric mean of the two amounts, less the liquidity shares that
/// nobody gets.
pub open spec fn opening_deposit(
    config: Config,
    state: State,
    now: u64,
    sy_rate: i128,
    pt_in: i128,
    sy_in: i128,
) -> Result<DepositTerms, Error> {
    let gross_lp = floor_sqrt(pt_in * sy_in);
    if sy_rate <= 0 {
        Err(Error::InvalidSyRate)
    } else if gross_lp <= MINIMUM_LIQUIDITY {
        Err(Error::InsufficientLiquidity)
    } else {
        match time_left(config.maturity, now) {
            Err(e) => Err(e),
            Ok(time) => match rate_scalar_at(config.scalar_root as int, time as int) {
                Err(e) => Err(e),
                Ok(scalar) => match opening_ln_rate(config, scalar, time, sy_rate, pt_in, sy_in) {
                    Err(e) => Err(e),
                    Ok(ln_rate) => Ok(
                        DepositTerms {
                            pt_used: pt_in,
                            sy_used: sy_in,
                            lp_out: (gross_lp - MINIMUM_LIQUIDITY) as i128,
                            state: State {
                                total_pt: pt_in,
                                total_sy: sy_in,
                                total_lp: gross_lp as i128,
                                last_ln_implied_rate: ln_rate,
                                twap_ln_implied_rate: ln_rate,
                                last_observation: now,
                                ..state
                            },
                        },
                    ),
                },
            },
        }
    }
}

/// The yearly log rate at which a market opens: the one that the initial anchor
/// implies for `pt_in` principal tokens against the asset value of `sy_in`
/// shares.
pub open spec fn opening_ln_rate(
    config: Config,
    scalar: i128,
    time: u64,
    sy_rate: i128,
    pt_in: i128,
    sy_in: i128,
) -> Result<i128, Error> {
    match quotient(sy_in as int, sy_rate as int, WAD as int) {
        Err(e) => Err(e),
        Ok(asset) => ln_implied_rate_at(
            pt_in as int,
            asset as int,
            scalar as int,
            config.initial_anchor as int,
            time as int,
        ),
    }
}

/// Liquidity shares for a deposit into a market that is open: as many as the
/// scarcer of the two amounts is worth.
pub open spec fn lp_for_deposit(state: State, pt_in: int, sy_in: int) -> int {
    min(
        pt_in * state.total_lp / (state.total_pt as int),
        sy_in * state.total_lp / (state.total_sy as int),
    )
}

/// What `lp_out` new liquidity shares take of a reserve, rounded up.
pub open spec fn reserve_for_lp(reserve: int, lp_out: int, total_lp: int) -> int {
    ceil_div(reserve * lp_out, total_lp)
}

/// A deposit into a market that is open. It leaves the reserves' proportion,
/// and takes no more than it needs for that.
pub open spec fn proportional_deposit(state: State, pt_in: i128, sy_in: i128) -> Result<
    DepositTerms,
    Error,
> {
    let lp_out = lp_for_deposit(state, pt_in as int, sy_in as int);
    let pt_used = reserve_for_lp(state.total_pt as int, lp_out, state.total_lp as int);
    let sy_used = reserve_for_lp(state.total_sy as int, lp_out, state.total_lp as int);
    if !fits(pt_in * state.total_lp) || !fits(sy_in * state.total_lp) {
        Err(Error::MathOverflow)
    } else if lp_out <= 0 {
        Err(Error::InsufficientLiquidity)
    } else {
        match grown_reserve(state.total_pt as int, pt_used) {
            Err(e) => Err(e),
            Ok(total_pt) => match grown_reserve(state.total_sy as int, sy_used) {
                Err(e) => Err(e),
                Ok(total_sy) => match sum(state.total_lp as int, lp_out) {
                    Err(e) => Err(e),
                    Ok(total_lp) => Ok(
                        DepositTerms {
                            pt_used: pt_used as i128,
                            sy_used: sy_used as i128,
                            lp_out: lp_out as i128,
                            state: State { total_pt, total_sy, total_lp, ..state },
                        },
                    ),
                },
            },
        }
    }
}

/// Part of a reserve that goes with `lp_in` of the liquidity shares, rounded
/// down.
pub open spec fn reserve_part(reserve: int, lp_in: int, total_lp: int) -> int {
    lp_in * reserve / total_lp
}

proof fn lemma_reserve_part(reserve: int, lp_in: int, total_lp: int)
    requires
        0 < reserve,
        0 < lp_in < total_lp,
    ensures
        0 <= reserve_part(reserve, lp_in, total_lp) < reserve,
        0 <= lp_in * reserve,
{
    let n = lp_in * reserve;
    assert(0 <= n / total_lp < reserve && 0 <= n) by (nonlinear_arith)
        requires
            n == lp_in * reserve,
            0 < reserve,
            0 < lp_in < total_lp,
    ;
}

/// A deposit takes no more of a token than was offered.
pub proof fn lemma_deposit_within_offer(reserve: int, offered: int, lp_out: int, total_lp: int)
    requires
        0 < reserve,
        0 < total_lp,
        0 <= offered,
        0 <= lp_out <= offered * total_lp / reserve,
    ensures
        0 <= reserve * lp_out <= offered * total_lp,
        0 <= reserve_for_lp(reserve, lp_out, total_lp) <= offered,
        lp_out > 0 ==> reserve_for_lp(reserve, lp_out, total_lp) > 0,
{
    let n = reserve * lp_out;
    let q = offered * total_lp / reserve;
    assert(0 <= n <= offered * total_lp && (lp_out > 0 ==> n > 0)) by (nonlinear_arith)
        requires
            n == reserve * lp_out,
            q == offered * total_lp / reserve,
            0 <= lp_out <= q,
            0 < reserve,
    ;
    assert(0 <= n / total_lp <= offered && (n % total_lp != 0 ==> n / total_lp < offered) && (n > 0
        && n % total_lp == 0 ==> n / total_lp > 0)) by (nonlinear_arith)
        requires
            0 <= n <= offered * total_lp,
            0 < total_lp,
    ;
}

/// A deposit does not dilute: no liquidity share is backed by less of a reserve
/// after it than before.
pub proof fn lemma_deposit_keeps_backing(reserve: int, lp_out: int, total_lp: int)
    requires
        0 < reserve,
        0 < lp_out,
        0 < total_lp,
    ensures
        (reserve + reserve_for_lp(reserve, lp_out, total_lp)) * total_lp >= reserve * (total_lp
            + lp_out),
{
    let n = reserve * lp_out;
    let taken = reserve_for_lp(reserve, lp_out, total_lp);
    assert(taken * total_lp >= n) by (nonlinear_arith)
        requires
            taken == n / total_lp + (if n % total_lp == 0 { 0int } else { 1int }),
            total_lp > 0,
    ;
    assert((reserve + taken) * total_lp >= reserve * (total_lp + lp_out)) by (nonlinear_arith)
        requires
            taken * total_lp >= n,
            n == reserve * lp_out,
    ;
}

/// A withdrawal takes no more than its part: no liquidity share that stays is
/// backed by less of a reserve after it than before.
pub proof fn lemma_withdrawal_keeps_backing(reserve: int, lp_in: int, total_lp: int)
    requires
        0 < reserve,
        0 < lp_in < total_lp,
    ensures
        (reserve - reserve_part(reserve, lp_in, total_lp)) * total_lp >= reserve * (total_lp
            - lp_in),
{
    let n = lp_in * reserve;
    let part = reserve_part(reserve, lp_in, total_lp);
    assert(part * total_lp <= n) by (nonlinear_arith)
        requires
            part == n / total_lp,
            total_lp > 0,
    ;
    assert((reserve - part) * total_lp >= reserve * (total_lp - lp_in)) by (nonlinear_arith)
        requires
            part * total_lp <= n,
            n == lp_in * reserve,
    ;
}

/// Taking liquidity out right after putting it in never pays out more than was
/// put in.
pub proof fn lemma_deposit_then_withdraw(reserve: int, lp_out: int, total_lp: int)
    requires
        0 < reserve,
        0 < lp_out,
        0 < total_lp,
    ensures
        ({
            let taken = reserve_for_lp(reserve, lp_out, total_lp);
            reserve_part(reserve + taken, lp_out, total_lp + lp_out) <= taken
        }),
{
    let n = reserve * lp_out;
    let taken = reserve_for_lp(reserve, lp_out, total_lp);
    assert(n <= taken * total_lp) by (nonlinear_arith)
        requires
            taken == n / total_lp + (if n % total_lp == 0 { 0int } else { 1int }),
            total_lp > 0,
    ;
    let back = lp_out * (reserve + taken);
    let all = total_lp + lp_out;
    assert(back <= taken * all) by (nonlinear_arith)
        requires
            n == reserve * lp_out,
            n <= taken * total_lp,
            back == lp_out * (reserve + taken),
            all == total_lp + lp_out,
    ;
    assert(back / all <= taken) by (nonlinear_arith)
        requires
            back <= taken * all,
            all > 0,
    ;
}

fn open_market(
    config: &Config,
    state: &State,
    now: u64,
    sy_rate: i128,
    pt_in: i128,
    sy_in: i128,
) -> (r: Result<DepositTerms, Error>)
    requires
        config.wf(),
        0 < pt_in <= MAX_RESERVE_UNITS,
        0 < sy_in <= MAX_RESERVE_UNITS,
    ensures
        r == opening_deposit(*config, *state, now, sy_rate, pt_in, sy_in),
        r matches Ok(terms) ==> terms.state.wf() && terms.state.seeded() && terms.lp_out > 0
            && terms.state.total_lp == terms.lp_out + MINIMUM_LIQUIDITY,
{
    proof {
        assert(0 < pt_in * sy_in < i128::MAX) by (nonlinear_arith)
            requires
                0 < pt_in <= 1_000_000_000_000_000_000,
                0 < sy_in <= 1_000_000_000_000_000_000,
        ;
    }
    if sy_rate <= 0 {
        return Err(Error::InvalidSyRate);
    }
    let gross_lp: i128 = integer_sqrt(checked_mul(pt_in, sy_in)?)?;
    if gross_lp <= MINIMUM_LIQUIDITY {
        return Err(Error::InsufficientLiquidity);
    }
    let time: u64 = time_to_expiry(config.maturity, now)?;
    let rate_scalar: i128 = get_rate_scalar(config.scalar_root, time)?;
    let total_asset: i128 = sy_to_asset(sy_in, sy_rate)?;
    let ln_rate: i128 = get_ln_implied_rate(
        pt_in,
        total_asset,
        rate_scalar,
        config.initial_anchor,
        time,
    )?;
    Ok(
        DepositTerms {
            pt_used: pt_in,
            sy_used: sy_in,
            lp_out: gross_lp - MINIMUM_LIQUIDITY,
            state: State {
                total_pt: pt_in,
                total_sy: sy_in,
                total_lp: gross_lp,
                last_ln_implied_rate: ln_rate,
                twap_ln_implied_rate: ln_rate,
                last_observation: now,
                ..*state
            },
        },
    )
}

fn join_market(state: &State, pt_in: i128, sy_in: i128) -> (r: Result<DepositTerms, Error>)
    requires
        state.wf(),
        state.seeded(),
        0 < pt_in <= MAX_RESERVE_UNITS,
        0 < sy_in <= MAX_RESERVE_UNITS,
    ensures
        r == proportional_deposit(*state, pt_in, sy_in),
        r matches Ok(terms) ==> {
            &&& terms.state.wf() && terms.state.seeded()
            &&& terms.state.total_lp == state.total_lp + terms.lp_out
            &&& 0 < terms.lp_out
            &&& 0 < terms.pt_used <= pt_in
            &&& 0 < terms.sy_used <= sy_in
        },
{
    let ghost lp = state.total_lp as int;
    proof {
        if fits(pt_in * lp) {
            lemma_quotient_nonneg(pt_in as int, lp, state.total_pt as int);
        }
        if fits(sy_in * lp) {
            lemma_quotient_nonneg(sy_in as int, lp, state.total_sy as int);
        }
    }
    let lp_by_pt: i128 = mul_div_down(pt_in, state.total_lp, state.total_pt)?;
    let lp_by_sy: i128 = mul_div_down(sy_in, state.total_lp, state.total_sy)?;
    let lp_out: i128 = if lp_by_pt <= lp_by_sy {
        lp_by_pt
    } else {
        lp_by_sy
    };
    if lp_out <= 0 {
        return Err(Error::InsufficientLiquidity);
    }
    proof {
        lemma_deposit_within_offer(state.total_pt as int, pt_in as int, lp_out as int, lp);
        lemma_deposit_within_offer(state.total_sy as int, sy_in as int, lp_out as int, lp);
        lemma_quotient_nonneg(state.total_pt as int, lp_out as int, lp);
        lemma_quotient_nonneg(state.total_sy as int, lp_out as int, lp);
        lemma_quotient_up_small(state.total_pt as int, lp_out as int, lp);
        lemma_quotient_up_small(state.total_sy as int, lp_out as int, lp);
    }
    let pt_used: i128 = mul_div_up(state.total_pt, lp_out, state.total_lp)?;
    let sy_used: i128 = mul_div_up(state.total_sy, lp_out, state.total_lp)?;
    let total_pt: i128 = checked_bounded_reserve_add(state.total_pt, pt_used)?;
    let total_sy: i128 = checked_bounded_reserve_add(state.total_sy, sy_used)?;
    let total_lp: i128 = checked_add(state.total_lp, lp_out)?;
    let next: State = State { total_pt, total_sy, total_lp, ..*state };
    Ok(DepositTerms { pt_used, sy_used, lp_out, state: next })
}

/// A quotient by one leaves no remainder, so rounding up never overflows.
proof fn lemma_quotient_up_small(lhs: int, rhs: int, denominator: int)
    requires
        0 <= lhs,
        0 <= rhs,
        0 < denominator,
        fits(lhs * rhs),
        0 <= ceil_div(lhs * rhs, denominator) <= i128::MAX,
    ensures
        super::checked::quotient_up(lhs, rhs, denominator) == Ok::<i128, Error>(
            ceil_div(lhs * rhs, denominator) as i128,
        ),
{
    lemma_quotient_nonneg(lhs, rhs, denominator);
    let n = lhs * rhs;
    if denominator == 1 {
        assert(n % 1 == 0);
    }
}

impl AmmMarket {
    /// Why no deposit of these amounts is taken at `now`, whatever the shares'
    /// exchange rate.
    pub open spec fn deposit_rejection(self, now: u64, pt_in: i128, sy_in: i128) -> Option<Error> {
        if self.governance.paused {
            Some(Error::Paused)
        } else {
            match bounded_amount(pt_in as int) {
                Err(e) => Some(e),
                Ok(_) => match bounded_amount(sy_in as int) {
                    Err(e) => Some(e),
                    Ok(_) => match self.config {
                        None => Some(Error::NotInitialized),
                        Some(config) => if now >= config.maturity {
                            Some(Error::MarketMatured)
                        } else {
                            None
                        },
                    },
                },
            }
        }
    }

    /// Whether a deposit of these amounts would open the market, if it may be
    /// made at all. Only one that does needs the shares' exchange rate.
    pub fn check_deposit(&self, now: u64, pt_in: i128, sy_in: i128) -> (r: Result<bool, Error>)
        requires
            self.wf(),
        ensures
            match self.deposit_rejection(now, pt_in, sy_in) {
                Some(e) => r == Err::<bool, Error>(e),
                None => r == Ok::<bool, Error>(self.state->0.total_lp == 0),
            },
    {
        if self.governance.paused {
            return Err(Error::Paused);
        }
        require_bounded_amount_result(pt_in)?;
        require_bounded_amount_result(sy_in)?;
        let config: Config = self.config()?;
        if now >= config.maturity {
            return Err(Error::MarketMatured);
        }
        let state: State = self.state()?;
        Ok(state.total_lp == 0)
    }

    /// What a deposit comes to, with shares at `sy_rate`. The rate matters for
    /// the deposit that opens the market alone.
    pub open spec fn deposit_terms(
        self,
        now: u64,
        sy_rate: i128,
        pt_in: i128,
        sy_in: i128,
    ) -> Result<DepositTerms, Error> {
        match self.deposit_rejection(now, pt_in, sy_in) {
            Some(e) => Err(e),
            None => if self.state->0.total_lp == 0 {
                opening_deposit(self.config->0, self.state->0, now, sy_rate, pt_in, sy_in)
            } else {
                proportional_deposit(self.state->0, pt_in, sy_in)
            },
        }
    }

    /// What adding liquidity comes to, for a holder who asks for at least
    /// `min_lp_out` liquidity shares: the deposit, and the holder's new balance.
    pub open spec fn deposited(
        self,
        now: u64,
        sy_rate: i128,
        from: Address,
        pt_in: i128,
        sy_in: i128,
        min_lp_out: i128,
    ) -> Result<(DepositTerms, i128), Error> {
        match self.deposit_terms(now, sy_rate, pt_in, sy_in) {
            Err(e) => Err(e),
            Ok(terms) => match sum(self.lp_balances.amount(from) as int, terms.lp_out as int) {
                Err(e) => Err(e),
                Ok(balance) => if terms.lp_out < min_lp_out {
                    Err(Error::SlippageExceeded)
                } else {
                    Ok((terms, balance))
                },
            },
        }
    }

    /// Adds liquidity. The first deposit opens the market at the price that the
    /// principal tokens make against the asset value of the shares at `sy_rate`;
    /// later ones keep the reserves' proportion, whatever the rate. `from` has
    /// authorized the call.
    pub fn add_liquidity(
        &mut self,
        now: u64,
        sy_rate: i128,
        from: Address,
        pt_in: i128,
        sy_in: i128,
        min_lp_out: i128,
    ) -> (r: Result<LiquidityAdded, Error>)
        requires
            old(self).wf(),
        ensures
            final(self).wf(),
            match old(self).deposited(now, sy_rate, from, pt_in, sy_in, min_lp_out) {
                Err(e) => r == Err::<LiquidityAdded, Error>(e) && *final(self) == *old(self),
                Ok((terms, balance)) => {
                    let config = old(self).config->0;
                    &&& r == Ok::<LiquidityAdded, Error>(
                        LiquidityAdded {
                            pt_in: Transfer {
                                token: config.pt_token,
                                holder: from,
                                amount: terms.pt_used,
                            },
                            sy_in: Transfer {
                                token: config.sy_token,
                                holder: from,
                                amount: terms.sy_used,
                            },
                            event: AddLiquidity {
                                provider: from,
                                pt_in,
                                sy_in,
                                lp_out: terms.lp_out,
                            },
                        },
                    )
                    &&& final(self).state == Some(terms.state)
                    &&& final(self).lp_balances@ == old(self).lp_balances@.insert(from, balance)
                    &&& final(self).config == old(self).config
                    &&& final(self).governance == old(self).governance
                    &&& final(self).fees == old(self).fees
                    &&& final(self).past_claims == old(self).past_claims
                    &&& terms.pt_used <= pt_in && terms.sy_used <= sy_in
                },
            },
            r matches Ok(added) ==> old(self).state->0.total_lp > 0 ==> {
                let state = old(self).state->0;
                let lp_out = added.event.lp_out as int;
                &&& rounded_up(
                    added.pt_in.amount as int,
                    state.total_pt * lp_out,
                    state.total_lp as int,
                )
                &&& rounded_up(
                    added.sy_in.amount as int,
                    state.total_sy * lp_out,
                    state.total_lp as int,
                )
            },
    {
        let ghost before = *self;
        let opening: bool = self.check_deposit(now, pt_in, sy_in)?;
        let config: Config = self.config()?;
        let state: State = self.state()?;
        let terms: DepositTerms = if opening {
            open_market(&config, &state, now, sy_rate, pt_in, sy_in)?
        } else {
            join_market(&state, pt_in, sy_in)?
        };
        let current_lp: i128 = self.lp_balances.get(from);
        let balance: i128 = checked_add(current_lp, terms.lp_out)?;
        if terms.lp_out < min_lp_out {
            return Err(Error::SlippageExceeded);
        }
        proof {
            if before.state->0.total_lp > 0 {
                lemma_deposit_takes_its_part(
                    before,
                    now,
                    sy_rate,
                    from,
                    pt_in,
                    sy_in,
                    min_lp_out,
                );
            }
            assert(self.lp_balances.amount(from) >= 0) by {
                if self.lp_balances@.contains_key(from) {
                    assert(self.lp_balances@[from] >= 0);
                }
            }
        }
        self.lp_balances.set(from, balance);
        self.state = Some(terms.state);
        Ok(
            LiquidityAdded {
                pt_in: Transfer { token: config.pt_token, holder: from, amount: terms.pt_used },
                sy_in: Transfer { token: config.sy_token, holder: from, amount: terms.sy_used },
                event: AddLiquidity { provider: from, pt_in, sy_in, lp_out: terms.lp_out },
            },
        )
    }

    /// What taking liquidity out comes to: `(pt_out, sy_out)`.
    pub open spec fn withdrawn(
        self,
        from: Address,
        lp_in: i128,
        min_pt_out: i128,
        min_sy_out: i128,
    ) -> Result<(i128, i128), Error> {
        match bounded_amount(lp_in as int) {
            Err(e) => Err(e),
            Ok(_) => match self.state {
                None => Err(Error::NotInitialized),
                Some(state) => {
                    let sy_out = reserve_part(
                        state.total_sy as int,
                        lp_in as int,
                        state.total_lp as int,
                    );
                    let pt_out = reserve_part(
                        state.total_pt as int,
                        lp_in as int,
                        state.total_lp as int,
                    );
                    if !state.seeded() {
                        Err(Error::MarketNotSeeded)
                    } else if lp_in > self.lp_balances.amount(from) || lp_in >= state.total_lp {
                        Err(Error::InsufficientLiquidity)
                    } else if sy_out == 0 && pt_out == 0 {
                        Err(Error::InsufficientLiquidity)
                    } else if pt_out < min_pt_out || sy_out < min_sy_out {
                        Err(Error::SlippageExceeded)
                    } else {
                        Ok((pt_out as i128, sy_out as i128))
                    }
                },
            },
        }
    }

    /// Takes liquidity out: its part of both reserves. Neither a pause nor
    /// maturity stands in the way. `from` has authorized the call.
    pub fn remove_liquidity(
        &mut self,
        from: Address,
        lp_in: i128,
        min_pt_out: i128,
        min_sy_out: i128,
    ) -> (r: Result<LiquidityRemoved, Error>)
        requires
            old(self).wf(),
        ensures
            final(self).wf(),
            match old(self).withdrawn(from, lp_in, min_pt_out, min_sy_out) {
                Err(e) => r == Err::<LiquidityRemoved, Error>(e) && *final(self) == *old(self),
                Ok((pt_out, sy_out)) => {
                    let config = old(self).config->0;
                    let state = old(self).state->0;
                    &&& r == Ok::<LiquidityRemoved, Error>(
                        LiquidityRemoved {
                            pt_out: Transfer {
                                token: config.pt_token,
                                holder: from,
                                amount: pt_out,
                            },
                            sy_out: Transfer {
                                token: config.sy_token,
                                holder: from,
                                amount: sy_out,
                            },
                            event: RemoveLiquidity { provider: from, lp_in, pt_out, sy_out },
                        },
                    )
                    &&& final(self).state == Some(
                        State {
                            total_pt: (state.total_pt - pt_out) as i128,
                            total_sy: (state.total_sy - sy_out) as i128,
                            total_lp: (state.total_lp - lp_in) as i128,
                            ..state
                        },
                    )
                    &&& final(self).lp_balances@ == old(self).lp_balances@.insert(
                        from,
                        (old(self).lp_balances.amount(from) - lp_in) as i128,
                    )
                    &&& final(self).config == old(self).config
                    &&& final(self).governance == old(self).governance
                    &&& final(self).fees == old(self).fees
                    &&& final(self).past_claims == old(self).past_claims
                },
            },
            r matches Ok(removed) ==> {
                let state = old(self).state->0;
                &&& rounded_down(
                    removed.pt_out.amount as int,
                    lp_in * state.total_pt,
                    state.total_lp as int,
                )
                &&& rounded_down(
                    removed.sy_out.amount as int,
                    lp_in * state.total_sy,
                    state.total_lp as int,
                )
            },
    {
        let ghost before = *self;
        require_bounded_amount_result(lp_in)?;
        let config: Config = self.config()?;
        let state: State = self.state()?;
        require_seeded_result(&state)?;
        let holder_lp: i128 = self.lp_balances.get(from);
        if lp_in > holder_lp {
            return Err(Error::InsufficientLiquidity);
        }
        if lp_in >= state.total_lp {
            return Err(Error::InsufficientLiquidity);
        }
        proof {
            let lp = state.total_lp as int;
            lemma_reserve_part(state.total_sy as int, lp_in as int, lp);
            lemma_reserve_part(state.total_pt as int, lp_in as int, lp);
            assert(lp_in * state.total_sy <= MAX_RESERVE_UNITS * MAX_RESERVE_UNITS && lp_in
                * state.total_pt <= MAX_RESERVE_UNITS * MAX_RESERVE_UNITS) by (nonlinear_arith)
                requires
                    0 < lp_in <= MAX_RESERVE_UNITS,
                    0 < state.total_sy <= MAX_RESERVE_UNITS,
                    0 < state.total_pt <= MAX_RESERVE_UNITS,
            ;
            lemma_quotient_nonneg(lp_in as int, state.total_sy as int, lp);
            lemma_quotient_nonneg(lp_in as int, state.total_pt as int, lp);
        }
        let sy_out: i128 = mul_div_down(lp_in, state.total_sy, state.total_lp)?;
        let pt_out: i128 = mul_div_down(lp_in, state.total_pt, state.total_lp)?;
        if sy_out == 0 && pt_out == 0 {
            return Err(Error::InsufficientLiquidity);
        }
        if pt_out < min_pt_out || sy_out < min_sy_out {
            return Err(Error::SlippageExceeded);
        }
        proof {
            lemma_withdrawal_pays_its_part(before, from, lp_in, min_pt_out, min_sy_out);
        }
        self.lp_balances.set(from, holder_lp - lp_in);
        self.state = Some(
            State {
                total_pt: state.total_pt - pt_out,
                total_sy: state.total_sy - sy_out,
                total_lp: state.total_lp - lp_in,
                ..state
            },
        );
        Ok(
            LiquidityRemoved {
                pt_out: Transfer { token: config.pt_token, holder: from, amount: pt_out },
                sy_out: Transfer { token: config.sy_token, holder: from, amount: sy_out },
                event: RemoveLiquidity { provider: from, lp_in, pt_out, sy_out },
            },
        )
    }
}

} // verus!
