//! Quotes and swaps. A swap states which tokens have to move and leaves the
//! moving to the caller; the flash routes through the tokenizer come in two
//! steps, around the call to it.
use super::checked::{
    bounded_amount, checked_sub, difference, require_bounded_amount_result, MAX_RESERVE_UNITS,
};
use super::curve::rate_scalar_at;
use super::market::AmmMarket;
use super::price_laws::{
    buys, lemma_purchase_is_quoted_at_its_price, lemma_purchase_is_the_most_for_its_price,
    lemma_sale_is_quoted_at_its_price, lemma_sale_pays_its_price,
    lemma_yt_purchase_is_quoted_at_its_price, lemma_yt_purchase_is_the_most_for_its_price,
    lemma_yt_sale_is_quoted_at_its_price, lemma_yt_sale_pays_its_price, sells, yt_costs, yt_steps,
    yt_within,
};
use super::pricing::{
    exact_pt_in_sy_out, exact_pt_out_sy_in, feasible_pt_in_sy_out, feasible_purchase,
    lemma_feasible_purchase, precompute, precomputed, sale_quote, shares_in_for_face_up,
    shares_out_for_face_down, sy_out_for_pt_in, time_left, time_to_expiry, Precompute,
};
use super::solver::{
    best_purchase, best_yt_purchase, exact_sy_in_pt_out_with_cost, lemma_shares_for_face,
    shares_for_face, solve_yt_out_for_sy_in_with_cost,
};
use super::trade::{
    accrue_protocol_fee, after_protocol_cut, after_purchase, after_sale,
    apply_exact_pt_in_trade_with_sy_out, apply_exact_sy_in_trade_with_required_sy, fee_from_charge,
    fee_from_payout, fee_in_charge, fee_in_payout, lemma_feasible_purchase_applies,
    lemma_feasible_sale_applies, settle_and_record, settled, warmup_fits, ProtocolFees,
};
use super::types::{Config, Error, Route, State, Swap};
use crate::address::{Address, Transfer};
use crate::arith::WAD;
use crate::rounding::{lemma_rounded_up, rounded_down};
use vstd::prelude::*;

verus! {

/// A swap that is booked: what the trader gives and gets, and what is to be
/// published.
#[derive(Copy, Clone, Debug, PartialEq, Eq, Structural)]
pub struct SwapSettlement {
    pub transfer_in: Transfer,
    pub transfer_out: Transfer,
    pub event: Swap,
}

/// A purchase of yield tokens, ready for the split that mints them.
#[derive(Copy, Clone, Debug, PartialEq, Eq, Structural)]
pub struct YtPurchase {
    pub trader: Address,
    pub sy_in: i128,
    pub yt_out: i128,
    /// What the buyer pays: the part of the split that the pool does not fund.
    pub buyer_cost: i128,
    pub shares_to_split: i128,
    /// The market once it has bought the principal tokens of the split.
    pub state: State,
}

/// A sale of yield tokens, ready for the recombination that redeems them.
#[derive(Copy, Clone, Debug, PartialEq, Eq, Structural)]
pub struct YtSale {
    pub trader: Address,
    pub yt_in: i128,
    pub sy_out: i128,
    /// What the recombination has to bring in at least.
    pub sy_value: i128,
    /// The market once it has sold the principal tokens for the recombination.
    pub state: State,
}

/// What selling `yt_in` yield tokens comes to: `(shares that recombining them
/// brings, shares that the principal tokens for it cost)`.
pub open spec fn yt_sale_terms(
    config: Config,
    state: State,
    comp: Precompute,
    yt_in: int,
) -> Result<(i128, i128), Error> {
    match feasible_purchase(config, state, comp, yt_in) {
        None => Err(Error::TradeNotFound),
        Some(sy_cost) => {
            let sy_value = yt_in * WAD / (comp.rate as int);
            if sy_cost >= sy_value {
                Err(Error::InsufficientLiquidity)
            } else {
                Ok((sy_value as i128, sy_cost))
            }
        },
    }
}

impl AmmMarket {
    /// Why no trade of `amount` can be priced at `now`, whatever the shares'
    /// exchange rate.
    pub open spec fn pricing_rejection(self, amount: int, now: u64) -> Option<Error> {
        match bounded_amount(amount) {
            Err(e) => Some(e),
            Ok(_) => match (self.config, self.state) {
                (Some(config), Some(state)) => match time_left(config.maturity, now) {
                    Err(e) => Some(e),
                    Ok(time) => if !state.seeded() {
                        Some(Error::MarketNotSeeded)
                    } else {
                        match rate_scalar_at(config.scalar_root as int, time as int) {
                            Err(e) => Some(e),
                            Ok(_) => None,
                        }
                    },
                },
                _ => Some(Error::NotInitialized),
            },
        }
    }

    /// The market as a trade of `amount` at `now` finds it, with shares at
    /// `sy_rate`.
    pub open spec fn live_market(self, amount: int, now: u64, sy_rate: i128) -> Result<
        (Config, State, Precompute),
        Error,
    > {
        match self.pricing_rejection(amount, now) {
            Some(e) => Err(e),
            None => match precomputed(self.config->0, self.state->0, now, sy_rate) {
                Err(e) => Err(e),
                Ok(comp) => Ok((self.config->0, self.state->0, comp)),
            },
        }
    }

    /// [`AmmMarket::live_market`], closed while paused.
    pub open spec fn open_market(self, amount: int, now: u64, sy_rate: i128) -> Result<
        (Config, State, Precompute),
        Error,
    > {
        if self.governance.paused {
            Err(Error::Paused)
        } else {
            self.live_market(amount, now, sy_rate)
        }
    }

    /// Whether trades of `amount` can be priced at `now`. What this refuses is
    /// refused before the shares' exchange rate is needed.
    pub fn check_quote(&self, now: u64, amount: i128) -> (r: Result<(), Error>)
        requires
            self.wf(),
        ensures
            match self.pricing_rejection(amount as int, now) {
                Some(e) => r == Err::<(), Error>(e),
                None => r == Ok::<(), Error>(()),
            },
    {
        require_bounded_amount_result(amount)?;
        let config: Config = self.config()?;
        let time: u64 = time_to_expiry(config.maturity, now)?;
        let state: State = self.state()?;
        require_seeded_result(&state)?;
        super::curve::get_rate_scalar(config.scalar_root, time)?;
        Ok(())
    }

    /// [`AmmMarket::check_quote`] for a trade, which a pause refuses too.
    pub fn check_trade(&self, now: u64, amount: i128) -> (r: Result<(), Error>)
        requires
            self.wf(),
        ensures
            r == (if self.governance.paused {
                Err::<(), Error>(Error::Paused)
            } else {
                match self.pricing_rejection(amount as int, now) {
                    Some(e) => Err(e),
                    None => Ok(()),
                }
            }),
    {
        if self.governance.paused {
            return Err(Error::Paused);
        }
        self.check_quote(now, amount)
    }

    fn load_live_market(&self, amount: i128, now: u64, sy_rate: i128) -> (r: Result<
        (Config, State, Precompute),
        Error,
    >)
        requires
            self.wf(),
        ensures
            r == self.live_market(amount as int, now, sy_rate),
            r matches Ok(m) ==> {
                &&& self.config == Some(m.0)
                &&& self.state == Some(m.1)
                &&& m.1.seeded()
                &&& m.2.wf()
                &&& now < m.0.maturity
                &&& 0 < amount <= MAX_RESERVE_UNITS
            },
    {
        self.check_quote(now, amount)?;
        let config: Config = self.config()?;
        let state: State = self.state()?;
        let comp: Precompute = precompute(&config, &state, now, sy_rate)?;
        Ok((config, state, comp))
    }

    fn load_open_market(&self, amount: i128, now: u64, sy_rate: i128) -> (r: Result<
        (Config, State, Precompute),
        Error,
    >)
        requires
            self.wf(),
        ensures
            r == self.open_market(amount as int, now, sy_rate),
            r matches Ok(m) ==> {
                &&& self.config == Some(m.0)
                &&& self.state == Some(m.1)
                &&& m.1.seeded()
                &&& m.2.wf()
                &&& now < m.0.maturity
                &&& 0 < amount <= MAX_RESERVE_UNITS
            },
    {
        if self.governance.paused {
            return Err(Error::Paused);
        }
        self.load_live_market(amount, now, sy_rate)
    }

    /// Shares for selling `pt_in` principal tokens, where the sale can be made.
    pub fn quote_pt_for_sy(&self, now: u64, sy_rate: i128, pt_in: i128) -> (r: Result<i128, Error>)
        requires
            self.wf(),
        ensures
            r == (match self.live_market(pt_in as int, now, sy_rate) {
                Err(e) => Err::<i128, Error>(e),
                Ok((config, state, comp)) => sale_quote(config, state, comp, pt_in as int),
            }),
            r matches Ok(sy_out) ==> sells(
                *self,
                now,
                sy_rate as int,
                pt_in as int,
                sy_out as int,
            ),
    {
        let (config, state, comp): (Config, State, Precompute) = self.load_live_market(
            pt_in,
            now,
            sy_rate,
        )?;
        let sy_out: i128 = feasible_pt_in_sy_out(&config, &state, &comp, pt_in)?;
        proof {
            lemma_sale_is_quoted_at_its_price(*self, now, sy_rate, pt_in, sy_out as int);
        }
        Ok(sy_out)
    }

    /// Principal tokens for at most `sy_in` shares.
    pub fn quote_sy_for_pt(&self, now: u64, sy_rate: i128, sy_in: i128) -> (r: Result<i128, Error>)
        requires
            self.wf(),
        ensures
            r == (match self.live_market(sy_in as int, now, sy_rate) {
                Err(e) => Err::<i128, Error>(e),
                Ok((config, state, comp)) => match best_purchase(
                    config,
                    state,
                    comp,
                    sy_in as int,
                ) {
                    Err(e) => Err(e),
                    Ok((pt_out, _)) => Ok(pt_out),
                },
            }),
            r matches Ok(pt_out) ==> forall|more: int|
                #[trigger] buys(*self, now, sy_rate as int, pt_out + 1, more) ==> sy_in < more,
    {
        Ok(self.quote_sy_for_pt_cost(now, sy_rate, sy_in)?.0)
    }

    /// `(pt_out, sy_used)` for at most `sy_in` shares. A swap charges `sy_used`;
    /// where that is far below `sy_in`, the market cannot absorb the size asked
    /// for.
    pub fn quote_sy_for_pt_cost(&self, now: u64, sy_rate: i128, sy_in: i128) -> (r: Result<
        (i128, i128),
        Error,
    >)
        requires
            self.wf(),
        ensures
            r == (match self.live_market(sy_in as int, now, sy_rate) {
                Err(e) => Err::<(i128, i128), Error>(e),
                Ok((config, state, comp)) => best_purchase(config, state, comp, sy_in as int),
            }),
            r matches Ok(quote) ==> 0 < quote.0 && 0 < quote.1 <= sy_in,
            r matches Ok(quote) ==> {
                &&& buys(*self, now, sy_rate as int, quote.0 as int, quote.1 as int)
                &&& forall|more: int|
                    #[trigger] buys(*self, now, sy_rate as int, quote.0 + 1, more) ==> sy_in < more
            },
    {
        let (config, state, comp): (Config, State, Precompute) = self.load_live_market(
            sy_in,
            now,
            sy_rate,
        )?;
        let quote: (i128, i128) = exact_sy_in_pt_out_with_cost(&config, &state, &comp, sy_in)?;
        proof {
            lemma_feasible_purchase(config, state, comp, quote.0 as int);
            lemma_purchase_is_quoted_at_its_price(*self, now, sy_rate, sy_in);
        }
        Ok(quote)
    }

    /// Yield tokens for at most `sy_in` shares.
    pub fn quote_sy_for_yt(&self, now: u64, sy_rate: i128, sy_in: i128) -> (r: Result<i128, Error>)
        requires
            self.wf(),
        ensures
            r == (match self.live_market(sy_in as int, now, sy_rate) {
                Err(e) => Err::<i128, Error>(e),
                Ok((config, state, comp)) => match best_yt_purchase(
                    config,
                    state,
                    comp,
                    sy_in as int,
                ) {
                    Err(e) => Err(e),
                    Ok((yt_out, _)) => Ok(yt_out),
                },
            }),
            r matches Ok(yt_out) ==> !yt_within(
                *self,
                now,
                sy_rate as int,
                yt_out + 1,
                sy_in as int,
            ),
    {
        Ok(self.quote_sy_for_yt_cost(now, sy_rate, sy_in)?.0)
    }

    /// `(yt_out, sy_used)` for at most `sy_in` shares: the buyer pays what the
    /// pool's own purchase of the principal tokens leaves of the split.
    pub fn quote_sy_for_yt_cost(&self, now: u64, sy_rate: i128, sy_in: i128) -> (r: Result<
        (i128, i128),
        Error,
    >)
        requires
            self.wf(),
        ensures
            r == (match self.live_market(sy_in as int, now, sy_rate) {
                Err(e) => Err::<(i128, i128), Error>(e),
                Ok((config, state, comp)) => match best_yt_purchase(
                    config,
                    state,
                    comp,
                    sy_in as int,
                ) {
                    Err(e) => Err(e),
                    Ok((yt_out, sy_paid)) => Ok(
                        (
                            yt_out,
                            (shares_for_face(yt_out as int, comp.rate as int) - sy_paid) as i128,
                        ),
                    ),
                },
            }),
            r matches Ok(quote) ==> 0 < quote.0 && 0 < quote.1 <= sy_in,
            r matches Ok(quote) ==> {
                &&& yt_costs(*self, now, sy_rate as int, quote.0 as int, quote.1 as int)
                &&& !yt_within(*self, now, sy_rate as int, quote.0 + 1, sy_in as int)
            },
    {
        let (config, state, comp): (Config, State, Precompute) = self.load_live_market(
            sy_in,
            now,
            sy_rate,
        )?;
        let (yt_out, sy_paid): (i128, i128) = solve_yt_out_for_sy_in_with_cost(
            &config,
            &state,
            &comp,
            sy_in,
        )?;
        proof {
            lemma_shares_for_face(yt_out, comp.rate);
        }
        let shares_to_split: i128 = shares_in_for_face_up(yt_out, comp.rate)?;
        proof {
            lemma_yt_purchase_is_quoted_at_its_price(*self, now, sy_rate, sy_in);
            let rate = sy_rate as int;
            let cost = choose|cost: int| #[trigger]
                yt_steps(*self, now, rate, yt_out as int, cost, sy_paid as int);
            lemma_rounded_up(cost + sy_paid, yt_out * WAD, rate);
            assert(cost == shares_to_split - sy_paid);
            assert(yt_costs(*self, now, rate, yt_out as int, cost));
        }
        Ok((yt_out, checked_sub(shares_to_split, sy_paid)?))
    }

    /// Shares for selling `yt_in` yield tokens: what recombining them brings,
    /// less the cost of the principal tokens for it.
    pub fn quote_yt_for_sy(&self, now: u64, sy_rate: i128, yt_in: i128) -> (r: Result<i128, Error>)
        requires
            self.wf(),
        ensures
            r == (match self.live_market(yt_in as int, now, sy_rate) {
                Err(e) => Err::<i128, Error>(e),
                Ok((config, state, comp)) => match yt_sale_terms(
                    config,
                    state,
                    comp,
                    yt_in as int,
                ) {
                    Err(e) => Err(e),
                    Ok((sy_value, sy_cost)) => Ok((sy_value - sy_cost) as i128),
                },
            }),
            r matches Ok(sy_out) ==> exists|sy_value: int|
                {
                    &&& #[trigger] rounded_down(sy_value, yt_in * WAD, sy_rate as int)
                    &&& buys(*self, now, sy_rate as int, yt_in as int, sy_value - sy_out)
                    &&& 0 < sy_out
                },
    {
        let (config, state, comp): (Config, State, Precompute) = self.load_live_market(
            yt_in,
            now,
            sy_rate,
        )?;
        let (sy_value, sy_cost): (i128, i128) = price_yt_sale(&config, &state, &comp, yt_in)?;
        proof {
            lemma_yt_sale_is_quoted_at_its_price(*self, now, sy_rate, yt_in);
            assert(rounded_down(sy_value as int, yt_in * WAD, sy_rate as int));
        }
        Ok(sy_value - sy_cost)
    }

    /// What a sale of `pt_in` comes to: `(sy_out, the market after it, the
    /// protocol's fees after it)`.
    pub open spec fn pt_for_sy(
        self,
        now: u64,
        sy_rate: i128,
        pt_in: i128,
        min_sy_out: i128,
    ) -> Result<(i128, State, ProtocolFees), Error> {
        match self.open_market(pt_in as int, now, sy_rate) {
            Err(e) => Err(e),
            Ok((config, state, comp)) => match sy_out_for_pt_in(
                config,
                state,
                comp,
                pt_in as int,
            ) {
                Err(e) => Err(e),
                Ok(sy_out) => match after_sale(
                    comp,
                    state,
                    pt_in as int,
                    sy_out as int,
                    min_sy_out as int,
                ) {
                    Err(e) => Err(e),
                    Ok(sold) => match after_protocol_cut(
                        sold,
                        self.fees,
                        fee_in_payout(sy_out as int, config.fee_bps as int),
                    ) {
                        Err(e) => Err(e),
                        Ok((cut, fees)) => match settled(config, cut, 0, 0, now) {
                            Err(e) => Err(e),
                            Ok(next) => Ok((sy_out, next, fees)),
                        },
                    },
                },
            },
        }
    }

    /// Sells `pt_in` principal tokens to the pool for at least `min_sy_out`
    /// shares. `from` has authorized the call.
    pub fn swap_pt_for_sy(
        &mut self,
        now: u64,
        sy_rate: i128,
        from: Address,
        pt_in: i128,
        min_sy_out: i128,
    ) -> (r: Result<SwapSettlement, Error>)
        requires
            old(self).wf(),
            old(self).warmup_fits(now),
        ensures
            final(self).wf(),
            match old(self).pt_for_sy(now, sy_rate, pt_in, min_sy_out) {
                Err(e) => r == Err::<SwapSettlement, Error>(e) && *final(self) == *old(self),
                Ok((sy_out, next, fees)) => {
                    let config = old(self).config->0;
                    &&& r == Ok::<SwapSettlement, Error>(
                        SwapSettlement {
                            transfer_in: Transfer {
                                token: config.pt_token,
                                holder: from,
                                amount: pt_in,
                            },
                            transfer_out: Transfer {
                                token: config.sy_token,
                                holder: from,
                                amount: sy_out,
                            },
                            event: Swap {
                                trader: from,
                                route: Route::PtForSy,
                                amount_in: pt_in,
                                amount_out: sy_out,
                            },
                        },
                    )
                    &&& *final(self) == (AmmMarket { state: Some(next), fees, ..*old(self) })
                },
            },
            r matches Ok(swap) ==> swap.transfer_in.amount == pt_in && sells(
                *old(self),
                now,
                sy_rate as int,
                pt_in as int,
                swap.transfer_out.amount as int,
            ),
    {
        let (config, state, comp): (Config, State, Precompute) = self.load_open_market(
            pt_in,
            now,
            sy_rate,
        )?;
        let sy_out: i128 = exact_pt_in_sy_out(&config, &state, &comp, pt_in)?;
        let sold: State = apply_exact_pt_in_trade_with_sy_out(
            &comp,
            &state,
            pt_in,
            sy_out,
            min_sy_out,
        )?;
        let (cut, fees): (State, ProtocolFees) = accrue_protocol_fee(
            &sold,
            &self.fees,
            fee_from_payout(sy_out, config.fee_bps),
        )?;
        let next: State = settle_and_record(&config, &cut, 0, 0, now)?;
        proof {
            lemma_sale_pays_its_price(*self, now, sy_rate, pt_in, min_sy_out);
        }
        self.state = Some(next);
        self.fees = fees;
        Ok(
            SwapSettlement {
                transfer_in: Transfer { token: config.pt_token, holder: from, amount: pt_in },
                transfer_out: Transfer { token: config.sy_token, holder: from, amount: sy_out },
                event: Swap {
                    trader: from,
                    route: Route::PtForSy,
                    amount_in: pt_in,
                    amount_out: sy_out,
                },
            },
        )
    }

    /// What a purchase for at most `sy_in` comes to: `(pt_out, shares charged,
    /// the market after it, the protocol's fees after it)`.
    pub open spec fn sy_for_pt(
        self,
        now: u64,
        sy_rate: i128,
        sy_in: i128,
        min_pt_out: i128,
    ) -> Result<(i128, i128, State, ProtocolFees), Error> {
        match self.open_market(sy_in as int, now, sy_rate) {
            Err(e) => Err(e),
            Ok((config, state, comp)) => match best_purchase(config, state, comp, sy_in as int) {
                Err(e) => Err(e),
                Ok((pt_out, required_sy)) => if pt_out < min_pt_out {
                    Err(Error::SlippageExceeded)
                } else {
                    match after_purchase(
                        comp,
                        state,
                        sy_in as int,
                        pt_out as int,
                        required_sy as int,
                    ) {
                        Err(e) => Err(e),
                        Ok(bought) => match after_protocol_cut(
                            bought,
                            self.fees,
                            fee_in_charge(required_sy as int, config.fee_bps as int),
                        ) {
                            Err(e) => Err(e),
                            Ok((cut, fees)) => match settled(config, cut, 0, 0, now) {
                                Err(e) => Err(e),
                                Ok(next) => Ok((pt_out, required_sy, next, fees)),
                            },
                        },
                    }
                },
            },
        }
    }

    /// Buys the principal tokens that at most `sy_in` shares pay for, and
    /// charges what they cost, not what was offered. `from` has authorized the
    /// call.
    pub fn swap_sy_for_pt(
        &mut self,
        now: u64,
        sy_rate: i128,
        from: Address,
        sy_in: i128,
        min_pt_out: i128,
    ) -> (r: Result<SwapSettlement, Error>)
        requires
            old(self).wf(),
            old(self).warmup_fits(now),
        ensures
            final(self).wf(),
            match old(self).sy_for_pt(now, sy_rate, sy_in, min_pt_out) {
                Err(e) => r == Err::<SwapSettlement, Error>(e) && *final(self) == *old(self),
                Ok((pt_out, required_sy, next, fees)) => {
                    let config = old(self).config->0;
                    &&& r == Ok::<SwapSettlement, Error>(
                        SwapSettlement {
                            transfer_in: Transfer {
                                token: config.sy_token,
                                holder: from,
                                amount: required_sy,
                            },
                            transfer_out: Transfer {
                                token: config.pt_token,
                                holder: from,
                                amount: pt_out,
                            },
                            event: Swap {
                                trader: from,
                                route: Route::SyForPt,
                                amount_in: sy_in,
                                amount_out: pt_out,
                            },
                        },
                    )
                    &&& *final(self) == (AmmMarket { state: Some(next), fees, ..*old(self) })
                    &&& 0 < required_sy <= sy_in
                },
            },
            r matches Ok(swap) ==> {
                let pt_out = swap.transfer_out.amount;
                &&& buys(
                    *old(self),
                    now,
                    sy_rate as int,
                    pt_out as int,
                    swap.transfer_in.amount as int,
                )
                &&& forall|more: int|
                    #[trigger] buys(*old(self), now, sy_rate as int, pt_out + 1, more) ==> sy_in
                        < more
            },
    {
        let (config, state, comp): (Config, State, Precompute) = self.load_open_market(
            sy_in,
            now,
            sy_rate,
        )?;
        let (pt_out, required_sy): (i128, i128) = exact_sy_in_pt_out_with_cost(
            &config,
            &state,
            &comp,
            sy_in,
        )?;
        proof {
            lemma_feasible_purchase(config, state, comp, pt_out as int);
        }
        if pt_out < min_pt_out {
            return Err(Error::SlippageExceeded);
        }
        let bought: State = apply_exact_sy_in_trade_with_required_sy(
            &comp,
            &state,
            sy_in,
            pt_out,
            required_sy,
        )?;
        let (cut, fees): (State, ProtocolFees) = accrue_protocol_fee(
            &bought,
            &self.fees,
            fee_from_charge(required_sy, config.fee_bps),
        )?;
        let next: State = settle_and_record(&config, &cut, 0, 0, now)?;
        proof {
            lemma_purchase_is_the_most_for_its_price(*self, now, sy_rate, sy_in, min_pt_out);
        }
        self.state = Some(next);
        self.fees = fees;
        Ok(
            SwapSettlement {
                transfer_in: Transfer { token: config.sy_token, holder: from, amount: required_sy },
                transfer_out: Transfer { token: config.pt_token, holder: from, amount: pt_out },
                event: Swap {
                    trader: from,
                    route: Route::SyForPt,
                    amount_in: sy_in,
                    amount_out: pt_out,
                },
            },
        )
    }

    /// What a purchase of yield tokens for at most `sy_in` comes to.
    pub open spec fn sy_for_yt(
        self,
        now: u64,
        sy_rate: i128,
        from: Address,
        sy_in: i128,
        min_yt_out: i128,
    ) -> Result<YtPurchase, Error> {
        match self.open_market(sy_in as int, now, sy_rate) {
            Err(e) => Err(e),
            Ok((config, state, comp)) => match best_yt_purchase(
                config,
                state,
                comp,
                sy_in as int,
            ) {
                Err(e) => Err(e),
                Ok((yt_out, sy_paid)) => if yt_out < min_yt_out {
                    Err(Error::SlippageExceeded)
                } else {
                    match after_sale(comp, state, yt_out as int, sy_paid as int, 0) {
                        Err(e) => Err(e),
                        Ok(sold) => {
                            let shares = shares_for_face(yt_out as int, comp.rate as int);
                            Ok(
                                YtPurchase {
                                    trader: from,
                                    sy_in,
                                    yt_out,
                                    buyer_cost: (shares - sy_paid) as i128,
                                    shares_to_split: shares as i128,
                                    state: sold,
                                },
                            )
                        },
                    }
                },
            },
        }
    }

    /// Prices a purchase of yield tokens for at most `sy_in` shares. The caller
    /// takes `buyer_cost` from the buyer, splits `shares_to_split`, and hands
    /// what was minted to [`AmmMarket::settle_sy_for_yt`]. `from` has authorized
    /// the call.
    pub fn swap_sy_for_yt(
        &self,
        now: u64,
        sy_rate: i128,
        from: Address,
        sy_in: i128,
        min_yt_out: i128,
    ) -> (r: Result<YtPurchase, Error>)
        requires
            self.wf(),
        ensures
            r == self.sy_for_yt(now, sy_rate, from, sy_in, min_yt_out),
            r matches Ok(purchase) ==> {
                &&& self.config is Some
                &&& purchase.state.wf()
                &&& purchase.state.seeded()
                &&& purchase.state.total_lp == self.state->0.total_lp
                &&& purchase.state.last_observation == self.state->0.last_observation
                &&& now < self.config->0.maturity
                &&& 0 < purchase.yt_out
                &&& 0 < purchase.buyer_cost <= sy_in
                &&& purchase.buyer_cost <= purchase.shares_to_split
                &&& yt_steps(
                    *self,
                    now,
                    sy_rate as int,
                    purchase.yt_out as int,
                    purchase.buyer_cost as int,
                    purchase.shares_to_split - purchase.buyer_cost,
                )
                &&& !yt_within(*self, now, sy_rate as int, purchase.yt_out + 1, sy_in as int)
            },
    {
        let (config, state, comp): (Config, State, Precompute) = self.load_open_market(
            sy_in,
            now,
            sy_rate,
        )?;
        let (yt_out, sy_paid): (i128, i128) = solve_yt_out_for_sy_in_with_cost(
            &config,
            &state,
            &comp,
            sy_in,
        )?;
        proof {
            lemma_shares_for_face(yt_out, comp.rate);
            lemma_feasible_sale_applies(config, state, comp, yt_out as int, 0);
        }
        if yt_out < min_yt_out {
            return Err(Error::SlippageExceeded);
        }
        let sold: State = apply_exact_pt_in_trade_with_sy_out(&comp, &state, yt_out, sy_paid, 0)?;
        let shares_to_split: i128 = shares_in_for_face_up(yt_out, comp.rate)?;
        let buyer_cost: i128 = checked_sub(shares_to_split, sy_paid)?;
        proof {
            lemma_yt_purchase_is_the_most_for_its_price(
                *self,
                now,
                sy_rate,
                from,
                sy_in,
                min_yt_out,
            );
        }
        Ok(YtPurchase { trader: from, sy_in, yt_out, buyer_cost, shares_to_split, state: sold })
    }

    /// What booking a purchase comes to once the split has minted its tokens.
    pub open spec fn yt_purchase_settled(
        self,
        now: u64,
        purchase: YtPurchase,
        pt_minted: i128,
        yt_minted: i128,
    ) -> Result<State, Error> {
        if yt_minted < purchase.yt_out {
            Err(Error::InsufficientLiquidity)
        } else {
            match difference(pt_minted as int, purchase.yt_out as int) {
                Err(e) => Err(e),
                Ok(pt_dust) => settled(self.config->0, purchase.state, pt_dust as int, 0, now),
            }
        }
    }

    /// Books a purchase that [`AmmMarket::swap_sy_for_yt`] priced, with what the
    /// split minted. The buyer gets what was quoted; whatever was minted beyond
    /// it stays with the pool.
    pub fn settle_sy_for_yt(
        &mut self,
        now: u64,
        purchase: &YtPurchase,
        pt_minted: i128,
        yt_minted: i128,
    ) -> (r: Result<SwapSettlement, Error>)
        requires
            old(self).wf(),
            old(self).config is Some,
            purchase.state.wf(),
            purchase.state.seeded(),
            purchase.state.total_lp == old(self).state->0.total_lp,
            warmup_fits(old(self).config->0, purchase.state, now),
        ensures
            final(self).wf(),
            match old(self).yt_purchase_settled(now, *purchase, pt_minted, yt_minted) {
                Err(e) => r == Err::<SwapSettlement, Error>(e) && *final(self) == *old(self),
                Ok(next) => {
                    let config = old(self).config->0;
                    &&& r == Ok::<SwapSettlement, Error>(
                        SwapSettlement {
                            transfer_in: Transfer {
                                token: config.sy_token,
                                holder: purchase.trader,
                                amount: purchase.buyer_cost,
                            },
                            transfer_out: Transfer {
                                token: config.yt_token,
                                holder: purchase.trader,
                                amount: purchase.yt_out,
                            },
                            event: Swap {
                                trader: purchase.trader,
                                route: Route::SyForYt,
                                amount_in: purchase.sy_in,
                                amount_out: purchase.yt_out,
                            },
                        },
                    )
                    &&& *final(self) == (AmmMarket { state: Some(next), ..*old(self) })
                },
            },
    {
        let config: Config = self.config()?;
        if yt_minted < purchase.yt_out {
            return Err(Error::InsufficientLiquidity);
        }
        let pt_dust: i128 = checked_sub(pt_minted, purchase.yt_out)?;
        let next: State = settle_and_record(&config, &purchase.state, pt_dust, 0, now)?;
        self.state = Some(next);
        Ok(
            SwapSettlement {
                transfer_in: Transfer {
                    token: config.sy_token,
                    holder: purchase.trader,
                    amount: purchase.buyer_cost,
                },
                transfer_out: Transfer {
                    token: config.yt_token,
                    holder: purchase.trader,
                    amount: purchase.yt_out,
                },
                event: Swap {
                    trader: purchase.trader,
                    route: Route::SyForYt,
                    amount_in: purchase.sy_in,
                    amount_out: purchase.yt_out,
                },
            },
        )
    }

    /// What a sale of `yt_in` yield tokens comes to.
    pub open spec fn yt_for_sy(
        self,
        now: u64,
        sy_rate: i128,
        from: Address,
        yt_in: i128,
        min_sy_out: i128,
    ) -> Result<YtSale, Error> {
        match self.open_market(yt_in as int, now, sy_rate) {
            Err(e) => Err(e),
            Ok((config, state, comp)) => match yt_sale_terms(config, state, comp, yt_in as int) {
                Err(e) => Err(e),
                Ok((sy_value, sy_cost)) => if sy_value - sy_cost < min_sy_out {
                    Err(Error::SlippageExceeded)
                } else {
                    match after_purchase(
                        comp,
                        state,
                        sy_cost as int,
                        yt_in as int,
                        sy_cost as int,
                    ) {
                        Err(e) => Err(e),
                        Ok(bought) => Ok(
                            YtSale {
                                trader: from,
                                yt_in,
                                sy_out: (sy_value - sy_cost) as i128,
                                sy_value,
                                state: bought,
                            },
                        ),
                    }
                },
            },
        }
    }

    /// Prices a sale of `yt_in` yield tokens for at least `min_sy_out` shares.
    /// The caller takes the yield tokens, recombines them with as many of the
    /// pool's principal tokens, and hands the shares that this brought to
    /// [`AmmMarket::settle_yt_for_sy`]. `from` has authorized the call.
    pub fn swap_yt_for_sy(
        &self,
        now: u64,
        sy_rate: i128,
        from: Address,
        yt_in: i128,
        min_sy_out: i128,
    ) -> (r: Result<YtSale, Error>)
        requires
            self.wf(),
        ensures
            r == self.yt_for_sy(now, sy_rate, from, yt_in, min_sy_out),
            r matches Ok(sale) ==> {
                &&& self.config is Some
                &&& sale.state.wf()
                &&& sale.state.seeded()
                &&& sale.state.total_lp == self.state->0.total_lp
                &&& sale.state.last_observation == self.state->0.last_observation
                &&& now < self.config->0.maturity
                &&& 0 < sale.sy_out
                &&& rounded_down(sale.sy_value as int, yt_in * WAD, sy_rate as int)
                &&& buys(*self, now, sy_rate as int, yt_in as int, sale.sy_value - sale.sy_out)
            },
    {
        let (config, state, comp): (Config, State, Precompute) = self.load_open_market(
            yt_in,
            now,
            sy_rate,
        )?;
        let (sy_value, sy_cost): (i128, i128) = price_yt_sale(&config, &state, &comp, yt_in)?;
        let sy_out: i128 = sy_value - sy_cost;
        if sy_out < min_sy_out {
            return Err(Error::SlippageExceeded);
        }
        proof {
            lemma_feasible_purchase_applies(config, state, comp, sy_cost as int, yt_in as int);
        }
        let bought: State = apply_exact_sy_in_trade_with_required_sy(
            &comp,
            &state,
            sy_cost,
            yt_in,
            sy_cost,
        )?;
        proof {
            lemma_yt_sale_pays_its_price(*self, now, sy_rate, from, yt_in, min_sy_out);
        }
        Ok(YtSale { trader: from, yt_in, sy_out, sy_value, state: bought })
    }

    /// What booking a sale comes to once the recombination has paid out.
    pub open spec fn yt_sale_settled(self, now: u64, sale: YtSale, sy_from_recombine: i128) -> Result<
        State,
        Error,
    > {
        if sy_from_recombine < sale.sy_value {
            Err(Error::InsufficientLiquidity)
        } else {
            match difference(sy_from_recombine as int, sale.sy_value as int) {
                Err(e) => Err(e),
                Ok(sy_dust) => settled(self.config->0, sale.state, 0, sy_dust as int, now),
            }
        }
    }

    /// Books a sale that [`AmmMarket::swap_yt_for_sy`] priced, with the shares
    /// that the recombination brought. Where it brought less than the sale
    /// counted on, the sale fails rather than be paid from the reserves.
    pub fn settle_yt_for_sy(&mut self, now: u64, sale: &YtSale, sy_from_recombine: i128) -> (r:
        Result<SwapSettlement, Error>)
        requires
            old(self).wf(),
            old(self).config is Some,
            sale.state.wf(),
            sale.state.seeded(),
            sale.state.total_lp == old(self).state->0.total_lp,
            warmup_fits(old(self).config->0, sale.state, now),
        ensures
            final(self).wf(),
            match old(self).yt_sale_settled(now, *sale, sy_from_recombine) {
                Err(e) => r == Err::<SwapSettlement, Error>(e) && *final(self) == *old(self),
                Ok(next) => {
                    let config = old(self).config->0;
                    &&& r == Ok::<SwapSettlement, Error>(
                        SwapSettlement {
                            transfer_in: Transfer {
                                token: config.yt_token,
                                holder: sale.trader,
                                amount: sale.yt_in,
                            },
                            transfer_out: Transfer {
                                token: config.sy_token,
                                holder: sale.trader,
                                amount: sale.sy_out,
                            },
                            event: Swap {
                                trader: sale.trader,
                                route: Route::YtForSy,
                                amount_in: sale.yt_in,
                                amount_out: sale.sy_out,
                            },
                        },
                    )
                    &&& *final(self) == (AmmMarket { state: Some(next), ..*old(self) })
                },
            },
    {
        let config: Config = self.config()?;
        if sy_from_recombine < sale.sy_value {
            return Err(Error::InsufficientLiquidity);
        }
        let sy_dust: i128 = checked_sub(sy_from_recombine, sale.sy_value)?;
        let next: State = settle_and_record(&config, &sale.state, 0, sy_dust, now)?;
        self.state = Some(next);
        Ok(
            SwapSettlement {
                transfer_in: Transfer {
                    token: config.yt_token,
                    holder: sale.trader,
                    amount: sale.yt_in,
                },
                transfer_out: Transfer {
                    token: config.sy_token,
                    holder: sale.trader,
                    amount: sale.sy_out,
                },
                event: Swap {
                    trader: sale.trader,
                    route: Route::YtForSy,
                    amount_in: sale.yt_in,
                    amount_out: sale.sy_out,
                },
            },
        )
    }
}

/// A market with reserves and liquidity shares.
pub fn require_seeded_result(state: &State) -> (r: Result<(), Error>)
    ensures
        r == (if state.seeded() {
            Ok::<(), Error>(())
        } else {
            Err(Error::MarketNotSeeded)
        }),
{
    if state.total_lp <= 0 || state.total_pt <= 0 || state.total_sy <= 0 {
        return Err(Error::MarketNotSeeded);
    }
    Ok(())
}

/// `(shares that recombining brings, shares that the principal tokens cost)`
/// for a sale of `yt_in` yield tokens.
fn price_yt_sale(config: &Config, state: &State, comp: &Precompute, yt_in: i128) -> (r: Result<
    (i128, i128),
    Error,
>)
    requires
        config.wf(),
        state.wf(),
        comp.wf(),
        0 < yt_in <= MAX_RESERVE_UNITS,
    ensures
        r == yt_sale_terms(*config, *state, *comp, yt_in as int),
        r matches Ok(terms) ==> {
            &&& 0 < terms.1 < terms.0
            &&& feasible_purchase(*config, *state, *comp, yt_in as int) == Some(terms.1)
            &&& yt_in < state.total_pt
        },
{
    let sy_cost: i128 = exact_pt_out_sy_in(config, state, comp, yt_in)?;
    proof {
        lemma_feasible_purchase(*config, *state, *comp, yt_in as int);
        super::checked::lemma_quotient_nonneg(yt_in as int, WAD as int, comp.rate as int);
    }
    let sy_value: i128 = shares_out_for_face_down(yt_in, comp.rate)?;
    if sy_value <= sy_cost {
        return Err(Error::InsufficientLiquidity);
    }
    Ok((sy_value, sy_cost))
}

} // verus!
