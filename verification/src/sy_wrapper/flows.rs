//! Moving the underlying in and out. A flow states what is to be asked of the
//! pool and which tokens have to move, and books the outcome once the caller
//! reports it.
use super::blend::{
    blend_assets_under_management, derived_exchange_rate, derived_rate, position_value, Backing,
    PoolReading, Request, REQUEST_SUPPLY, REQUEST_WITHDRAW,
};
use super::share_math::{
    add_checked, difference, mul_div, mul_div_ceil, mul_div_ceil_value, mul_div_value, sub_checked,
};
use super::types::{Config, Deposit, EmergencyWithdrawal, Error, Redeem};
use super::value_laws::{
    backed_with, lemma_deposit_is_priced_before_it, lemma_deposit_mints_its_worth,
    lemma_idle_redemption_pays_its_part, lemma_mul_div_rounds, lemma_rate_is_backing_by_supply,
    lemma_redemption_burns_its_worth, lemma_wind_down_asks_for_all, position_worth, share_worth,
};
use super::vault::{lemma_part_within, pro_rata, SyWrapper};
use crate::address::{Address, Transfer};
use crate::arith::{fits, WAD};
use crate::governance::Governance;
use crate::rounding::{rounded_down, rounded_up};
use vstd::prelude::*;

verus! {

/// A deposit, ready for the supply to the pool.
#[derive(Copy, Clone, Debug, PartialEq, Eq, Structural)]
pub struct DepositPlan {
    /// What the holder pays in.
    pub transfer_in: Transfer,
    pub request: Request,
    /// What the position was worth before.
    pub aum_before: i128,
    /// The exchange rate before, at which the shares are minted.
    pub exchange_rate: i128,
}

/// A redemption, ready for the withdrawal from the pool.
#[derive(Copy, Clone, Debug, PartialEq, Eq, Structural)]
pub struct RedeemPlan {
    pub holder: Address,
    pub sy_amount: i128,
    pub request: Request,
    /// The exchange rate before, at which a partial withdrawal burns shares.
    pub exchange_rate: i128,
}

/// A redemption that is booked: what the holder gets, and what is to be
/// published.
#[derive(Copy, Clone, Debug, PartialEq, Eq, Structural)]
pub struct Redemption {
    /// Nothing moves where nothing is due.
    pub transfer_out: Option<Transfer>,
    pub event: Redeem,
}

/// How a redemption goes on.
#[derive(Copy, Clone, Debug, PartialEq, Eq, Structural)]
pub enum RedeemStep {
    /// It is booked, out of idle custody.
    Paid(Redemption),
    /// The pool has to pay out first.
    Withdraw(RedeemPlan),
}

/// A wind-down, ready for the withdrawal from the pool.
#[derive(Copy, Clone, Debug, PartialEq, Eq, Structural)]
pub struct WindDownPlan {
    pub aum: i128,
    /// Nothing is asked of the pool where the position is worth nothing.
    pub request: Option<Request>,
}

/// The pool's answer to a withdrawal: whether it went through, and the vault's
/// balance of the underlying around it.
#[derive(Copy, Clone, Debug, PartialEq, Eq, Structural)]
pub struct WithdrawalOutcome {
    pub submitted: bool,
    pub before: i128,
    pub after: i128,
}

/// A payment of `amount`, where there is anything to pay.
pub open spec fn payment(token: Address, holder: Address, amount: i128) -> Option<Transfer> {
    if amount <= 0 {
        None
    } else {
        Some(Transfer { token, holder, amount })
    }
}

fn pay(token: Address, holder: Address, amount: i128) -> (r: Option<Transfer>)
    ensures
        r == payment(token, holder, amount),
{
    if amount <= 0 {
        None
    } else {
        Some(Transfer { token, holder, amount })
    }
}

/// A position worth `aum` can take `amount` more under the reserve's cap.
pub open spec fn cap_rejection(supply_cap: i128, aum: i128, amount: i128) -> Option<Error> {
    if supply_cap <= 0 {
        None
    } else if !fits(aum + amount) {
        Some(Error::MathOverflow)
    } else if aum + amount > supply_cap {
        Some(Error::SupplyCapExceeded)
    } else {
        None
    }
}

/// Shares that a withdrawal of `received` burns, of the `sy_amount` to be
/// redeemed: all of them where it covers `requested`, and otherwise those that
/// the payout is worth, rounded up.
pub open spec fn shares_burned(
    sy_amount: i128,
    requested: i128,
    received: i128,
    exchange_rate: i128,
    holder_shares: i128,
) -> Result<i128, Error> {
    if received >= requested {
        Ok(sy_amount)
    } else {
        match mul_div_ceil_value(received as int, WAD as int, exchange_rate as int) {
            Err(e) => Err(e),
            Ok(shares) => Ok(
                if shares > holder_shares {
                    holder_shares
                } else {
                    shares
                },
            ),
        }
    }
}

/// A partial withdrawal burns no more shares than were to be redeemed, and at
/// least one.
pub proof fn lemma_shares_burned(
    sy_amount: i128,
    requested: i128,
    received: i128,
    exchange_rate: i128,
    holder_shares: i128,
)
    requires
        0 < sy_amount <= holder_shares,
        0 < received,
        mul_div_value(sy_amount as int, exchange_rate as int, WAD as int) == Ok::<i128, Error>(
            requested,
        ),
        shares_burned(sy_amount, requested, received, exchange_rate, holder_shares) is Ok,
    ensures
        0 < shares_burned(sy_amount, requested, received, exchange_rate, holder_shares)->Ok_0
            <= sy_amount,
        received < requested ==> exchange_rate > 0 && shares_burned(
            sy_amount,
            requested,
            received,
            exchange_rate,
            holder_shares,
        )->Ok_0 * exchange_rate >= received * WAD,
{
    if received < requested {
        let s = sy_amount as int;
        let r = exchange_rate as int;
        let got = received as int;
        assert(r > 0) by {
            if r <= 0 {
                assert(s * r <= 0) by (nonlinear_arith)
                    requires
                        s > 0,
                        r <= 0,
                ;
            }
        }
        assert(s * r > 0) by (nonlinear_arith)
            requires
                s > 0,
                r > 0,
        ;
        let n = got * WAD;
        let q = n / r;
        assert(got * WAD < s * r);
        let up = shares_burned(
            sy_amount,
            requested,
            received,
            exchange_rate,
            holder_shares,
        )->Ok_0 as int;
        assert(q >= 0 && q * r <= n && n < (q + 1) * r) by (nonlinear_arith)
            requires
                q == n / r,
                n >= 0,
                r > 0,
        ;
        assert(q < s) by (nonlinear_arith)
            requires
                q * r <= n,
                n < s * r,
                r > 0,
        ;
        if q * r == n {
            assert(q > 0) by (nonlinear_arith)
                requires
                    q * r == n,
                    n > 0,
                    q >= 0,
                    r > 0,
            ;
            assert(up == q);
        } else {
            assert(up == q + 1);
        }
    }
}

/// Vaults that differ at most in one holder's books and in the supply.
pub open spec fn same_rules(a: SyWrapper, b: SyWrapper) -> bool {
    &&& a.config == b.config
    &&& a.allowances == b.allowances
    &&& a.governance == b.governance
    &&& a.emergency == b.emergency
}

impl SyWrapper {
    /// Why no deposit of `amount` is taken, whatever the pool says.
    pub open spec fn deposit_rejection(self, amount: i128) -> Option<Error> {
        if self.config is None {
            Some(Error::NotInitialized)
        } else if self.governance.paused {
            Some(Error::Paused)
        } else if self.emergency {
            Some(Error::EmergencyModeActive)
        } else if amount <= 0 {
            Some(Error::InvalidAmount)
        } else {
            None
        }
    }

    /// Whether a deposit of `amount` may be taken. What this refuses is refused
    /// before the pool is read.
    pub fn check_deposit(&self, amount: i128) -> (r: Result<(), Error>)
        ensures
            match self.deposit_rejection(amount) {
                Some(e) => r == Err::<(), Error>(e),
                None => r == Ok::<(), Error>(()),
            },
    {
        if self.config.is_none() {
            return Err(Error::NotInitialized);
        }
        if self.governance.paused {
            return Err(Error::Paused);
        }
        if self.emergency {
            return Err(Error::EmergencyModeActive);
        }
        SyWrapper::require_positive_amount(amount)
    }

    /// What a deposit comes to, given the pool before it.
    pub open spec fn deposit_plan(self, from: Address, amount: i128, reading: PoolReading) -> Result<
        DepositPlan,
        Error,
    > {
        match self.deposit_rejection(amount) {
            Some(e) => Err(e),
            None => {
                let config = self.config->0;
                match position_value(config, reading) {
                    Err(e) => Err(e),
                    Ok(aum) => match cap_rejection(reading.reserve.supply_cap, aum, amount) {
                        Some(e) => Err(e),
                        None => match derived_rate(aum as int, self.total_supply as int) {
                            None => Err(Error::MathOverflow),
                            Some(rate) => Ok(
                                DepositPlan {
                                    transfer_in: Transfer {
                                        token: config.underlying,
                                        holder: from,
                                        amount,
                                    },
                                    request: Request {
                                        address: config.underlying,
                                        amount,
                                        request_type: REQUEST_SUPPLY,
                                    },
                                    aum_before: aum,
                                    exchange_rate: rate,
                                },
                            ),
                        },
                    },
                }
            },
        }
    }

    /// Prices a deposit at the rate before it. The caller takes the underlying
    /// from the holder, supplies it to the pool, and hands a new reading to
    /// [`SyWrapper::settle_deposit`]. `from` has authorized the call.
    pub fn deposit(&self, from: Address, amount: i128, reading: &PoolReading) -> (r: Result<
        DepositPlan,
        Error,
    >)
        ensures
            r == self.deposit_plan(from, amount, *reading),
            r is Ok ==> self.config is Some && amount > 0,
            r matches Ok(plan) ==> {
                &&& plan.transfer_in.amount == amount && plan.request.amount == amount
                &&& position_worth(self.config->0, *reading, plan.aum_before as int)
                &&& share_worth(
                    plan.exchange_rate as int,
                    plan.aum_before as int,
                    self.total_supply as int,
                )
            },
    {
        self.check_deposit(amount)?;
        let config: Config = self.config()?;
        let aum_before: i128 = blend_assets_under_management(&config, reading)?;
        if reading.reserve.supply_cap > 0 {
            let projected: i128 = add_checked(aum_before, amount)?;
            if projected > reading.reserve.supply_cap {
                return Err(Error::SupplyCapExceeded);
            }
        }
        proof {
            if self.deposit_plan(from, amount, *reading) is Ok {
                lemma_deposit_is_priced_before_it(*self, from, amount, *reading);
            }
        }
        match derived_exchange_rate(aum_before, self.total_supply) {
            None => Err(Error::MathOverflow),
            Some(exchange_rate) => Ok(
                DepositPlan {
                    transfer_in: Transfer { token: config.underlying, holder: from, amount },
                    request: Request {
                        address: config.underlying,
                        amount,
                        request_type: REQUEST_SUPPLY,
                    },
                    aum_before,
                    exchange_rate,
                },
            ),
        }
    }

    /// Shares that a deposit mints: those that the position's measured increase
    /// is worth at the rate before it.
    pub open spec fn shares_minted(self, plan: DepositPlan, reading: PoolReading) -> Result<
        i128,
        Error,
    > {
        match position_value(self.config->0, reading) {
            Err(e) => Err(e),
            Ok(aum) => match difference(aum as int, plan.aum_before as int) {
                Err(e) => Err(e),
                Ok(credited) => match mul_div_value(
                    credited as int,
                    WAD as int,
                    plan.exchange_rate as int,
                ) {
                    Err(e) => Err(e),
                    Ok(shares) => if shares <= 0 {
                        Err(Error::InvalidAmount)
                    } else {
                        Ok(shares)
                    },
                },
            },
        }
    }

    /// Why a deposit cannot be booked.
    pub open spec fn settle_deposit_rejection(self, plan: DepositPlan, reading: PoolReading) -> Option<
        Error,
    > {
        let from = plan.transfer_in.holder;
        match self.shares_minted(plan, reading) {
            Err(e) => Some(e),
            Ok(shares) => if !fits(self.balances.amount(from) + shares) || !fits(
                self.principals.amount(from) + plan.transfer_in.amount,
            ) || !fits(self.total_supply + shares) {
                Some(Error::MathOverflow)
            } else {
                None
            },
        }
    }

    /// Books a deposit that [`SyWrapper::deposit`] priced, with a reading of the
    /// pool after the supply.
    pub fn settle_deposit(&mut self, plan: &DepositPlan, reading: &PoolReading) -> (r: Result<
        Deposit,
        Error,
    >)
        requires
            old(self).wf(),
            old(self).config is Some,
            plan.transfer_in.amount > 0,
        ensures
            final(self).wf(),
            match old(self).settle_deposit_rejection(*plan, *reading) {
                Some(e) => r == Err::<Deposit, Error>(e) && *final(self) == *old(self),
                None => {
                    let from = plan.transfer_in.holder;
                    let amount = plan.transfer_in.amount;
                    let shares = old(self).shares_minted(*plan, *reading)->Ok_0;
                    &&& r == Ok::<Deposit, Error>(
                        Deposit {
                            holder: from,
                            underlying_amount: amount,
                            shares_minted: shares,
                        },
                    )
                    &&& final(self).balances@ == old(self).balances@.insert(
                        from,
                        (old(self).balances.amount(from) + shares) as i128,
                    )
                    &&& final(self).principals@ == old(self).principals@.insert(
                        from,
                        (old(self).principals.amount(from) + amount) as i128,
                    )
                    &&& final(self).total_supply == old(self).total_supply + shares
                    &&& final(self).unheld() == old(self).unheld()
                    &&& same_rules(*final(self), *old(self))
                },
            },
            r matches Ok(deposit) ==> 0 < plan.exchange_rate ==> exists|value: int|
                {
                    &&& #[trigger] position_worth(old(self).config->0, *reading, value)
                    &&& rounded_down(
                        deposit.shares_minted as int,
                        (value - plan.aum_before) * WAD,
                        plan.exchange_rate as int,
                    )
                },
    {
        let config: Config = self.config()?;
        let from: Address = plan.transfer_in.holder;
        let amount: i128 = plan.transfer_in.amount;
        let aum: i128 = blend_assets_under_management(&config, reading)?;
        let assets_credited: i128 = sub_checked(aum, plan.aum_before)?;
        let shares: i128 = mul_div(assets_credited, WAD, plan.exchange_rate)?;
        if shares <= 0 {
            return Err(Error::InvalidAmount);
        }
        proof {
            self.balances.lemma_amount_within_total(from);
            self.principals.lemma_amount_within_total(from);
            if 0 < plan.exchange_rate {
                let value = lemma_deposit_mints_its_worth(*self, *plan, *reading);
                assert(position_worth(config, *reading, value));
            }
        }
        let new_balance: i128 = add_checked(self.balances.get(from), shares)?;
        let new_principal: i128 = add_checked(self.principals.get(from), amount)?;
        let new_supply: i128 = add_checked(self.total_supply, shares)?;
        self.balances.set(from, new_balance);
        self.principals.set(from, new_principal);
        self.total_supply = new_supply;
        Ok(Deposit { holder: from, underlying_amount: amount, shares_minted: shares })
    }

    /// Why no redemption of `sy_amount` can be made, given what backs the
    /// shares.
    pub open spec fn redeem_rejection(self, from: Address, sy_amount: i128, backing: Backing) -> Option<
        Error,
    > {
        if self.config is None {
            Some(Error::NotInitialized)
        } else if sy_amount <= 0 {
            Some(Error::InvalidAmount)
        } else {
            match self.rate(backing) {
                Err(e) => Some(e),
                Ok(_) => if sy_amount > self.balances.amount(from) {
                    Some(Error::InsufficientBalance)
                } else {
                    None
                },
            }
        }
    }

    /// Whether a redemption of `sy_amount` may be made. What this refuses is
    /// refused before the backing is read.
    pub fn check_redeem(&self, sy_amount: i128) -> (r: Result<(), Error>)
        ensures
            r == (if self.config is None {
                Err::<(), Error>(Error::NotInitialized)
            } else if sy_amount <= 0 {
                Err(Error::InvalidAmount)
            } else {
                Ok(())
            }),
    {
        if self.config.is_none() {
            return Err(Error::NotInitialized);
        }
        SyWrapper::require_positive_amount(sy_amount)
    }

    /// What a redemption out of idle custody comes to: `(underlying paid,
    /// principal that leaves the books)`.
    pub open spec fn idle_redemption(self, from: Address, sy_amount: i128, idle: i128) -> Result<
        (i128, i128),
        Error,
    > {
        match pro_rata(idle, sy_amount, self.total_supply) {
            Err(e) => Err(e),
            Ok(underlying_out) => match pro_rata(
                self.principals.amount(from),
                sy_amount,
                self.balances.amount(from),
            ) {
                Err(e) => Err(e),
                Ok(principal_out) => Ok((underlying_out, principal_out)),
            },
        }
    }

    /// The vault once `burned` of `from`'s shares are gone, and their part of
    /// the principal with them.
    pub open spec fn shares_gone(
        self,
        next: SyWrapper,
        from: Address,
        burned: i128,
        principal_out: i128,
    ) -> bool {
        &&& next.balances@ == self.balances@.insert(
            from,
            (self.balances.amount(from) - burned) as i128,
        )
        &&& next.principals@ == self.principals@.insert(
            from,
            (self.principals.amount(from) - principal_out) as i128,
        )
        &&& next.total_supply == self.total_supply - burned
        &&& next.unheld() == self.unheld()
        &&& same_rules(next, self)
    }

    /// Takes `burned` of `from`'s shares off the books.
    fn burn_shares(&mut self, from: Address, burned: i128) -> (r: Result<(), Error>)
        requires
            old(self).wf(),
            old(self).config is Some,
            0 < burned <= old(self).balances.amount(from),
        ensures
            final(self).wf(),
            match pro_rata(
                old(self).principals.amount(from),
                burned,
                old(self).balances.amount(from),
            ) {
                Err(e) => r == Err::<(), Error>(e) && *final(self) == *old(self),
                Ok(principal_out) => r is Ok && old(self).shares_gone(
                    *final(self),
                    from,
                    burned,
                    principal_out,
                ),
            },
    {
        let current_shares: i128 = self.balances.get(from);
        let current_principal: i128 = self.principals.get(from);
        proof {
            self.balances.lemma_amount_within_total(from);
            self.principals.lemma_amount_within_total(from);
            lemma_part_within(current_principal as int, burned as int, current_shares as int);
        }
        let principal_out: i128 = mul_div(current_principal, burned, current_shares)?;
        self.balances.set(from, current_shares - burned);
        self.principals.set(from, current_principal - principal_out);
        self.total_supply = self.total_supply - burned;
        Ok(())
    }

    /// Redeems shares. After a wind-down it pays the holder's part of the idle
    /// custody at once. Before one it names the withdrawal that the caller is to
    /// ask of the pool; the outcome goes to [`SyWrapper::settle_redeem`], and
    /// nothing is booked before. Neither a pause nor a wind-down stands in the
    /// way. `from` has authorized the call.
    pub fn redeem(&mut self, from: Address, sy_amount: i128, backing: &Backing) -> (r: Result<
        RedeemStep,
        Error,
    >)
        requires
            old(self).wf(),
            old(self).backed_by(*backing),
        ensures
            final(self).wf(),
            match old(self).redeem_rejection(from, sy_amount, *backing) {
                Some(e) => r == Err::<RedeemStep, Error>(e) && *final(self) == *old(self),
                None => match *backing {
                    Backing::Idle(idle) => match old(self).idle_redemption(from, sy_amount, idle) {
                        Err(e) => r == Err::<RedeemStep, Error>(e) && *final(self) == *old(self),
                        Ok((underlying_out, principal_out)) => {
                            &&& r == Ok::<RedeemStep, Error>(
                                RedeemStep::Paid(
                                    Redemption {
                                        transfer_out: payment(
                                            old(self).config->0.underlying,
                                            from,
                                            underlying_out,
                                        ),
                                        event: Redeem {
                                            holder: from,
                                            shares_burned: sy_amount,
                                            underlying_amount: underlying_out,
                                        },
                                    },
                                ),
                            )
                            &&& old(self).shares_gone(
                                *final(self),
                                from,
                                sy_amount,
                                principal_out,
                            )
                        },
                    },
                    Backing::Position(_) => {
                        let rate = old(self).rate(*backing)->Ok_0;
                        &&& *final(self) == *old(self)
                        &&& match mul_div_value(sy_amount as int, rate as int, WAD as int) {
                            Err(e) => r == Err::<RedeemStep, Error>(e),
                            Ok(requested) => r == Ok::<RedeemStep, Error>(
                                RedeemStep::Withdraw(
                                    RedeemPlan {
                                        holder: from,
                                        sy_amount,
                                        request: Request {
                                            address: old(self).config->0.underlying,
                                            amount: requested,
                                            request_type: REQUEST_WITHDRAW,
                                        },
                                        exchange_rate: rate,
                                    },
                                ),
                            ),
                        }
                    },
                },
            },
            r matches Ok(RedeemStep::Paid(redemption)) ==> match *backing {
                Backing::Idle(idle) => 0 <= idle ==> rounded_down(
                    redemption.event.underlying_amount as int,
                    idle * sy_amount,
                    old(self).total_supply as int,
                ),
                Backing::Position(_) => false,
            },
            r matches Ok(RedeemStep::Withdraw(plan)) ==> {
                &&& plan.sy_amount == sy_amount
                &&& exists|value: int|
                    {
                        &&& #[trigger] backed_with(old(self).config->0, *backing, value)
                        &&& share_worth(
                            plan.exchange_rate as int,
                            value,
                            old(self).total_supply as int,
                        )
                    }
                &&& 0 <= plan.exchange_rate ==> rounded_down(
                    plan.request.amount as int,
                    sy_amount * plan.exchange_rate,
                    WAD as int,
                )
            },
    {
        proof {
            if self.redeem_rejection(from, sy_amount, *backing) is None {
                let value = lemma_rate_is_backing_by_supply(*self, *backing);
                assert(backed_with(self.config->0, *backing, value));
                if let Backing::Idle(idle) = *backing {
                    if 0 <= idle && self.idle_redemption(from, sy_amount, idle) is Ok {
                        lemma_idle_redemption_pays_its_part(*self, from, sy_amount, idle);
                    }
                }
                let rate = self.rate(*backing)->Ok_0 as int;
                lemma_mul_div_rounds(sy_amount as int, rate, WAD as int);
                assert(rate >= 0 ==> sy_amount * rate >= 0) by (nonlinear_arith)
                    requires
                        sy_amount > 0,
                ;
            }
        }
        self.check_redeem(sy_amount)?;
        let config: Config = self.config()?;
        let exchange_rate: i128 = self.exchange_rate(backing)?;
        let current_shares: i128 = self.balances.get(from);
        if sy_amount > current_shares {
            return Err(Error::InsufficientBalance);
        }
        match backing {
            Backing::Idle(idle) => {
                proof {
                    self.balances.lemma_amount_within_total(from);
                }
                let underlying_out: i128 = mul_div(*idle, sy_amount, self.total_supply)?;
                self.burn_shares(from, sy_amount)?;
                Ok(
                    RedeemStep::Paid(
                        Redemption {
                            transfer_out: pay(config.underlying, from, underlying_out),
                            event: Redeem {
                                holder: from,
                                shares_burned: sy_amount,
                                underlying_amount: underlying_out,
                            },
                        },
                    ),
                )
            },
            Backing::Position(_) => {
                let requested: i128 = mul_div(sy_amount, exchange_rate, WAD)?;
                Ok(
                    RedeemStep::Withdraw(
                        RedeemPlan {
                            holder: from,
                            sy_amount,
                            request: Request {
                                address: config.underlying,
                                amount: requested,
                                request_type: REQUEST_WITHDRAW,
                            },
                            exchange_rate,
                        },
                    ),
                )
            },
        }
    }

    /// A plan that [`SyWrapper::redeem`] made and that is still good: the
    /// holder has the shares, and the request is for what they are worth.
    pub open spec fn redeem_plan_holds(self, plan: RedeemPlan) -> bool {
        &&& self.config is Some
        &&& 0 < plan.sy_amount <= self.balances.amount(plan.holder)
        &&& mul_div_value(plan.sy_amount as int, plan.exchange_rate as int, WAD as int) == Ok::<
            i128,
            Error,
        >(plan.request.amount)
    }

    /// What a redemption comes to once the pool has answered: `(shares burned,
    /// principal that leaves the books, underlying paid)`.
    pub open spec fn redemption(self, plan: RedeemPlan, outcome: WithdrawalOutcome) -> Result<
        (i128, i128, i128),
        Error,
    > {
        let shares = self.balances.amount(plan.holder);
        if !outcome.submitted {
            Err(Error::BlendWithdrawalFailed)
        } else {
            match difference(outcome.after as int, outcome.before as int) {
                Err(e) => Err(e),
                Ok(received) => if received <= 0 {
                    Err(Error::BlendWithdrawalFailed)
                } else {
                    match shares_burned(
                        plan.sy_amount,
                        plan.request.amount,
                        received,
                        plan.exchange_rate,
                        shares,
                    ) {
                        Err(e) => Err(e),
                        Ok(burned) => match pro_rata(
                            self.principals.amount(plan.holder),
                            burned,
                            shares,
                        ) {
                            Err(e) => Err(e),
                            Ok(principal_out) => Ok((burned, principal_out, received)),
                        },
                    }
                },
            }
        }
    }

    /// Books a redemption with the pool's answer. A withdrawal that failed burns
    /// nothing.
    pub fn settle_redeem(&mut self, plan: &RedeemPlan, outcome: &WithdrawalOutcome) -> (r: Result<
        Redemption,
        Error,
    >)
        requires
            old(self).wf(),
            old(self).redeem_plan_holds(*plan),
        ensures
            final(self).wf(),
            match old(self).redemption(*plan, *outcome) {
                Err(e) => r == Err::<Redemption, Error>(e) && *final(self) == *old(self),
                Ok((burned, principal_out, received)) => {
                    &&& r == Ok::<Redemption, Error>(
                        Redemption {
                            transfer_out: payment(
                                old(self).config->0.underlying,
                                plan.holder,
                                received,
                            ),
                            event: Redeem {
                                holder: plan.holder,
                                shares_burned: burned,
                                underlying_amount: received,
                            },
                        },
                    )
                    &&& old(self).shares_gone(*final(self), plan.holder, burned, principal_out)
                    &&& 0 < burned <= plan.sy_amount
                },
            },
            r matches Ok(redemption) ==> {
                let burned = redemption.event.shares_burned;
                let received = redemption.event.underlying_amount;
                &&& received == outcome.after - outcome.before
                &&& 0 < received
                &&& plan.request.amount <= received ==> burned == plan.sy_amount
                &&& received < plan.request.amount ==> rounded_up(
                    burned as int,
                    received * WAD,
                    plan.exchange_rate as int,
                )
            },
    {
        proof {
            if self.redemption(*plan, *outcome) is Ok {
                lemma_redemption_burns_its_worth(*self, *plan, *outcome);
            }
        }
        let config: Config = self.config()?;
        if !outcome.submitted {
            return Err(Error::BlendWithdrawalFailed);
        }
        let received: i128 = sub_checked(outcome.after, outcome.before)?;
        if received <= 0 {
            return Err(Error::BlendWithdrawalFailed);
        }
        let current_shares: i128 = self.balances.get(plan.holder);
        let shares_to_burn: i128 = if received >= plan.request.amount {
            plan.sy_amount
        } else {
            let ceil_shares: i128 = mul_div_ceil(received, WAD, plan.exchange_rate)?;
            if ceil_shares > current_shares {
                current_shares
            } else {
                ceil_shares
            }
        };
        proof {
            lemma_shares_burned(
                plan.sy_amount,
                plan.request.amount,
                received,
                plan.exchange_rate,
                current_shares,
            );
        }
        self.burn_shares(plan.holder, shares_to_burn)?;
        Ok(
            Redemption {
                transfer_out: pay(config.underlying, plan.holder, received),
                event: Redeem {
                    holder: plan.holder,
                    shares_burned: shares_to_burn,
                    underlying_amount: received,
                },
            },
        )
    }

    /// Why `caller` may not wind the vault down.
    pub open spec fn wind_down_rejection(self, caller: Address) -> Option<Error> {
        match self.governor_rejection(caller) {
            Some(e) => Some(e),
            None => if self.emergency {
                Some(Error::AlreadyInEmergencyMode)
            } else {
                None
            },
        }
    }

    /// Whether `caller` may wind the vault down. What this refuses is refused
    /// before the pool is read.
    pub fn check_wind_down(&self, caller: Address) -> (r: Result<(), Error>)
        ensures
            match self.wind_down_rejection(caller) {
                Some(e) => r == Err::<(), Error>(e),
                None => r == Ok::<(), Error>(()),
            },
    {
        self.require_governor(caller)?;
        if self.emergency {
            return Err(Error::AlreadyInEmergencyMode);
        }
        Ok(())
    }

    /// What winding down comes to, given the pool before it.
    pub open spec fn wind_down_plan(self, caller: Address, reading: PoolReading) -> Result<
        WindDownPlan,
        Error,
    > {
        match self.wind_down_rejection(caller) {
            Some(e) => Err(e),
            None => match position_value(self.config->0, reading) {
                Err(e) => Err(e),
                Ok(aum) => Ok(
                    WindDownPlan {
                        aum,
                        request: if aum > 0 {
                            Some(
                                Request {
                                    address: self.config->0.underlying,
                                    amount: aum,
                                    request_type: REQUEST_WITHDRAW,
                                },
                            )
                        } else {
                            None
                        },
                    },
                ),
            },
        }
    }

    /// Values the position and names the withdrawal of all of it. The outcome
    /// goes to [`SyWrapper::settle_emergency_withdraw_all`].
    pub fn emergency_withdraw_all(&self, caller: Address, reading: &PoolReading) -> (r: Result<
        WindDownPlan,
        Error,
    >)
        ensures
            r == self.wind_down_plan(caller, *reading),
            r is Ok ==> self.config is Some,
            r matches Ok(plan) ==> position_worth(self.config->0, *reading, plan.aum as int),
    {
        proof {
            if self.wind_down_plan(caller, *reading) is Ok {
                lemma_wind_down_asks_for_all(*self, caller, *reading);
            }
        }
        self.check_wind_down(caller)?;
        let config: Config = self.config()?;
        let aum: i128 = blend_assets_under_management(&config, reading)?;
        let request: Option<Request> = if aum > 0 {
            Some(
                Request { address: config.underlying, amount: aum, request_type: REQUEST_WITHDRAW },
            )
        } else {
            None
        };
        Ok(WindDownPlan { aum, request })
    }

    /// Closes the vault for good, with the vault's balance of the underlying
    /// around the withdrawal. From here on idle custody backs the shares.
    pub fn settle_emergency_withdraw_all(
        &mut self,
        plan: &WindDownPlan,
        before: i128,
        after: i128,
    ) -> (r: Result<EmergencyWithdrawal, Error>)
        requires
            old(self).wf(),
        ensures
            final(self).wf(),
            match difference(after as int, before as int) {
                Err(e) => r == Err::<EmergencyWithdrawal, Error>(e) && *final(self) == *old(self),
                Ok(recovered) => r == Ok::<EmergencyWithdrawal, Error>(
                    EmergencyWithdrawal { requested: plan.aum, recovered },
                ) && *final(self) == (SyWrapper {
                    emergency: true,
                    governance: Governance { paused: true, ..old(self).governance },
                    ..*old(self)
                }),
            },
    {
        let recovered: i128 = sub_checked(after, before)?;
        self.emergency = true;
        self.governance.paused = true;
        Ok(EmergencyWithdrawal { requested: plan.aum, recovered })
    }
}

} // verus!
