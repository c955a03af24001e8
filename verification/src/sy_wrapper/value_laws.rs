//! What shares are worth and what moves for them, said of the amounts alone.
use super::blend::{position_value, tokens_read, Backing, PoolReading};
use super::flows::{lemma_shares_burned, DepositPlan, RedeemPlan, WithdrawalOutcome};
use super::share_math::{lemma_mul_div_of_small_product, mul_div_ceil_value, mul_div_value};
use super::types::{Config, Error};
use super::vault::{lemma_part_within, SyWrapper};
use crate::address::Address;
use crate::arith::{fits, trunc_div, WAD};
use crate::rounding::{lemma_rounded_toward_zero, rounded_down, rounded_toward_zero, rounded_up};
use vstd::prelude::*;

verus! {

/// A scaled quotient is rounded toward zero, and rounded up where that was asked
/// for.
pub proof fn lemma_mul_div_rounds(lhs: int, rhs: int, denominator: int)
    requires
        0 < denominator,
    ensures
        mul_div_value(lhs, rhs, denominator) matches Ok(q) ==> rounded_toward_zero(
            q as int,
            lhs * rhs,
            denominator,
        ),
        0 <= lhs * rhs ==> (mul_div_ceil_value(lhs, rhs, denominator) matches Ok(q) ==> rounded_up(
            q as int,
            lhs * rhs,
            denominator,
        )),
        0 <= lhs <= i128::MAX && 0 <= rhs <= i128::MAX && denominator <= i128::MAX && fits(
            lhs * rhs,
        ) ==> mul_div_value(lhs, rhs, denominator) is Ok,
{
    let n = lhs * rhs;
    let q = trunc_div(n, denominator);
    lemma_rounded_toward_zero(q, n, denominator);
    if 0 <= lhs <= i128::MAX && 0 <= rhs <= i128::MAX && denominator <= i128::MAX && fits(n) {
        lemma_mul_div_of_small_product(lhs, rhs, denominator);
    }
    if 0 <= n {
        assert((q + 1) * denominator == q * denominator + denominator) by (nonlinear_arith);
    }
}

/// `value` is what backs the shares: the idle custody, or the position's pool tokens
/// at the pool's rate, which has twelve decimals.
pub open spec fn backed_with(config: Config, backing: Backing, value: int) -> bool {
    match backing {
        Backing::Idle(idle) => value == idle,
        Backing::Position(reading) => position_worth(config, reading, value),
    }
}

/// `value` is what the position is worth. A reading of another slot of the pool gives it
/// no value.
pub open spec fn position_worth(config: Config, reading: PoolReading, value: int) -> bool {
    let tokens = match reading.b_tokens {
        Some(tokens) => tokens as int,
        None => 0,
    };
    &&& reading.reserve.index == config.reserve_index
    &&& rounded_toward_zero(value, tokens * reading.reserve.b_rate, 1_000_000_000_000)
}

/// `rate` is what a share is worth where `supply` of them are backed with `value`: one while
/// there are none.
pub open spec fn share_worth(rate: int, value: int, supply: int) -> bool {
    if supply <= 0 {
        rate == WAD
    } else {
        rounded_toward_zero(rate, value * WAD, supply)
    }
}

/// The exchange rate is the backing, by the supply.
pub proof fn lemma_rate_is_backing_by_supply(vault: SyWrapper, backing: Backing) -> (value: int)
    requires
        vault.rate(backing) is Ok,
    ensures
        vault.config is Some,
        backed_with(vault.config->0, backing, value),
        share_worth(vault.rate(backing)->Ok_0 as int, value, vault.total_supply as int),
        fits(value),
{
    let value = match backing {
        Backing::Idle(idle) => idle as int,
        Backing::Position(reading) => lemma_position(vault.config->0, reading),
    };
    if vault.total_supply > 0 {
        let n = value * WAD;
        let d = vault.total_supply as int;
        lemma_rounded_toward_zero(trunc_div(n, d), n, d);
        lemma_trunc_div_bounds(n, d);
    }
    value
}

proof fn lemma_trunc_div_bounds(n: int, d: int)
    requires
        fits(n),
        0 < d,
    ensures
        fits(trunc_div(n, d)),
{
    if n >= 0 {
        assert(0 <= n / d <= n) by (nonlinear_arith)
            requires
                n >= 0,
                d > 0,
        ;
    } else {
        assert(0 <= (-n) / d <= -n) by (nonlinear_arith)
            requires
                n < 0,
                d > 0,
        ;
    }
}

proof fn lemma_position(config: Config, reading: PoolReading) -> (value: int)
    requires
        position_value(config, reading) is Ok,
    ensures
        position_value(config, reading) == Ok::<i128, Error>(value as i128),
        fits(value),
        position_worth(config, reading, value),
{
    let n = tokens_read(reading) * reading.reserve.b_rate;
    let value = trunc_div(n, 1_000_000_000_000);
    lemma_rounded_toward_zero(value, n, 1_000_000_000_000);
    lemma_trunc_div_bounds(n, 1_000_000_000_000);
    value
}

/// Where the backing can be valued and scaled, there is a rate.
pub proof fn lemma_rate_is_given(vault: SyWrapper, backing: Backing, value: int)
    requires
        vault.config matches Some(config) && backed_with(config, backing, value),
        backing matches Backing::Position(reading) ==> fits(
            (match reading.b_tokens {
                Some(tokens) => tokens as int,
                None => 0,
            }) * reading.reserve.b_rate,
        ),
        fits(value * WAD),
    ensures
        vault.rate(backing) is Ok,
{
    if let Backing::Position(reading) = backing {
        let n = tokens_read(reading) * reading.reserve.b_rate;
        lemma_rounded_toward_zero(value, n, 1_000_000_000_000);
        lemma_trunc_div_bounds(n, 1_000_000_000_000);
    }
}

/// A deposit takes the whole amount and supplies it to the pool, under the pool's
/// cap, and is priced at the rate that the position gives the shares before it.
pub proof fn lemma_deposit_is_priced_before_it(
    vault: SyWrapper,
    from: Address,
    amount: i128,
    reading: PoolReading,
)
    requires
        vault.deposit_plan(from, amount, reading) is Ok,
    ensures
        ({
            let plan = vault.deposit_plan(from, amount, reading)->Ok_0;
            let config = vault.config->0;
            &&& vault.config is Some
            &&& !vault.governance.paused
            &&& !vault.emergency
            &&& 0 < amount
            &&& plan.transfer_in.token == config.underlying
            &&& plan.transfer_in.holder == from
            &&& plan.transfer_in.amount == amount
            &&& plan.request.address == config.underlying
            &&& plan.request.amount == amount
            &&& plan.request.request_type == 0
            &&& position_worth(config, reading, plan.aum_before as int)
            &&& share_worth(
                plan.exchange_rate as int,
                plan.aum_before as int,
                vault.total_supply as int,
            )
            &&& 0 < reading.reserve.supply_cap ==> plan.aum_before + amount
                <= reading.reserve.supply_cap
        }),
{
    let config = vault.config->0;
    let value = lemma_position(config, reading);
    let rate_value = lemma_rate_is_backing_by_supply(vault, Backing::Position(reading));
    if vault.total_supply > 0 {
        let n = value * WAD;
        let d = vault.total_supply as int;
        lemma_rounded_toward_zero(trunc_div(n, d), n, d);
        lemma_trunc_div_bounds(n, d);
    }
}

/// A deposit under the cap is taken, while the vault is open.
pub proof fn lemma_deposit_is_taken(
    vault: SyWrapper,
    from: Address,
    amount: i128,
    reading: PoolReading,
)
    requires
        vault.config is Some,
        !vault.governance.paused,
        !vault.emergency,
        0 < amount,
        vault.rate(Backing::Position(reading)) is Ok,
        reading.reserve.supply_cap <= 0 || forall|value: int| #[trigger]
            position_worth(vault.config->0, reading, value) ==> fits(value + amount) && value
                + amount <= reading.reserve.supply_cap,
    ensures
        vault.deposit_plan(from, amount, reading) is Ok,
{
    let value = lemma_position(vault.config->0, reading);
}

/// A deposit mints the shares that the position's increase is worth at the rate
/// before it, rounded down.
pub proof fn lemma_deposit_mints_its_worth(
    vault: SyWrapper,
    plan: DepositPlan,
    reading: PoolReading,
) -> (value: int)
    requires
        vault.config is Some,
        0 < plan.exchange_rate,
        vault.shares_minted(plan, reading) is Ok,
    ensures
        position_worth(vault.config->0, reading, value),
        0 < vault.shares_minted(plan, reading)->Ok_0,
        rounded_down(
            vault.shares_minted(plan, reading)->Ok_0 as int,
            (value - plan.aum_before) * WAD,
            plan.exchange_rate as int,
        ),
{
    let value = lemma_position(vault.config->0, reading);
    lemma_mul_div_rounds(value - plan.aum_before, WAD as int, plan.exchange_rate as int);
    let shares = vault.shares_minted(plan, reading)->Ok_0 as int;
    let rate = plan.exchange_rate as int;
    let n = (value - plan.aum_before) * WAD;
    if n < 0 {
        assert(shares * rate - rate >= 0) by (nonlinear_arith)
            requires
                shares >= 1,
                rate > 0,
        ;
    }
    value
}

/// After a wind-down a redemption pays the part of the idle custody that goes
/// with its shares, and takes the part of the holder's principal that goes with
/// them off the books, both rounded down.
pub proof fn lemma_idle_redemption_pays_its_part(
    vault: SyWrapper,
    from: Address,
    sy_amount: i128,
    idle: i128,
)
    requires
        vault.wf(),
        vault.redeem_rejection(from, sy_amount, Backing::Idle(idle)) is None,
        0 <= idle,
        vault.idle_redemption(from, sy_amount, idle) is Ok,
    ensures
        ({
            let (paid, principal_out) = vault.idle_redemption(from, sy_amount, idle)->Ok_0;
            let balance = vault.balances.amount(from) as int;
            &&& 0 < sy_amount <= balance
            &&& rounded_down(paid as int, idle * sy_amount, vault.total_supply as int)
            &&& rounded_down(
                principal_out as int,
                vault.principals.amount(from) * sy_amount,
                balance,
            )
        }),
{
    vault.balances.lemma_amount_within_total(from);
    vault.principals.lemma_amount_within_total(from);
    lemma_mul_div_rounds(idle as int, sy_amount as int, vault.total_supply as int);
    lemma_mul_div_rounds(
        vault.principals.amount(from) as int,
        sy_amount as int,
        vault.balances.amount(from) as int,
    );
    let a = idle * sy_amount;
    let b = vault.principals.amount(from) * sy_amount;
    assert(a >= 0 && b >= 0) by (nonlinear_arith)
        requires
            a == idle * sy_amount,
            b == vault.principals.amount(from) * sy_amount,
            idle >= 0,
            sy_amount > 0,
            vault.principals.amount(from) >= 0,
    ;
}

/// A redemption pays all that the pool paid, and burns shares for it: all that
/// were to be redeemed where the pool paid what they are worth, and otherwise
/// those that the payout is worth, rounded up. The part of the holder's principal
/// that goes with them, rounded down, leaves the books. Where the pool paid
/// nothing, nothing is redeemed.
pub proof fn lemma_redemption_burns_its_worth(
    vault: SyWrapper,
    plan: RedeemPlan,
    outcome: WithdrawalOutcome,
)
    requires
        vault.wf(),
        vault.redeem_plan_holds(plan),
        vault.redemption(plan, outcome) is Ok,
    ensures
        ({
            let (burned, principal_out, received) = vault.redemption(plan, outcome)->Ok_0;
            let balance = vault.balances.amount(plan.holder) as int;
            &&& outcome.submitted
            &&& received == outcome.after - outcome.before
            &&& 0 < received
            &&& plan.request.amount <= received ==> burned == plan.sy_amount
            &&& received < plan.request.amount ==> rounded_up(
                burned as int,
                received * WAD,
                plan.exchange_rate as int,
            )
            &&& 0 < burned <= plan.sy_amount
            &&& rounded_down(
                principal_out as int,
                vault.principals.amount(plan.holder) * burned,
                balance,
            )
        }),
{
    let (burned, principal_out, received) = vault.redemption(plan, outcome)->Ok_0;
    let balance = vault.balances.amount(plan.holder);
    lemma_shares_burned(
        plan.sy_amount,
        plan.request.amount,
        received,
        plan.exchange_rate,
        balance,
    );
    vault.principals.lemma_amount_within_total(plan.holder);
    let principal = vault.principals.amount(plan.holder) as int;
    lemma_mul_div_rounds(principal, burned as int, balance as int);
    let b = principal * burned;
    assert(b >= 0) by (nonlinear_arith)
        requires
            b == principal * burned,
            principal >= 0,
            burned > 0,
    ;
    if received < plan.request.amount {
        let rate = plan.exchange_rate as int;
        lemma_mul_div_rounds(received as int, WAD as int, rate);
        let up = mul_div_ceil_value(received as int, WAD as int, rate)->Ok_0 as int;
        if up > balance {
            // The holder's balance covers what was to be redeemed, and so this.
            lemma_mul_div_rounds(plan.sy_amount as int, rate, WAD as int);
            let s = plan.sy_amount as int;
            assert(s * rate > 0) by (nonlinear_arith)
                requires
                    s > 0,
                    rate > 0,
            ;
            assert(up * rate - rate >= s * rate) by (nonlinear_arith)
                requires
                    up >= s + 1,
                    rate > 0,
            ;
        }
    }
}

/// A plan to redeem asks the pool for what the shares are worth, rounded down.
pub proof fn lemma_redeem_plan_asks_for_its_worth(vault: SyWrapper, plan: RedeemPlan)
    requires
        vault.redeem_plan_holds(plan),
        0 <= plan.exchange_rate,
    ensures
        0 < plan.sy_amount <= vault.balances.amount(plan.holder),
        rounded_down(plan.request.amount as int, plan.sy_amount * plan.exchange_rate, WAD as int),
{
    lemma_mul_div_rounds(plan.sy_amount as int, plan.exchange_rate as int, WAD as int);
    let n = plan.sy_amount * plan.exchange_rate;
    assert(n >= 0) by (nonlinear_arith)
        requires
            n == plan.sy_amount * plan.exchange_rate,
            plan.sy_amount > 0,
            plan.exchange_rate >= 0,
    ;
}

/// A wind-down asks the pool for all that the position is worth, and for nothing
/// where it is worth nothing. Only the admin can order it, once.
pub proof fn lemma_wind_down_asks_for_all(vault: SyWrapper, caller: Address, reading: PoolReading)
    requires
        vault.wind_down_plan(caller, reading) is Ok,
    ensures
        ({
            let plan = vault.wind_down_plan(caller, reading)->Ok_0;
            let config = vault.config->0;
            &&& vault.config is Some
            &&& caller == config.admin
            &&& !vault.governance.renounced
            &&& !vault.emergency
            &&& position_worth(config, reading, plan.aum as int)
            &&& plan.request is Some <==> 0 < plan.aum
            &&& plan.request matches Some(request) ==> {
                &&& request.address == config.underlying
                &&& request.amount == plan.aum
                &&& request.request_type == 1
            }
        }),
{
    let value = lemma_position(vault.config->0, reading);
}

/// Moving shares takes the part of the sender's principal that goes with them
/// along, rounded down.
pub proof fn lemma_transfer_moves_its_principal(
    vault: SyWrapper,
    from: Address,
    to: Address,
    amount: i128,
)
    requires
        vault.wf(),
        vault.share_move(from, to, amount) is Ok,
    ensures
        ({
            let (principal, balance, new_principal) = vault.share_move(from, to, amount)->Ok_0;
            &&& 0 < amount <= vault.balances.amount(from)
            &&& rounded_down(
                principal as int,
                vault.principals.amount(from) * amount,
                vault.balances.amount(from) as int,
            )
            &&& to != from ==> balance == vault.balances.amount(to) + amount
            &&& to != from ==> new_principal == vault.principals.amount(to) + principal
            &&& to == from ==> balance == vault.balances.amount(from)
            &&& to == from ==> new_principal == vault.principals.amount(from)
        }),
{
    vault.balances.lemma_amount_within_total(from);
    vault.principals.lemma_amount_within_total(from);
    let principal = vault.principals.amount(from) as int;
    let balance = vault.balances.amount(from) as int;
    lemma_mul_div_rounds(principal, amount as int, balance);
    let b = principal * amount;
    assert(b >= 0) by (nonlinear_arith)
        requires
            b == principal * amount,
            principal >= 0,
            amount > 0,
    ;
}

/// A spender moves no more than an allowance that has not expired lets them.
pub proof fn lemma_spending_is_allowed(
    vault: SyWrapper,
    sequence: u32,
    spender: Address,
    from: Address,
    to: Address,
    amount: i128,
)
    requires
        vault.spending_rejection(sequence, spender, from, to, amount) is None,
    ensures
        0 < amount,
        vault.allowances@.contains_key((from, spender)),
        sequence <= vault.allowances@[(from, spender)].expiration_ledger,
        amount <= vault.allowances@[(from, spender)].amount,
        vault.live_allowance(from, spender, sequence) == vault.allowances@[(from, spender)],
        vault.share_move(from, to, amount) is Ok,
{
}

/// Whoever has the shares can move them, and whoever has the allowance can spend
/// it, as long as the recipient's books can hold them.
pub proof fn lemma_shares_are_movable(
    vault: SyWrapper,
    sequence: u32,
    spender: Address,
    from: Address,
    to: Address,
    amount: i128,
)
    requires
        vault.wf(),
        0 < amount <= vault.balances.amount(from),
        fits(vault.balances.amount(to) + amount),
        fits(vault.principals.amount(to) + vault.principals.amount(from)),
        fits(vault.principals.amount(from) * amount),
    ensures
        vault.share_move(from, to, amount) is Ok,
        vault.allowances@.contains_key((from, spender)) && sequence <= vault.allowances@[(
            from,
            spender,
        )].expiration_ledger && amount <= vault.allowances@[(from, spender)].amount
            ==> vault.spending_rejection(sequence, spender, from, to, amount) is None,
{
    vault.balances.lemma_amount_within_total(from);
    vault.principals.lemma_amount_within_total(from);
    vault.principals.lemma_amount_within_total(to);
    let principal = vault.principals.amount(from) as int;
    let balance = vault.balances.amount(from) as int;
    lemma_mul_div_rounds(principal, amount as int, balance);
    lemma_part_within(principal, amount as int, balance);
}

} // verus!
