//! What holds of the vault across its operations.
use super::blend::{derived_rate, position_value, Backing, PoolReading};
use super::flows::{lemma_shares_burned, shares_burned, RedeemPlan, WithdrawalOutcome};
use super::types::Error;
use super::vault::SyWrapper;
use crate::address::Address;
use crate::arith::{trunc_div, WAD};
use crate::governance::Governance;
use vstd::prelude::*;

verus! {

/// While there are no shares, a share is worth one unit of the underlying.
pub proof fn lemma_rate_starts_at_one(vault: SyWrapper, backing: Backing)
    requires
        vault.total_supply <= 0,
        vault.rate(backing) is Ok,
    ensures
        vault.rate(backing) == Ok::<i128, Error>(WAD),
{
}

/// The rate is a function of the backing's value and the supply alone: nothing
/// that is stored can set it, and it rises and falls with the backing.
pub proof fn lemma_rate_follows_assets(less: int, more: int, supply: int)
    requires
        0 <= less <= more,
        0 < supply,
        derived_rate(more, supply) is Some,
    ensures
        derived_rate(less, supply) is Some,
        0 <= trunc_div(less * WAD, supply) <= trunc_div(more * WAD, supply),
{
    let a = less * WAD;
    let b = more * WAD;
    assert(0 <= a / supply <= b / supply) by (nonlinear_arith)
        requires
            0 <= a <= b,
            supply > 0,
    ;
}

/// Shares minted for `credited` at `rate`, added to a supply that the assets
/// cover at `rate`, are covered at `rate` too.
proof fn lemma_minting_keeps_cover(assets: int, supply: int, rate: int, credited: int, minted: int)
    requires
        rate * supply <= assets * WAD,
        minted * rate <= credited * WAD,
    ensures
        rate * (supply + minted) <= (assets + credited) * WAD,
{
    assert(rate * (supply + minted) == rate * supply + minted * rate) by (nonlinear_arith);
}

/// A covered rate is at most the rate that the assets derive.
proof fn lemma_covered_rate(assets: int, supply: int, rate: int)
    requires
        0 <= assets,
        0 < supply,
        rate * supply <= assets * WAD,
    ensures
        rate <= trunc_div(assets * WAD, supply),
{
    let n = assets * WAD;
    assert(rate <= n / supply) by (nonlinear_arith)
        requires
            rate * supply <= n,
            supply > 0,
    ;
}

/// A derived rate is covered by the assets it was derived from.
proof fn lemma_rate_is_covered(assets: int, supply: int)
    requires
        0 <= assets,
        0 < supply,
    ensures
        trunc_div(assets * WAD, supply) * supply <= assets * WAD,
        0 <= trunc_div(assets * WAD, supply),
{
    let n = assets * WAD;
    assert(0 <= n / supply && (n / supply) * supply <= n) by (nonlinear_arith)
        requires
            n >= 0,
            supply > 0,
    ;
}

/// A deposit does not dilute: whatever the pool credits for it, the rate after
/// it is at least the rate before.
pub proof fn lemma_deposit_does_not_dilute(
    vault: SyWrapper,
    from: Address,
    amount: i128,
    before: PoolReading,
    after: PoolReading,
)
    requires
        vault.wf(),
        vault.deposit_plan(from, amount, before) matches Ok(plan) && vault.shares_minted(
            plan,
            after,
        ) is Ok,
        position_value(vault.config->0, before)->Ok_0 >= 0,
        position_value(vault.config->0, after)->Ok_0 >= position_value(
            vault.config->0,
            before,
        )->Ok_0,
    ensures
        ({
            let plan = vault.deposit_plan(from, amount, before)->Ok_0;
            let minted = vault.shares_minted(plan, after)->Ok_0;
            let assets = position_value(vault.config->0, after)->Ok_0;
            let supply = vault.total_supply + minted;
            &&& supply > 0
            &&& trunc_div(assets * WAD, supply) >= plan.exchange_rate
        }),
{
    let plan = vault.deposit_plan(from, amount, before)->Ok_0;
    let minted = vault.shares_minted(plan, after)->Ok_0 as int;
    let held = position_value(vault.config->0, before)->Ok_0 as int;
    let assets = position_value(vault.config->0, after)->Ok_0 as int;
    let rate = plan.exchange_rate as int;
    let credited = assets - held;
    let supply = vault.total_supply as int;
    vault.balances.lemma_amount_within_total(from);
    if supply > 0 {
        lemma_rate_is_covered(held, supply);
    } else {
        assert(rate * supply <= held * WAD) by (nonlinear_arith)
            requires
                supply == 0,
                held >= 0,
                WAD > 0,
        ;
    }
    let n = credited * WAD;
    if rate > 0 {
        assert(n / rate * rate <= n) by (nonlinear_arith)
            requires
                n >= 0,
                rate > 0,
        ;
    }
    lemma_minting_keeps_cover(held, supply, rate, credited, minted);
    lemma_covered_rate(assets, supply + minted, rate);
}

/// A redemption does not short those who stay: where the position falls by no
/// more than the pool was asked for, or in a partial withdrawal by no more than
/// it paid, the rate after it is at least the rate before.
pub proof fn lemma_redemption_does_not_short(
    vault: SyWrapper,
    plan: RedeemPlan,
    received: i128,
    assets_before: int,
    assets_after: int,
)
    requires
        vault.wf(),
        vault.redeem_plan_holds(plan),
        0 <= assets_after,
        0 < received,
        0 < vault.total_supply,
        derived_rate(assets_before, vault.total_supply as int) == Some(plan.exchange_rate),
        0 <= assets_before,
        assets_before - assets_after <= plan.request.amount,
        assets_before - assets_after <= received,
        shares_burned(
            plan.sy_amount,
            plan.request.amount,
            received,
            plan.exchange_rate,
            vault.balances.amount(plan.holder),
        ) matches Ok(burned) && burned < vault.total_supply,
    ensures
        ({
            let burned = shares_burned(
                plan.sy_amount,
                plan.request.amount,
                received,
                plan.exchange_rate,
                vault.balances.amount(plan.holder),
            )->Ok_0;
            trunc_div(assets_after * WAD, vault.total_supply - burned) >= plan.exchange_rate
        }),
{
    let shares = vault.balances.amount(plan.holder);
    let burned = shares_burned(
        plan.sy_amount,
        plan.request.amount,
        received,
        plan.exchange_rate,
        shares,
    )->Ok_0 as int;
    let supply = vault.total_supply as int;
    let rate = plan.exchange_rate as int;
    lemma_shares_burned(
        plan.sy_amount,
        plan.request.amount,
        received,
        plan.exchange_rate,
        shares,
    );
    lemma_rate_is_covered(assets_before, supply);
    let paid = assets_before - assets_after;
    if received >= plan.request.amount {
        let n = plan.sy_amount * rate;
        assert(n >= 0) by (nonlinear_arith)
            requires
                n == plan.sy_amount * rate,
                plan.sy_amount > 0,
                rate >= 0,
        ;
        assert(paid * WAD <= burned * rate);
    }
    assert(rate * (supply - burned) <= assets_after * WAD) by (nonlinear_arith)
        requires
            rate * supply <= assets_before * WAD,
            paid * WAD <= burned * rate,
            paid == assets_before - assets_after,
    ;
    lemma_covered_rate(assets_after, supply - burned, rate);
}

/// After a wind-down every redemption pays the holder's part of what is there
/// and no more: those who stay are backed by no less per share than before.
pub proof fn lemma_wind_down_is_pro_rata(
    vault: SyWrapper,
    from: Address,
    sy_amount: i128,
    idle: i128,
)
    requires
        vault.wf(),
        vault.redeem_rejection(from, sy_amount, Backing::Idle(idle)) is None,
        0 <= idle,
        vault.idle_redemption(from, sy_amount, idle) is Ok,
    ensures
        ({
            let paid = vault.idle_redemption(from, sy_amount, idle)->Ok_0.0;
            &&& paid == idle * sy_amount / (vault.total_supply as int)
            &&& 0 <= paid <= idle
            &&& (idle - paid) * vault.total_supply >= idle * (vault.total_supply - sy_amount)
        }),
{
    vault.balances.lemma_amount_within_total(from);
    let supply = vault.total_supply as int;
    let part = sy_amount as int;
    let n = idle * part;
    assert(n >= 0) by (nonlinear_arith)
        requires
            n == idle * part,
            idle >= 0,
            part > 0,
    ;
    let paid = n / supply;
    assert(0 <= paid <= idle && paid * supply <= n) by (nonlinear_arith)
        requires
            paid == n / supply,
            n == idle * part,
            0 <= idle,
            0 < part <= supply,
    ;
    assert((idle - paid) * supply >= idle * (supply - part)) by (nonlinear_arith)
        requires
            paid * supply <= n,
            n == idle * part,
    ;
}

/// A wind-down that recovers what the position was worth leaves the rate where
/// it was.
pub proof fn lemma_wind_down_keeps_rate(
    vault: SyWrapper,
    wound_down: SyWrapper,
    reading: PoolReading,
    idle: i128,
)
    requires
        wound_down.config == vault.config,
        wound_down.total_supply == vault.total_supply,
        vault.config is Some,
        position_value(vault.config->0, reading) == Ok::<i128, Error>(idle),
    ensures
        wound_down.rate(Backing::Idle(idle)) == vault.rate(Backing::Position(reading)),
{
}

/// Where the pool keeps the underlying in another slot than the one recorded,
/// no rate is given, and neither a deposit nor a redemption can be priced.
pub proof fn lemma_moved_reserve_fails_closed(
    vault: SyWrapper,
    reading: PoolReading,
    from: Address,
    amount: i128,
)
    requires
        vault.config matches Some(config) && reading.reserve.index != config.reserve_index,
    ensures
        vault.rate(Backing::Position(reading)) == Err::<i128, Error>(Error::InvalidBlendReserve),
        vault.deposit_plan(from, amount, reading) is Err,
        vault.redeem_rejection(from, amount, Backing::Position(reading)) is Some,
{
}

/// Deposits are closed while paused and for good after a wind-down.
pub proof fn lemma_closed_to_deposits(
    vault: SyWrapper,
    from: Address,
    amount: i128,
    reading: PoolReading,
)
    requires
        vault.governance.paused || vault.emergency,
    ensures
        vault.deposit_plan(from, amount, reading) is Err,
{
}

/// A wind-down happens once: nobody can repeat it, and whatever governance
/// records afterwards, deposits stay closed.
pub proof fn lemma_wind_down_is_final(
    vault: SyWrapper,
    governance: Governance,
    caller: Address,
    amount: i128,
)
    requires
        vault.emergency,
    ensures
        ({
            let governed = SyWrapper { governance, ..vault };
            &&& governed.wind_down_rejection(caller) is Some
            &&& governed.deposit_rejection(amount) is Some
        }),
{
}

/// Nothing that governance can record stands in the way of a redemption, a
/// transfer or a reading of the rate.
pub proof fn lemma_governance_never_blocks_exits(
    vault: SyWrapper,
    governance: Governance,
    from: Address,
    to: Address,
    amount: i128,
    backing: Backing,
    plan: RedeemPlan,
    outcome: WithdrawalOutcome,
)
    ensures
        ({
            let governed = SyWrapper { governance, ..vault };
            &&& governed.rate(backing) == vault.rate(backing)
            &&& governed.redeem_rejection(from, amount, backing) == vault.redeem_rejection(
                from,
                amount,
                backing,
            )
            &&& governed.redemption(plan, outcome) == vault.redemption(plan, outcome)
            &&& governed.share_move(from, to, amount) == vault.share_move(from, to, amount)
        }),
{
}

/// Once governance is renounced nobody can pause, announce or run an upgrade,
/// sweep, migrate the reserve, or wind the vault down.
pub proof fn lemma_renounced_is_final(vault: SyWrapper, caller: Address, token: Address, now: u64)
    requires
        vault.wf(),
        vault.governance.renounced,
    ensures
        vault.governor_rejection(caller) is Some,
        vault.sweep_rejection(caller, token) is Some,
        vault.wind_down_rejection(caller) is Some,
        !vault.governance.spec_may_pause(vault.config->0.admin, caller),
        vault.governance.spec_due_upgrade(now) is None,
{
}

/// Whoever guards the vault may halt it but, unless they are the admin, can
/// neither resume it nor govern it otherwise.
pub proof fn lemma_guardian_can_only_halt(vault: SyWrapper, guardian: Address)
    requires
        vault.config matches Some(config) && guardian != config.admin,
        vault.governance.guardian == Some(guardian),
        !vault.governance.renounced,
    ensures
        vault.governance.spec_may_pause(vault.config->0.admin, guardian),
        vault.admin_rejection(guardian) is Some,
        vault.governor_rejection(guardian) is Some,
        vault.wind_down_rejection(guardian) is Some,
{
}

/// Nobody can sweep the underlying.
pub proof fn lemma_sweep_spares_underlying(vault: SyWrapper, caller: Address)
    requires
        vault.config is Some,
    ensures
        vault.sweep_rejection(caller, vault.config->0.underlying) is Some,
{
}

/// Moving shares to oneself changes no balance and no principal.
pub proof fn lemma_self_transfer_is_neutral(
    vault: SyWrapper,
    next: SyWrapper,
    holder: Address,
    amount: i128,
    other: Address,
)
    requires
        vault.wf(),
        vault.share_move(holder, holder, amount) is Ok,
        vault.shares_moved(next, holder, holder, amount),
    ensures
        next.balances.amount(other) == vault.balances.amount(other),
        next.principals.amount(other) == vault.principals.amount(other),
{
}

/// Moving shares changes nobody's books but the two sides', whose balances
/// change by as much, and whose principals change by as much.
pub proof fn lemma_transfer_touches_two(
    vault: SyWrapper,
    next: SyWrapper,
    from: Address,
    to: Address,
    amount: i128,
    other: Address,
)
    requires
        vault.wf(),
        from != to,
        vault.share_move(from, to, amount) is Ok,
        vault.shares_moved(next, from, to, amount),
    ensures
        other != from && other != to ==> next.balances.amount(other) == vault.balances.amount(other)
            && next.principals.amount(other) == vault.principals.amount(other),
        next.balances.amount(from) == vault.balances.amount(from) - amount,
        next.balances.amount(to) == vault.balances.amount(to) + amount,
        next.principals.amount(from) + next.principals.amount(to) == vault.principals.amount(from)
            + vault.principals.amount(to),
        next.principals.amount(from) <= vault.principals.amount(from),
{
    vault.balances.lemma_amount_within_total(from);
    vault.principals.lemma_amount_within_total(from);
    let balance = vault.balances.amount(from) as int;
    let principal = vault.principals.amount(from) as int;
    super::vault::lemma_part_within(principal, amount as int, balance);
}

/// The admin alone governs, until governance is renounced, and winds the vault
/// down once; guardian and admin alone may pause, until then.
pub proof fn lemma_who_may_govern(
    vault: SyWrapper,
    caller: Address,
    token: Address,
)
    requires
        vault.config is Some,
    ensures
        ({
            let config = vault.config->0;
            let governance = vault.governance;
            &&& vault.admin_rejection(caller) is None <==> caller == config.admin
            &&& vault.governor_rejection(caller) is None <==> caller == config.admin
                && !governance.renounced
            &&& vault.wind_down_rejection(caller) is None <==> caller == config.admin
                && !governance.renounced && !vault.emergency
            &&& vault.sweep_rejection(caller, token) is None <==> caller == config.admin
                && !governance.renounced && token != config.underlying
            &&& governance.spec_may_pause(config.admin, caller) <==> !governance.renounced && (caller
                == config.admin || governance.guardian == Some(caller))
        }),
{
}

} // verus!
