//! The vault contract: its record, its governance and its share token.
use super::allowances::Allowances;
use super::blend::{
    backing_value, blend_assets_under_management, confirm_slot, confirmed_slot,
    derived_exchange_rate, derived_rate, Backing, Reserve, DECIMALS,
};
use super::share_math::{add_checked, mul_div, mul_div_value, sub_checked, sum};
use super::types::{
    AdminChanged, AdminProposed, AdminRenounced, AllowanceValue, Config, Error, PauseChanged,
    ReserveMigrated, UpgradeProposed,
};
use super::value_laws::{backed_with, lemma_rate_is_backing_by_supply, share_worth};
use crate::address::{Address, PendingUpgrade, Transfer, TtlExtension, WasmHash};
use crate::arith::WAD;
use crate::governance::{Governance, UPGRADE_TIMELOCK_SECONDS};
use crate::ledger::Ledger;
use vstd::prelude::*;

verus! {

/// A vault that puts one asset into one lending-pool position and issues
/// transferable shares of it.
#[derive(Debug)]
pub struct SyWrapper {
    pub config: Option<Config>,
    pub total_supply: i128,
    pub balances: Ledger,
    /// Underlying that each holder paid in, from which their yield is reckoned.
    pub principals: Ledger,
    pub allowances: Allowances,
    pub governance: Governance,
    /// Set by a wind-down. Irreversible.
    pub emergency: bool,
}

/// The part of an amount that goes with `part` of `whole`.
pub open spec fn pro_rata(amount: i128, part: i128, whole: i128) -> Result<i128, Error> {
    mul_div_value(amount as int, part as int, whole as int)
}

impl SyWrapper {
    /// What holds of a vault at all times.
    pub open spec fn wf(self) -> bool {
        &&& self.balances.wf() && self.balances.nonnegative()
        &&& self.principals.wf() && self.principals.nonnegative()
        &&& self.allowances.wf()
        &&& self.governance.wf()
        &&& self.unheld() >= 0
        &&& self.config is None ==> self.balances.total() == 0
    }

    /// Shares of the supply that no balance accounts for.
    pub open spec fn unheld(self) -> int {
        self.total_supply - self.balances.total()
    }

    /// Why `caller` may not act as admin.
    pub open spec fn admin_rejection(self, caller: Address) -> Option<Error> {
        match self.config {
            None => Some(Error::NotInitialized),
            Some(config) => if caller != config.admin {
                Some(Error::NotAuthorized)
            } else {
                None
            },
        }
    }

    /// Why `caller` may not use a power that ends when governance is renounced.
    pub open spec fn governor_rejection(self, caller: Address) -> Option<Error> {
        match self.admin_rejection(caller) {
            Some(e) => Some(e),
            None => if self.governance.renounced {
                Some(Error::NotAuthorized)
            } else {
                None
            },
        }
    }

    pub fn new() -> (vault: SyWrapper)
        ensures
            vault.wf(),
            vault.config is None,
            vault.total_supply == 0,
            vault.balances@ == Map::<Address, i128>::empty(),
            vault.principals@ == Map::<Address, i128>::empty(),
            vault.allowances@ == Map::<(Address, Address), AllowanceValue>::empty(),
            vault.governance == Governance::spec_initial(),
            !vault.emergency,
            vault.unheld() == 0,
    {
        SyWrapper {
            config: None,
            total_supply: 0,
            balances: Ledger::new(),
            principals: Ledger::new(),
            allowances: Allowances::new(),
            governance: Governance::initial(),
            emergency: false,
        }
    }

    /// A vault from its stored parts, if they make one that is well-formed.
    pub fn restore(
        config: Option<Config>,
        total_supply: i128,
        balances: Ledger,
        principals: Ledger,
        allowances: Allowances,
        governance: Governance,
        emergency: bool,
    ) -> (r: Option<SyWrapper>)
        requires
            balances.wf(),
            principals.wf(),
            allowances.wf(),
        ensures
            ({
                let vault = SyWrapper {
                    config,
                    total_supply,
                    balances,
                    principals,
                    allowances,
                    governance,
                    emergency,
                };
                r == (if vault.wf() {
                    Some(vault)
                } else {
                    None
                })
            }),
    {
        let limit: i128 = if config.is_none() && total_supply > 0 {
            0
        } else {
            total_supply
        };
        proof {
            if balances.nonnegative() {
                balances.lemma_total_nonnegative();
            }
        }
        if balances.sums_within(limit) && principals.is_nonnegative() && !(
        governance.renounced && governance.pending_upgrade.is_some()) {
            Some(
                SyWrapper {
                    config,
                    total_supply,
                    balances,
                    principals,
                    allowances,
                    governance,
                    emergency,
                },
            )
        } else {
            None
        }
    }

    /// Sets the vault up on the slot in which the pool keeps `underlying`,
    /// given the pool's list of reserves and its record of this one. `admin`
    /// has authorized the call.
    pub fn initialize_blend(
        &mut self,
        admin: Address,
        underlying: Address,
        pool: Address,
        reserves: &Vec<Address>,
        reserve: &Reserve,
    ) -> (r: Result<(), Error>)
        requires
            old(self).wf(),
            reserves@.len() <= u32::MAX,
        ensures
            final(self).wf(),
            if old(self).config is Some {
                r == Err::<(), Error>(Error::AlreadyInitialized) && *final(self) == *old(self)
            } else {
                match confirmed_slot(reserves@, underlying, *reserve) {
                    Err(e) => r == Err::<(), Error>(e) && *final(self) == *old(self),
                    Ok(reserve_index) => r is Ok && *final(self) == (SyWrapper {
                        config: Some(Config { admin, underlying, pool, reserve_index }),
                        total_supply: 0,
                        ..*old(self)
                    }),
                }
            },
    {
        if self.config.is_some() {
            return Err(Error::AlreadyInitialized);
        }
        let reserve_index: u32 = confirm_slot(reserves, underlying, reserve)?;
        self.config = Some(Config { admin, underlying, pool, reserve_index });
        self.total_supply = 0;
        Ok(())
    }

    pub fn config(&self) -> (r: Result<Config, Error>)
        ensures
            r == self.config.ok_or(Error::NotInitialized),
    {
        match self.config {
            Some(config) => Ok(config),
            None => Err(Error::NotInitialized),
        }
    }

    /// Lets `caller` act as admin.
    fn require_admin(&self, caller: Address) -> (r: Result<Config, Error>)
        ensures
            match self.admin_rejection(caller) {
                Some(e) => r == Err::<Config, Error>(e),
                None => r == Ok::<Config, Error>(self.config->0),
            },
    {
        let config: Config = self.config()?;
        if caller != config.admin {
            return Err(Error::NotAuthorized);
        }
        Ok(config)
    }

    /// Lets `caller` use a power that ends when governance is renounced.
    pub fn require_governor(&self, caller: Address) -> (r: Result<Config, Error>)
        ensures
            match self.governor_rejection(caller) {
                Some(e) => r == Err::<Config, Error>(e),
                None => r == Ok::<Config, Error>(self.config->0),
            },
    {
        let config: Config = self.require_admin(caller)?;
        if self.governance.renounced {
            return Err(Error::NotAuthorized);
        }
        Ok(config)
    }

    /// Nominates a new admin, who is not in force before accepting.
    pub fn propose_admin(&mut self, caller: Address, new_admin: Address) -> (r: Result<
        AdminProposed,
        Error,
    >)
        requires
            old(self).wf(),
        ensures
            final(self).wf(),
            match old(self).admin_rejection(caller) {
                Some(e) => r == Err::<AdminProposed, Error>(e) && *final(self) == *old(self),
                None => r == Ok::<AdminProposed, Error>(AdminProposed { new_admin })
                    && *final(self) == (SyWrapper {
                    governance: Governance {
                        pending_admin: Some(new_admin),
                        ..old(self).governance
                    },
                    ..*old(self)
                }),
            },
    {
        self.require_admin(caller)?;
        self.governance.pending_admin = Some(new_admin);
        Ok(AdminProposed { new_admin })
    }

    /// Completes the transfer to the nominated admin, who must be the caller.
    pub fn accept_admin(&mut self, caller: Address) -> (r: Result<AdminChanged, Error>)
        requires
            old(self).wf(),
        ensures
            final(self).wf(),
            match (old(self).config, old(self).governance.pending_admin) {
                (None, _) => r == Err::<AdminChanged, Error>(Error::NotInitialized) && *final(self)
                    == *old(self),
                (Some(_), None) => r == Err::<AdminChanged, Error>(Error::NotPendingAdmin)
                    && *final(self) == *old(self),
                (Some(config), Some(pending)) => if caller != pending {
                    r == Err::<AdminChanged, Error>(Error::NotAuthorized) && *final(self)
                        == *old(self)
                } else {
                    r == Ok::<AdminChanged, Error>(
                        AdminChanged { previous: config.admin, current: pending },
                    ) && *final(self) == (SyWrapper {
                        config: Some(Config { admin: pending, ..config }),
                        governance: Governance { pending_admin: None, ..old(self).governance },
                        ..*old(self)
                    })
                },
            },
    {
        let config: Config = self.config()?;
        match self.governance.pending_admin {
            None => Err(Error::NotPendingAdmin),
            Some(pending) => {
                if caller != pending {
                    return Err(Error::NotAuthorized);
                }
                self.config = Some(Config { admin: pending, ..config });
                self.governance.pending_admin = None;
                Ok(AdminChanged { previous: config.admin, current: pending })
            },
        }
    }

    pub fn pending_admin(&self) -> (r: Option<Address>)
        ensures
            r == self.governance.pending_admin,
    {
        self.governance.pending_admin
    }

    /// Appoints who may pause but never unpause.
    pub fn set_guardian(&mut self, caller: Address, guardian: Address) -> (r: Result<(), Error>)
        requires
            old(self).wf(),
        ensures
            final(self).wf(),
            match old(self).admin_rejection(caller) {
                Some(e) => r == Err::<(), Error>(e) && *final(self) == *old(self),
                None => r is Ok && *final(self) == (SyWrapper {
                    governance: Governance { guardian: Some(guardian), ..old(self).governance },
                    ..*old(self)
                }),
            },
    {
        self.require_admin(caller)?;
        self.governance.guardian = Some(guardian);
        Ok(())
    }

    /// The guardian; the admin where none was appointed.
    pub fn guardian(&self) -> (r: Result<Address, Error>)
        ensures
            r == (match self.config {
                None => Err::<Address, Error>(Error::NotInitialized),
                Some(config) => Ok(self.governance.spec_guardian_under(config.admin)),
            }),
    {
        let config: Config = self.config()?;
        Ok(self.governance.guardian_under(config.admin))
    }

    pub fn is_paused(&self) -> (r: bool)
        ensures
            r == self.governance.paused,
    {
        self.governance.paused
    }

    /// Halts deposits, for guardian or admin. It never blocks an exit.
    pub fn pause(&mut self, caller: Address) -> (r: Result<PauseChanged, Error>)
        requires
            old(self).wf(),
        ensures
            final(self).wf(),
            match old(self).config {
                None => r == Err::<PauseChanged, Error>(Error::NotInitialized) && *final(self)
                    == *old(self),
                Some(config) => if !old(self).governance.spec_may_pause(config.admin, caller) {
                    r == Err::<PauseChanged, Error>(Error::NotAuthorized) && *final(self)
                        == *old(self)
                } else {
                    r == Ok::<PauseChanged, Error>(PauseChanged { paused: true }) && *final(self)
                        == (SyWrapper {
                        governance: Governance { paused: true, ..old(self).governance },
                        ..*old(self)
                    })
                },
            },
    {
        let config: Config = self.config()?;
        if !self.governance.may_pause(config.admin, caller) {
            return Err(Error::NotAuthorized);
        }
        self.governance.paused = true;
        Ok(PauseChanged { paused: true })
    }

    /// Resumes deposits, for the admin alone.
    pub fn unpause(&mut self, caller: Address) -> (r: Result<PauseChanged, Error>)
        requires
            old(self).wf(),
        ensures
            final(self).wf(),
            match old(self).admin_rejection(caller) {
                Some(e) => r == Err::<PauseChanged, Error>(e) && *final(self) == *old(self),
                None => r == Ok::<PauseChanged, Error>(PauseChanged { paused: false })
                    && *final(self) == (SyWrapper {
                    governance: Governance { paused: false, ..old(self).governance },
                    ..*old(self)
                }),
            },
    {
        self.require_admin(caller)?;
        self.governance.paused = false;
        Ok(PauseChanged { paused: false })
    }

    /// Announces new code, which may run once the timelock has passed.
    pub fn propose_upgrade(&mut self, now: u64, caller: Address, wasm_hash: WasmHash) -> (r: Result<
        UpgradeProposed,
        Error,
    >)
        requires
            old(self).wf(),
        ensures
            final(self).wf(),
            match old(self).governor_rejection(caller) {
                Some(e) => r == Err::<UpgradeProposed, Error>(e) && *final(self) == *old(self),
                None => if now + UPGRADE_TIMELOCK_SECONDS > u64::MAX {
                    r == Err::<UpgradeProposed, Error>(Error::MathOverflow) && *final(self)
                        == *old(self)
                } else {
                    let eta = (now + UPGRADE_TIMELOCK_SECONDS) as u64;
                    r == Ok::<UpgradeProposed, Error>(UpgradeProposed { wasm_hash, eta })
                        && *final(self) == (SyWrapper {
                        governance: Governance {
                            pending_upgrade: Some(PendingUpgrade { wasm_hash, eta }),
                            ..old(self).governance
                        },
                        ..*old(self)
                    })
                },
            },
    {
        self.require_governor(caller)?;
        match now.checked_add(UPGRADE_TIMELOCK_SECONDS) {
            None => Err(Error::MathOverflow),
            Some(eta) => {
                self.governance.pending_upgrade = Some(PendingUpgrade { wasm_hash, eta });
                Ok(UpgradeProposed { wasm_hash, eta })
            },
        }
    }

    pub fn pending_upgrade(&self) -> (r: Option<PendingUpgrade>)
        ensures
            r == self.governance.pending_upgrade,
    {
        self.governance.pending_upgrade
    }

    pub fn cancel_upgrade(&mut self, caller: Address) -> (r: Result<(), Error>)
        requires
            old(self).wf(),
        ensures
            final(self).wf(),
            match old(self).admin_rejection(caller) {
                Some(e) => r == Err::<(), Error>(e) && *final(self) == *old(self),
                None => r is Ok && *final(self) == (SyWrapper {
                    governance: Governance { pending_upgrade: None, ..old(self).governance },
                    ..*old(self)
                }),
            },
    {
        self.require_admin(caller)?;
        self.governance.pending_upgrade = None;
        Ok(())
    }

    /// Hands out the announced code to run, once its time has come.
    pub fn execute_upgrade(&mut self, now: u64, caller: Address) -> (r: Result<WasmHash, Error>)
        requires
            old(self).wf(),
        ensures
            final(self).wf(),
            match old(self).admin_rejection(caller) {
                Some(e) => r == Err::<WasmHash, Error>(e) && *final(self) == *old(self),
                None => match old(self).governance.spec_due_upgrade(now) {
                    None => r == Err::<WasmHash, Error>(Error::UpgradeNotReady) && *final(self)
                        == *old(self),
                    Some(upgrade) => r == Ok::<WasmHash, Error>(upgrade.wasm_hash) && *final(self)
                        == (SyWrapper {
                        governance: Governance { pending_upgrade: None, ..old(self).governance },
                        ..*old(self)
                    }),
                },
            },
    {
        self.require_admin(caller)?;
        match self.governance.due_upgrade(now) {
            None => Err(Error::UpgradeNotReady),
            Some(upgrade) => {
                self.governance.pending_upgrade = None;
                Ok(upgrade.wasm_hash)
            },
        }
    }

    /// Gives up pausing, upgrades, sweeps, reserve migration and the wind-down
    /// for good.
    pub fn renounce_admin(&mut self, caller: Address) -> (r: Result<AdminRenounced, Error>)
        requires
            old(self).wf(),
        ensures
            final(self).wf(),
            match old(self).admin_rejection(caller) {
                Some(e) => r == Err::<AdminRenounced, Error>(e) && *final(self) == *old(self),
                None => r == Ok::<AdminRenounced, Error>(AdminRenounced {  }) && *final(self) == (
                SyWrapper { governance: old(self).governance.spec_renounced(), ..*old(self) }),
            },
    {
        self.require_admin(caller)?;
        self.governance.pending_upgrade = None;
        self.governance.pending_admin = None;
        self.governance.renounced = true;
        Ok(AdminRenounced {  })
    }

    pub fn is_renounced(&self) -> (r: bool)
        ensures
            r == self.governance.renounced,
    {
        self.governance.renounced
    }

    pub fn is_emergency(&self) -> (r: bool)
        ensures
            r == self.emergency,
    {
        self.emergency
    }

    /// Why `caller` may not move `token_id` out of the vault.
    pub open spec fn sweep_rejection(self, caller: Address, token_id: Address) -> Option<Error> {
        match self.governor_rejection(caller) {
            Some(e) => Some(e),
            None => if token_id == self.config->0.underlying {
                Some(Error::ProtectedAsset)
            } else {
                None
            },
        }
    }

    /// Whether `caller` may move `token_id` out of the vault.
    pub fn require_sweepable(&self, caller: Address, token_id: Address) -> (r: Result<(), Error>)
        ensures
            match self.sweep_rejection(caller, token_id) {
                Some(e) => r == Err::<(), Error>(e),
                None => r is Ok,
            },
    {
        let config: Config = self.require_governor(caller)?;
        if token_id == config.underlying {
            return Err(Error::ProtectedAsset);
        }
        Ok(())
    }

    /// Moves the contract's whole `balance` of a foreign token to `to`. The
    /// underlying cannot be swept: it backs the shares.
    pub fn sweep(&self, caller: Address, token_id: Address, to: Address, balance: i128) -> (r:
        Result<Transfer, Error>)
        ensures
            match self.sweep_rejection(caller, token_id) {
                Some(e) => r == Err::<Transfer, Error>(e),
                None => if balance <= 0 {
                    r == Err::<Transfer, Error>(Error::InvalidAmount)
                } else {
                    r == Ok::<Transfer, Error>(
                        Transfer { token: token_id, holder: to, amount: balance },
                    )
                },
            },
    {
        self.require_sweepable(caller, token_id)?;
        if balance <= 0 {
            return Err(Error::InvalidAmount);
        }
        Ok(Transfer { token: token_id, holder: to, amount: balance })
    }

    /// Follows the underlying to the slot in which the pool now keeps it, given
    /// the pool's list of reserves and its record of this one. The slot is not
    /// the caller's to choose.
    pub fn migrate_reserve_index(
        &mut self,
        admin: Address,
        reserves: &Vec<Address>,
        reserve: &Reserve,
    ) -> (r: Result<ReserveMigrated, Error>)
        requires
            old(self).wf(),
            reserves@.len() <= u32::MAX,
        ensures
            final(self).wf(),
            match old(self).governor_rejection(admin) {
                Some(e) => r == Err::<ReserveMigrated, Error>(e) && *final(self) == *old(self),
                None => {
                    let config = old(self).config->0;
                    match confirmed_slot(reserves@, config.underlying, *reserve) {
                        Err(e) => r == Err::<ReserveMigrated, Error>(e) && *final(self)
                            == *old(self),
                        Ok(new_index) => r == Ok::<ReserveMigrated, Error>(
                            ReserveMigrated { old_index: config.reserve_index, new_index },
                        ) && *final(self) == (SyWrapper {
                            config: Some(Config { reserve_index: new_index, ..config }),
                            ..*old(self)
                        }),
                    }
                },
            },
    {
        let config: Config = self.require_governor(admin)?;
        let new_index: u32 = confirm_slot(reserves, config.underlying, reserve)?;
        self.config = Some(Config { reserve_index: new_index, ..config });
        Ok(ReserveMigrated { old_index: config.reserve_index, new_index })
    }

    pub fn share_balance(&self, holder: Address) -> (r: Result<i128, Error>)
        requires
            self.wf(),
        ensures
            r == (match self.config {
                None => Err::<i128, Error>(Error::NotInitialized),
                Some(_) => Ok(self.balances.amount(holder)),
            }),
    {
        self.config()?;
        Ok(self.balances.get(holder))
    }

    pub fn total_shares(&self) -> (r: Result<i128, Error>)
        ensures
            r == (match self.config {
                None => Err::<i128, Error>(Error::NotInitialized),
                Some(_) => Ok(self.total_supply),
            }),
    {
        self.config()?;
        Ok(self.total_supply)
    }

    pub fn balance(&self, id: Address) -> (r: i128)
        requires
            self.wf(),
        ensures
            r == self.balances.amount(id),
    {
        self.balances.get(id)
    }

    pub fn total_supply(&self) -> (r: i128)
        ensures
            r == self.total_supply,
    {
        self.total_supply
    }

    pub fn decimals() -> (r: u32)
        ensures
            r == DECIMALS,
    {
        DECIMALS
    }

    pub fn name() -> (r: &'static str)
        ensures
            r@ == "Novaire Standardized Yield"@,
    {
        "Novaire Standardized Yield"
    }

    pub fn symbol() -> (r: &'static str)
        ensures
            r@ == "sSY"@,
    {
        "sSY"
    }

    /// The allowance in force at ledger `sequence`.
    pub open spec fn live_allowance(self, from: Address, spender: Address, sequence: u32) -> AllowanceValue {
        if self.allowances@.contains_key((from, spender)) && self.allowances@[(
            from,
            spender,
        )].expiration_ledger >= sequence {
            self.allowances@[(from, spender)]
        } else {
            AllowanceValue { amount: 0, expiration_ledger: 0 }
        }
    }

    fn read_allowance(&self, from: Address, spender: Address, sequence: u32) -> (r: AllowanceValue)
        requires
            self.wf(),
        ensures
            r == self.live_allowance(from, spender, sequence),
    {
        match self.allowances.get(from, spender) {
            Some(allowance) => if allowance.expiration_ledger >= sequence {
                allowance
            } else {
                AllowanceValue { amount: 0, expiration_ledger: 0 }
            },
            None => AllowanceValue { amount: 0, expiration_ledger: 0 },
        }
    }

    pub fn allowance(&self, sequence: u32, from: Address, spender: Address) -> (r: i128)
        requires
            self.wf(),
        ensures
            r == self.live_allowance(from, spender, sequence).amount,
    {
        self.read_allowance(from, spender, sequence).amount
    }

    /// How an allowance that was written is kept alive: until it expires.
    pub open spec fn allowance_ttl(value: AllowanceValue, sequence: u32) -> Option<TtlExtension> {
        if value.amount > 0 {
            let live_for = (value.expiration_ledger - sequence) as u32;
            Some(TtlExtension { threshold: live_for, extend_to: live_for })
        } else {
            None
        }
    }

    fn write_allowance(
        &mut self,
        sequence: u32,
        from: Address,
        spender: Address,
        value: AllowanceValue,
    ) -> (r: Option<TtlExtension>)
        requires
            old(self).wf(),
            value.amount > 0 ==> value.expiration_ledger >= sequence,
        ensures
            final(self).wf(),
            final(self).allowances@ == old(self).allowances@.insert((from, spender), value),
            *final(self) == (SyWrapper { allowances: final(self).allowances, ..*old(self) }),
            r == SyWrapper::allowance_ttl(value, sequence),
    {
        self.allowances.set(from, spender, value);
        if value.amount > 0 {
            let live_for: u32 = value.expiration_ledger - sequence;
            Some(TtlExtension { threshold: live_for, extend_to: live_for })
        } else {
            None
        }
    }

    /// Lets `spender` move up to `amount` of `from`'s shares through ledger
    /// `expiration_ledger`. The result says how long the entry has to be kept.
    /// `from` has authorized the call.
    pub fn approve(
        &mut self,
        sequence: u32,
        from: Address,
        spender: Address,
        amount: i128,
        expiration_ledger: u32,
    ) -> (r: Result<Option<TtlExtension>, Error>)
        requires
            old(self).wf(),
        ensures
            final(self).wf(),
            if amount < 0 {
                r == Err::<Option<TtlExtension>, Error>(Error::InvalidAmount) && *final(self)
                    == *old(self)
            } else if amount > 0 && expiration_ledger < sequence {
                r == Err::<Option<TtlExtension>, Error>(Error::InvalidExpiration) && *final(self)
                    == *old(self)
            } else {
                let value = AllowanceValue { amount, expiration_ledger };
                &&& r == Ok::<Option<TtlExtension>, Error>(
                    SyWrapper::allowance_ttl(value, sequence),
                )
                &&& final(self).allowances@ == old(self).allowances@.insert((from, spender), value)
                &&& *final(self) == (SyWrapper { allowances: final(self).allowances, ..*old(self) })
            },
    {
        if amount < 0 {
            return Err(Error::InvalidAmount);
        }
        if amount > 0 && expiration_ledger < sequence {
            return Err(Error::InvalidExpiration);
        }
        let value: AllowanceValue = AllowanceValue { amount, expiration_ledger };
        Ok(self.write_allowance(sequence, from, spender, value))
    }

    pub fn require_positive_amount(amount: i128) -> (r: Result<(), Error>)
        ensures
            r == (if amount <= 0 {
                Err::<(), Error>(Error::InvalidAmount)
            } else {
                Ok(())
            }),
    {
        if amount <= 0 {
            return Err(Error::InvalidAmount);
        }
        Ok(())
    }

    /// What moving `amount` shares comes to: `(principal that goes with them,
    /// the recipient's balance, the recipient's principal)`.
    pub open spec fn share_move(self, from: Address, to: Address, amount: i128) -> Result<
        (i128, i128, i128),
        Error,
    > {
        let from_balance = self.balances.amount(from);
        let from_principal = self.principals.amount(from);
        if amount <= 0 {
            Err(Error::InvalidAmount)
        } else if from_balance < amount {
            Err(Error::InsufficientBalance)
        } else {
            match pro_rata(from_principal, amount, from_balance) {
                Err(e) => Err(e),
                Ok(principal) => {
                    let to_balance = if to == from {
                        from_balance - amount
                    } else {
                        self.balances.amount(to) as int
                    };
                    let to_principal = if to == from {
                        from_principal - principal
                    } else {
                        self.principals.amount(to) as int
                    };
                    match sum(to_balance, amount as int) {
                        Err(e) => Err(e),
                        Ok(new_balance) => match sum(to_principal, principal as int) {
                            Err(e) => Err(e),
                            Ok(new_principal) => Ok((principal, new_balance, new_principal)),
                        },
                    }
                },
            }
        }
    }

    /// The vault after a move of shares that [`SyWrapper::share_move`] allows.
    pub open spec fn shares_moved(
        self,
        next: SyWrapper,
        from: Address,
        to: Address,
        amount: i128,
    ) -> bool {
        let (principal, new_balance, new_principal) = self.share_move(from, to, amount)->Ok_0;
        &&& next.balances@ == self.balances@.insert(
            from,
            (self.balances.amount(from) - amount) as i128,
        ).insert(to, new_balance)
        &&& next.principals@ == self.principals@.insert(
            from,
            (self.principals.amount(from) - principal) as i128,
        ).insert(to, new_principal)
        &&& next.balances.total() == self.balances.total()
        &&& next.principals.total() == self.principals.total()
        &&& next.total_supply == self.total_supply
        &&& next.config == self.config
        &&& next.governance == self.governance
        &&& next.emergency == self.emergency
    }

    fn move_balance(&mut self, from: Address, to: Address, amount: i128) -> (r: Result<(), Error>)
        requires
            old(self).wf(),
            0 < amount,
        ensures
            final(self).wf(),
            match old(self).share_move(from, to, amount) {
                Err(e) => r == Err::<(), Error>(e) && *final(self) == *old(self),
                Ok(_) => r is Ok && old(self).shares_moved(*final(self), from, to, amount)
                    && final(self).allowances == old(self).allowances,
            },
    {
        let from_balance: i128 = self.balances.get(from);
        if from_balance < amount {
            return Err(Error::InsufficientBalance);
        }
        let from_principal: i128 = self.principals.get(from);
        proof {
            self.balances.lemma_amount_within_total(from);
            self.balances.lemma_amount_within_total(to);
            self.principals.lemma_amount_within_total(from);
            self.principals.lemma_amount_within_total(to);
            lemma_part_within(from_principal as int, amount as int, from_balance as int);
        }
        let moved_principal: i128 = mul_div(from_principal, amount, from_balance)?;
        let from_left: i128 = from_balance - amount;
        let principal_left: i128 = sub_checked(from_principal, moved_principal)?;
        let to_balance: i128 = if to == from {
            from_left
        } else {
            self.balances.get(to)
        };
        let to_principal: i128 = if to == from {
            principal_left
        } else {
            self.principals.get(to)
        };
        let new_balance: i128 = add_checked(to_balance, amount)?;
        let new_principal: i128 = add_checked(to_principal, moved_principal)?;
        self.balances.set(from, from_left);
        self.balances.set(to, new_balance);
        self.principals.set(from, principal_left);
        self.principals.set(to, new_principal);
        Ok(())
    }

    /// Moves shares, and with them their part of the sender's principal, so
    /// that both sides' yield stays what it was. `from` has authorized the call.
    pub fn transfer(&mut self, from: Address, to: Address, amount: i128) -> (r: Result<(), Error>)
        requires
            old(self).wf(),
        ensures
            final(self).wf(),
            match old(self).share_move(from, to, amount) {
                Err(e) => r == Err::<(), Error>(e) && *final(self) == *old(self),
                Ok(_) => r is Ok && old(self).shares_moved(*final(self), from, to, amount)
                    && final(self).allowances == old(self).allowances,
            },
    {
        SyWrapper::require_positive_amount(amount)?;
        self.move_balance(from, to, amount)
    }

    /// Why `spender` may not move `amount` of `from`'s shares to `to`.
    pub open spec fn spending_rejection(
        self,
        sequence: u32,
        spender: Address,
        from: Address,
        to: Address,
        amount: i128,
    ) -> Option<Error> {
        if amount <= 0 {
            Some(Error::InvalidAmount)
        } else if self.live_allowance(from, spender, sequence).amount < amount {
            Some(Error::InsufficientAllowance)
        } else {
            match self.share_move(from, to, amount) {
                Err(e) => Some(e),
                Ok(_) => None,
            }
        }
    }

    /// Moves shares on an allowance, and uses it up by as much. The result says
    /// how long the allowance's entry has to be kept. `spender` has authorized
    /// the call.
    pub fn transfer_from(
        &mut self,
        sequence: u32,
        spender: Address,
        from: Address,
        to: Address,
        amount: i128,
    ) -> (r: Result<Option<TtlExtension>, Error>)
        requires
            old(self).wf(),
        ensures
            final(self).wf(),
            match old(self).spending_rejection(sequence, spender, from, to, amount) {
                Some(e) => r == Err::<Option<TtlExtension>, Error>(e) && *final(self)
                    == *old(self),
                None => {
                    let allowance = old(self).live_allowance(from, spender, sequence);
                    let left = AllowanceValue {
                        amount: (allowance.amount - amount) as i128,
                        ..allowance
                    };
                    &&& r == Ok::<Option<TtlExtension>, Error>(
                        SyWrapper::allowance_ttl(left, sequence),
                    )
                    &&& old(self).shares_moved(*final(self), from, to, amount)
                    &&& final(self).allowances@ == old(self).allowances@.insert(
                        (from, spender),
                        left,
                    )
                },
            },
    {
        SyWrapper::require_positive_amount(amount)?;
        let allowance: AllowanceValue = self.read_allowance(from, spender, sequence);
        if allowance.amount < amount {
            return Err(Error::InsufficientAllowance);
        }
        self.move_balance(from, to, amount)?;
        let left: AllowanceValue = AllowanceValue { amount: allowance.amount - amount, ..allowance };
        Ok(self.write_allowance(sequence, from, spender, left))
    }

    /// The exchange rate, given what backs the shares.
    pub open spec fn rate(self, backing: Backing) -> Result<i128, Error> {
        match self.config {
            None => Err(Error::NotInitialized),
            Some(config) => match backing_value(config, backing) {
                Err(e) => Err(e),
                Ok(assets) => match derived_rate(assets as int, self.total_supply as int) {
                    None => Err(Error::MathOverflow),
                    Some(rate) => Ok(rate),
                },
            },
        }
    }

    /// A reading of what backs the shares: idle custody after a wind-down, the
    /// pool position before.
    pub open spec fn backed_by(self, backing: Backing) -> bool {
        self.emergency <==> backing is Idle
    }

    /// Assets per share, from a reading of what backs the shares. It is never
    /// stored.
    pub fn exchange_rate(&self, backing: &Backing) -> (r: Result<i128, Error>)
        requires
            self.backed_by(*backing),
        ensures
            r == self.rate(*backing),
            r matches Ok(rate) ==> exists|value: int|
                {
                    &&& #[trigger] backed_with(self.config->0, *backing, value)
                    &&& share_worth(rate as int, value, self.total_supply as int)
                },
    {
        proof {
            if self.rate(*backing) is Ok {
                let value = lemma_rate_is_backing_by_supply(*self, *backing);
                assert(backed_with(self.config->0, *backing, value));
            }
        }
        let config: Config = self.config()?;
        let assets: i128 = match backing {
            Backing::Idle(balance) => *balance,
            Backing::Position(reading) => blend_assets_under_management(&config, reading)?,
        };
        match derived_exchange_rate(assets, self.total_supply) {
            Some(value) => Ok(value),
            None => Err(Error::MathOverflow),
        }
    }

    pub fn underlying(&self) -> (r: Result<Address, Error>)
        ensures
            r == (match self.config {
                None => Err::<Address, Error>(Error::NotInitialized),
                Some(config) => Ok(config.underlying),
            }),
    {
        Ok(self.config()?.underlying)
    }

    /// What `holder`'s shares are worth beyond the principal paid in for them.
    pub fn accrued_yield(&self, holder: Address, backing: &Backing) -> (r: Result<i128, Error>)
        requires
            self.wf(),
            self.backed_by(*backing),
        ensures
            r == (match self.rate(*backing) {
                Err(e) => Err::<i128, Error>(e),
                Ok(rate) => match mul_div_value(
                    self.balances.amount(holder) as int,
                    rate as int,
                    WAD as int,
                ) {
                    Err(e) => Err(e),
                    Ok(value) => {
                        let gain = value - self.principals.amount(holder);
                        Ok(
                            if gain < i128::MIN {
                                i128::MIN
                            } else {
                                gain as i128
                            },
                        )
                    },
                },
            }),
    {
        let rate: i128 = self.exchange_rate(backing)?;
        let shares: i128 = self.balances.get(holder);
        let principal: i128 = self.principals.get(holder);
        let current_value: i128 = mul_div(shares, rate, WAD)?;
        proof {
            self.principals.lemma_amount_within_total(holder);
        }
        match current_value.checked_sub(principal) {
            Some(gain) => Ok(gain),
            None => Ok(i128::MIN),
        }
    }
}

/// A part of an amount lies within it.
pub proof fn lemma_part_within(amount: int, part: int, whole: int)
    requires
        0 <= amount,
        0 <= part <= whole,
        0 < whole,
    ensures
        0 <= amount * part,
        0 <= amount * part / whole <= amount,
{
    let n = amount * part;
    assert(0 <= n / whole <= amount && 0 <= n) by (nonlinear_arith)
        requires
            n == amount * part,
            0 <= amount,
            0 <= part <= whole,
            0 < whole,
    ;
}

} // verus!
