//! The market contract: its record, its governance and its readings.
use super::checked::BPS_DENOMINATOR;
use super::pricing::{MAX_ANCHOR, MAX_SCALAR_ROOT};
use super::trade::{warmup_fits, ProtocolFees, MAX_PROTOCOL_FEE_SHARE_BPS};
use super::types::{
    AdminChanged, AdminProposed, Config, Error, PauseChanged, ProtocolFeeChanged, State,
    UpgradeProposed,
};
use crate::address::{Address, PendingUpgrade, Transfer, TtlExtension, WasmHash};
use crate::arith::{fits, WAD};
use crate::governance::{touched_ttl, ttl_extension, Governance, UPGRADE_TIMELOCK_SECONDS};
use crate::ledger::Ledger;
use vstd::prelude::*;

verus! {

/// Liquidity shares of the first deposit that nobody ever holds.
pub const MINIMUM_LIQUIDITY: i128 = 1_000;

/// A market for one principal token. The reserves are what `state` says, never
/// what the contract happens to hold: tokens sent to it outside of a trade do
/// not move the curve.
#[derive(Debug)]
pub struct AmmMarket {
    pub config: Option<Config>,
    pub state: Option<State>,
    pub governance: Governance,
    pub fees: ProtocolFees,
    pub past_claims: PastClaims,
    pub lp_balances: Ledger,
}

/// Accrued fees that belong to former treasuries. Naming another treasury does
/// not touch them.
#[derive(Debug)]
pub struct PastClaims {
    pub owed: Ledger,
    /// What all of them are owed together.
    pub total: i128,
}

impl PastClaims {
    pub open spec fn wf(self) -> bool {
        &&& self.owed.wf()
        &&& self.owed.nonnegative()
        &&& self.owed.total() <= self.total
    }

    pub fn none() -> (r: PastClaims)
        ensures
            r.wf(),
            r.owed@ == Map::<Address, i128>::empty(),
            r.total == 0,
    {
        PastClaims { owed: Ledger::new(), total: 0 }
    }
}

/// The fault of a set of market parameters.
pub open spec fn config_fault(config: Config, now: u64) -> Option<Error> {
    if config.maturity <= now {
        Some(Error::InvalidMaturity)
    } else if config.scalar_root <= 0 {
        Some(Error::InvalidScalarRoot)
    } else if config.scalar_root > MAX_SCALAR_ROOT {
        Some(Error::InputOutOfBounds)
    } else if config.initial_anchor < WAD {
        Some(Error::InvalidAnchor)
    } else if config.initial_anchor > MAX_ANCHOR {
        Some(Error::InputOutOfBounds)
    } else if !(0 <= config.fee_bps < BPS_DENOMINATOR) {
        Some(Error::InvalidFee)
    } else if config.twap_window == 0 {
        Some(Error::InvalidTwapWindow)
    } else {
        None
    }
}

/// An empty market that starts to warm up at `now`.
pub open spec fn unseeded(config: Config, now: u64) -> State {
    State {
        total_pt: 0,
        total_sy: 0,
        total_lp: 0,
        last_ln_implied_rate: 0,
        twap_ln_implied_rate: 0,
        last_observation: now,
        warmup_until: (now + config.twap_window) as u64,
    }
}

impl AmmMarket {
    /// What holds of a market at all times.
    pub open spec fn wf(self) -> bool {
        &&& self.config is Some <==> self.state is Some
        &&& self.config matches Some(config) ==> config.wf()
        &&& self.state matches Some(state) ==> state.wf()
        &&& self.governance.wf()
        &&& self.fees.wf()
        &&& self.past_claims.wf()
        &&& self.past_claims.total <= self.fees.accrued
        &&& self.fees.treasury is None ==> self.fees.share_bps == 0 && self.fees.accrued == 0
        &&& self.lp_balances.wf()
        &&& self.lp_balances.nonnegative()
        &&& self.lp_backed()
    }

    /// The liquidity shares that holders have are part of the recorded total,
    /// beside the minimum that nobody has.
    pub open spec fn lp_backed(self) -> bool {
        match self.state {
            Some(state) => if state.total_lp == 0 {
                self.lp_balances.total() == 0
            } else {
                self.lp_balances.total() + MINIMUM_LIQUIDITY <= state.total_lp
            },
            None => self.lp_balances.total() == 0,
        }
    }

    /// What `holder` may withdraw of the accrued fees: what accrued while they
    /// were the treasury and was not withdrawn since.
    pub open spec fn fees_owed(self, holder: Address) -> int {
        self.past_claims.owed.amount(holder) + (if self.fees.treasury == Some(holder) {
            self.fees.accrued - self.past_claims.total
        } else {
            0
        })
    }

    /// What every address is owed is part of what has accrued.
    pub proof fn lemma_fees_owed(self, holder: Address)
        requires
            self.wf(),
        ensures
            0 <= self.past_claims.owed.amount(holder) <= self.past_claims.total
                <= self.fees.accrued,
            0 <= self.fees_owed(holder) <= self.fees.accrued,
    {
        self.past_claims.owed.lemma_amount_within_total(holder);
    }

    /// Why `caller` may not act as admin.
    pub open spec fn admin_rejection(self, caller: Address) -> Option<Error> {
        match self.config {
            None => Some(Error::NotInitialized),
            Some(config) => if caller != config.admin {
                Some(Error::NotAuthorized)
            } else {
                None
            },
        }
    }

    /// Why `caller` may not use a power that ends when governance is renounced.
    pub open spec fn governor_rejection(self, caller: Address) -> Option<Error> {
        match self.admin_rejection(caller) {
            Some(e) => Some(e),
            None => if self.governance.renounced {
                Some(Error::NotAuthorized)
            } else {
                None
            },
        }
    }

    /// The end of a warm-up that a trade at `now` may start is representable.
    pub open spec fn warmup_fits(self, now: u64) -> bool {
        self.config matches Some(config) ==> self.state matches Some(state) ==> now
            < config.maturity ==> warmup_fits(config, state, now)
    }

    pub fn new() -> (market: AmmMarket)
        ensures
            market.wf(),
            market.config is None,
            market.governance == Governance::spec_initial(),
            market.fees == (ProtocolFees { share_bps: 0, treasury: None, accrued: 0 }),
            market.past_claims.owed@ == Map::<Address, i128>::empty(),
            market.past_claims.total == 0,
            market.lp_balances@ == Map::<Address, i128>::empty(),
    {
        AmmMarket {
            config: None,
            state: None,
            governance: Governance::initial(),
            fees: ProtocolFees { share_bps: 0, treasury: None, accrued: 0 },
            past_claims: PastClaims::none(),
            lp_balances: Ledger::new(),
        }
    }

    /// A market from its stored parts, if they make one that is well-formed.
    pub fn restore(
        config: Option<Config>,
        state: Option<State>,
        governance: Governance,
        fees: ProtocolFees,
        past_claims: PastClaims,
        lp_balances: Ledger,
    ) -> (r: Option<AmmMarket>)
        requires
            past_claims.owed.wf(),
            lp_balances.wf(),
        ensures
            ({
                let market = AmmMarket {
                    config,
                    state,
                    governance,
                    fees,
                    past_claims,
                    lp_balances,
                };
                r == (if market.wf() {
                    Some(market)
                } else {
                    None
                })
            }),
    {
        let parts_agree: bool = match (config, state) {
            (None, None) => lp_balances.sums_within(0),
            (Some(config), Some(state)) => {
                let limit: i128 = if state.total_lp == 0 {
                    0
                } else if state.total_lp < MINIMUM_LIQUIDITY {
                    -1
                } else {
                    state.total_lp - MINIMUM_LIQUIDITY
                };
                config.is_sound() && state.is_sound() && lp_balances.sums_within(limit)
            },
            _ => false,
        };
        proof {
            if lp_balances.nonnegative() {
                lp_balances.lemma_total_nonnegative();
            }
        }
        let claims_agree: bool = past_claims.owed.sums_within(past_claims.total)
            && past_claims.total <= fees.accrued && (fees.treasury.is_some() || (fees.share_bps == 0
            && fees.accrued == 0));
        if parts_agree && claims_agree && !(governance.renounced
            && governance.pending_upgrade.is_some()) && 0 <= fees.share_bps && fees.share_bps
            <= MAX_PROTOCOL_FEE_SHARE_BPS && 0 <= fees.accrued {
            Some(AmmMarket { config, state, governance, fees, past_claims, lp_balances })
        } else {
            None
        }
    }

    /// Whether the end of a warm-up that a trade at `now` may start is
    /// representable.
    pub fn can_observe(&self, now: u64) -> (r: bool)
        ensures
            r == self.warmup_fits(now),
    {
        match (self.config, self.state) {
            (Some(config), Some(state)) => {
                now >= config.maturity || now.saturating_sub(state.last_observation)
                    < config.twap_window || now.checked_add(config.twap_window).is_some()
            },
            _ => true,
        }
    }

    /// Sets the market up. `admin` has authorized the call.
    pub fn initialize(
        &mut self,
        now: u64,
        admin: Address,
        pt_token: Address,
        sy_token: Address,
        yt_token: Address,
        tokenizer: Address,
        maturity: u64,
        scalar_root: i128,
        initial_anchor: i128,
        fee_bps: i128,
        twap_window: u64,
    ) -> (r: Result<(), Error>)
        requires
            old(self).wf(),
            ({
                let config = Config {
                    admin,
                    pt_token,
                    sy_token,
                    yt_token,
                    tokenizer,
                    maturity,
                    scalar_root,
                    initial_anchor,
                    fee_bps,
                    twap_window,
                };
                old(self).config is None && config_fault(config, now) is None ==> now + twap_window
                    <= u64::MAX
            }),
        ensures
            final(self).wf(),
            ({
                let config = Config {
                    admin,
                    pt_token,
                    sy_token,
                    yt_token,
                    tokenizer,
                    maturity,
                    scalar_root,
                    initial_anchor,
                    fee_bps,
                    twap_window,
                };
                if old(self).config is Some {
                    r == Err::<(), Error>(Error::AlreadyInitialized) && *final(self) == *old(self)
                } else {
                    match config_fault(config, now) {
                        Some(e) => r == Err::<(), Error>(e) && *final(self) == *old(self),
                        None => r is Ok && *final(self) == (AmmMarket {
                            config: Some(config),
                            state: Some(unseeded(config, now)),
                            ..*old(self)
                        }),
                    }
                }
            }),
    {
        if self.config.is_some() {
            return Err(Error::AlreadyInitialized);
        }
        if maturity <= now {
            return Err(Error::InvalidMaturity);
        }
        if scalar_root <= 0 {
            return Err(Error::InvalidScalarRoot);
        }
        if scalar_root > MAX_SCALAR_ROOT {
            return Err(Error::InputOutOfBounds);
        }
        if initial_anchor < WAD {
            return Err(Error::InvalidAnchor);
        }
        if initial_anchor > MAX_ANCHOR {
            return Err(Error::InputOutOfBounds);
        }
        if fee_bps < 0 || fee_bps >= BPS_DENOMINATOR {
            return Err(Error::InvalidFee);
        }
        if twap_window == 0 {
            return Err(Error::InvalidTwapWindow);
        }
        self.config = Some(
            Config {
                admin,
                pt_token,
                sy_token,
                yt_token,
                tokenizer,
                maturity,
                scalar_root,
                initial_anchor,
                fee_bps,
                twap_window,
            },
        );
        self.state = Some(
            State {
                total_pt: 0,
                total_sy: 0,
                total_lp: 0,
                last_ln_implied_rate: 0,
                twap_ln_implied_rate: 0,
                last_observation: now,
                warmup_until: now + twap_window,
            },
        );
        Ok(())
    }

    pub fn config(&self) -> (r: Result<Config, Error>)
        ensures
            r == self.config.ok_or(Error::NotInitialized),
    {
        match self.config {
            Some(config) => Ok(config),
            None => Err(Error::NotInitialized),
        }
    }

    pub fn state(&self) -> (r: Result<State, Error>)
        ensures
            r == self.state.ok_or(Error::NotInitialized),
    {
        match self.state {
            Some(state) => Ok(state),
            None => Err(Error::NotInitialized),
        }
    }

    /// Lets `caller` act as admin.
    fn require_admin(&self, caller: Address) -> (r: Result<Config, Error>)
        ensures
            match self.admin_rejection(caller) {
                Some(e) => r == Err::<Config, Error>(e),
                None => r == Ok::<Config, Error>(self.config->0),
            },
    {
        let config: Config = self.config()?;
        if caller != config.admin {
            return Err(Error::NotAuthorized);
        }
        Ok(config)
    }

    /// Lets `caller` use a power that ends when governance is renounced.
    fn require_governor(&self, caller: Address) -> (r: Result<Config, Error>)
        ensures
            match self.governor_rejection(caller) {
                Some(e) => r == Err::<Config, Error>(e),
                None => r == Ok::<Config, Error>(self.config->0),
            },
    {
        let config: Config = self.require_admin(caller)?;
        if self.governance.renounced {
            return Err(Error::NotAuthorized);
        }
        Ok(config)
    }

    /// Nominates a new admin, who is not in force before accepting.
    pub fn propose_admin(&mut self, caller: Address, new_admin: Address) -> (r: Result<
        AdminProposed,
        Error,
    >)
        requires
            old(self).wf(),
        ensures
            final(self).wf(),
            match old(self).admin_rejection(caller) {
                Some(e) => r == Err::<AdminProposed, Error>(e) && *final(self) == *old(self),
                None => r == Ok::<AdminProposed, Error>(AdminProposed { new_admin })
                    && *final(self) == (AmmMarket {
                    governance: Governance {
                        pending_admin: Some(new_admin),
                        ..old(self).governance
                    },
                    ..*old(self)
                }),
            },
    {
        self.require_admin(caller)?;
        self.governance.pending_admin = Some(new_admin);
        Ok(AdminProposed { new_admin })
    }

    /// Completes the transfer to the nominated admin, who must be the caller.
    pub fn accept_admin(&mut self, caller: Address) -> (r: Result<AdminChanged, Error>)
        requires
            old(self).wf(),
        ensures
            final(self).wf(),
            match (old(self).config, old(self).governance.pending_admin) {
                (None, _) => r == Err::<AdminChanged, Error>(Error::NotInitialized) && *final(self)
                    == *old(self),
                (Some(_), None) => r == Err::<AdminChanged, Error>(Error::NotPendingAdmin)
                    && *final(self) == *old(self),
                (Some(config), Some(pending)) => if caller != pending {
                    r == Err::<AdminChanged, Error>(Error::NotAuthorized) && *final(self) == *old(self)
                } else {
                    r == Ok::<AdminChanged, Error>(
                        AdminChanged { previous: config.admin, current: pending },
                    ) && *final(self) == (AmmMarket {
                        config: Some(Config { admin: pending, ..config }),
                        governance: Governance { pending_admin: None, ..old(self).governance },
                        ..*old(self)
                    })
                },
            },
    {
        let config: Config = self.config()?;
        match self.governance.pending_admin {
            None => Err(Error::NotPendingAdmin),
            Some(pending) => {
                if caller != pending {
                    return Err(Error::NotAuthorized);
                }
                self.config = Some(Config { admin: pending, ..config });
                self.governance.pending_admin = None;
                Ok(AdminChanged { previous: config.admin, current: pending })
            },
        }
    }

    pub fn pending_admin(&self) -> (r: Option<Address>)
        ensures
            r == self.governance.pending_admin,
    {
        self.governance.pending_admin
    }

    /// Appoints who may pause but never unpause.
    pub fn set_guardian(&mut self, caller: Address, guardian: Address) -> (r: Result<(), Error>)
        requires
            old(self).wf(),
        ensures
            final(self).wf(),
            match old(self).admin_rejection(caller) {
                Some(e) => r == Err::<(), Error>(e) && *final(self) == *old(self),
                None => r is Ok && *final(self) == (AmmMarket {
                    governance: Governance { guardian: Some(guardian), ..old(self).governance },
                    ..*old(self)
                }),
            },
    {
        self.require_admin(caller)?;
        self.governance.guardian = Some(guardian);
        Ok(())
    }

    /// The guardian; the admin where none was appointed.
    pub fn guardian(&self) -> (r: Result<Address, Error>)
        ensures
            r == (match self.config {
                None => Err::<Address, Error>(Error::NotInitialized),
                Some(config) => Ok(self.governance.spec_guardian_under(config.admin)),
            }),
    {
        let config: Config = self.config()?;
        Ok(self.governance.guardian_under(config.admin))
    }

    pub fn is_paused(&self) -> (r: bool)
        ensures
            r == self.governance.paused,
    {
        self.governance.paused
    }

    /// Halts the four swaps and `add_liquidity`, for guardian or admin. Exits
    /// and quotes stay open.
    pub fn pause(&mut self, caller: Address) -> (r: Result<PauseChanged, Error>)
        requires
            old(self).wf(),
        ensures
            final(self).wf(),
            match old(self).config {
                None => r == Err::<PauseChanged, Error>(Error::NotInitialized) && *final(self)
                    == *old(self),
                Some(config) => if !old(self).governance.spec_may_pause(config.admin, caller) {
                    r == Err::<PauseChanged, Error>(Error::NotAuthorized) && *final(self) == *old(self)
                } else {
                    r == Ok::<PauseChanged, Error>(PauseChanged { paused: true }) && *final(self)
                        == (AmmMarket {
                        governance: Governance { paused: true, ..old(self).governance },
                        ..*old(self)
                    })
                },
            },
    {
        let config: Config = self.config()?;
        if !self.governance.may_pause(config.admin, caller) {
            return Err(Error::NotAuthorized);
        }
        self.governance.paused = true;
        Ok(PauseChanged { paused: true })
    }

    /// Resumes trading, for the admin alone.
    pub fn unpause(&mut self, caller: Address) -> (r: Result<PauseChanged, Error>)
        requires
            old(self).wf(),
        ensures
            final(self).wf(),
            match old(self).admin_rejection(caller) {
                Some(e) => r == Err::<PauseChanged, Error>(e) && *final(self) == *old(self),
                None => r == Ok::<PauseChanged, Error>(PauseChanged { paused: false })
                    && *final(self) == (AmmMarket {
                    governance: Governance { paused: false, ..old(self).governance },
                    ..*old(self)
                }),
            },
    {
        self.require_admin(caller)?;
        self.governance.paused = false;
        Ok(PauseChanged { paused: false })
    }

    /// Announces new code, which may run once the timelock has passed.
    pub fn propose_upgrade(&mut self, now: u64, caller: Address, wasm_hash: WasmHash) -> (r: Result<
        UpgradeProposed,
        Error,
    >)
        requires
            old(self).wf(),
        ensures
            final(self).wf(),
            match old(self).governor_rejection(caller) {
                Some(e) => r == Err::<UpgradeProposed, Error>(e) && *final(self) == *old(self),
                None => if now + UPGRADE_TIMELOCK_SECONDS > u64::MAX {
                    r == Err::<UpgradeProposed, Error>(Error::MathOverflow) && *final(self) == *old(self)
                } else {
                    let eta = (now + UPGRADE_TIMELOCK_SECONDS) as u64;
                    r == Ok::<UpgradeProposed, Error>(UpgradeProposed { wasm_hash, eta })
                        && *final(self) == (AmmMarket {
                        governance: Governance {
                            pending_upgrade: Some(PendingUpgrade { wasm_hash, eta }),
                            ..old(self).governance
                        },
                        ..*old(self)
                    })
                },
            },
    {
        self.require_governor(caller)?;
        match now.checked_add(UPGRADE_TIMELOCK_SECONDS) {
            None => Err(Error::MathOverflow),
            Some(eta) => {
                self.governance.pending_upgrade = Some(PendingUpgrade { wasm_hash, eta });
                Ok(UpgradeProposed { wasm_hash, eta })
            },
        }
    }

    pub fn pending_upgrade(&self) -> (r: Option<PendingUpgrade>)
        ensures
            r == self.governance.pending_upgrade,
    {
        self.governance.pending_upgrade
    }

    pub fn cancel_upgrade(&mut self, caller: Address) -> (r: Result<(), Error>)
        requires
            old(self).wf(),
        ensures
            final(self).wf(),
            match old(self).admin_rejection(caller) {
                Some(e) => r == Err::<(), Error>(e) && *final(self) == *old(self),
                None => r is Ok && *final(self) == (AmmMarket {
                    governance: Governance { pending_upgrade: None, ..old(self).governance },
                    ..*old(self)
                }),
            },
    {
        self.require_admin(caller)?;
        self.governance.pending_upgrade = None;
        Ok(())
    }

    /// Hands out the announced code to run, once its time has come.
    pub fn execute_upgrade(&mut self, now: u64, caller: Address) -> (r: Result<WasmHash, Error>)
        requires
            old(self).wf(),
        ensures
            final(self).wf(),
            match old(self).admin_rejection(caller) {
                Some(e) => r == Err::<WasmHash, Error>(e) && *final(self) == *old(self),
                None => match old(self).governance.spec_due_upgrade(now) {
                    None => r == Err::<WasmHash, Error>(Error::UpgradeNotReady) && *final(self)
                        == *old(self),
                    Some(upgrade) => r == Ok::<WasmHash, Error>(upgrade.wasm_hash) && *final(self)
                        == (AmmMarket {
                        governance: Governance { pending_upgrade: None, ..old(self).governance },
                        ..*old(self)
                    }),
                },
            },
    {
        self.require_admin(caller)?;
        match self.governance.due_upgrade(now) {
            None => Err(Error::UpgradeNotReady),
            Some(upgrade) => {
                self.governance.pending_upgrade = None;
                Ok(upgrade.wasm_hash)
            },
        }
    }

    /// Gives up pausing, upgrades, sweeps and fee changes for good.
    pub fn renounce_admin(&mut self, caller: Address) -> (r: Result<(), Error>)
        requires
            old(self).wf(),
        ensures
            final(self).wf(),
            match old(self).admin_rejection(caller) {
                Some(e) => r == Err::<(), Error>(e) && *final(self) == *old(self),
                None => r is Ok && *final(self) == (AmmMarket {
                    governance: old(self).governance.spec_renounced(),
                    ..*old(self)
                }),
            },
    {
        self.require_admin(caller)?;
        self.governance.pending_upgrade = None;
        self.governance.pending_admin = None;
        self.governance.renounced = true;
        Ok(())
    }

    pub fn is_renounced(&self) -> (r: bool)
        ensures
            r == self.governance.renounced,
    {
        self.governance.renounced
    }

    /// Routes `share_bps` of the swap fee to `treasury`. What has accrued so far
    /// stays with the treasury that it accrued to.
    pub fn set_protocol_fee(&mut self, caller: Address, share_bps: i128, treasury: Address) -> (r:
        Result<ProtocolFeeChanged, Error>)
        requires
            old(self).wf(),
        ensures
            final(self).wf(),
            match old(self).governor_rejection(caller) {
                Some(e) => r == Err::<ProtocolFeeChanged, Error>(e) && *final(self) == *old(self),
                None => if !(0 <= share_bps <= MAX_PROTOCOL_FEE_SHARE_BPS) {
                    r == Err::<ProtocolFeeChanged, Error>(Error::InvalidProtocolFee) && *final(self)
                        == *old(self)
                } else {
                    &&& r == Ok::<ProtocolFeeChanged, Error>(
                        ProtocolFeeChanged { share_bps, treasury },
                    )
                    &&& *final(self) == (AmmMarket {
                        fees: ProtocolFees {
                            share_bps,
                            treasury: Some(treasury),
                            ..old(self).fees
                        },
                        past_claims: final(self).past_claims,
                        ..*old(self)
                    })
                    &&& match old(self).fees.treasury {
                        Some(former) if former != treasury => {
                            &&& final(self).past_claims.owed@ == old(self).past_claims.owed@.insert(
                                former,
                                old(self).fees_owed(former) as i128,
                            )
                            &&& final(self).past_claims.total == old(self).fees.accrued
                        },
                        _ => final(self).past_claims == old(self).past_claims,
                    }
                    &&& forall|holder: Address| #[trigger]
                        final(self).fees_owed(holder) == old(self).fees_owed(holder)
                },
            },
    {
        self.require_governor(caller)?;
        if share_bps < 0 || share_bps > MAX_PROTOCOL_FEE_SHARE_BPS {
            return Err(Error::InvalidProtocolFee);
        }
        proof {
            self.lemma_fees_owed(treasury);
        }
        if let Some(former) = self.fees.treasury {
            if former != treasury {
                let ghost before = self.past_claims;
                proof {
                    self.lemma_fees_owed(former);
                }
                let due: i128 = self.fees.accrued - self.past_claims.total;
                let owed: i128 = self.past_claims.owed.get(former) + due;
                self.past_claims.owed.set(former, owed);
                self.past_claims.total = self.fees.accrued;
                assert forall|holder: Address|
                    self.past_claims.owed.amount(holder) == (if holder == former {
                        owed
                    } else {
                        #[trigger] before.owed.amount(holder)
                    }) by {}
            }
        }
        self.fees.share_bps = share_bps;
        self.fees.treasury = Some(treasury);
        Ok(ProtocolFeeChanged { share_bps, treasury })
    }

    pub fn protocol_fee_share_bps(&self) -> (r: i128)
        ensures
            r == self.fees.share_bps,
    {
        self.fees.share_bps
    }

    /// All fees that have accrued and were not withdrawn.
    pub fn protocol_fees_accrued(&self) -> (r: i128)
        ensures
            r == self.fees.accrued,
    {
        self.fees.accrued
    }

    /// What `holder` may withdraw of the accrued fees.
    pub fn protocol_fees_owed(&self, holder: Address) -> (r: i128)
        requires
            self.wf(),
        ensures
            r == self.fees_owed(holder),
    {
        proof {
            self.lemma_fees_owed(holder);
        }
        let past: i128 = self.past_claims.owed.get(holder);
        match self.fees.treasury {
            Some(treasury) => if treasury == holder {
                past + (self.fees.accrued - self.past_claims.total)
            } else {
                past
            },
            None => past,
        }
    }

    /// Pays `caller` what they are owed of the accrued fees: what accrued while
    /// they were the treasury. Not even the admin can redirect it.
    pub fn withdraw_protocol_fees(&mut self, caller: Address) -> (r: Result<Transfer, Error>)
        requires
            old(self).wf(),
        ensures
            final(self).wf(),
            match (old(self).config, old(self).fees.treasury) {
                (None, _) => r == Err::<Transfer, Error>(Error::NotInitialized) && *final(self)
                    == *old(self),
                (Some(_), None) => r == Err::<Transfer, Error>(Error::InvalidProtocolFee)
                    && *final(self) == *old(self),
                (Some(config), Some(treasury)) => if old(self).fees_owed(caller) <= 0 {
                    &&& *final(self) == *old(self)
                    &&& r == Err::<Transfer, Error>(
                        if caller != treasury {
                            Error::NotAuthorized
                        } else {
                            Error::InvalidAmount
                        },
                    )
                } else {
                    let amount = old(self).fees_owed(caller) as i128;
                    &&& r == Ok::<Transfer, Error>(
                        Transfer { token: config.sy_token, holder: caller, amount },
                    )
                    &&& *final(self) == (AmmMarket {
                        fees: ProtocolFees {
                            accrued: (old(self).fees.accrued - amount) as i128,
                            ..old(self).fees
                        },
                        past_claims: final(self).past_claims,
                        ..*old(self)
                    })
                    &&& final(self).past_claims.owed@ == old(self).past_claims.owed@.insert(
                        caller,
                        0,
                    )
                    &&& final(self).past_claims.total == old(self).past_claims.total - old(self).past_claims.owed.amount(caller)
                    &&& final(self).fees_owed(caller) == 0
                    &&& forall|holder: Address|
                        holder != caller ==> #[trigger] final(self).fees_owed(holder) == old(self).fees_owed(holder)
                },
            },
    {
        let config: Config = self.config()?;
        match self.fees.treasury {
            None => Err(Error::InvalidProtocolFee),
            Some(treasury) => {
                let amount: i128 = self.protocol_fees_owed(caller);
                if amount <= 0 {
                    if caller != treasury {
                        return Err(Error::NotAuthorized);
                    }
                    return Err(Error::InvalidAmount);
                }
                let ghost before = self.past_claims;
                proof {
                    self.lemma_fees_owed(caller);
                }
                let past: i128 = self.past_claims.owed.get(caller);
                self.past_claims.owed.set(caller, 0);
                self.past_claims.total = self.past_claims.total - past;
                self.fees.accrued = self.fees.accrued - amount;
                assert forall|holder: Address|
                    self.past_claims.owed.amount(holder) == (if holder == caller {
                        0
                    } else {
                        #[trigger] before.owed.amount(holder)
                    }) by {}
                Ok(Transfer { token: config.sy_token, holder: caller, amount })
            },
        }
    }

    /// Why `caller` may not move `token_id` out of the pool.
    pub open spec fn sweep_rejection(self, caller: Address, token_id: Address) -> Option<Error> {
        match self.governor_rejection(caller) {
            Some(e) => Some(e),
            None => if token_id == self.config->0.pt_token || token_id == self.config->0.sy_token {
                Some(Error::ProtectedAsset)
            } else {
                None
            },
        }
    }

    /// Whether `caller` may move `token_id` out of the pool.
    pub fn require_sweepable(&self, caller: Address, token_id: Address) -> (r: Result<(), Error>)
        ensures
            match self.sweep_rejection(caller, token_id) {
                Some(e) => r == Err::<(), Error>(e),
                None => r is Ok,
            },
    {
        let config: Config = self.require_governor(caller)?;
        if token_id == config.pt_token || token_id == config.sy_token {
            return Err(Error::ProtectedAsset);
        }
        Ok(())
    }

    /// Moves the contract's whole `balance` of a token that is not part of the
    /// market to `to`. The reserves cannot be swept.
    pub fn sweep(&self, caller: Address, token_id: Address, to: Address, balance: i128) -> (r:
        Result<Transfer, Error>)
        ensures
            match self.sweep_rejection(caller, token_id) {
                Some(e) => r == Err::<Transfer, Error>(e),
                None => if balance <= 0 {
                    r == Err::<Transfer, Error>(Error::InvalidAmount)
                } else {
                    r == Ok::<Transfer, Error>(
                        Transfer { token: token_id, holder: to, amount: balance },
                    )
                },
            },
    {
        self.require_sweepable(caller, token_id)?;
        if balance <= 0 {
            return Err(Error::InvalidAmount);
        }
        Ok(Transfer { token: token_id, holder: to, amount: balance })
    }

    /// Principal tokens that back the curve.
    pub fn reserve_pt(&self) -> (r: Result<i128, Error>)
        requires
            self.wf(),
        ensures
            r == (match self.state {
                None => Err::<i128, Error>(Error::NotInitialized),
                Some(state) => Ok(state.total_pt),
            }),
    {
        self.config()?;
        Ok(self.state()?.total_pt)
    }

    /// Shares that back the curve.
    pub fn reserve_sy(&self) -> (r: Result<i128, Error>)
        requires
            self.wf(),
        ensures
            r == (match self.state {
                None => Err::<i128, Error>(Error::NotInitialized),
                Some(state) => Ok(state.total_sy),
            }),
    {
        self.config()?;
        Ok(self.state()?.total_sy)
    }

    /// `(pt, sy)` that the contract holds beyond what backs the curve, given
    /// what it holds in all. A negative value is shown as it is.
    pub fn untracked_balance(&self, pt_balance: i128, sy_balance: i128) -> (r: Result<
        (i128, i128),
        Error,
    >)
        requires
            self.wf(),
            self.state matches Some(state) ==> fits(pt_balance - state.total_pt) && fits(
                sy_balance - state.total_sy,
            ),
        ensures
            r == (match self.state {
                None => Err::<(i128, i128), Error>(Error::NotInitialized),
                Some(state) => Ok(
                    (
                        (pt_balance - state.total_pt) as i128,
                        (sy_balance - state.total_sy) as i128,
                    ),
                ),
            }),
    {
        self.config()?;
        let state: State = self.state()?;
        Ok((pt_balance - state.total_pt, sy_balance - state.total_sy))
    }

    pub fn total_lp(&self) -> (r: Result<i128, Error>)
        ensures
            r == (match self.state {
                None => Err::<i128, Error>(Error::NotInitialized),
                Some(state) => Ok(state.total_lp),
            }),
    {
        Ok(self.state()?.total_lp)
    }

    /// Keeps the contract's own storage alive.
    pub fn bump_ttl(&self) -> (r: Result<TtlExtension, Error>)
        ensures
            r == (match self.config {
                None => Err::<TtlExtension, Error>(Error::NotInitialized),
                Some(_) => Ok(touched_ttl()),
            }),
    {
        self.config()?;
        Ok(ttl_extension())
    }

    /// Keeps `holder`'s entry alive, where there is one.
    pub fn bump_lp_ttl(&self, holder: Address) -> (r: Result<Option<TtlExtension>, Error>)
        requires
            self.wf(),
        ensures
            r == (match self.config {
                None => Err::<Option<TtlExtension>, Error>(Error::NotInitialized),
                Some(_) => Ok(
                    if self.lp_balances@.contains_key(holder) {
                        Some(touched_ttl())
                    } else {
                        None
                    },
                ),
            }),
    {
        self.config()?;
        if self.lp_balances.contains(holder) {
            Ok(Some(ttl_extension()))
        } else {
            Ok(None)
        }
    }

    pub fn lp_balance(&self, holder: Address) -> (r: Result<i128, Error>)
        requires
            self.wf(),
        ensures
            r == (match self.config {
                None => Err::<i128, Error>(Error::NotInitialized),
                Some(_) => Ok(self.lp_balances.amount(holder)),
            }),
    {
        self.config()?;
        Ok(self.lp_balances.get(holder))
    }

    pub fn maturity(&self) -> (r: Result<u64, Error>)
        ensures
            r == (match self.config {
                None => Err::<u64, Error>(Error::NotInitialized),
                Some(config) => Ok(config.maturity),
            }),
    {
        Ok(self.config()?.maturity)
    }

    /// Whether the averaged rate still lacks a full window of observations.
    pub fn twap_warming_up(&self, now: u64) -> (r: Result<bool, Error>)
        ensures
            r == (match self.state {
                None => Err::<bool, Error>(Error::NotInitialized),
                Some(state) => Ok(now < state.warmup_until),
            }),
    {
        Ok(now < self.state()?.warmup_until)
    }
}

} // verus!
