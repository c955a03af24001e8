use novaire::governance::UPGRADE_TIMELOCK_SECONDS;
use novaire::ledger::Ledger;
use novaire::sy_wrapper::allowances::Allowances;
use novaire::sy_wrapper::blend::{
    assets_from_b_tokens, derived_exchange_rate, Backing, PoolReading, Request, Reserve,
    BLEND_SCALAR_12, REQUEST_SUPPLY, REQUEST_WITHDRAW,
};
use novaire::sy_wrapper::flows::{RedeemStep, WithdrawalOutcome};
use novaire::sy_wrapper::{
    AdminChanged, AdminRenounced, Config, Error, PauseChanged, ReserveMigrated, SyWrapper,
};
use novaire::{Address, AddressKind, PendingUpgrade, Transfer, TtlExtension, WasmHash, WAD};

const UNIT: i128 = 10_000_000; // 7-decimal underlying unit
const MINT: i128 = 1_000 * UNIT;

fn address(n: u128) -> Address {
    Address { kind: AddressKind::Account, high: 0, low: n }
}

/// A lending pool with one reserve, and the underlying's ledger.
struct Fixture {
    vault: SyWrapper,
    this: Address,
    admin: Address,
    underlying: Address,
    pool: Address,
    alice: Address,
    bob: Address,
    now: u64,
    b_rate: i128,
    b_tokens: i128,
    supply_cap: i128,
    reserve_index: u32,
    /// The most the pool pays out at once.
    liquidity: i128,
    balances: Vec<(Address, i128)>,
}

impl Fixture {
    fn balance_of(&self, holder: Address) -> i128 {
        self.balances.iter().find(|(a, _)| *a == holder).map_or(0, |(_, b)| *b)
    }

    fn mint(&mut self, holder: Address, amount: i128) {
        match self.balances.iter_mut().find(|(a, _)| *a == holder) {
            Some((_, balance)) => *balance += amount,
            None => self.balances.push((holder, amount)),
        }
    }

    fn pay(&mut self, from: Address, to: Address, amount: i128) {
        assert!(self.balance_of(from) >= amount, "underlying balance too low");
        self.mint(from, -amount);
        self.mint(to, amount);
    }

    fn reserve(&self) -> Reserve {
        Reserve {
            index: self.reserve_index,
            decimals: 7,
            supply_cap: self.supply_cap,
            b_rate: self.b_rate,
        }
    }

    fn reading(&self) -> PoolReading {
        PoolReading { b_tokens: Some(self.b_tokens), reserve: self.reserve() }
    }

    fn backing(&self) -> Backing {
        if self.vault.is_emergency() {
            Backing::Idle(self.balance_of(self.this))
        } else {
            Backing::Position(self.reading())
        }
    }

    fn submit(&mut self, request: Request) {
        assert_eq!(request.address, self.underlying);
        if request.request_type == REQUEST_SUPPLY {
            self.b_tokens += request.amount * BLEND_SCALAR_12 / self.b_rate;
            self.pay(self.this, self.pool, request.amount);
        } else {
            assert_eq!(request.request_type, REQUEST_WITHDRAW);
            let paid = request.amount.min(self.liquidity);
            self.b_tokens -= (paid * BLEND_SCALAR_12 + self.b_rate - 1) / self.b_rate;
            self.pay(self.pool, self.this, paid);
        }
    }

    fn exchange_rate(&self) -> Result<i128, Error> {
        self.vault.exchange_rate(&self.backing())
    }

    fn accrued_yield(&self, holder: Address) -> Result<i128, Error> {
        self.vault.accrued_yield(holder, &self.backing())
    }

    fn deposit(&mut self, from: Address, amount: i128) -> Result<i128, Error> {
        self.vault.check_deposit(amount)?;
        let plan = self.vault.deposit(from, amount, &self.reading())?;
        assert_eq!(plan.transfer_in, Transfer { token: self.underlying, holder: from, amount });
        self.pay(from, self.this, amount);
        self.submit(plan.request);
        let event = self.vault.settle_deposit(&plan, &self.reading())?;
        assert_eq!(event.holder, from);
        assert_eq!(event.underlying_amount, amount);
        Ok(event.shares_minted)
    }

    fn redeem(&mut self, from: Address, sy_amount: i128) -> Result<i128, Error> {
        self.vault.check_redeem(sy_amount)?;
        let backing = self.backing();
        let redemption = match self.vault.redeem(from, sy_amount, &backing)? {
            RedeemStep::Paid(redemption) => redemption,
            RedeemStep::Withdraw(plan) => {
                let before = self.balance_of(self.this);
                self.submit(plan.request);
                let after = self.balance_of(self.this);
                let outcome = WithdrawalOutcome { submitted: true, before, after };
                self.vault.settle_redeem(&plan, &outcome)?
            }
        };
        if let Some(transfer) = redemption.transfer_out {
            assert_eq!(transfer.token, self.underlying);
            self.pay(self.this, transfer.holder, transfer.amount);
        }
        Ok(redemption.event.underlying_amount)
    }

    fn emergency_withdraw_all(&mut self, caller: Address) -> Result<i128, Error> {
        self.vault.check_wind_down(caller)?;
        let plan = self.vault.emergency_withdraw_all(caller, &self.reading())?;
        let before = self.balance_of(self.this);
        if let Some(request) = plan.request {
            self.submit(request);
        }
        let after = self.balance_of(self.this);
        Ok(self.vault.settle_emergency_withdraw_all(&plan, before, after)?.recovered)
    }

    /// Moves the pool's rate so that the exchange rate grows by
    /// `numerator / denominator`.
    fn grow_rate(&mut self, numerator: i128, denominator: i128) {
        let target = self.exchange_rate().unwrap() * numerator / denominator;
        let aum_before = assets_from_b_tokens(self.b_tokens, self.b_rate).unwrap();
        let total_shares = self.vault.total_supply();
        let target_aum = if total_shares == 0 {
            aum_before
        } else {
            target * total_shares / WAD
        };
        if self.b_tokens > 0 {
            self.b_rate = target_aum * BLEND_SCALAR_12 / self.b_tokens;
        }
        let extra = target_aum - aum_before;
        if extra > 0 {
            self.mint(self.this, extra);
        }
    }
}

fn fixture() -> Fixture {
    let admin = address(1);
    let underlying = address(2);
    let pool = address(3);
    let mut f = Fixture {
        vault: SyWrapper::new(),
        this: address(4),
        admin,
        underlying,
        pool,
        alice: address(5),
        bob: address(6),
        now: 1,
        b_rate: BLEND_SCALAR_12,
        b_tokens: 0,
        supply_cap: 0,
        reserve_index: 0,
        liquidity: i128::MAX,
        balances: Vec::new(),
    };
    let reserve = f.reserve();
    f.vault.initialize_blend(admin, underlying, pool, &vec![underlying], &reserve).unwrap();
    f.mint(f.alice, MINT);
    f
}

#[test]
fn initialize_blend_requires_a_pool_and_sets_the_initial_rate() {
    let fixture = fixture();
    assert_eq!(
        fixture.vault.config(),
        Ok(Config {
            admin: fixture.admin,
            underlying: fixture.underlying,
            pool: fixture.pool,
            reserve_index: 0,
        })
    );
    assert_eq!(fixture.exchange_rate(), Ok(WAD));
    assert_eq!(fixture.vault.total_supply(), 0);
    assert_eq!(SyWrapper::decimals(), 7);
}

#[test]
fn deposit_pulls_underlying_and_mints_shares_via_pool() {
    let mut fixture = fixture();

    let minted = fixture.deposit(fixture.alice, 100 * UNIT);

    assert_eq!(minted, Ok(100 * UNIT));
    assert_eq!(fixture.vault.balance(fixture.alice), 100 * UNIT);
    assert_eq!(fixture.vault.total_supply(), 100 * UNIT);
    // The pool now custodies the underlying; alice paid it in.
    assert_eq!(fixture.balance_of(fixture.pool), 100 * UNIT);
    assert_eq!(fixture.balance_of(fixture.alice), MINT - 100 * UNIT);
}

#[test]
fn sy_transfers_move_shares() {
    let mut fixture = fixture();
    fixture.deposit(fixture.alice, 100 * UNIT).unwrap();

    fixture.vault.transfer(fixture.alice, fixture.bob, 40 * UNIT).unwrap();
    assert_eq!(fixture.vault.balance(fixture.alice), 60 * UNIT);
    assert_eq!(fixture.vault.balance(fixture.bob), 40 * UNIT);
}

#[test]
fn allowance_entry_ttl_covers_requested_expiration() {
    let mut fixture = fixture();
    fixture.deposit(fixture.alice, 100 * UNIT).unwrap();

    const START_SEQ: u32 = 1_000;
    const MIN_TEMP_TTL: u32 = 1_600;
    const EXPIRATION: u32 = START_SEQ + 500_000;

    let extension = fixture
        .vault
        .approve(START_SEQ, fixture.alice, fixture.bob, 40 * UNIT, EXPIRATION)
        .unwrap()
        .unwrap();
    assert!(extension.threshold == extension.extend_to);
    assert!(START_SEQ + extension.extend_to >= EXPIRATION);

    const JUMPED: u32 = START_SEQ + MIN_TEMP_TTL + 100_000;
    assert_eq!(fixture.vault.allowance(JUMPED, fixture.alice, fixture.bob), 40 * UNIT);
    let extension = fixture
        .vault
        .transfer_from(JUMPED, fixture.bob, fixture.alice, fixture.bob, 30 * UNIT)
        .unwrap()
        .unwrap();
    assert_eq!(fixture.vault.allowance(JUMPED, fixture.alice, fixture.bob), 10 * UNIT);
    assert_eq!(fixture.vault.balance(fixture.bob), 30 * UNIT);
    assert!(JUMPED + extension.extend_to >= EXPIRATION);
}

#[test]
fn transfer_moves_principal_pro_rata_so_yield_stays_correct() {
    let mut fixture = fixture();
    fixture.deposit(fixture.alice, 100 * UNIT).unwrap();

    // The rate grows 10%, so alice has 10 of yield on 100 shares. She sends 40
    // shares to bob. Principal must follow pro-rata (40 of the 100), so neither
    // party's accrued_yield is corrupted.
    fixture.grow_rate(11, 10);
    fixture.vault.transfer(fixture.alice, fixture.bob, 40 * UNIT).unwrap();

    assert_eq!(fixture.accrued_yield(fixture.alice), Ok(6 * UNIT));
    assert_eq!(fixture.accrued_yield(fixture.bob), Ok(4 * UNIT));
}

#[test]
fn accrued_yield_tracks_pool_derived_rate_growth() {
    let mut fixture = fixture();
    fixture.deposit(fixture.alice, 100 * UNIT).unwrap();
    fixture.grow_rate(21, 20); // +5%

    assert_eq!(fixture.accrued_yield(fixture.alice), Ok(5 * UNIT));
}

#[test]
fn redeem_returns_underlying_and_reduces_principal() {
    let mut fixture = fixture();
    fixture.deposit(fixture.alice, 100 * UNIT).unwrap();
    fixture.grow_rate(11, 10); // +10%

    let underlying_out = fixture.redeem(fixture.alice, 40 * UNIT);

    assert_eq!(underlying_out, Ok(44 * UNIT));
    assert_eq!(fixture.vault.balance(fixture.alice), 60 * UNIT);
    assert_eq!(fixture.vault.total_supply(), 60 * UNIT);
    assert_eq!(fixture.accrued_yield(fixture.alice), Ok(6 * UNIT));
    assert_eq!(fixture.balance_of(fixture.alice), MINT - 100 * UNIT + 44 * UNIT);
}

fn uninitialized_fixture() -> Fixture {
    let mut f = fixture();
    f.vault = SyWrapper::new();
    f
}

#[test]
fn deposit_before_initialize_fails() {
    let mut f = uninitialized_fixture();
    let error = f.deposit(f.alice, 100 * UNIT).unwrap_err();
    assert_eq!(error, Error::NotInitialized);
    assert_eq!(error.code(), 2);
}

#[test]
fn redeem_before_initialize_fails() {
    let mut f = uninitialized_fixture();
    assert_eq!(f.redeem(f.alice, 10 * UNIT).unwrap_err().code(), 2);
}

#[test]
fn exchange_rate_before_initialize_fails() {
    let f = uninitialized_fixture();
    assert_eq!(f.exchange_rate().unwrap_err().code(), 2);
}

#[test]
fn accrued_yield_before_initialize_fails() {
    let f = uninitialized_fixture();
    assert_eq!(f.accrued_yield(f.alice).unwrap_err().code(), 2);
}

#[test]
fn deposit_share_math_overflow_is_rejected() {
    let mut fixture = fixture();
    // Seed a position so the rate is no longer the supply=0 default, then crash
    // the pool's b_rate towards zero.
    fixture.deposit(fixture.alice, 100 * UNIT).unwrap();
    fixture.b_rate = 1;
    let error = fixture.deposit(fixture.alice, 500 * UNIT).unwrap_err();
    assert_eq!(error, Error::MathOverflow);
    assert_eq!(error.code(), 6);
}

#[test]
fn redeem_underlying_math_overflow_is_rejected() {
    let mut fixture = fixture();
    fixture.deposit(fixture.alice, 1_000 * UNIT).unwrap();
    fixture.b_rate = i128::MAX / 2;
    assert_eq!(fixture.redeem(fixture.alice, 1_000 * UNIT).unwrap_err().code(), 6);
}

#[test]
fn migrate_reserve_index_rejects_non_admin() {
    let mut fixture = fixture();
    let reserve = fixture.reserve();
    assert_eq!(
        fixture.vault.migrate_reserve_index(fixture.bob, &vec![fixture.underlying], &reserve),
        Err(Error::NotAuthorized)
    );
}

#[test]
fn lib_admin_transfer_is_two_step() {
    let mut f = fixture();
    let next = address(77);
    f.vault.propose_admin(f.admin, next).unwrap();
    // Not in force until accepted.
    assert_eq!(f.vault.config().unwrap().admin, f.admin);
    assert_eq!(f.vault.pending_admin(), Some(next));
    assert_eq!(
        f.vault.accept_admin(next),
        Ok(AdminChanged { previous: f.admin, current: next })
    );
    assert_eq!(f.vault.config().unwrap().admin, next);
    assert_eq!(f.vault.pending_admin(), None);
}

#[test]
fn accept_admin_without_a_nomination_fails() {
    let mut f = fixture();
    let error = f.vault.accept_admin(f.admin).unwrap_err();
    assert_eq!(error, Error::NotPendingAdmin);
    assert_eq!(error.code(), 14);
}

#[test]
fn pause_blocks_deposits_but_never_redemptions() {
    let mut f = fixture();
    f.deposit(f.alice, 100 * UNIT).unwrap();
    assert_eq!(f.vault.pause(f.admin), Ok(PauseChanged { paused: true }));
    assert!(f.vault.is_paused());

    // Entry is closed.
    assert_eq!(f.deposit(f.alice, 10 * UNIT), Err(Error::Paused));

    // Every exit still works. A pause that traps funds is worse than none.
    let out = f.redeem(f.alice, 10 * UNIT).unwrap();
    assert!(out > 0, "redeem must work while paused");
    f.vault.transfer(f.alice, f.bob, 5 * UNIT).unwrap();
    assert_eq!(f.vault.balance(f.bob), 5 * UNIT);
    assert!(f.exchange_rate().unwrap() > 0, "rate must stay readable");

    assert_eq!(f.vault.unpause(f.admin), Ok(PauseChanged { paused: false }));
    assert!(!f.vault.is_paused());
    f.deposit(f.alice, 10 * UNIT).unwrap();
}

#[test]
fn guardian_can_pause_but_not_unpause() {
    let mut f = fixture();
    let guardian = address(88);
    assert_eq!(f.vault.guardian(), Ok(f.admin));
    f.vault.set_guardian(f.admin, guardian).unwrap();
    assert_eq!(f.vault.guardian(), Ok(guardian));
    f.vault.pause(guardian).unwrap();
    assert!(f.vault.is_paused());
    // Asymmetric by design: cheap to stop, deliberate to restart.
    assert_eq!(f.vault.unpause(guardian), Err(Error::NotAuthorized));
    assert!(f.vault.is_paused());
    f.vault.unpause(f.admin).unwrap();
    assert!(!f.vault.is_paused());
    // The admin may pause too, and nobody else may.
    assert_eq!(f.vault.pause(f.bob), Err(Error::NotAuthorized));
    f.vault.pause(f.admin).unwrap();
    assert!(f.vault.is_paused());
}

#[test]
fn upgrade_cannot_execute_before_the_timelock() {
    let mut f = fixture();
    let wasm_hash = WasmHash { high: 7, low: 7 };
    let eta = f.vault.propose_upgrade(f.now, f.admin, wasm_hash).unwrap().eta;
    assert_eq!(eta, f.now + UPGRADE_TIMELOCK_SECONDS);
    assert_eq!(f.vault.pending_upgrade(), Some(PendingUpgrade { wasm_hash, eta }));
    // Too early.
    assert_eq!(f.vault.execute_upgrade(f.now, f.admin), Err(Error::UpgradeNotReady));
    assert_eq!(f.vault.execute_upgrade(eta - 1, f.admin), Err(Error::UpgradeNotReady));
    f.vault.cancel_upgrade(f.admin).unwrap();
    assert_eq!(f.vault.pending_upgrade(), None);
    assert_eq!(f.vault.execute_upgrade(f.now, f.admin), Err(Error::UpgradeNotReady));
}

#[test]
fn renounce_permanently_disables_governance() {
    let mut f = fixture();
    assert_eq!(f.vault.renounce_admin(f.admin), Ok(AdminRenounced {}));
    assert!(f.vault.is_renounced());
    assert!(f.emergency_withdraw_all(f.admin).is_err());
    let junk = address(99);
    assert!(f.vault.sweep(f.admin, junk, f.admin, 1).is_err());
}

#[test]
fn emergency_wind_down_recovers_funds_and_keeps_redemption_open() {
    let mut f = fixture();
    // The fixture only funds alice; bob needs underlying of his own to be a
    // second, equal-stake holder.
    f.mint(f.bob, MINT);
    f.deposit(f.alice, 100 * UNIT).unwrap();
    f.deposit(f.bob, 100 * UNIT).unwrap();
    let rate_before = f.exchange_rate().unwrap();

    let recovered = f.emergency_withdraw_all(f.admin).unwrap();
    assert!(recovered > 0, "wind-down must pull the position out");
    assert!(f.vault.is_emergency());
    assert!(f.vault.is_paused(), "wind-down closes entries");

    // Deposits are closed permanently...
    assert!(f.deposit(f.alice, UNIT).is_err());
    // ...and cannot be reopened by unpausing.
    f.vault.unpause(f.admin).unwrap();
    assert_eq!(f.deposit(f.alice, UNIT), Err(Error::EmergencyModeActive));

    // The rate is still readable and still derived, not frozen or trapped.
    let rate_after = f.exchange_rate().unwrap();
    assert!(rate_after > 0);
    assert!((rate_after - rate_before).abs() <= rate_before / 1_000);

    // Both holders exit pro-rata, and the last one out is not shortchanged.
    let alice_out = f.redeem(f.alice, f.vault.balance(f.alice)).unwrap();
    let bob_out = f.redeem(f.bob, f.vault.balance(f.bob)).unwrap();
    assert!(alice_out > 0 && bob_out > 0);
    assert!((alice_out - bob_out).abs() <= 2);
    assert_eq!(f.vault.total_supply(), 0);
}

#[test]
fn emergency_withdraw_is_irreversible() {
    let mut f = fixture();
    f.deposit(f.alice, 50 * UNIT).unwrap();
    f.emergency_withdraw_all(f.admin).unwrap();
    assert_eq!(f.emergency_withdraw_all(f.admin), Err(Error::AlreadyInEmergencyMode));
}

#[test]
fn sweep_moves_foreign_tokens_but_never_the_underlying() {
    let mut f = fixture();
    f.deposit(f.alice, 10 * UNIT).unwrap();
    // The underlying is either backing SY or the wind-down pool. Never sweepable.
    assert_eq!(
        f.vault.sweep(f.admin, f.underlying, f.admin, 5),
        Err(Error::ProtectedAsset)
    );

    let junk = address(99);
    assert_eq!(
        f.vault.sweep(f.admin, junk, f.bob, 1_234),
        Ok(Transfer { token: junk, holder: f.bob, amount: 1_234 })
    );
}

#[test]
fn empty_sweep_is_refused() {
    let f = fixture();
    assert_eq!(f.vault.sweep(f.admin, address(99), f.bob, 0), Err(Error::InvalidAmount));
    assert_eq!(f.vault.sweep(f.bob, address(99), f.bob, 5), Err(Error::NotAuthorized));
}

#[test]
fn vault_is_set_up_once() {
    let mut f = fixture();
    let reserve = f.reserve();
    assert_eq!(
        f.vault.initialize_blend(f.bob, f.underlying, f.pool, &vec![f.underlying], &reserve),
        Err(Error::AlreadyInitialized)
    );
    assert_eq!(f.vault.config().unwrap().admin, f.admin);
}

#[test]
fn setup_needs_a_reserve_the_pool_confirms() {
    let f = fixture();
    let other = address(50);
    let reserve = Reserve { index: 1, decimals: 7, supply_cap: 0, b_rate: BLEND_SCALAR_12 };

    let mut vault = SyWrapper::new();
    let listed = vec![other, f.underlying, f.underlying];
    assert_eq!(
        vault.initialize_blend(f.admin, f.underlying, f.pool, &vec![other], &reserve),
        Err(Error::InvalidBlendReserve)
    );
    let wrong_slot = Reserve { index: 2, ..reserve };
    assert_eq!(
        vault.initialize_blend(f.admin, f.underlying, f.pool, &listed, &wrong_slot),
        Err(Error::InvalidBlendReserve)
    );
    let wrong_decimals = Reserve { decimals: 6, ..reserve };
    assert_eq!(
        vault.initialize_blend(f.admin, f.underlying, f.pool, &listed, &wrong_decimals),
        Err(Error::InvalidBlendReserve)
    );
    assert_eq!(
        vault.initialize_blend(f.admin, f.underlying, f.pool, &listed, &reserve),
        Ok(())
    );
    assert_eq!(vault.config().unwrap().reserve_index, 1);
}

#[test]
fn moved_reserve_fails_closed_until_migrated() {
    let mut f = fixture();
    f.deposit(f.alice, 100 * UNIT).unwrap();
    f.reserve_index = 1;
    assert_eq!(f.exchange_rate(), Err(Error::InvalidBlendReserve));
    assert_eq!(f.exchange_rate().unwrap_err().code(), 10);
    assert_eq!(f.deposit(f.alice, UNIT), Err(Error::InvalidBlendReserve));
    assert_eq!(f.redeem(f.alice, UNIT), Err(Error::InvalidBlendReserve));

    let reserve = f.reserve();
    // The underlying is not listed, or listed in another slot than recorded.
    assert_eq!(
        f.vault.migrate_reserve_index(f.admin, &vec![address(50)], &reserve),
        Err(Error::InvalidBlendReserve)
    );
    assert_eq!(
        f.vault.migrate_reserve_index(f.admin, &vec![f.underlying], &reserve),
        Err(Error::InvalidBlendReserve)
    );
    assert_eq!(
        f.vault.migrate_reserve_index(f.admin, &vec![address(50), f.underlying], &reserve),
        Ok(ReserveMigrated { old_index: 0, new_index: 1 })
    );
    assert_eq!(f.exchange_rate(), Ok(WAD));
}

#[test]
fn renounced_vault_keeps_its_exits() {
    let mut f = fixture();
    f.deposit(f.alice, 100 * UNIT).unwrap();
    f.vault.propose_upgrade(f.now, f.admin, WasmHash { high: 1, low: 2 }).unwrap();
    f.vault.propose_admin(f.admin, f.bob).unwrap();
    f.vault.renounce_admin(f.admin).unwrap();

    assert_eq!(f.vault.pending_upgrade(), None);
    assert_eq!(f.vault.pending_admin(), None);
    assert_eq!(f.vault.pause(f.admin), Err(Error::NotAuthorized));
    assert_eq!(
        f.vault.propose_upgrade(f.now, f.admin, WasmHash { high: 1, low: 2 }),
        Err(Error::NotAuthorized)
    );
    assert_eq!(f.vault.execute_upgrade(u64::MAX, f.admin), Err(Error::UpgradeNotReady));
    let reserve = f.reserve();
    assert_eq!(
        f.vault.migrate_reserve_index(f.admin, &vec![f.underlying], &reserve),
        Err(Error::NotAuthorized)
    );
    assert_eq!(f.redeem(f.alice, 40 * UNIT), Ok(40 * UNIT));
}

#[test]
fn upgrade_runs_after_the_timelock() {
    let mut f = fixture();
    let wasm_hash = WasmHash { high: 1, low: 2 };
    let eta = f.vault.propose_upgrade(f.now, f.admin, wasm_hash).unwrap().eta;
    assert_eq!(f.vault.execute_upgrade(eta, f.bob), Err(Error::NotAuthorized));
    assert_eq!(f.vault.execute_upgrade(eta, f.admin), Ok(wasm_hash));
    assert_eq!(f.vault.pending_upgrade(), None);
    assert_eq!(
        f.vault.propose_upgrade(u64::MAX, f.admin, wasm_hash),
        Err(Error::MathOverflow)
    );
}

#[test]
fn deposit_respects_the_supply_cap() {
    let mut f = fixture();
    f.supply_cap = 150 * UNIT;
    f.deposit(f.alice, 100 * UNIT).unwrap();
    let error = f.deposit(f.alice, 50 * UNIT + 1).unwrap_err();
    assert_eq!(error, Error::SupplyCapExceeded);
    assert_eq!(error.code(), 16);
    assert_eq!(f.deposit(f.alice, 50 * UNIT), Ok(50 * UNIT));
}

#[test]
fn amounts_have_to_be_positive() {
    let mut f = fixture();
    assert_eq!(SyWrapper::require_positive_amount(0), Err(Error::InvalidAmount));
    assert_eq!(SyWrapper::require_positive_amount(1), Ok(()));
    assert_eq!(f.deposit(f.alice, 0), Err(Error::InvalidAmount));
    assert_eq!(f.redeem(f.alice, -1), Err(Error::InvalidAmount));
    assert_eq!(f.vault.transfer(f.alice, f.bob, 0), Err(Error::InvalidAmount));
    assert_eq!(f.vault.approve(1, f.alice, f.bob, -1, 10), Err(Error::InvalidAmount));
}

#[test]
fn redeeming_needs_the_shares() {
    let mut f = fixture();
    f.deposit(f.alice, 100 * UNIT).unwrap();
    let error = f.redeem(f.bob, 1).unwrap_err();
    assert_eq!(error, Error::InsufficientBalance);
    assert_eq!(error.code(), 5);
    assert_eq!(f.redeem(f.alice, 100 * UNIT + 1), Err(Error::InsufficientBalance));
    assert_eq!(f.vault.transfer(f.bob, f.alice, 1), Err(Error::InsufficientBalance));
}

#[test]
fn failed_withdrawal_burns_nothing() {
    let mut f = fixture();
    f.deposit(f.alice, 100 * UNIT).unwrap();
    let backing = f.backing();
    let plan = match f.vault.redeem(f.alice, 40 * UNIT, &backing).unwrap() {
        RedeemStep::Withdraw(plan) => plan,
        RedeemStep::Paid(_) => panic!("the pool has to pay out first"),
    };
    assert_eq!(plan.request.amount, 40 * UNIT);
    let failed = WithdrawalOutcome { submitted: false, before: 0, after: 0 };
    assert_eq!(f.vault.settle_redeem(&plan, &failed), Err(Error::BlendWithdrawalFailed));
    let nothing = WithdrawalOutcome { submitted: true, before: 5, after: 5 };
    assert_eq!(f.vault.settle_redeem(&plan, &nothing), Err(Error::BlendWithdrawalFailed));
    assert_eq!(f.vault.balance(f.alice), 100 * UNIT);
    assert_eq!(f.vault.total_supply(), 100 * UNIT);
}

#[test]
fn partial_withdrawal_burns_shares_rounded_up() {
    let mut f = fixture();
    f.mint(f.bob, MINT);
    f.deposit(f.alice, 100 * UNIT).unwrap();
    f.deposit(f.bob, 100 * UNIT).unwrap();
    f.grow_rate(11, 10);
    let rate_before = f.exchange_rate().unwrap();
    assert_eq!(rate_before, WAD / 10 * 11);

    // 110 is asked for and 50 comes: 50 / 1.1 shares, rounded up.
    f.liquidity = 50 * UNIT;
    assert_eq!(f.redeem(f.alice, 100 * UNIT), Ok(50 * UNIT));
    assert_eq!(f.vault.balance(f.alice), 100 * UNIT - 454_545_455);
    assert_eq!(f.vault.total_supply(), 200 * UNIT - 454_545_455);
}

#[test]
fn partial_withdrawal_does_not_short_those_who_stay() {
    let mut f = fixture();
    f.mint(f.bob, MINT);
    f.deposit(f.alice, 100 * UNIT).unwrap();
    f.deposit(f.bob, 100 * UNIT).unwrap();
    f.grow_rate(11, 10);
    let rate_before = f.exchange_rate().unwrap();

    // 66 is asked for and 55 comes: exactly 50 shares.
    f.liquidity = 55 * UNIT;
    assert_eq!(f.redeem(f.bob, 60 * UNIT), Ok(55 * UNIT));
    assert_eq!(f.vault.balance(f.bob), 50 * UNIT);
    assert!(f.exchange_rate().unwrap() >= rate_before);
}

#[test]
fn deposit_does_not_lower_the_rate() {
    let mut f = fixture();
    f.mint(f.bob, MINT);
    f.deposit(f.alice, 100 * UNIT).unwrap();
    f.b_rate = 1_234_567_890_123;
    let before = f.exchange_rate().unwrap();
    let minted = f.deposit(f.bob, 77 * UNIT + 3).unwrap();
    assert_eq!(minted, 623700008);
    assert!(f.exchange_rate().unwrap() >= before);
}

#[test]
fn wind_down_pays_pro_rata_of_what_was_recovered() {
    let mut f = fixture();
    f.mint(f.bob, MINT);
    f.deposit(f.alice, 100 * UNIT).unwrap();
    f.deposit(f.bob, 50 * UNIT).unwrap();
    f.liquidity = 120 * UNIT;
    assert_eq!(f.emergency_withdraw_all(f.admin), Ok(120 * UNIT));
    assert_eq!(f.exchange_rate(), Ok(WAD / 10 * 8));
    assert_eq!(f.redeem(f.alice, 100 * UNIT), Ok(80 * UNIT));
    assert_eq!(f.exchange_rate(), Ok(WAD / 10 * 8));
    assert_eq!(f.redeem(f.bob, 50 * UNIT), Ok(40 * UNIT));
}

#[test]
fn empty_position_winds_down_without_a_request() {
    let mut f = fixture();
    let plan = f.vault.emergency_withdraw_all(f.admin, &f.reading()).unwrap();
    assert_eq!(plan.request, None);
    assert_eq!(f.emergency_withdraw_all(f.bob), Err(Error::NotAuthorized));
    assert_eq!(f.emergency_withdraw_all(f.admin), Ok(0));
    assert!(f.vault.is_emergency());
}

#[test]
fn transfer_to_oneself_changes_nothing() {
    let mut f = fixture();
    f.deposit(f.alice, 100 * UNIT).unwrap();
    f.grow_rate(11, 10);
    f.vault.transfer(f.alice, f.alice, 30 * UNIT).unwrap();
    assert_eq!(f.vault.balance(f.alice), 100 * UNIT);
    assert_eq!(f.accrued_yield(f.alice), Ok(10 * UNIT));
}

#[test]
fn allowances_expire_and_run_out() {
    let mut f = fixture();
    f.deposit(f.alice, 100 * UNIT).unwrap();
    assert_eq!(f.vault.allowance(1, f.alice, f.bob), 0);
    assert_eq!(
        f.vault.approve(100, f.alice, f.bob, 10, 99),
        Err(Error::InvalidExpiration)
    );
    // Nothing is left to keep alive once an allowance is cleared.
    assert_eq!(f.vault.approve(100, f.alice, f.bob, 0, 99), Ok(None));
    assert_eq!(
        f.vault.approve(100, f.alice, f.bob, 10, 150),
        Ok(Some(TtlExtension { threshold: 50, extend_to: 50 }))
    );
    assert_eq!(f.vault.allowance(150, f.alice, f.bob), 10);
    assert_eq!(f.vault.allowance(151, f.alice, f.bob), 0);
    let error = f.vault.transfer_from(151, f.bob, f.alice, f.bob, 1).unwrap_err();
    assert_eq!(error, Error::InsufficientAllowance);
    assert_eq!(error.code(), 7);
    assert_eq!(
        f.vault.transfer_from(120, f.bob, f.alice, f.bob, 11),
        Err(Error::InsufficientAllowance)
    );
    assert_eq!(f.vault.transfer_from(120, f.bob, f.alice, f.bob, 10), Ok(None));
    assert_eq!(f.vault.allowance(120, f.alice, f.bob), 0);
    assert_eq!(f.vault.balance(f.bob), 10);
}

#[test]
fn share_token_names_itself() {
    assert_eq!(SyWrapper::name(), "Novaire Standardized Yield");
    assert_eq!(SyWrapper::symbol(), "sSY");
    let f = fixture();
    assert_eq!(f.vault.underlying(), Ok(f.underlying));
    assert_eq!(f.vault.share_balance(f.alice), Ok(0));
    assert_eq!(f.vault.total_shares(), Ok(0));
}

#[test]
fn derived_rate_bootstraps_to_wad_when_empty() {
    assert_eq!(derived_exchange_rate(0, 0), Some(WAD));
    assert_eq!(derived_exchange_rate(5, -1), Some(WAD));
    assert_eq!(derived_exchange_rate(300, 200), Some(WAD / 2 * 3));
    assert_eq!(derived_exchange_rate(i128::MAX, 1), None);
    assert_eq!(assets_from_b_tokens(10, 1_500_000_000_000), Some(15));
    assert_eq!(assets_from_b_tokens(i128::MAX, 2), None);
}

#[test]
fn yield_may_be_negative_after_a_loss() {
    let mut f = fixture();
    f.deposit(f.alice, 100 * UNIT).unwrap();
    f.b_rate = BLEND_SCALAR_12 / 2;
    assert_eq!(f.accrued_yield(f.alice), Ok(-50 * UNIT));
}

#[test]
fn stored_parts_make_the_vault_again() {
    let mut f = fixture();
    f.deposit(f.alice, 100 * UNIT).unwrap();
    let supply = f.vault.total_supply();
    let held = f.vault.balance(f.alice);
    let books = |amount: i128| {
        let mut ledger = Ledger::new();
        ledger.set(f.alice, amount);
        ledger
    };
    let restore = |config: Option<Config>, balance: i128, principal: i128| {
        SyWrapper::restore(
            config,
            supply,
            books(balance),
            books(principal),
            Allowances::new(),
            f.vault.governance,
            false,
        )
    };

    let restored = restore(f.vault.config, held, 100 * UNIT).unwrap();
    assert_eq!(restored.balance(f.alice), held);
    assert_eq!(restored.total_supply(), supply);
    assert_eq!(restored.exchange_rate(&f.backing()), f.exchange_rate());
    assert_eq!(restored.accrued_yield(f.alice, &f.backing()), f.accrued_yield(f.alice));

    assert!(restore(f.vault.config, supply + 1, 0).is_none());
    assert!(restore(f.vault.config, held, -1).is_none());
    assert!(restore(None, held, 0).is_none());
}
