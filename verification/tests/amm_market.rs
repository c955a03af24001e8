use novaire::amm::checked::{BPS_DENOMINATOR, MAX_RESERVE_UNITS};
use novaire::amm::market::{PastClaims, MINIMUM_LIQUIDITY};
use novaire::amm::pricing::MAX_SCALAR_ROOT;
use novaire::amm::trade::{ProtocolFees, MAX_PROTOCOL_FEE_SHARE_BPS};
use novaire::amm::yields::ln_rate_to_bps;
use novaire::amm::{AdminChanged, AmmMarket, Config, Error, PauseChanged, State, Swap};
use novaire::governance::{
    TTL_EXTEND_TO_LEDGERS, TTL_THRESHOLD_LEDGERS, UPGRADE_TIMELOCK_SECONDS,
};
use novaire::ledger::Ledger;
use novaire::{Address, AddressKind, PendingUpgrade, Transfer, TtlExtension, WasmHash, WAD};

const DAY: u64 = 86_400;
const NOW: u64 = 1_770_000_000;
const MATURITY: u64 = NOW + 90 * DAY;
const SCALAR_ROOT: i128 = 2 * WAD;
const INITIAL_ANCHOR: i128 = 1_050_000_000_000_000_000;
const FEE_BPS: i128 = 10;
const TWAP_WINDOW: u64 = 30 * 60;
const INITIAL_TOKEN_BALANCE: i128 = 10_000_000;

fn address(n: u128) -> Address {
    Address { kind: AddressKind::Contract, high: 0, low: n }
}

/// A market with its clock, the shares' exchange rate, and the tokens' ledgers.
struct Fixture {
    market: AmmMarket,
    now: u64,
    sy_rate: i128,
    this: Address,
    admin: Address,
    bob: Address,
    pt_token: Address,
    sy_token: Address,
    yt_token: Address,
    tokenizer: Address,
    balances: Vec<((Address, Address), i128)>,
}

impl Fixture {
    fn balance(&self, token: Address, holder: Address) -> i128 {
        let key = (token, holder);
        self.balances.iter().find(|(k, _)| *k == key).map_or(0, |(_, b)| *b)
    }

    fn mint(&mut self, token: Address, holder: Address, amount: i128) {
        let key = (token, holder);
        match self.balances.iter_mut().find(|(k, _)| *k == key) {
            Some((_, balance)) => *balance += amount,
            None => self.balances.push((key, amount)),
        }
    }

    fn pay(&mut self, token: Address, from: Address, to: Address, amount: i128) {
        assert!(amount >= 0 && self.balance(token, from) >= amount, "token balance too low");
        self.mint(token, from, -amount);
        self.mint(token, to, amount);
    }

    fn take(&mut self, transfer: Transfer) {
        self.pay(transfer.token, transfer.holder, self.this, transfer.amount);
    }

    fn give(&mut self, transfer: Transfer) {
        self.pay(transfer.token, self.this, transfer.holder, transfer.amount);
    }

    fn pt_balance(&self, holder: Address) -> i128 {
        self.balance(self.pt_token, holder)
    }

    fn sy_balance(&self, holder: Address) -> i128 {
        self.balance(self.sy_token, holder)
    }

    fn pool_pt_balance(&self) -> i128 {
        self.pt_balance(self.this)
    }

    fn pool_sy_balance(&self) -> i128 {
        self.sy_balance(self.this)
    }

    fn mint_pt(&mut self, holder: Address, amount: i128) {
        self.mint(self.pt_token, holder, amount);
    }

    fn mint_sy(&mut self, holder: Address, amount: i128) {
        self.mint(self.sy_token, holder, amount);
    }

    fn state(&self) -> State {
        self.market.state().unwrap()
    }

    fn initialize(&mut self) -> Result<(), Error> {
        self.initialize_with(SCALAR_ROOT, INITIAL_ANCHOR, FEE_BPS, TWAP_WINDOW)
    }

    fn initialize_with(
        &mut self,
        scalar_root: i128,
        initial_anchor: i128,
        fee_bps: i128,
        twap_window: u64,
    ) -> Result<(), Error> {
        self.market.initialize(
            self.now,
            self.admin,
            self.pt_token,
            self.sy_token,
            self.yt_token,
            self.tokenizer,
            MATURITY,
            scalar_root,
            initial_anchor,
            fee_bps,
            twap_window,
        )
    }

    fn add_liquidity(&mut self, from: Address, pt: i128, sy: i128, min: i128) -> Result<i128, Error> {
        let added = self.market.add_liquidity(self.now, self.sy_rate, from, pt, sy, min)?;
        self.take(added.pt_in);
        self.take(added.sy_in);
        assert_eq!((added.event.pt_in, added.event.sy_in), (pt, sy));
        Ok(added.event.lp_out)
    }

    fn remove_liquidity(
        &mut self,
        from: Address,
        lp: i128,
        min_pt: i128,
        min_sy: i128,
    ) -> Result<(i128, i128), Error> {
        let removed = self.market.remove_liquidity(from, lp, min_pt, min_sy)?;
        self.give(removed.pt_out);
        self.give(removed.sy_out);
        assert_eq!(removed.event.lp_in, lp);
        Ok((removed.event.pt_out, removed.event.sy_out))
    }

    fn swap_pt_for_sy(&mut self, from: Address, pt_in: i128, min: i128) -> Result<i128, Error> {
        let swap = self.market.swap_pt_for_sy(self.now, self.sy_rate, from, pt_in, min)?;
        self.take(swap.transfer_in);
        self.give(swap.transfer_out);
        assert_eq!(swap.event.route.name(), "pt_for_sy");
        Ok(swap.event.amount_out)
    }

    fn swap_sy_for_pt(&mut self, from: Address, sy_in: i128, min: i128) -> Result<i128, Error> {
        let swap = self.market.swap_sy_for_pt(self.now, self.sy_rate, from, sy_in, min)?;
        self.take(swap.transfer_in);
        self.give(swap.transfer_out);
        assert_eq!(swap.event.route.name(), "sy_for_pt");
        assert_eq!(swap.event.amount_in, sy_in);
        Ok(swap.event.amount_out)
    }

    fn swap_sy_for_yt(&mut self, from: Address, sy_in: i128, min: i128) -> Result<i128, Error> {
        let purchase = self.market.swap_sy_for_yt(self.now, self.sy_rate, from, sy_in, min)?;
        self.pay(self.sy_token, from, self.this, purchase.buyer_cost);
        // The tokenizer escrows the shares and mints their floored face.
        self.pay(self.sy_token, self.this, self.tokenizer, purchase.shares_to_split);
        let face = purchase.shares_to_split * self.sy_rate / WAD;
        self.mint_pt(self.this, face);
        self.mint(self.yt_token, self.this, face);
        let swap = self.market.settle_sy_for_yt(self.now, &purchase, face, face)?;
        assert_eq!(swap.transfer_in.amount, purchase.buyer_cost);
        self.give(swap.transfer_out);
        assert_eq!(swap.event.route.name(), "sy_for_yt");
        Ok(swap.event.amount_out)
    }

    fn swap_yt_for_sy(&mut self, from: Address, yt_in: i128, min: i128) -> Result<i128, Error> {
        let sale = self.market.swap_yt_for_sy(self.now, self.sy_rate, from, yt_in, min)?;
        self.pay(self.yt_token, from, self.this, yt_in);
        // The tokenizer burns the pair and releases its floored value.
        self.mint_pt(self.this, -yt_in);
        self.mint(self.yt_token, self.this, -yt_in);
        let shares = yt_in * WAD / self.sy_rate;
        self.pay(self.sy_token, self.tokenizer, self.this, shares);
        let swap = self.market.settle_yt_for_sy(self.now, &sale, shares)?;
        assert_eq!(swap.transfer_in.amount, yt_in);
        self.give(swap.transfer_out);
        assert_eq!(swap.event.route.name(), "yt_for_sy");
        Ok(swap.event.amount_out)
    }

    fn quote_pt_for_sy(&self, pt_in: i128) -> Result<i128, Error> {
        self.market.quote_pt_for_sy(self.now, self.sy_rate, pt_in)
    }

    fn quote_sy_for_pt(&self, sy_in: i128) -> Result<i128, Error> {
        self.market.quote_sy_for_pt(self.now, self.sy_rate, sy_in)
    }

    fn quote_sy_for_pt_cost(&self, sy_in: i128) -> Result<(i128, i128), Error> {
        self.market.quote_sy_for_pt_cost(self.now, self.sy_rate, sy_in)
    }

    fn quote_sy_for_yt(&self, sy_in: i128) -> Result<i128, Error> {
        self.market.quote_sy_for_yt(self.now, self.sy_rate, sy_in)
    }

    fn quote_sy_for_yt_cost(&self, sy_in: i128) -> Result<(i128, i128), Error> {
        self.market.quote_sy_for_yt_cost(self.now, self.sy_rate, sy_in)
    }

    fn quote_yt_for_sy(&self, yt_in: i128) -> Result<i128, Error> {
        self.market.quote_yt_for_sy(self.now, self.sy_rate, yt_in)
    }

    fn untracked_balance(&self) -> (i128, i128) {
        self.market
            .untracked_balance(self.pool_pt_balance(), self.pool_sy_balance())
            .unwrap()
    }
}

fn fixture(now: u64) -> Fixture {
    let admin = address(1);
    let mut f = Fixture {
        market: AmmMarket::new(),
        now,
        sy_rate: WAD,
        this: address(2),
        admin,
        bob: address(3),
        pt_token: address(4),
        sy_token: address(5),
        yt_token: address(6),
        tokenizer: address(7),
        balances: Vec::new(),
    };
    f.mint_pt(admin, INITIAL_TOKEN_BALANCE);
    f.mint_sy(admin, INITIAL_TOKEN_BALANCE);
    f
}

fn seeded(pt: i128, sy: i128) -> Fixture {
    let mut f = fixture(NOW);
    f.initialize().unwrap();
    f.add_liquidity(f.admin, pt, sy, 0).unwrap();
    f
}

#[test]
fn initialize_stores_config_and_empty_state() {
    let mut fixture = fixture(NOW);

    fixture.initialize().unwrap();

    assert_eq!(
        fixture.market.config(),
        Ok(Config {
            admin: fixture.admin,
            pt_token: fixture.pt_token,
            sy_token: fixture.sy_token,
            yt_token: fixture.yt_token,
            tokenizer: fixture.tokenizer,
            maturity: MATURITY,
            scalar_root: SCALAR_ROOT,
            initial_anchor: INITIAL_ANCHOR,
            fee_bps: FEE_BPS,
            twap_window: TWAP_WINDOW,
        })
    );
    assert_eq!(
        fixture.market.state(),
        Ok(State {
            total_pt: 0,
            total_sy: 0,
            total_lp: 0,
            last_ln_implied_rate: 0,
            twap_ln_implied_rate: 0,
            last_observation: NOW,
            warmup_until: NOW + TWAP_WINDOW,
        })
    );
    assert_eq!(fixture.market.implied_apy(NOW), Ok(0));
    assert_eq!(fixture.market.spot_apy(NOW), Ok(0));
    assert_eq!(fixture.market.reserve_pt(), Ok(0));
    assert_eq!(fixture.market.reserve_sy(), Ok(0));
    assert_eq!(fixture.market.total_lp(), Ok(0));
}

#[test]
fn initialize_rejects_curve_inputs_above_testnet_bounds() {
    let mut fixture = fixture(NOW);
    let error = fixture
        .initialize_with(MAX_SCALAR_ROOT + 1, INITIAL_ANCHOR, FEE_BPS, TWAP_WINDOW)
        .unwrap_err();
    assert_eq!(error, Error::InputOutOfBounds);
    assert_eq!(error.code(), 18);
}

#[test]
fn liquidity_rejects_amounts_above_testnet_bounds() {
    let mut fixture = fixture(NOW);
    fixture.initialize().unwrap();

    let error = fixture
        .add_liquidity(fixture.admin, MAX_RESERVE_UNITS + 1, 10_000, 0)
        .unwrap_err();
    assert_eq!(error.code(), 18);
}

/// What an extension makes of an entry that has `ttl` ledgers left.
fn extended(ttl: u32, extension: TtlExtension) -> u32 {
    if ttl < extension.threshold {
        extension.extend_to
    } else {
        ttl
    }
}

#[test]
fn bump_ttl_extends_idle_market_instance_ttl() {
    let mut fixture = fixture(NOW);
    assert_eq!(fixture.market.bump_ttl(), Err(Error::NotInitialized));
    fixture.initialize().unwrap();

    let extension = fixture.market.bump_ttl().unwrap();

    assert!(extended(TTL_THRESHOLD_LEDGERS - 1, extension) >= TTL_EXTEND_TO_LEDGERS);
    assert_eq!(TTL_THRESHOLD_LEDGERS, 30 * 17_280);
    assert_eq!(TTL_EXTEND_TO_LEDGERS, 120 * 17_280);
}

#[test]
fn bump_lp_ttl_extends_idle_lp_balance_ttl() {
    let mut fixture = fixture(NOW);
    fixture.initialize().unwrap();
    fixture.add_liquidity(fixture.admin, 10_000, 10_000, 0).unwrap();

    let extension = fixture.market.bump_lp_ttl(fixture.admin).unwrap().unwrap();

    assert!(extended(TTL_THRESHOLD_LEDGERS - 1, extension) >= TTL_EXTEND_TO_LEDGERS);
    // There is no entry to keep alive for somebody who never held shares.
    assert_eq!(fixture.market.bump_lp_ttl(fixture.bob), Ok(None));
}

#[test]
fn first_liquidity_seeds_market_state() {
    let mut fixture = fixture(NOW);
    fixture.initialize().unwrap();
    let admin_pt_before = fixture.pt_balance(fixture.admin);
    let admin_sy_before = fixture.sy_balance(fixture.admin);

    let lp_out = fixture.add_liquidity(fixture.admin, 10_000, 10_000, 0);
    let state = fixture.state();

    assert_eq!(lp_out, Ok(9_000));
    assert_eq!(state.total_pt, 10_000);
    assert_eq!(state.total_sy, 10_000);
    assert_eq!(state.total_lp, 10_000);
    assert_eq!(fixture.market.lp_balance(fixture.admin), Ok(9_000));
    assert!(state.last_ln_implied_rate > 0);
    assert_eq!(state.last_ln_implied_rate, state.twap_ln_implied_rate);
    assert!(fixture.market.implied_apy(NOW).unwrap() > 0);
    assert_eq!(fixture.pool_pt_balance(), state.total_pt);
    assert_eq!(fixture.pool_sy_balance(), state.total_sy);
    assert_eq!(fixture.pt_balance(fixture.admin), admin_pt_before - 10_000);
    assert_eq!(fixture.sy_balance(fixture.admin), admin_sy_before - 10_000);
}

#[test]
fn remove_liquidity_returns_pro_rata_assets() {
    let mut fixture = fixture(NOW);
    fixture.initialize().unwrap();
    let admin_pt_before = fixture.pt_balance(fixture.admin);
    let admin_sy_before = fixture.sy_balance(fixture.admin);
    fixture.add_liquidity(fixture.admin, 10_000, 10_000, 0).unwrap();

    let out = fixture.remove_liquidity(fixture.admin, 9_000, 0, 0);
    let state = fixture.state();

    assert_eq!(out, Ok((9_000, 9_000)));
    assert_eq!(state.total_pt, 1_000);
    assert_eq!(state.total_sy, 1_000);
    assert_eq!(state.total_lp, 1_000);
    assert_eq!(fixture.market.lp_balance(fixture.admin), Ok(0));
    assert_eq!(fixture.pool_pt_balance(), 1_000);
    assert_eq!(fixture.pool_sy_balance(), 1_000);
    assert_eq!(fixture.pt_balance(fixture.admin), admin_pt_before - 1_000);
    assert_eq!(fixture.sy_balance(fixture.admin), admin_sy_before - 1_000);
}

#[test]
fn remove_liquidity_after_maturity_returns_pro_rata_assets() {
    let mut fixture = fixture(NOW);
    fixture.initialize().unwrap();
    let admin_pt_before = fixture.pt_balance(fixture.admin);
    let admin_sy_before = fixture.sy_balance(fixture.admin);
    fixture.add_liquidity(fixture.admin, 10_000, 10_000, 0).unwrap();

    fixture.now = MATURITY;
    let out = fixture.remove_liquidity(fixture.admin, 9_000, 0, 0);
    let state = fixture.state();

    assert_eq!(out, Ok((9_000, 9_000)));
    assert_eq!(state.total_pt, 1_000);
    assert_eq!(state.total_sy, 1_000);
    assert_eq!(state.total_lp, 1_000);
    assert_eq!(fixture.market.lp_balance(fixture.admin), Ok(0));
    assert_eq!(fixture.pool_pt_balance(), 1_000);
    assert_eq!(fixture.pool_sy_balance(), 1_000);
    assert_eq!(fixture.pt_balance(fixture.admin), admin_pt_before - 1_000);
    assert_eq!(fixture.sy_balance(fixture.admin), admin_sy_before - 1_000);
}

#[test]
fn add_liquidity_reverts_when_min_lp_out_not_met() {
    let mut fixture = fixture(NOW);
    fixture.initialize().unwrap();

    // The initial seed mints sqrt(10_000 * 10_000) - MINIMUM_LIQUIDITY
    // = 9_000 LP; asking for one more must fail with SlippageExceeded.
    let error = fixture.add_liquidity(fixture.admin, 10_000, 10_000, 9_001).unwrap_err();
    assert_eq!(error, Error::SlippageExceeded);
    assert_eq!(error.code(), 11);
}

#[test]
fn add_liquidity_passes_exact_min_lp_out() {
    let mut fixture = fixture(NOW);
    fixture.initialize().unwrap();

    assert_eq!(fixture.add_liquidity(fixture.admin, 10_000, 10_000, 9_000), Ok(9_000));
}

#[test]
fn add_liquidity_min_lp_out_catches_ratio_move_between_quote_and_execution() {
    let mut fixture = seeded(20_000, 20_000);
    fixture.mint_pt(fixture.bob, 1_000);
    fixture.mint_sy(fixture.bob, 1_000);

    // Quoted off the seeded 20_000/20_000 pool: 1_000 PT + 1_000 SY mints
    // 1_000 LP. Someone else moves the ratio before bob executes.
    let stale_quote = 1_000;
    fixture.mint_sy(fixture.admin, 2_000);
    fixture.swap_sy_for_pt(fixture.admin, 2_000, 1).unwrap();

    // With total_sy grown past 20_000, lp_by_sy = 1_000 * total_lp /
    // total_sy < 1_000, so the stale min must fail.
    let error = fixture
        .add_liquidity(fixture.bob, 1_000, 1_000, stale_quote)
        .unwrap_err();
    assert_eq!(error.code(), 11);
}

/// The saturation point: the smallest probed sy_in whose pt_out stops growing,
/// and that pt_out.
fn pt_saturation_point(fixture: &Fixture) -> (i128, i128) {
    let mut last = fixture.quote_sy_for_pt(1_000).unwrap();
    let mut probe = 1_000_i128;
    for _ in 0..64 {
        let next = probe * 2;
        let out = match fixture.quote_sy_for_pt(next) {
            Ok(out) => out,
            Err(_) => return (probe, last),
        };
        if out == last {
            return (probe, last);
        }
        last = out;
        probe = next;
    }
    panic!("pool never saturated; widen the probe");
}

#[test]
fn saturated_pt_buy_charges_only_the_curve_cost() {
    let mut fixture = seeded(20_000, 20_000);

    let (sat_sy_in, sat_pt_out) = pt_saturation_point(&fixture);
    // Overshoot the saturation point by 8x. The curve cannot give more PT.
    let overshoot = sat_sy_in * 8;
    let (quoted_pt, quoted_cost) = fixture.quote_sy_for_pt_cost(overshoot).unwrap();
    assert_eq!(quoted_pt, sat_pt_out, "8x the input must not buy more PT past saturation");
    assert!(quoted_cost < overshoot);

    fixture.mint_sy(fixture.bob, overshoot);
    let sy_before = fixture.sy_balance(fixture.bob);
    let pool_sy_before = fixture.pool_sy_balance();

    let pt_out = fixture.swap_sy_for_pt(fixture.bob, overshoot, 1).unwrap();

    let spent = sy_before - fixture.sy_balance(fixture.bob);
    assert_eq!(pt_out, quoted_pt, "execution must match the quote");
    assert_eq!(spent, quoted_cost, "the curve cost is charged, not the whole budget");
    assert_eq!(fixture.pool_sy_balance() - pool_sy_before, quoted_cost);
    assert!(spent < overshoot, "unspent input was kept");
}

#[test]
fn pt_buy_charge_equals_quoted_cost_at_every_size() {
    let mut fixture = seeded(200_000, 200_000);

    for sy_in in [500_i128, 1_000, 5_000, 20_000, 60_000] {
        let (quoted_pt, quoted_cost) = fixture.quote_sy_for_pt_cost(sy_in).unwrap();
        fixture.mint_sy(fixture.bob, sy_in);
        let sy_before = fixture.sy_balance(fixture.bob);
        let pool_sy_before = fixture.pool_sy_balance();

        let pt_out = fixture.swap_sy_for_pt(fixture.bob, sy_in, 1).unwrap();
        let spent = sy_before - fixture.sy_balance(fixture.bob);

        assert_eq!(pt_out, quoted_pt, "size {sy_in}: pt_out mismatch");
        assert_eq!(spent, quoted_cost, "size {sy_in}: charge != quoted cost");
        assert_eq!(
            fixture.pool_sy_balance() - pool_sy_before,
            spent,
            "size {sy_in}: pool delta != trader delta"
        );
        assert!(spent <= sy_in, "size {sy_in}: overcharged");
    }
}

#[test]
fn pt_buy_effective_price_never_exceeds_par_plus_fee() {
    let fixture = seeded(20_000, 20_000);

    // A PT redeems at 1.0 face at maturity, so no honest execution can pay
    // more than 1.0 + fee per unit of face.
    let (sat_sy_in, _) = pt_saturation_point(&fixture);
    for mult in [1_i128, 2, 4, 8] {
        let sy_in = sat_sy_in * mult;
        let (pt_out, cost) = fixture.quote_sy_for_pt_cost(sy_in).unwrap();
        assert!(pt_out > 0, "no PT quoted at {sy_in}");
        // The rate is 1.0 in this fixture, so SY shares == asset units.
        let ceiling = pt_out + (pt_out * (FEE_BPS + 1) / BPS_DENOMINATOR) + 1;
        assert!(cost <= ceiling, "paid {cost} SY for {pt_out} PT face");
    }
}

#[test]
fn ln_rate_to_bps_annualizes_instead_of_reporting_the_log_rate() {
    // e^0.195909 - 1 = 21.64%.
    let bps = ln_rate_to_bps(195_909_333_878_730_541).unwrap();
    assert!((2_160..=2_168).contains(&bps), "expected ~2164 bps (21.64% APY), got {bps}");
    assert!(bps > 1_959, "must exceed the raw log rate");
}

#[test]
fn ln_rate_to_bps_is_zero_at_zero() {
    assert_eq!(ln_rate_to_bps(0), Ok(0));
}

#[test]
fn ln_rate_to_bps_matches_log_rate_closely_when_small() {
    // e^0.01 - 1 = 0.010050..., so 100 bps of log rate is ~100 bps of APY.
    let bps = ln_rate_to_bps(WAD / 100).unwrap();
    assert!((100..=101).contains(&bps), "got {bps}");
}

#[test]
fn ln_rate_to_bps_reports_negative_yield_as_negative() {
    // PT above par => negative implied yield. Must not clamp to zero, or an
    // inverted market is indistinguishable from a flat one.
    let bps = ln_rate_to_bps(-(WAD / 10)).unwrap();
    assert!(bps < 0, "expected negative bps, got {bps}");
    assert!((-960..=-950).contains(&bps), "e^-0.1 - 1 = -9.52%, got {bps}");
}

#[test]
fn spot_apy_reports_annualized_yield() {
    let fixture = seeded(20_000, 20_000);
    let state = fixture.state();
    let expected = ln_rate_to_bps(state.last_ln_implied_rate);
    assert_eq!(fixture.market.spot_apy(NOW), expected);
    // And it is strictly above the raw log-rate reading.
    assert!(
        fixture.market.spot_apy(NOW).unwrap()
            > (state.last_ln_implied_rate * BPS_DENOMINATOR) / WAD
    );
}

#[test]
fn donated_pt_never_enters_curve_reserves() {
    let mut fixture = seeded(20_000, 20_000);

    let apy_before = fixture.market.spot_apy(NOW).unwrap();
    let state_before = fixture.state();

    // Anyone can transfer straight to the market's address.
    fixture.mint_pt(fixture.bob, 5_000);
    fixture.pay(fixture.pt_token, fixture.bob, fixture.this, 5_000);

    assert_eq!(fixture.state().total_pt, state_before.total_pt);

    // Drive every mutating path; none may absorb it.
    fixture.mint_sy(fixture.admin, 1_000);
    fixture.swap_sy_for_pt(fixture.admin, 1_000, 1).unwrap();
    fixture.mint_pt(fixture.admin, 1_000);
    fixture.swap_pt_for_sy(fixture.admin, 1_000, 1).unwrap();
    fixture.mint_pt(fixture.admin, 500);
    fixture.mint_sy(fixture.admin, 500);
    fixture.add_liquidity(fixture.admin, 500, 500, 0).unwrap();
    fixture.remove_liquidity(fixture.admin, 100, 0, 0).unwrap();

    let (untracked_pt, _) = fixture.untracked_balance();
    assert_eq!(untracked_pt, 5_000, "donation must remain untracked");
    assert_ne!(apy_before, 0, "fixture must have a live rate to compare");
}

#[test]
fn donated_sy_never_enters_curve_reserves() {
    let mut fixture = seeded(20_000, 20_000);
    let before = fixture.state();

    fixture.mint_sy(fixture.bob, 7_500);
    fixture.pay(fixture.sy_token, fixture.bob, fixture.this, 7_500);

    fixture.mint_pt(fixture.admin, 1_000);
    fixture.swap_pt_for_sy(fixture.admin, 1_000, 1).unwrap();

    let (_, untracked_sy) = fixture.untracked_balance();
    assert_eq!(untracked_sy, 7_500, "donated SY must stay out of the curve");
    assert!(
        fixture.state().total_sy < before.total_sy,
        "the swap itself must still move reserves normally"
    );
}

#[test]
fn reserve_views_report_curve_state_not_custody() {
    let mut fixture = seeded(20_000, 20_000);

    fixture.mint_pt(fixture.bob, 1_234);
    fixture.pay(fixture.pt_token, fixture.bob, fixture.this, 1_234);

    assert_eq!(fixture.market.reserve_pt(), Ok(fixture.state().total_pt));
    assert_eq!(fixture.market.reserve_sy(), Ok(fixture.state().total_sy));
    assert_eq!(
        fixture.pool_pt_balance() - fixture.market.reserve_pt().unwrap(),
        1_234,
        "custody exceeds curve reserves by exactly the donation"
    );
}

#[test]
fn pause_blocks_entries_but_never_lets_lps_get_stuck() {
    let mut fixture = seeded(20_000, 20_000);
    assert_eq!(
        fixture.market.pause(fixture.admin),
        Ok(PauseChanged { paused: true })
    );
    assert!(fixture.market.is_paused());

    // Entries are closed.
    fixture.mint_sy(fixture.admin, 1_000);
    assert_eq!(fixture.swap_sy_for_pt(fixture.admin, 1_000, 1), Err(Error::Paused));
    fixture.mint_pt(fixture.admin, 1_000);
    assert_eq!(fixture.swap_pt_for_sy(fixture.admin, 1_000, 1), Err(Error::Paused));
    assert_eq!(fixture.add_liquidity(fixture.admin, 1_000, 1_000, 0), Err(Error::Paused));
    assert_eq!(fixture.swap_sy_for_yt(fixture.admin, 1_000, 1), Err(Error::Paused));
    assert_eq!(fixture.swap_yt_for_sy(fixture.admin, 1_000, 1), Err(Error::Paused));

    // Exit is not. An LP must always be able to withdraw.
    let (pt_out, sy_out) = fixture.remove_liquidity(fixture.admin, 5_000, 0, 0).unwrap();
    assert!(pt_out > 0 && sy_out > 0, "remove_liquidity must survive pause");

    // A paused market stays legible, not opaque.
    assert!(fixture.quote_pt_for_sy(1_000).unwrap() > 0);
    assert!(fixture.market.spot_apy(NOW).unwrap() != 0);

    fixture.market.unpause(fixture.admin).unwrap();
    fixture.swap_sy_for_pt(fixture.admin, 1_000, 1).unwrap();
}

#[test]
fn admin_transfer_is_two_step() {
    let mut fixture = fixture(NOW);
    fixture.initialize().unwrap();
    let next = address(77);
    fixture.market.propose_admin(fixture.admin, next).unwrap();
    assert_eq!(fixture.market.config().unwrap().admin, fixture.admin);
    assert_eq!(fixture.market.accept_admin(fixture.bob), Err(Error::NotAuthorized));
    assert_eq!(
        fixture.market.accept_admin(next),
        Ok(AdminChanged { previous: fixture.admin, current: next })
    );
    assert_eq!(fixture.market.config().unwrap().admin, next);
    assert_eq!(fixture.market.pending_admin(), None);
}

#[test]
fn upgrade_respects_the_timelock() {
    let mut fixture = fixture(NOW);
    fixture.initialize().unwrap();
    let wasm_hash = WasmHash { high: 3, low: 3 };
    let eta = fixture
        .market
        .propose_upgrade(NOW, fixture.admin, wasm_hash)
        .unwrap()
        .eta;
    assert_eq!(eta, NOW + UPGRADE_TIMELOCK_SECONDS);
    assert_eq!(
        fixture.market.pending_upgrade(),
        Some(PendingUpgrade { wasm_hash, eta })
    );
    assert_eq!(
        fixture.market.execute_upgrade(NOW, fixture.admin),
        Err(Error::UpgradeNotReady)
    );
    fixture.market.cancel_upgrade(fixture.admin).unwrap();
    assert_eq!(fixture.market.pending_upgrade(), None);
}

#[test]
fn protocol_fee_defaults_to_zero_and_changes_nothing() {
    let mut fixture = seeded(20_000, 20_000);
    assert_eq!(fixture.market.protocol_fee_share_bps(), 0);

    fixture.mint_sy(fixture.admin, 1_000);
    let before = fixture.state();
    fixture.swap_sy_for_pt(fixture.admin, 1_000, 1).unwrap();
    let after = fixture.state();

    // At the default, reserves absorb the entire fee.
    assert_eq!(fixture.market.protocol_fees_accrued(), 0);
    assert!(after.total_sy > before.total_sy);
}

#[test]
fn protocol_fee_takes_a_share_of_the_fee_not_the_trade() {
    let mut fixture = seeded(200_000, 200_000);
    let treasury = address(88);
    fixture
        .market
        .set_protocol_fee(fixture.admin, 3_000, treasury) // 30% of the fee
        .unwrap();

    fixture.mint_sy(fixture.admin, 50_000);
    fixture.swap_sy_for_pt(fixture.admin, 50_000, 1).unwrap();
    let accrued = fixture.market.protocol_fees_accrued();

    assert!(accrued > 0, "30% of a real fee must accrue something");
    // The fee is 10bps of the trade; the protocol takes 30% of THAT, so the
    // cut must be a tiny fraction of the trade, never a share of it.
    assert!(accrued < 50_000 * FEE_BPS / BPS_DENOMINATOR + 2);
}

#[test]
fn protocol_fee_share_is_capped() {
    let mut fixture = fixture(NOW);
    fixture.initialize().unwrap();
    let treasury = address(88);
    assert_eq!(
        fixture
            .market
            .set_protocol_fee(fixture.admin, MAX_PROTOCOL_FEE_SHARE_BPS + 1, treasury),
        Err(Error::InvalidProtocolFee)
    );
    fixture
        .market
        .set_protocol_fee(fixture.admin, MAX_PROTOCOL_FEE_SHARE_BPS, treasury)
        .unwrap();
}

#[test]
fn sweep_refuses_the_reserves() {
    let mut fixture = fixture(NOW);
    fixture.initialize().unwrap();
    assert_eq!(
        fixture.market.sweep(fixture.admin, fixture.pt_token, fixture.admin, 5),
        Err(Error::ProtectedAsset)
    );
    assert_eq!(
        fixture.market.sweep(fixture.admin, fixture.sy_token, fixture.admin, 5),
        Err(Error::ProtectedAsset)
    );
}

#[test]
fn add_liquidity_generous_min_survives_ratio_move() {
    let mut fixture = seeded(20_000, 20_000);
    fixture.mint_pt(fixture.bob, 1_000);
    fixture.mint_sy(fixture.bob, 1_000);
    fixture.mint_sy(fixture.admin, 2_000);
    fixture.swap_sy_for_pt(fixture.admin, 2_000, 1).unwrap();

    let lp_out = fixture.add_liquidity(fixture.bob, 1_000, 1_000, 900).unwrap();
    assert!((900..1_000).contains(&lp_out));
}

#[test]
fn remove_liquidity_reverts_when_min_sy_out_not_met() {
    let mut fixture = seeded(20_000, 20_000);

    // Quoted pro-rata for 1_000 LP: 1_000 PT and 1_000 SY. A PT seller drains
    // SY from the pool before the removal executes.
    let stale_sy_quote = 1_000;
    fixture.mint_pt(fixture.admin, 2_000);
    fixture.swap_pt_for_sy(fixture.admin, 2_000, 1).unwrap();

    let error = fixture
        .remove_liquidity(fixture.admin, 1_000, 0, stale_sy_quote)
        .unwrap_err();
    assert_eq!(error.code(), 11);
}

#[test]
fn remove_liquidity_reverts_when_min_pt_out_not_met() {
    let mut fixture = seeded(20_000, 20_000);

    // A PT buyer drains PT from the pool, so pt_out per LP falls below the
    // stale pro-rata quote of 1_000.
    let stale_pt_quote = 1_000;
    fixture.mint_sy(fixture.admin, 2_000);
    fixture.swap_sy_for_pt(fixture.admin, 2_000, 1).unwrap();

    let error = fixture
        .remove_liquidity(fixture.admin, 1_000, stale_pt_quote, 0)
        .unwrap_err();
    assert_eq!(error.code(), 11);
}

#[test]
fn remove_liquidity_generous_bounds_pass_after_ratio_move() {
    let mut fixture = seeded(20_000, 20_000);
    fixture.mint_pt(fixture.admin, 2_000);
    fixture.swap_pt_for_sy(fixture.admin, 2_000, 1).unwrap();

    let (pt_out, sy_out) = fixture
        .remove_liquidity(fixture.admin, 1_000, 1_000, 900)
        .unwrap();
    assert!(pt_out >= 1_000, "PT per LP grew after the PT sell");
    assert!((900..1_000).contains(&sy_out), "SY per LP shrank");
}

#[test]
fn add_liquidity_rejects_after_maturity() {
    let mut fixture = seeded(10_000, 10_000);

    fixture.now = MATURITY;
    let error = fixture.add_liquidity(fixture.admin, 1_000, 1_000, 0).unwrap_err();
    assert_eq!(error, Error::MarketMatured);
    assert_eq!(error.code(), 10);
}

#[test]
fn swap_pt_for_sy_rejects_after_maturity() {
    let mut fixture = seeded(20_000, 20_000);
    fixture.mint_pt(fixture.admin, 1_000);

    fixture.now = MATURITY;
    assert_eq!(fixture.swap_pt_for_sy(fixture.admin, 1_000, 1).unwrap_err().code(), 10);
}

#[test]
fn swap_sy_for_pt_rejects_after_maturity() {
    let mut fixture = seeded(20_000, 20_000);
    fixture.mint_sy(fixture.admin, 1_000);

    fixture.now = MATURITY;
    assert_eq!(fixture.swap_sy_for_pt(fixture.admin, 1_000, 1).unwrap_err().code(), 10);
}

#[test]
fn swap_sy_for_yt_rejects_after_maturity() {
    let mut fixture = seeded(20_000, 20_000);
    fixture.mint_sy(fixture.admin, 1_000);

    fixture.now = MATURITY;
    assert_eq!(fixture.swap_sy_for_yt(fixture.admin, 1_000, 1).unwrap_err().code(), 10);
}

#[test]
fn swap_yt_for_sy_rejects_after_maturity() {
    let mut fixture = seeded(20_000, 20_000);

    fixture.now = MATURITY;
    assert_eq!(fixture.swap_yt_for_sy(fixture.admin, 1_000, 1).unwrap_err().code(), 10);
}

#[test]
fn non_lp_cannot_remove_liquidity() {
    let mut fixture = seeded(10_000, 10_000);

    let error = fixture.remove_liquidity(fixture.bob, 1_000, 0, 0).unwrap_err();
    assert_eq!(error, Error::InsufficientLiquidity);
    assert_eq!(error.code(), 12);
}

#[test]
fn swap_pt_for_sy_updates_reserves_and_observation() {
    let mut fixture = seeded(20_000, 20_000);
    fixture.mint_pt(fixture.admin, 1_000);
    let admin_pt_before = fixture.pt_balance(fixture.admin);
    let admin_sy_before = fixture.sy_balance(fixture.admin);

    fixture.now = NOW + 60;
    let sy_out = fixture.swap_pt_for_sy(fixture.admin, 1_000, 1).unwrap();
    let state = fixture.state();

    assert!(sy_out > 0);
    assert_eq!(state.total_pt, 21_000);
    assert_eq!(state.total_sy, 20_000 - sy_out);
    assert_eq!(state.last_observation, NOW + 60);
    assert!(state.twap_ln_implied_rate > 0);
    assert_eq!(fixture.pool_pt_balance(), state.total_pt);
    assert_eq!(fixture.pool_sy_balance(), state.total_sy);
    assert_eq!(fixture.pt_balance(fixture.admin), admin_pt_before - 1_000);
    assert_eq!(fixture.sy_balance(fixture.admin), admin_sy_before + sy_out);
}

#[test]
fn swap_sy_for_pt_updates_reserves_and_observation() {
    let mut fixture = seeded(20_000, 20_000);
    fixture.mint_sy(fixture.admin, 1_000);
    let admin_pt_before = fixture.pt_balance(fixture.admin);
    let admin_sy_before = fixture.sy_balance(fixture.admin);

    fixture.now = NOW + 60;
    let pt_out = fixture.swap_sy_for_pt(fixture.admin, 1_000, 1).unwrap();
    let state = fixture.state();

    assert!(pt_out > 0);
    assert_eq!(state.total_pt, 20_000 - pt_out);
    assert_eq!(state.total_sy, 21_000);
    assert_eq!(state.last_observation, NOW + 60);
    assert!(state.twap_ln_implied_rate > 0);
    assert_eq!(fixture.pool_pt_balance(), state.total_pt);
    assert_eq!(fixture.pool_sy_balance(), state.total_sy);
    assert_eq!(fixture.pt_balance(fixture.admin), admin_pt_before + pt_out);
    assert_eq!(fixture.sy_balance(fixture.admin), admin_sy_before - 1_000);
}

#[test]
fn pt_for_sy_quote_reprices_after_sy_rate_move_without_liquidity_change() {
    // Yield accrual on the SY side, with no add/remove liquidity, must move the
    // curve's priced output even though the reserves are untouched.
    let mut fixture = seeded(1_000_000, 1_000_000);

    let baseline = fixture.quote_pt_for_sy(10_000).expect("quote at par");

    fixture.sy_rate = 1_100_000_000_000_000_000;

    let state = fixture.state();
    assert_eq!(state.total_sy, 1_000_000, "no liquidity op should touch total_sy");
    assert_eq!(state.total_pt, 1_000_000);

    let after_accrual = fixture.quote_pt_for_sy(10_000).expect("quote after accrual");
    assert_ne!(baseline, after_accrual);
    // Each SY share is now worth more of the underlying asset, so the same PT
    // face amount is priced against fewer, more valuable shares.
    assert!(after_accrual < baseline);
}

#[test]
fn pt_for_sy_quote_falls_monotonically_as_sy_rate_rises() {
    let mut prior = i128::MAX;
    for target_rate in [
        WAD,
        1_050_000_000_000_000_000,
        1_100_000_000_000_000_000,
        1_200_000_000_000_000_000,
        1_500_000_000_000_000_000,
    ] {
        let mut fixture = seeded(1_000_000, 1_000_000);
        fixture.sy_rate = target_rate;

        let sy_out = fixture.quote_pt_for_sy(10_000).expect("quote should succeed");
        assert!(sy_out < prior, "rate={target_rate} sy_out={sy_out} prior={prior}");
        prior = sy_out;
    }
}

#[test]
fn swap_pt_for_sy_executes_fewer_sy_shares_at_appreciated_rate() {
    let mut par_fixture = seeded(1_000_000, 1_000_000);
    par_fixture.mint_pt(par_fixture.admin, 10_000);
    let par_sy_out = par_fixture.swap_pt_for_sy(par_fixture.admin, 10_000, 1).unwrap();

    let mut rich_fixture = seeded(1_000_000, 1_000_000);
    rich_fixture.sy_rate = 1_100_000_000_000_000_000;
    rich_fixture.mint_pt(rich_fixture.admin, 10_000);
    let rich_sy_out = rich_fixture.swap_pt_for_sy(rich_fixture.admin, 10_000, 1).unwrap();

    assert!(rich_sy_out < par_sy_out);
    // The shares should have shrunk by roughly the SY rate ratio (~1.10x).
    assert!(rich_sy_out * 11 / 10 <= par_sy_out + 5);
}

#[test]
fn yt_quote_reprices_after_sy_rate_move() {
    let mut fixture = seeded(1_000_000, 1_000_000);

    let baseline_yt = fixture.quote_sy_for_yt(10_000).unwrap();

    fixture.sy_rate = 1_100_000_000_000_000_000;
    let after_yt = fixture.quote_sy_for_yt(10_000).unwrap();

    assert_ne!(baseline_yt, after_yt);
}

#[test]
fn round_trip_sy_to_pt_to_sy_conserves_value_at_nonpar_rate() {
    let mut fixture = seeded(1_000_000, 1_000_000);
    fixture.sy_rate = 1_200_000_000_000_000_000;

    fixture.mint_sy(fixture.admin, 50_000);
    let sy_before = fixture.sy_balance(fixture.admin);

    let pt_out = fixture.swap_sy_for_pt(fixture.admin, 10_000, 1).unwrap();
    let sy_out = fixture.swap_pt_for_sy(fixture.admin, pt_out, 1).unwrap();

    let sy_after = fixture.sy_balance(fixture.admin);
    assert_eq!(sy_after, sy_before - 10_000 + sy_out);
    assert!(sy_out < 10_000, "round-tripping through PT must not create value");
    // The only value lost is the two legs' fees, price impact and rounding.
    let max_loss = 10_000 / 100;
    assert!(10_000 - sy_out <= max_loss);
}

#[test]
fn buying_and_selling_back_never_pays_more_than_it_took() {
    let mut made = 0;
    for share_bps in [0, MAX_PROTOCOL_FEE_SHARE_BPS] {
        for sy_rate in [WAD / 2, WAD, 3 * WAD] {
            for sy_in in [3, 50, 10_000, 400_000] {
                let mut f = seeded(2_000_000, 1_000_000);
                let treasury = f.bob;
                f.market.set_protocol_fee(f.admin, share_bps, treasury).unwrap();
                f.sy_rate = sy_rate;
                f.mint_sy(f.admin, 1_000_000);
                let before = f.sy_balance(f.admin);
                let pt_out = match f.swap_sy_for_pt(f.admin, sy_in, 1) {
                    Ok(pt_out) => pt_out,
                    Err(_) => continue,
                };
                let charged = before - f.sy_balance(f.admin);
                if let Ok(sy_out) = f.swap_pt_for_sy(f.admin, pt_out, 1) {
                    assert!(sy_out <= charged);
                    made += 1;
                }
            }
        }
    }
    assert!(made >= 12);
}

/// A budget that the best purchase does not use up, and what that one costs.
fn sy_in_with_rounding_gap(fixture: &Fixture) -> (i128, i128) {
    for sy_in in 1..5_000 {
        if let Ok((_, required_sy)) = fixture.quote_sy_for_pt_cost(sy_in) {
            if required_sy < sy_in {
                return (sy_in, required_sy);
            }
        }
    }
    panic!("expected a SY input with rounding gap");
}

#[test]
fn sy_exact_in_swaps_credit_only_the_charged_amount_to_reserves() {
    let mut fixture = seeded(20_000, 20_000);
    let (sy_in, required_sy) = sy_in_with_rounding_gap(&fixture);
    assert!(required_sy < sy_in);

    let before = fixture.state();
    let sy_wallet_before = fixture.sy_balance(fixture.admin);
    fixture.swap_sy_for_pt(fixture.admin, sy_in, 1).unwrap();
    let after = fixture.state();
    let spent = sy_wallet_before - fixture.sy_balance(fixture.admin);

    // Reserves grow by exactly what the trader was debited, and the trader is
    // debited the curve cost, not their whole budget.
    assert_eq!(spent, required_sy, "trader charged more than the curve cost");
    assert_eq!(after.total_sy, before.total_sy + required_sy);
    assert!(spent < sy_in, "fixture must exercise the rounding gap");
}

#[test]
fn same_timestamp_swaps_do_not_overwrite_twap() {
    let mut fixture = seeded(20_000, 20_000);

    fixture.now = NOW + 60;
    fixture.swap_sy_for_pt(fixture.admin, 1_000, 1).unwrap();
    let after_first = fixture.state();

    fixture.swap_sy_for_pt(fixture.admin, 1_500, 1).unwrap();
    let after_second = fixture.state();

    assert_ne!(
        after_second.last_ln_implied_rate, after_first.twap_ln_implied_rate,
        "second swap must move spot so this test proves TWAP did not follow it"
    );
    assert_eq!(after_second.last_observation, after_first.last_observation);
    assert_eq!(after_second.twap_ln_implied_rate, after_first.twap_ln_implied_rate);
}

#[test]
fn quote_sy_for_yt_is_leveraged() {
    let fixture = seeded(20_000, 20_000);

    // Buying YT is leveraged: each SY buys more than its face in YT, because
    // the freshly minted PT is sold to fund the position.
    let yt_out = fixture.quote_sy_for_yt(1_000).unwrap();
    assert!(yt_out > 1_000);
}

#[test]
fn quote_yt_for_sy_is_below_face() {
    let fixture = seeded(20_000, 20_000);

    // Selling YT yields less SY than its face: PT must be repurchased to
    // complete the recombine.
    let sy_out = fixture.quote_yt_for_sy(1_000).unwrap();
    assert!(sy_out > 0 && sy_out < 1_000);
}

#[test]
fn read_accessors_match_state_and_rate_views() {
    let mut fixture = seeded(20_000, 20_000);
    fixture.now = NOW + 60;
    fixture.swap_sy_for_pt(fixture.admin, 1_000, 1).unwrap();

    let state = fixture.state();
    let now = fixture.now;

    assert_eq!(fixture.market.reserve_pt(), Ok(state.total_pt));
    assert_eq!(fixture.market.reserve_sy(), Ok(state.total_sy));
    assert_eq!(fixture.market.total_lp(), Ok(state.total_lp));
    assert_eq!(fixture.market.spot_apy(now), fixture.market.implied_apy(now));
    assert!(fixture.market.twap_apy(now).unwrap() > 0);
    assert_eq!(fixture.market.reserve_pt(), Ok(fixture.pool_pt_balance()));
    assert_eq!(fixture.market.reserve_sy(), Ok(fixture.pool_sy_balance()));
}

#[test]
fn rate_views_track_warmup_and_zero_at_maturity() {
    let fixture = seeded(20_000, 20_000);

    assert_eq!(fixture.market.twap_warming_up(NOW), Ok(true));
    assert_eq!(fixture.market.twap_warming_up(NOW + TWAP_WINDOW), Ok(false));

    assert_eq!(fixture.market.implied_apy(MATURITY), Ok(0));
    assert_eq!(fixture.market.spot_apy(MATURITY), Ok(0));
    assert_eq!(fixture.market.twap_apy(MATURITY), Ok(0));
    assert_eq!(fixture.market.twap_warming_up(MATURITY), Ok(false));
}

#[test]
fn twap_re_enters_warmup_after_an_idle_gap_snaps_it() {
    let mut fixture = seeded(20_000, 20_000);

    // Trade while warm so the TWAP has a real blended history, then let the
    // initial warm-up lapse.
    fixture.now = NOW + 60;
    fixture.swap_sy_for_pt(fixture.admin, 1_000, 1).unwrap();
    fixture.now = NOW + TWAP_WINDOW + 61;
    assert_eq!(fixture.market.twap_warming_up(fixture.now), Ok(false));

    // Idle for well over a full window, then a single swap lands: the
    // observation snaps the TWAP, so the market must declare itself warming up
    // again for a full window from that swap.
    let after_gap = NOW + TWAP_WINDOW + 61 + 3 * TWAP_WINDOW;
    fixture.now = after_gap;
    fixture.swap_sy_for_pt(fixture.admin, 1_000, 1).unwrap();
    assert_eq!(fixture.market.twap_warming_up(after_gap), Ok(true));
    assert_eq!(fixture.market.twap_warming_up(after_gap + TWAP_WINDOW), Ok(false));
}

#[test]
fn quote_accessors_match_pt_route_execution_without_mutating_state() {
    let mut first_fixture = seeded(20_000, 20_000);

    let before = first_fixture.state();
    let quoted_sy_out = first_fixture.quote_pt_for_sy(1_000);
    let quoted_pt_out = first_fixture.quote_sy_for_pt(1_000);
    let after_quote = first_fixture.state();

    assert_eq!(before, after_quote);
    assert_eq!(quoted_sy_out, first_fixture.swap_pt_for_sy(first_fixture.admin, 1_000, 1));

    let mut second_fixture = seeded(20_000, 20_000);
    assert_eq!(quoted_pt_out, second_fixture.swap_sy_for_pt(second_fixture.admin, 1_000, 1));
}

#[test]
fn quote_yt_accessors_do_not_mutate_state() {
    let fixture = seeded(20_000, 20_000);

    let before = fixture.state();
    assert!(fixture.quote_sy_for_yt(1_000).unwrap() > 0);
    assert!(fixture.quote_yt_for_sy(1_000).unwrap() > 0);
    let after_quote = fixture.state();

    assert_eq!(before, after_quote);
}

#[test]
fn quote_accessors_return_typed_errors_before_trade_execution() {
    let mut fixture = fixture(NOW);
    fixture.initialize().unwrap();

    assert_eq!(fixture.quote_pt_for_sy(0), Err(Error::InvalidAmount));
    assert_eq!(fixture.quote_sy_for_pt(0), Err(Error::InvalidAmount));
    assert_eq!(fixture.quote_sy_for_yt(1_000), Err(Error::MarketNotSeeded));
    assert_eq!(fixture.quote_yt_for_sy(1_000), Err(Error::MarketNotSeeded));
}

#[test]
fn quote_accessors_reject_matured_market() {
    let mut fixture = seeded(20_000, 20_000);
    fixture.now = MATURITY;

    assert_eq!(fixture.quote_pt_for_sy(1_000), Err(Error::MarketMatured));
    assert_eq!(fixture.quote_sy_for_pt(1_000), Err(Error::MarketMatured));
    assert_eq!(fixture.quote_sy_for_yt(1_000), Err(Error::MarketMatured));
    assert_eq!(fixture.quote_yt_for_sy(1_000), Err(Error::MarketMatured));
}

/// A small deterministic generator.
struct Draws(u64);

impl Draws {
    fn next(&mut self, bound: u64) -> u64 {
        self.0 = self.0.wrapping_mul(6_364_136_223_846_793_005).wrapping_add(1_442_695_040_888_963_407);
        (self.0 >> 33) % bound
    }
}

#[test]
fn custody_matches_reserves_across_random_sequences() {
    for seed in 0..40 {
        let mut draws = Draws(seed);
        let mut f = seeded(1_000_000, 1_000_000);
        f.sy_rate = WAD + draws.next(500) as i128 * (WAD / 1_000);
        f.mint(f.yt_token, f.admin, 100_000);
        f.mint_sy(f.tokenizer, 1_000_000);
        let pairs = f.pt_balance(f.admin) + f.pool_pt_balance() - f.balance(f.yt_token, f.admin);
        let mut wallet_pt = f.pt_balance(f.admin);
        let mut wallet_sy = f.sy_balance(f.admin);
        for _ in 0..30 {
            let amount = 1 + draws.next(5_000) as i128;
            f.now += draws.next(600);
            match draws.next(6) {
                0 => {
                    let wallet = f.sy_balance(f.admin);
                    if let Ok((pt_out, cost)) = f.quote_sy_for_pt_cost(amount) {
                        assert_eq!(f.swap_sy_for_pt(f.admin, amount, 1), Ok(pt_out));
                        assert_eq!(f.sy_balance(f.admin), wallet - cost);
                        assert!(cost <= amount);
                        wallet_pt += pt_out;
                        wallet_sy -= cost;
                    }
                }
                1 => {
                    if let Ok(sy_out) = f.quote_pt_for_sy(amount) {
                        assert_eq!(f.swap_pt_for_sy(f.admin, amount, 1), Ok(sy_out));
                        wallet_pt -= amount;
                        wallet_sy += sy_out;
                    }
                }
                2 => {
                    let wallet = f.sy_balance(f.admin);
                    if let Ok((yt_out, cost)) = f.quote_sy_for_yt_cost(amount) {
                        assert_eq!(f.swap_sy_for_yt(f.admin, amount, 1), Ok(yt_out));
                        assert_eq!(f.sy_balance(f.admin), wallet - cost);
                        wallet_sy -= cost;
                    }
                }
                3 => {
                    if let Ok(sy_out) = f.quote_yt_for_sy(amount) {
                        assert_eq!(f.swap_yt_for_sy(f.admin, amount, 1), Ok(sy_out));
                        wallet_sy += sy_out;
                    }
                }
                4 => {
                    // The deposit takes what the reserves' ratio can use of both.
                    let before = f.state();
                    if f.add_liquidity(f.admin, amount, amount, 0).is_ok() {
                        let pt_used = f.state().total_pt - before.total_pt;
                        let sy_used = f.state().total_sy - before.total_sy;
                        assert!(0 < pt_used && pt_used <= amount);
                        assert!(0 < sy_used && sy_used <= amount);
                        wallet_pt -= pt_used;
                        wallet_sy -= sy_used;
                    }
                }
                _ => {
                    if let Ok((pt_out, sy_out)) = f.remove_liquidity(f.admin, amount, 0, 0) {
                        wallet_pt += pt_out;
                        wallet_sy += sy_out;
                    }
                }
            }
            assert_eq!(f.untracked_balance(), (0, 0));
            let held = f.market.lp_balance(f.admin).unwrap();
            assert_eq!(f.state().total_lp - held, MINIMUM_LIQUIDITY);
        }
        // What the market reported is what moved, and tokens only came and went
        // in pairs.
        assert_eq!(f.pt_balance(f.admin), wallet_pt);
        assert_eq!(f.sy_balance(f.admin), wallet_sy);
        assert_eq!(f.pool_pt_balance(), f.state().total_pt);
        let minted = f.balance(f.yt_token, f.admin) + f.balance(f.yt_token, f.this);
        assert_eq!(f.pt_balance(f.admin) + f.pool_pt_balance() - minted, pairs);
    }
}

#[test]
fn yt_purchase_moves_what_it_quotes() {
    let mut f = seeded(20_000, 20_000);
    let (yt_out, cost) = f.quote_sy_for_yt_cost(1_000).unwrap();
    assert!(cost <= 1_000);
    let wallet = f.sy_balance(f.admin);
    let before = f.state();
    assert_eq!(f.swap_sy_for_yt(f.admin, 1_000, 1), Ok(yt_out));
    assert_eq!(f.sy_balance(f.admin), wallet - cost);
    assert_eq!(f.balance(f.yt_token, f.admin), yt_out);
    // At par the split mints exactly what was quoted.
    assert_eq!(f.state().total_pt, before.total_pt + yt_out);
    assert_eq!(f.state().total_sy, before.total_sy + cost - yt_out);
}

#[test]
fn flash_dust_stays_with_the_pool() {
    let mut f = seeded(1_000_000, 1_000_000);
    f.sy_rate = 1_700_000_000_000_000_000;
    let purchase = f.market.swap_sy_for_yt(f.now, f.sy_rate, f.admin, 10_000, 1).unwrap();
    let face = purchase.shares_to_split * f.sy_rate / WAD;
    assert!(face >= purchase.yt_out);
    assert!((face - purchase.yt_out) * WAD < f.sy_rate);

    let swap = f.market.settle_sy_for_yt(f.now, &purchase, face, face).unwrap();
    assert_eq!(swap.transfer_out.amount, purchase.yt_out);
    let state = f.state();
    assert_eq!(state.total_pt, 1_000_000 + face);
}

#[test]
fn short_split_or_recombination_is_refused() {
    let mut f = seeded(20_000, 20_000);
    let purchase = f.market.swap_sy_for_yt(f.now, f.sy_rate, f.admin, 1_000, 1).unwrap();
    let before = f.state();
    assert_eq!(
        f.market.settle_sy_for_yt(f.now, &purchase, purchase.yt_out, purchase.yt_out - 1),
        Err(Error::InsufficientLiquidity)
    );
    assert_eq!(
        f.market.settle_sy_for_yt(f.now, &purchase, purchase.yt_out - 1, purchase.yt_out),
        Err(Error::MathOverflow)
    );
    let sale = f.market.swap_yt_for_sy(f.now, f.sy_rate, f.admin, 1_000, 1).unwrap();
    assert_eq!(sale.sy_value, 1_000);
    assert_eq!(
        f.market.settle_yt_for_sy(f.now, &sale, 999),
        Err(Error::InsufficientLiquidity)
    );
    assert_eq!(f.state(), before);
    // Whatever comes in beyond the value counted on joins the reserve.
    f.market.settle_yt_for_sy(f.now, &sale, 1_007).unwrap();
    assert_eq!(f.state().total_sy, sale.state.total_sy + 7);
}

#[test]
fn slippage_bounds_are_kept_on_every_route() {
    let mut f = seeded(20_000, 20_000);
    let sy_out = f.quote_pt_for_sy(1_000).unwrap();
    let pt_out = f.quote_sy_for_pt(1_000).unwrap();
    let yt_out = f.quote_sy_for_yt(1_000).unwrap();
    let back = f.quote_yt_for_sy(1_000).unwrap();
    let before = f.state();
    assert_eq!(f.swap_pt_for_sy(f.admin, 1_000, sy_out + 1), Err(Error::SlippageExceeded));
    assert_eq!(f.swap_sy_for_pt(f.admin, 1_000, pt_out + 1), Err(Error::SlippageExceeded));
    assert_eq!(f.swap_sy_for_yt(f.admin, 1_000, yt_out + 1), Err(Error::SlippageExceeded));
    assert_eq!(f.swap_yt_for_sy(f.admin, 1_000, back + 1), Err(Error::SlippageExceeded));
    assert_eq!(f.state(), before);
}

#[test]
fn parameters_are_checked_in_order() {
    let mut f = fixture(NOW);
    let a = INITIAL_ANCHOR;
    assert_eq!(f.initialize_with(0, a, FEE_BPS, TWAP_WINDOW), Err(Error::InvalidScalarRoot));
    assert_eq!(
        f.initialize_with(SCALAR_ROOT, WAD - 1, FEE_BPS, TWAP_WINDOW),
        Err(Error::InvalidAnchor)
    );
    assert_eq!(
        f.initialize_with(SCALAR_ROOT, 2 * WAD + 1, FEE_BPS, TWAP_WINDOW),
        Err(Error::InputOutOfBounds)
    );
    assert_eq!(f.initialize_with(SCALAR_ROOT, a, -1, TWAP_WINDOW), Err(Error::InvalidFee));
    assert_eq!(f.initialize_with(SCALAR_ROOT, a, 10_000, TWAP_WINDOW), Err(Error::InvalidFee));
    assert_eq!(f.initialize_with(SCALAR_ROOT, a, FEE_BPS, 0), Err(Error::InvalidTwapWindow));
    f.now = MATURITY;
    assert_eq!(f.initialize(), Err(Error::InvalidMaturity));
    assert_eq!(f.market.state(), Err(Error::NotInitialized));
    f.now = NOW;
    f.initialize().unwrap();
    assert_eq!(f.initialize(), Err(Error::AlreadyInitialized));
}

#[test]
fn nothing_works_before_setup() {
    let mut f = fixture(NOW);
    assert_eq!(f.quote_pt_for_sy(1_000), Err(Error::NotInitialized));
    assert_eq!(f.swap_sy_for_pt(f.admin, 1_000, 1), Err(Error::NotInitialized));
    assert_eq!(f.add_liquidity(f.admin, 10_000, 10_000, 0), Err(Error::NotInitialized));
    assert_eq!(f.remove_liquidity(f.admin, 10, 0, 0), Err(Error::NotInitialized));
    assert_eq!(f.market.pause(f.admin), Err(Error::NotInitialized));
    assert_eq!(f.market.propose_admin(f.admin, f.bob), Err(Error::NotInitialized));
    assert_eq!(f.market.lp_balance(f.admin), Err(Error::NotInitialized));
    assert_eq!(f.market.maturity(), Err(Error::NotInitialized));
    assert_eq!(f.market.guardian(), Err(Error::NotInitialized));
}

#[test]
fn shares_need_a_positive_rate() {
    let mut f = seeded(20_000, 20_000);
    f.sy_rate = 0;
    assert_eq!(f.quote_pt_for_sy(1_000), Err(Error::InvalidSyRate));
    assert_eq!(f.swap_sy_for_pt(f.admin, 1_000, 1), Err(Error::InvalidSyRate));
    f.sy_rate = i128::MAX;
    assert_eq!(f.quote_pt_for_sy(1_000), Err(Error::MathOverflow));
    f.sy_rate = 1;
    assert_eq!(f.quote_pt_for_sy(1_000), Err(Error::MarketNotSeeded));
}

#[test]
fn trades_stay_on_the_curve() {
    let mut f = seeded(20_000, 20_000);
    // Selling this much would make principal tokens more than 96% of the pool.
    assert_eq!(f.quote_pt_for_sy(100_000), Err(Error::MarketProportionTooHigh));
    // So little buys nothing, and so much sells nothing.
    assert_eq!(f.quote_sy_for_pt(1), Err(Error::TradeNotFound));
    assert_eq!(f.quote_yt_for_sy(20_000), Err(Error::TradeNotFound));
    assert_eq!(f.quote_pt_for_sy(1), Err(Error::InsufficientLiquidity));
    assert_eq!(f.quote_pt_for_sy(WAD + 1), Err(Error::InputOutOfBounds));
    // A deposit too lopsided for the curve opens no market.
    let mut g = fixture(NOW);
    g.initialize().unwrap();
    assert_eq!(
        g.add_liquidity(g.admin, 10_000, 9_000_000, 0),
        Err(Error::ExchangeRateBelowOne)
    );
    assert_eq!(g.add_liquidity(g.admin, 1_000, 1_000, 0), Err(Error::InsufficientLiquidity));
    assert_eq!(f.add_liquidity(f.admin, 20_000, 0, 0), Err(Error::InvalidAmount));
}

#[test]
fn later_deposits_keep_the_proportion() {
    let mut f = seeded(30_000, 20_000);
    let state = f.state();
    assert_eq!(state.total_lp, 24_494);
    let added = f.market.add_liquidity(f.now, f.sy_rate, f.bob, 3_000, 3_000, 0).unwrap();
    // 3_000 of 30_000 principal tokens is the scarcer side.
    assert_eq!(added.event.lp_out, 2_449);
    assert_eq!(added.pt_in.amount, 3_000);
    assert_eq!(added.sy_in.amount, 2_000);
    assert_eq!(f.market.lp_balance(f.bob), Ok(2_449));
}

#[test]
fn accrued_fees_go_to_the_treasury_alone() {
    let mut f = seeded(200_000, 200_000);
    let treasury = address(88);
    assert_eq!(
        f.market.withdraw_protocol_fees(treasury),
        Err(Error::InvalidProtocolFee)
    );
    f.market.set_protocol_fee(f.admin, 5_000, treasury).unwrap();
    assert_eq!(f.market.withdraw_protocol_fees(treasury), Err(Error::InvalidAmount));
    let (_, cost) = f.quote_sy_for_pt_cost(50_000).unwrap();
    f.swap_sy_for_pt(f.admin, 50_000, 1).unwrap();
    let fee = cost * FEE_BPS / (BPS_DENOMINATOR + FEE_BPS);
    assert_eq!(f.market.protocol_fees_accrued(), fee / 2);
    assert_eq!(f.state().total_sy, 200_000 + cost - fee / 2);
    assert_eq!(f.market.withdraw_protocol_fees(f.admin), Err(Error::NotAuthorized));
    assert_eq!(
        f.market.withdraw_protocol_fees(treasury),
        Ok(Transfer { token: f.sy_token, holder: treasury, amount: fee / 2 })
    );
    assert_eq!(f.market.protocol_fees_accrued(), 0);

    let sy_out = f.swap_pt_for_sy(f.admin, 10_000, 1).unwrap();
    let fee = sy_out * FEE_BPS / (BPS_DENOMINATOR - FEE_BPS);
    assert_eq!(f.market.protocol_fees_accrued(), fee / 2);
}

#[test]
fn renounced_market_stays_tradeable() {
    let mut f = seeded(20_000, 20_000);
    f.market.propose_upgrade(NOW, f.admin, WasmHash { high: 1, low: 1 }).unwrap();
    f.market.renounce_admin(f.admin).unwrap();
    assert!(f.market.is_renounced());
    assert_eq!(f.market.pending_upgrade(), None);
    assert_eq!(f.market.pause(f.admin), Err(Error::NotAuthorized));
    assert_eq!(
        f.market.propose_upgrade(NOW, f.admin, WasmHash { high: 1, low: 1 }),
        Err(Error::NotAuthorized)
    );
    assert_eq!(f.market.set_protocol_fee(f.admin, 0, f.bob), Err(Error::NotAuthorized));
    assert_eq!(f.market.sweep(f.admin, f.yt_token, f.bob, 1), Err(Error::NotAuthorized));
    assert!(f.swap_sy_for_pt(f.admin, 1_000, 1).is_ok());
    assert!(f.remove_liquidity(f.admin, 1_000, 0, 0).is_ok());
}

#[test]
fn upgrade_is_handed_out_once_it_is_due() {
    let mut f = seeded(20_000, 20_000);
    let wasm_hash = WasmHash { high: 9, low: 8 };
    let eta = f.market.propose_upgrade(NOW, f.admin, wasm_hash).unwrap().eta;
    assert_eq!(f.market.execute_upgrade(eta - 1, f.admin), Err(Error::UpgradeNotReady));
    assert_eq!(f.market.execute_upgrade(eta, f.bob), Err(Error::NotAuthorized));
    assert_eq!(f.market.execute_upgrade(eta, f.admin), Ok(wasm_hash));
    assert_eq!(f.market.pending_upgrade(), None);
    assert_eq!(
        f.market.propose_upgrade(u64::MAX, f.admin, wasm_hash),
        Err(Error::MathOverflow)
    );
}

#[test]
fn guardian_or_admin_pauses_and_admin_resumes() {
    let mut f = seeded(20_000, 20_000);
    let guardian = address(55);
    assert_eq!(f.market.guardian(), Ok(f.admin));
    f.market.set_guardian(f.admin, guardian).unwrap();
    assert_eq!(f.market.guardian(), Ok(guardian));
    assert_eq!(f.market.pause(f.bob), Err(Error::NotAuthorized));
    f.market.pause(guardian).unwrap();
    assert_eq!(f.market.unpause(guardian), Err(Error::NotAuthorized));
    f.market.unpause(f.admin).unwrap();
    f.market.pause(f.admin).unwrap();
    assert!(f.market.is_paused());
    assert_eq!(f.market.accept_admin(f.admin), Err(Error::NotPendingAdmin));
}

#[test]
fn foreign_tokens_can_be_swept() {
    let f = seeded(20_000, 20_000);
    assert_eq!(
        f.market.sweep(f.admin, f.yt_token, f.bob, 12),
        Ok(Transfer { token: f.yt_token, holder: f.bob, amount: 12 })
    );
    assert_eq!(f.market.sweep(f.admin, f.yt_token, f.bob, 0), Err(Error::InvalidAmount));
    assert_eq!(f.market.sweep(f.bob, f.yt_token, f.bob, 12), Err(Error::NotAuthorized));
}

#[test]
fn events_name_the_offer_and_the_delivery() {
    let mut f = seeded(20_000, 20_000);
    let swap = f.market.swap_sy_for_pt(NOW, WAD, f.admin, 1_000, 1).unwrap();
    assert_eq!(
        swap.event,
        Swap {
            trader: f.admin,
            route: swap.event.route,
            amount_in: 1_000,
            amount_out: swap.transfer_out.amount,
        }
    );
    assert_eq!(swap.transfer_in.token, f.sy_token);
    assert_eq!(swap.transfer_out.token, f.pt_token);
    assert_eq!(f.market.maturity(), Ok(MATURITY));
    assert_eq!(f.market.check_trade(NOW, 1), Ok(()));
    assert_eq!(f.market.check_quote(MATURITY, 1), Err(Error::MarketMatured));
}

#[test]
fn stored_parts_make_the_market_again() {
    let f = seeded(20_000, 20_000);
    let (config, state) = (f.market.config, f.market.state);
    let (governance, fees) = (f.market.governance, f.market.fees);
    let held = f.market.lp_balance(f.admin).unwrap();
    let shares = |amount: i128| {
        let mut ledger = Ledger::new();
        ledger.set(f.admin, amount);
        ledger
    };

    let none = PastClaims::none;
    let restore = |config, state, fees, claims, shares| {
        AmmMarket::restore(config, state, governance, fees, claims, shares)
    };

    let restored = restore(config, state, fees, none(), shares(held)).unwrap();
    assert_eq!(restored.config(), f.market.config());
    assert_eq!(restored.state(), f.market.state());
    assert_eq!(restored.lp_balance(f.admin), Ok(held));
    assert_eq!(
        restored.quote_pt_for_sy(NOW, WAD, 1_000),
        f.market.quote_pt_for_sy(NOW, WAD, 1_000)
    );

    assert!(restore(config, state, fees, none(), shares(held + 1)).is_none());
    assert!(restore(config, state, fees, none(), shares(-1)).is_none());
    assert!(restore(config, None, fees, none(), shares(0)).is_none());
    let drained = state.map(|s| State { total_sy: 0, ..s });
    assert!(restore(config, drained, fees, none(), shares(0)).is_none());
    let free = config.map(|c| Config { fee_bps: BPS_DENOMINATOR, ..c });
    assert!(restore(free, state, fees, none(), shares(0)).is_none());
    assert!(restore(None, None, fees, none(), Ledger::new()).is_some());

    let treasury = Some(f.bob);
    let owing = ProtocolFees { share_bps: 100, treasury, accrued: 50 };
    let claims = |amount: i128, total: i128| {
        let mut owed = Ledger::new();
        owed.set(f.admin, amount);
        PastClaims { owed, total }
    };
    let restored = restore(config, state, owing, claims(20, 30), shares(0)).unwrap();
    assert_eq!(restored.protocol_fees_owed(f.admin), 20);
    assert_eq!(restored.protocol_fees_owed(f.bob), 20);
    assert!(restore(config, state, owing, claims(40, 30), shares(0)).is_none());
    assert!(restore(config, state, owing, claims(20, 51), shares(0)).is_none());
    let unowned = ProtocolFees { treasury: None, ..owing };
    assert!(restore(config, state, unowned, none(), shares(0)).is_none());
}

#[test]
fn observation_needs_room_for_the_warm_up() {
    let f = seeded(20_000, 20_000);
    assert!(f.market.can_observe(NOW));
    let config = f.market.config.map(|c| Config { maturity: u64::MAX, ..c });
    let market = AmmMarket::restore(
        config,
        f.market.state,
        f.market.governance,
        f.market.fees,
        PastClaims::none(),
        Ledger::new(),
    )
    .unwrap();
    assert!(market.can_observe(u64::MAX - TWAP_WINDOW));
    assert!(!market.can_observe(u64::MAX - TWAP_WINDOW + 1));
}

#[test]
fn holdings_are_summed_within_a_limit() {
    let mut ledger = Ledger::new();
    ledger.set(address(1), 5);
    ledger.set(address(2), 7);
    assert!(ledger.sums_within(12));
    assert!(!ledger.sums_within(11));
    assert!(ledger.is_nonnegative());
    ledger.set(address(2), -1);
    assert!(!ledger.is_nonnegative());
    assert!(!ledger.sums_within(12));
    assert_eq!(ledger.get(address(1)), 5);
    assert_eq!(ledger.get(address(3)), 0);
    assert!(ledger.contains(address(2)) && !ledger.contains(address(3)));
}

#[test]
fn principal_and_yield_token_are_priced_at_face() {
    let f = seeded(1_000_000, 1_000_000);
    let rate = WAD + WAD / 7;
    let (yt_out, sy_used) = f.market.quote_sy_for_yt_cost(NOW, rate, 1_000).unwrap();
    let sy_paid = f.market.quote_pt_for_sy(NOW, rate, yt_out).unwrap();
    assert_eq!(sy_used + sy_paid, (yt_out * WAD + rate - 1) / rate);

    let sale = f.market.swap_yt_for_sy(NOW, rate, f.bob, 10_000, 1).unwrap();
    let charged = sale.state.total_sy - f.market.reserve_sy().unwrap();
    assert_eq!(sale.sy_out + charged, 10_000 * WAD / rate);
}

#[test]
fn opening_deposit_is_priced_at_asset_value() {
    let mut f = fixture(NOW);
    f.initialize().unwrap();
    f.sy_rate = 2 * WAD;
    assert_eq!(f.market.check_deposit(NOW, 10_000, 10_000), Ok(true));
    // Shares worth twice their number leave the curve below par.
    assert_eq!(
        f.add_liquidity(f.admin, 10_000, 10_000, 0),
        Err(Error::ExchangeRateBelowOne)
    );
    assert_eq!(
        f.market.add_liquidity(NOW, 0, f.admin, 10_000, 10_000, 0),
        Err(Error::InvalidSyRate)
    );
    assert_eq!(
        f.market.add_liquidity(NOW, -WAD, f.admin, 10_000, 10_000, 0),
        Err(Error::InvalidSyRate)
    );

    // Half as many shares at twice the rate open at the same rate as at par.
    f.add_liquidity(f.admin, 10_000, 5_000, 0).unwrap();
    let at_par = seeded(10_000, 10_000);
    let (state, par) = (f.market.state().unwrap(), at_par.market.state().unwrap());
    assert_eq!(state.last_ln_implied_rate, par.last_ln_implied_rate);
    assert_eq!(state.twap_ln_implied_rate, par.twap_ln_implied_rate);
    assert_eq!(state.total_sy, 5_000);

    // A later deposit does not look at the rate.
    assert_eq!(f.market.check_deposit(NOW, 1_000, 500), Ok(false));
    assert!(f.market.add_liquidity(NOW, 0, f.bob, 1_000, 500, 0).is_ok());
}

#[test]
fn accrued_fees_stay_with_the_treasury_they_accrued_to() {
    let mut f = seeded(2_000_000, 2_000_000);
    let (first, second) = (address(61), address(62));
    f.market.set_protocol_fee(f.admin, MAX_PROTOCOL_FEE_SHARE_BPS, first).unwrap();
    f.swap_sy_for_pt(f.admin, 500_000, 1).unwrap();
    let accrued = f.market.protocol_fees_accrued();
    assert!(accrued > 0);
    assert_eq!(f.market.protocol_fees_owed(first), accrued);

    f.market.set_protocol_fee(f.admin, 0, second).unwrap();
    assert_eq!(f.market.protocol_fees_accrued(), accrued);
    assert_eq!(f.market.protocol_fees_owed(first), accrued);
    assert_eq!(f.market.protocol_fees_owed(second), 0);
    assert_eq!(f.market.withdraw_protocol_fees(second), Err(Error::InvalidAmount));
    assert_eq!(f.market.withdraw_protocol_fees(f.admin), Err(Error::NotAuthorized));

    f.market.set_protocol_fee(f.admin, MAX_PROTOCOL_FEE_SHARE_BPS, second).unwrap();
    f.swap_pt_for_sy(f.admin, 300_000, 1).unwrap();
    let later = f.market.protocol_fees_accrued() - accrued;
    assert!(later > 0);
    assert_eq!(f.market.protocol_fees_owed(second), later);
    assert_eq!(
        f.market.withdraw_protocol_fees(first),
        Ok(Transfer { token: f.sy_token, holder: first, amount: accrued })
    );
    assert_eq!(f.market.withdraw_protocol_fees(first), Err(Error::NotAuthorized));

    // Back in office, a treasury is owed the new and the old.
    f.market.set_protocol_fee(f.admin, MAX_PROTOCOL_FEE_SHARE_BPS, first).unwrap();
    f.swap_sy_for_pt(f.admin, 500_000, 1).unwrap();
    f.market.set_protocol_fee(f.admin, MAX_PROTOCOL_FEE_SHARE_BPS, second).unwrap();
    let of_first = f.market.protocol_fees_owed(first);
    assert!(of_first > 0);
    assert_eq!(f.market.protocol_fees_owed(second), later);
    assert_eq!(f.market.withdraw_protocol_fees(second).unwrap().amount, later);
    assert_eq!(f.market.protocol_fees_accrued(), of_first);
}

#[test]
fn infeasible_sale_is_refused_when_quoted() {
    let mut f = fixture(NOW);
    f.initialize().unwrap();
    let half = WAD / 10 * 6;
    f.mint_pt(f.admin, WAD);
    f.mint_sy(f.admin, WAD);
    f.add_liquidity(f.admin, half, half, 0).unwrap();
    let size = WAD / 2;
    assert_eq!(f.market.quote_pt_for_sy(NOW, WAD, size), Err(Error::TradeNotFound));
    assert_eq!(
        f.market.swap_pt_for_sy(NOW, WAD, f.admin, size, 1),
        Err(Error::InputOutOfBounds)
    );

    let quoted = f.market.quote_pt_for_sy(NOW, WAD, WAD / 10).unwrap();
    let swap = f.market.swap_pt_for_sy(NOW, WAD, f.admin, WAD / 10, quoted).unwrap();
    assert_eq!(swap.event.amount_out, quoted);
}
