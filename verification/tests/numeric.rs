use novaire::amm::checked::{
    checked_bounded_reserve_add, checked_sub, mul_div_down, mul_div_up,
    require_bounded_amount_result, require_positive_amount_result, MAX_RESERVE_UNITS,
};
use novaire::amm::curve::{
    get_exchange_rate, get_ln_implied_rate, get_rate_anchor, get_rate_scalar,
    try_get_exchange_rate, IMPLIED_RATE_TIME, MAX_MARKET_PROPORTION,
};
use novaire::amm::pricing::{
    exact_pt_in_sy_out, feasible_pt_in_sy_out, try_exact_pt_in_sy_out, Precompute,
};
use novaire::amm::sqrt::integer_sqrt;
use novaire::amm::swaps::require_seeded_result;
use novaire::amm::trade::{
    accrue_protocol_fee, fee_from_charge, fee_from_payout, sync_twap, ProtocolFees,
};
use novaire::amm::yields::ln_rate_to_bps;
use novaire::amm::{exp_wad_checked, ln_wad_checked, Config, Error, State};
use novaire::sy_wrapper::share_math::{mul_div, mul_div_ceil};
use novaire::sy_wrapper::{gcd_i128, Error as VaultError};
use novaire::{Address, AddressKind, WAD};

fn close(value: i128, real: f64) -> bool {
    (value as f64 / WAD as f64 - real).abs() <= real.abs() * 1e-12 + 1e-15
}

#[test]
fn logarithm_of_known_values() {
    assert_eq!(ln_wad_checked(WAD), Some(0));
    assert_eq!(ln_wad_checked(2 * WAD), Some(693_147_180_559_945_309));
    assert_eq!(ln_wad_checked(WAD / 2), Some(-693_147_180_559_945_309));
    assert_eq!(ln_wad_checked(0), None);
    assert_eq!(ln_wad_checked(-1), None);
    for (value, real) in [(3 * WAD, 3.0_f64), (WAD / 10, 0.1), (1_234_567 * WAD, 1_234_567.0)] {
        assert!(close(ln_wad_checked(value).unwrap(), real.ln()));
    }
    assert!(ln_wad_checked(i128::MAX).is_some());
    assert!(ln_wad_checked(1).is_some());
}

#[test]
fn logarithm_keeps_order() {
    let mut last = i128::MIN;
    let mut value: i128 = 1;
    while value < i128::MAX / 3 {
        let next = ln_wad_checked(value).unwrap();
        assert!(next >= last);
        last = next;
        value += value / 2 + 1;
    }
}

#[test]
fn exponential_of_known_values() {
    assert_eq!(exp_wad_checked(0), Some(WAD));
    assert_eq!(exp_wad_checked(693_147_180_559_945_309), Some(2 * WAD));
    assert_eq!(exp_wad_checked(-693_147_180_559_945_309), Some(WAD / 2));
    for (value, real) in [(WAD, 1.0_f64), (10 * WAD, 10.0), (-WAD, -1.0), (WAD / 4, 0.25)] {
        assert!(close(exp_wad_checked(value).unwrap(), real.exp()));
    }
    assert_eq!(exp_wad_checked(100 * WAD), None);
    assert_eq!(exp_wad_checked(-100 * WAD), Some(0));
    assert_eq!(exp_wad_checked(-i128::MAX / 2), Some(0));
    assert_eq!(exp_wad_checked(i128::MAX / 2), None);
    assert!(exp_wad_checked(1).unwrap() > WAD);
    assert!(exp_wad_checked(-1).unwrap() < WAD);
}

#[test]
fn exponential_follows_the_real_one() {
    // To one part in 10^16 and one unit.
    for (value, exact) in [
        (WAD, 2_718_281_828_459_045_235_i128),
        (-WAD, 367_879_441_171_442_321),
        (10 * WAD, 22_026_465_794_806_716_516_957),
        (40 * WAD, 235_385_266_837_019_985_407_899_910_749_034_804),
        (-30 * WAD, 93_576),
        (-50 * WAD, 0),
    ] {
        let found = exp_wad_checked(value).unwrap();
        assert!((found - exact).abs() <= exact / 10_000_000_000_000_000 + 1);
    }
    // The logarithms of ten and of a thousandth, to one part in 10^15.
    assert!((ln_wad_checked(10 * WAD).unwrap() - 2_302_585_092_994_045_684).abs() <= 1_000);
    assert!((ln_wad_checked(WAD / 1_000).unwrap() + 6_907_755_278_982_137_052).abs() <= 1_000);
}

#[test]
fn exponential_undoes_the_logarithm() {
    let limit: i128 = 100_000_000_000_000_000_000_000_000_000_000_000_000;
    let mut value: i128 = 1;
    while value <= limit {
        let back = exp_wad_checked(ln_wad_checked(value).unwrap()).unwrap();
        assert!((back - value).abs() <= value / 1_000_000_000_000_000 + 2);
        value += value / 7 + 1;
    }
    for value in [WAD - 1, WAD, WAD + 1, 2 * WAD - 1, 2 * WAD, 2 * WAD + 1, limit] {
        let back = exp_wad_checked(ln_wad_checked(value).unwrap()).unwrap();
        assert!((back - value).abs() <= value / 1_000_000_000_000_000 + 2);
    }
}

#[test]
fn square_root_is_exact() {
    assert_eq!(integer_sqrt(0), Err(Error::InvalidAmount));
    assert_eq!(integer_sqrt(-4), Err(Error::InvalidAmount));
    assert_eq!(integer_sqrt(1), Ok(1));
    assert_eq!(integer_sqrt(3), Ok(1));
    assert_eq!(integer_sqrt(4), Ok(2));
    assert_eq!(integer_sqrt(WAD * WAD), Ok(WAD));
    assert_eq!(integer_sqrt(WAD * WAD - 1), Ok(WAD - 1));
    assert_eq!(integer_sqrt(i128::MAX - 1), Ok(13_043_817_825_332_782_212));
    assert_eq!(integer_sqrt(i128::MAX), Ok(13_043_817_825_332_782_212));
}

#[test]
fn yields_of_known_rates() {
    assert_eq!(ln_rate_to_bps(195_909_333_878_730_541), Ok(2_164));
    assert_eq!(ln_rate_to_bps(-(WAD / 10)), Ok(-951));
    assert_eq!(ln_rate_to_bps(693_147_180_559_945_309), Ok(10_000));
    assert_eq!(ln_rate_to_bps(1_000 * WAD), Err(Error::MathOverflow));
}

#[test]
fn greatest_common_divisors() {
    assert_eq!(gcd_i128(12, 18), 6);
    assert_eq!(gcd_i128(-12, 18), 6);
    assert_eq!(gcd_i128(0, 5), 5);
    assert_eq!(gcd_i128(5, 0), 5);
    assert_eq!(gcd_i128(0, 0), 0);
    assert_eq!(gcd_i128(i128::MAX, i128::MAX - 1), 1);
}

#[test]
fn share_math_cancels_before_it_multiplies() {
    assert_eq!(mul_div(i128::MAX, WAD, WAD), Ok(i128::MAX));
    assert_eq!(mul_div(7, 10, 3), Ok(23));
    assert_eq!(mul_div(-7, 10, 3), Ok(-23));
    assert_eq!(mul_div(1, 1, 0), Err(VaultError::MathOverflow));
    assert_eq!(mul_div(i128::MAX, 3, 2), Err(VaultError::MathOverflow));
    assert_eq!(mul_div_ceil(7, 10, 3), Ok(24));
    assert_eq!(mul_div_ceil(6, 10, 3), Ok(20));
    // The raw product is too large, and the quotient is still rounded up.
    let big: i128 = 1 << 126;
    assert_eq!(big.checked_mul(2), None);
    assert_eq!(mul_div_ceil(big, 2, 6), Ok(big / 3 + 1));
    assert_eq!(mul_div_ceil(big, 3, 2), Ok(3 * (big / 2)));
    assert_eq!(mul_div_ceil(i128::MAX, 3, 2), Err(VaultError::MathOverflow));
}

#[test]
fn checked_arithmetic_reports_its_limits() {
    assert_eq!(mul_div_down(7, 10, 3), Ok(23));
    assert_eq!(mul_div_down(-7, 10, 3), Ok(-23));
    assert_eq!(mul_div_up(7, 10, 3), Ok(24));
    assert_eq!(mul_div_down(1, 1, 0), Err(Error::MathOverflow));
    assert_eq!(mul_div_up(i128::MAX, 2, 2), Err(Error::MathOverflow));
    assert_eq!(checked_sub(3, 4), Err(Error::MathOverflow));
    assert_eq!(checked_sub(4, 3), Ok(1));
    assert_eq!(checked_bounded_reserve_add(MAX_RESERVE_UNITS, 0), Ok(MAX_RESERVE_UNITS));
    assert_eq!(checked_bounded_reserve_add(MAX_RESERVE_UNITS, 1), Err(Error::InputOutOfBounds));
    assert_eq!(require_positive_amount_result(0), Err(Error::InvalidAmount));
    assert_eq!(require_positive_amount_result(1), Ok(()));
    assert_eq!(require_bounded_amount_result(WAD), Ok(()));
    assert_eq!(require_bounded_amount_result(WAD + 1), Err(Error::InputOutOfBounds));
    assert_eq!(require_bounded_amount_result(-1), Err(Error::InvalidAmount));
}

#[test]
fn fees_inside_charges_and_payouts() {
    assert_eq!(fee_from_charge(100_100, 10), 100);
    assert_eq!(fee_from_payout(99_900, 10), 100);
    assert_eq!(fee_from_charge(1_000, 0), 0);
    assert_eq!(fee_from_payout(1_000, 0), 0);
}

#[test]
fn curve_steepens_toward_maturity() {
    assert_eq!(get_rate_scalar(2 * WAD, IMPLIED_RATE_TIME), Ok(2 * WAD));
    assert_eq!(get_rate_scalar(2 * WAD, IMPLIED_RATE_TIME / 4), Ok(8 * WAD));
    assert_eq!(get_rate_scalar(1, IMPLIED_RATE_TIME * 2), Err(Error::InvalidScalarRoot));
}

#[test]
fn curve_passes_through_its_anchor_at_even_reserves() {
    let anchor = WAD + WAD / 20;
    // Even reserves: the odds are one, and their logarithm is zero.
    assert_eq!(get_exchange_rate(500, 500, WAD, anchor, 0), Ok(anchor));
    assert_eq!(try_get_exchange_rate(500, 500, WAD, anchor, 0), Some(anchor));
    // Buying principal tokens makes them dearer, selling makes them cheaper.
    assert!(get_exchange_rate(500, 500, 10 * WAD, anchor, 10).unwrap() < anchor);
    assert!(get_exchange_rate(500, 500, 10 * WAD, anchor, -10).unwrap() > anchor);
    assert_eq!(
        get_exchange_rate(500, 500, WAD, anchor, 400),
        Err(Error::ExchangeRateBelowOne)
    );
    assert_eq!(get_exchange_rate(500, 500, WAD, anchor, 501), Err(Error::MathOverflow));
    assert_eq!(get_exchange_rate(500, 500, WAD, anchor, 500), Err(Error::MathOverflow));
    assert_eq!(
        get_exchange_rate(970, 30, WAD, anchor, 0),
        Err(Error::MarketProportionTooHigh)
    );
    assert_eq!(MAX_MARKET_PROPORTION, WAD / 100 * 96);
    assert_eq!(try_get_exchange_rate(970, 30, WAD, anchor, 0), None);
}

#[test]
fn curve_prices_no_empty_or_overdrawn_pool() {
    for (total_pt, total_asset) in [(0, 0), (0, 500), (500, -500), (500, -600), (-500, 400)] {
        assert_eq!(
            get_exchange_rate(total_pt, total_asset, WAD, 2 * WAD, 0),
            Err(Error::MathOverflow)
        );
        assert_eq!(try_get_exchange_rate(total_pt, total_asset, WAD, 2 * WAD, 0), None);
    }
    assert_eq!(get_exchange_rate(500, 500, 0, 2 * WAD, 0), Err(Error::MathOverflow));
    assert_eq!(
        get_exchange_rate(i128::MAX, 1, WAD, 2 * WAD, 0),
        Err(Error::MathOverflow)
    );
    assert_eq!(get_rate_anchor(0, 0, 0, WAD, 1), Err(Error::MathOverflow));
    assert_eq!(get_rate_anchor(500, -1, 500, WAD, IMPLIED_RATE_TIME), Err(Error::ExchangeRateBelowOne));
    assert_eq!(get_ln_implied_rate(500, 500, WAD, WAD, 0), Err(Error::MathOverflow));
}

#[test]
fn anchor_restores_the_last_rate() {
    let scalar = 4 * WAD;
    let half_year = IMPLIED_RATE_TIME / 2;
    let ln_rate = get_ln_implied_rate(500, 500, scalar, WAD + WAD / 20, half_year).unwrap();
    assert!(close(ln_rate, 1.05_f64.ln() * 2.0));
    let anchor = get_rate_anchor(400, ln_rate, 700, scalar, half_year).unwrap();
    let rate = get_exchange_rate(400, 700, scalar, anchor, 0).unwrap();
    assert!(close(rate, 1.05));
}

fn observed(twap: i128, last_observation: u64) -> State {
    State {
        total_pt: 1,
        total_sy: 1,
        total_lp: 1,
        last_ln_implied_rate: 0,
        twap_ln_implied_rate: twap,
        last_observation,
        warmup_until: 0,
    }
}

fn free_market() -> Config {
    let nobody = Address { kind: AddressKind::Account, high: 0, low: 0 };
    Config {
        admin: nobody,
        pt_token: nobody,
        sy_token: nobody,
        yt_token: nobody,
        tokenizer: nobody,
        maturity: 10_000,
        scalar_root: WAD,
        initial_anchor: WAD,
        fee_bps: 0,
        twap_window: 100,
    }
}

#[test]
fn only_a_positive_sale_has_a_price() {
    let config = free_market();
    let state = State { total_pt: 500_000, total_sy: 500_000, total_lp: 500_000, ..observed(0, 0) };
    let comp = Precompute {
        rate_scalar: WAD,
        total_asset: 500_000,
        rate_anchor: 2 * WAD,
        time_to_expiry: 1,
        rate: WAD,
    };
    // Near the anchor, two principal tokens are worth one of the asset.
    let paid = exact_pt_in_sy_out(&config, &state, &comp, 1_000).unwrap();
    assert_eq!(paid, 499);
    assert_eq!(feasible_pt_in_sy_out(&config, &state, &comp, 1_000), Ok(499));
    assert_eq!(try_exact_pt_in_sy_out(&config, &state, &comp, 1_000), Some(499));
    for amount in [0, -1, -1_000, i128::MIN, i128::MAX] {
        assert!(exact_pt_in_sy_out(&config, &state, &comp, amount).is_err());
        assert_eq!(try_exact_pt_in_sy_out(&config, &state, &comp, amount), None);
    }
}

#[test]
fn protocol_takes_its_share_of_a_positive_fee() {
    let fees = ProtocolFees { share_bps: 5_000, treasury: None, accrued: 7 };
    let state = State { total_sy: 1_000, ..observed(0, 0) };
    let (next, taken) = accrue_protocol_fee(&state, &fees, 101).unwrap();
    assert_eq!(next.total_sy, 950);
    assert_eq!(taken.accrued, 57);
    // No fee, no cut; nor where the cut would empty the reserve.
    for fee_sy in [0, -1, i128::MIN, 1, 2_000] {
        assert_eq!(accrue_protocol_fee(&state, &fees, fee_sy), Ok((state, fees)));
    }
    assert_eq!(accrue_protocol_fee(&state, &fees, i128::MAX), Err(Error::MathOverflow));
    let none = ProtocolFees { share_bps: 0, ..fees };
    assert_eq!(accrue_protocol_fee(&state, &none, i128::MAX), Ok((state, none)));
}

#[test]
fn average_moves_by_the_time_that_passed() {
    let config = free_market();
    let state = observed(1_000, 500);
    // A quarter of the window: three parts old, one part new.
    let next = sync_twap(&config, &state, 2_000, 525).unwrap();
    assert_eq!(next.twap_ln_implied_rate, 1_250);
    assert_eq!(next.last_observation, 525);
    assert_eq!(next.warmup_until, 0);
    // No time, no change; and a clock behind the last observation counts as none.
    assert_eq!(sync_twap(&config, &state, 2_000, 500), Ok(state));
    assert_eq!(sync_twap(&config, &state, 2_000, 400), Ok(state));
    // A full window: the observation alone, and warm-up again.
    let snapped = sync_twap(&config, &state, 2_000, 600).unwrap();
    assert_eq!(snapped.twap_ln_implied_rate, 2_000);
    assert_eq!(snapped.warmup_until, 700);
}

#[test]
fn seeded_means_all_three_are_positive() {
    assert_eq!(require_seeded_result(&observed(0, 0)), Ok(()));
    for state in [
        State { total_pt: 0, ..observed(0, 0) },
        State { total_sy: 0, ..observed(0, 0) },
        State { total_lp: 0, ..observed(0, 0) },
    ] {
        assert_eq!(require_seeded_result(&state), Err(Error::MarketNotSeeded));
    }
}
