//! Configuration, curve state, errors and events of the market.
use crate::address::{Address, WasmHash};
use vstd::prelude::*;

verus! {

/// Fixed at initialization, except for the admin.
#[derive(Copy, Clone, Debug, PartialEq, Eq, Structural)]
pub struct Config {
    pub admin: Address,
    pub pt_token: Address,
    pub sy_token: Address,
    pub yt_token: Address,
    pub tokenizer: Address,
    pub maturity: u64,
    pub scalar_root: i128,
    pub initial_anchor: i128,
    pub fee_bps: i128,
    pub twap_window: u64,
}

/// The reserves that back the curve, and the rate observations made on it.
#[derive(Copy, Clone, Debug, PartialEq, Eq, Structural)]
pub struct State {
    pub total_pt: i128,
    pub total_sy: i128,
    pub total_lp: i128,
    pub last_ln_implied_rate: i128,
    pub twap_ln_implied_rate: i128,
    pub last_observation: u64,
    pub warmup_until: u64,
}

#[derive(Copy, Clone, Debug, PartialEq, Eq, Structural)]
pub enum Error {
    AlreadyInitialized,
    NotInitialized,
    InvalidMaturity,
    InvalidAmount,
    InvalidScalarRoot,
    InvalidAnchor,
    InvalidFee,
    InvalidTwapWindow,
    MarketNotSeeded,
    MarketMatured,
    SlippageExceeded,
    InsufficientLiquidity,
    MathOverflow,
    MarketProportionTooHigh,
    ExchangeRateBelowOne,
    UnsupportedRoute,
    TradeNotFound,
    InputOutOfBounds,
    InvalidSyRate,
    /// An entry path was called while paused. `remove_liquidity` is never
    /// blocked.
    Paused,
    NotAuthorized,
    NotPendingAdmin,
    UpgradeNotReady,
    ProtectedAsset,
    /// Protocol fee share above its cap, or no treasury set.
    InvalidProtocolFee,
}

impl Error {
    /// The number under which the error is reported to callers.
    pub open spec fn spec_code(self) -> u32 {
        match self {
            Error::AlreadyInitialized => 1,
            Error::NotInitialized => 2,
            Error::InvalidMaturity => 3,
            Error::InvalidAmount => 4,
            Error::InvalidScalarRoot => 5,
            Error::InvalidAnchor => 6,
            Error::InvalidFee => 7,
            Error::InvalidTwapWindow => 8,
            Error::MarketNotSeeded => 9,
            Error::MarketMatured => 10,
            Error::SlippageExceeded => 11,
            Error::InsufficientLiquidity => 12,
            Error::MathOverflow => 13,
            Error::MarketProportionTooHigh => 14,
            Error::ExchangeRateBelowOne => 15,
            Error::UnsupportedRoute => 16,
            Error::TradeNotFound => 17,
            Error::InputOutOfBounds => 18,
            Error::InvalidSyRate => 19,
            Error::Paused => 20,
            Error::NotAuthorized => 21,
            Error::NotPendingAdmin => 22,
            Error::UpgradeNotReady => 23,
            Error::ProtectedAsset => 24,
            Error::InvalidProtocolFee => 25,
        }
    }

    /// The number under which the error is reported to callers.
    pub fn code(self) -> (code: u32)
        ensures
            code == self.spec_code(),
    {
        match self {
            Error::AlreadyInitialized => 1,
            Error::NotInitialized => 2,
            Error::InvalidMaturity => 3,
            Error::InvalidAmount => 4,
            Error::InvalidScalarRoot => 5,
            Error::InvalidAnchor => 6,
            Error::InvalidFee => 7,
            Error::InvalidTwapWindow => 8,
            Error::MarketNotSeeded => 9,
            Error::MarketMatured => 10,
            Error::SlippageExceeded => 11,
            Error::InsufficientLiquidity => 12,
            Error::MathOverflow => 13,
            Error::MarketProportionTooHigh => 14,
            Error::ExchangeRateBelowOne => 15,
            Error::UnsupportedRoute => 16,
            Error::TradeNotFound => 17,
            Error::InputOutOfBounds => 18,
            Error::InvalidSyRate => 19,
            Error::Paused => 20,
            Error::NotAuthorized => 21,
            Error::NotPendingAdmin => 22,
            Error::UpgradeNotReady => 23,
            Error::ProtectedAsset => 24,
            Error::InvalidProtocolFee => 25,
        }
    }
}

/// A new admin was nominated.
#[derive(Copy, Clone, Debug, PartialEq, Eq, Structural)]
pub struct AdminProposed {
    pub new_admin: Address,
}

/// An admin transfer completed.
#[derive(Copy, Clone, Debug, PartialEq, Eq, Structural)]
pub struct AdminChanged {
    pub previous: Address,
    pub current: Address,
}

/// The market was halted or resumed.
#[derive(Copy, Clone, Debug, PartialEq, Eq, Structural)]
pub struct PauseChanged {
    pub paused: bool,
}

/// An upgrade was scheduled; `eta` is the earliest it can execute.
#[derive(Copy, Clone, Debug, PartialEq, Eq, Structural)]
pub struct UpgradeProposed {
    pub wasm_hash: WasmHash,
    pub eta: u64,
}

/// The protocol fee split changed.
#[derive(Copy, Clone, Debug, PartialEq, Eq, Structural)]
pub struct ProtocolFeeChanged {
    pub share_bps: i128,
    pub treasury: Address,
}

/// The four trades the market makes.
#[derive(Copy, Clone, Debug, PartialEq, Eq, Structural)]
pub enum Route {
    PtForSy,
    SyForPt,
    SyForYt,
    YtForSy,
}

impl Route {
    pub open spec fn spec_name(self) -> &'static str {
        match self {
            Route::PtForSy => "pt_for_sy",
            Route::SyForPt => "sy_for_pt",
            Route::SyForYt => "sy_for_yt",
            Route::YtForSy => "yt_for_sy",
        }
    }

    /// The name under which the route is published.
    pub fn name(self) -> (name: &'static str)
        ensures
            name == self.spec_name(),
    {
        match self {
            Route::PtForSy => "pt_for_sy",
            Route::SyForPt => "sy_for_pt",
            Route::SyForYt => "sy_for_yt",
            Route::YtForSy => "yt_for_sy",
        }
    }
}

/// A swap was made (PT against SY directly, or SY against YT by a flash route).
#[derive(Copy, Clone, Debug, PartialEq, Eq, Structural)]
pub struct Swap {
    pub trader: Address,
    pub route: Route,
    pub amount_in: i128,
    pub amount_out: i128,
}

/// Liquidity was added to the pool.
#[derive(Copy, Clone, Debug, PartialEq, Eq, Structural)]
pub struct AddLiquidity {
    pub provider: Address,
    pub pt_in: i128,
    pub sy_in: i128,
    pub lp_out: i128,
}

/// Liquidity was removed from the pool.
#[derive(Copy, Clone, Debug, PartialEq, Eq, Structural)]
pub struct RemoveLiquidity {
    pub provider: Address,
    pub lp_in: i128,
    pub pt_out: i128,
    pub sy_out: i128,
}

} // verus!
