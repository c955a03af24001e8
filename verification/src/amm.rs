//! The principal-token market.
pub mod accuracy;
pub mod booking_laws;
pub mod checked;
pub mod curve;
pub mod exactness;
pub mod exponential;
pub mod laws;
pub mod liquidity;
pub mod liquidity_laws;
pub mod logarithm;
pub mod market;
pub mod price_laws;
pub mod pricing;
pub mod real_exp;
pub mod reals;
pub mod solver;
pub mod sqrt;
pub mod swaps;
pub mod trade;
pub mod types;
pub mod yields;

pub use exponential::exp_wad_checked;
pub use logarithm::ln_wad_checked;
pub use market::AmmMarket;
pub use types::{
    AddLiquidity, AdminChanged, AdminProposed, Config, Error, PauseChanged, ProtocolFeeChanged,
    RemoveLiquidity, Route, State, Swap, UpgradeProposed,
};
