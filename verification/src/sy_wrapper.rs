//! The standardized-yield share: a vault over one lending-pool position.
pub mod allowances;
pub mod blend;
pub mod flows;
pub mod laws;
pub mod share_math;
pub mod types;
pub mod value_laws;
pub mod vault;

pub use share_math::gcd_i128;
pub use types::{
    AdminChanged, AdminProposed, AdminRenounced, AllowanceValue, Config, Deposit,
    EmergencyWithdrawal, Error, PauseChanged, Redeem, ReserveMigrated, UpgradeProposed,
};
pub use vault::SyWrapper;
