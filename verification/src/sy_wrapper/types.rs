//! Configuration, errors and events of the share vault.
use crate::address::{Address, WasmHash};
use vstd::prelude::*;

verus! {

/// Fixed at initialization, except for the admin and the reserve slot.
#[derive(Copy, Clone, Debug, PartialEq, Eq, Structural)]
pub struct Config {
    pub admin: Address,
    pub underlying: Address,
    pub pool: Address,
    pub reserve_index: u32,
}

/// What a spender may still move, and the last ledger on which they may.
#[derive(Copy, Clone, Debug, PartialEq, Eq, Structural)]
pub struct AllowanceValue {
    pub amount: i128,
    pub expiration_ledger: u32,
}

#[derive(Copy, Clone, Debug, PartialEq, Eq, Structural)]
pub enum Error {
    AlreadyInitialized,
    NotInitialized,
    InvalidAmount,
    InsufficientBalance,
    MathOverflow,
    InsufficientAllowance,
    InvalidExpiration,
    InvalidBlendReserve,
    BlendWithdrawalFailed,
    NotAuthorized,
    /// An entry path was called while paused. Exits are never blocked.
    Paused,
    /// `accept_admin` called by an address that was not nominated.
    NotPendingAdmin,
    /// `execute_upgrade` called before the timelock expired, or with nothing
    /// proposed.
    UpgradeNotReady,
    /// A deposit would exceed the lending reserve's supply cap.
    SupplyCapExceeded,
    /// The market is in emergency wind-down: deposits are closed permanently.
    EmergencyModeActive,
    /// `emergency_withdraw_all` called when already wound down.
    AlreadyInEmergencyMode,
    /// A sweep targeted an asset the protocol depends on.
    ProtectedAsset,
}

impl Error {
    /// The number under which the error is reported to callers.
    pub open spec fn spec_code(self) -> u32 {
        match self {
            Error::AlreadyInitialized => 1,
            Error::NotInitialized => 2,
            Error::InvalidAmount => 3,
            Error::InsufficientBalance => 5,
            Error::MathOverflow => 6,
            Error::InsufficientAllowance => 7,
            Error::InvalidExpiration => 8,
            Error::InvalidBlendReserve => 10,
            Error::BlendWithdrawalFailed => 11,
            Error::NotAuthorized => 12,
            Error::Paused => 13,
            Error::NotPendingAdmin => 14,
            Error::UpgradeNotReady => 15,
            Error::SupplyCapExceeded => 16,
            Error::EmergencyModeActive => 17,
            Error::AlreadyInEmergencyMode => 18,
            Error::ProtectedAsset => 19,
        }
    }

    /// The number under which the error is reported to callers.
    pub fn code(self) -> (code: u32)
        ensures
            code == self.spec_code(),
    {
        match self {
            Error::AlreadyInitialized => 1,
            Error::NotInitialized => 2,
            Error::InvalidAmount => 3,
            Error::InsufficientBalance => 5,
            Error::MathOverflow => 6,
            Error::InsufficientAllowance => 7,
            Error::InvalidExpiration => 8,
            Error::InvalidBlendReserve => 10,
            Error::BlendWithdrawalFailed => 11,
            Error::NotAuthorized => 12,
            Error::Paused => 13,
            Error::NotPendingAdmin => 14,
            Error::UpgradeNotReady => 15,
            Error::SupplyCapExceeded => 16,
            Error::EmergencyModeActive => 17,
            Error::AlreadyInEmergencyMode => 18,
            Error::ProtectedAsset => 19,
        }
    }
}

/// The stored reserve slot was re-synced after the pool moved the underlying.
#[derive(Copy, Clone, Debug, PartialEq, Eq, Structural)]
pub struct ReserveMigrated {
    pub old_index: u32,
    pub new_index: u32,
}

/// A new admin was nominated.
#[derive(Copy, Clone, Debug, PartialEq, Eq, Structural)]
pub struct AdminProposed {
    pub new_admin: Address,
}

/// An admin transfer completed.
#[derive(Copy, Clone, Debug, PartialEq, Eq, Structural)]
pub struct AdminChanged {
    pub previous: Address,
    pub current: Address,
}

/// Governance was permanently renounced.
#[derive(Copy, Clone, Debug, PartialEq, Eq, Structural)]
pub struct AdminRenounced {}

/// Deposits were halted or resumed.
#[derive(Copy, Clone, Debug, PartialEq, Eq, Structural)]
pub struct PauseChanged {
    pub paused: bool,
}

/// An upgrade was scheduled. `eta` is the earliest timestamp it can execute;
/// holders who object have until then to exit.
#[derive(Copy, Clone, Debug, PartialEq, Eq, Structural)]
pub struct UpgradeProposed {
    pub wasm_hash: WasmHash,
    pub eta: u64,
}

/// The pool position was wound down into idle custody.
#[derive(Copy, Clone, Debug, PartialEq, Eq, Structural)]
pub struct EmergencyWithdrawal {
    pub requested: i128,
    pub recovered: i128,
}

/// Underlying was deposited and shares were minted.
#[derive(Copy, Clone, Debug, PartialEq, Eq, Structural)]
pub struct Deposit {
    pub holder: Address,
    pub underlying_amount: i128,
    pub shares_minted: i128,
}

/// Shares were redeemed for underlying.
#[derive(Copy, Clone, Debug, PartialEq, Eq, Structural)]
pub struct Redeem {
    pub holder: Address,
    pub shares_burned: i128,
    pub underlying_amount: i128,
}

} // verus!
