//! Integer core of a yield-tokenization market: the share vault that wraps a
//! lending position, and the market that trades its principal token.
pub mod address;
pub mod arith;
pub mod governance;
pub mod ledger;
pub mod rounding;
pub mod amm;
pub mod sy_wrapper;

pub use address::{Address, AddressKind, PendingUpgrade, Transfer, TtlExtension, WasmHash};
pub use arith::WAD;
