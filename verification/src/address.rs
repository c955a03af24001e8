//! Identities on the ledger, as plain comparable values.
use vstd::prelude::*;

verus! {

/// What stands behind an address.
#[derive(Copy, Clone, Debug, PartialEq, Eq, Structural)]
pub enum AddressKind {
    Account,
    Contract,
}

/// An account or contract address: its kind and the 32 bytes that identify it,
/// as two big-endian halves.
#[derive(Copy, Clone, Debug, PartialEq, Eq, Structural)]
pub struct Address {
    pub kind: AddressKind,
    pub high: u128,
    pub low: u128,
}

/// The 32-byte hash of uploaded contract code, as two big-endian halves.
#[derive(Copy, Clone, Debug, PartialEq, Eq, Structural)]
pub struct WasmHash {
    pub high: u128,
    pub low: u128,
}

/// A scheduled code upgrade and the earliest time at which it may run.
#[derive(Copy, Clone, Debug, PartialEq, Eq, Structural)]
pub struct PendingUpgrade {
    pub wasm_hash: WasmHash,
    pub eta: u64,
}

/// `amount` of `token` that moves between the contract and `holder`. Which way
/// it moves is said by the field that carries it.
#[derive(Copy, Clone, Debug, PartialEq, Eq, Structural)]
pub struct Transfer {
    pub token: Address,
    pub holder: Address,
    pub amount: i128,
}

/// How long a storage entry is to be kept alive: once its remaining life is
/// under `threshold` ledgers, it is extended to `extend_to`.
#[derive(Copy, Clone, Debug, PartialEq, Eq, Structural)]
pub struct TtlExtension {
    pub threshold: u32,
    pub extend_to: u32,
}

} // verus!
