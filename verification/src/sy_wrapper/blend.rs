//! What the lending pool says of the vault's position, and what that is worth.
use super::types::{Config, Error};
use crate::address::Address;
use crate::arith::{div_trunc, fits, trunc_div, WAD};
use vstd::prelude::*;

verus! {

/// Scale of the pool's token rate: twelve decimals.
pub const BLEND_SCALAR_12: i128 = 1_000_000_000_000;

/// Decimals of the shares, and of the underlying.
pub const DECIMALS: u32 = 7;

/// The pool's request types for moving a plain supply.
pub const REQUEST_SUPPLY: u32 = 0;

pub const REQUEST_WITHDRAW: u32 = 1;

/// One request to the pool.
#[derive(Copy, Clone, Debug, PartialEq, Eq, Structural)]
pub struct Request {
    pub address: Address,
    pub amount: i128,
    pub request_type: u32,
}

/// The pool's record of one reserve.
#[derive(Copy, Clone, Debug, PartialEq, Eq, Structural)]
pub struct Reserve {
    pub index: u32,
    pub decimals: u32,
    /// No cap where this is not positive.
    pub supply_cap: i128,
    /// Underlying per pool token, with twelve decimals.
    pub b_rate: i128,
}

/// The vault's pool tokens in its reserve slot, and the pool's record of the
/// underlying.
#[derive(Copy, Clone, Debug, PartialEq, Eq, Structural)]
pub struct PoolReading {
    pub b_tokens: Option<i128>,
    pub reserve: Reserve,
}

/// What backs the shares: idle custody after a wind-down, a position in the
/// pool before.
#[derive(Copy, Clone, Debug, PartialEq, Eq, Structural)]
pub enum Backing {
    Idle(i128),
    Position(PoolReading),
}

/// The pool tokens of a reading; none is the same as zero.
pub open spec fn tokens_read(reading: PoolReading) -> int {
    match reading.b_tokens {
        Some(b_tokens) => b_tokens as int,
        None => 0,
    }
}

/// Underlying that pool tokens are worth.
pub open spec fn token_value(b_tokens: int, b_rate: int) -> Option<i128> {
    if fits(b_tokens * b_rate) {
        Some(trunc_div(b_tokens * b_rate, BLEND_SCALAR_12 as int) as i128)
    } else {
        None
    }
}

/// Underlying that the position is worth. Where the pool keeps the underlying
/// in another slot than the one recorded, the tokens read belong to another
/// asset, and no value is given.
pub open spec fn position_value(config: Config, reading: PoolReading) -> Result<i128, Error> {
    if reading.reserve.index != config.reserve_index {
        Err(Error::InvalidBlendReserve)
    } else {
        match token_value(tokens_read(reading), reading.reserve.b_rate as int) {
            Some(value) => Ok(value),
            None => Err(Error::MathOverflow),
        }
    }
}

/// Assets per share; one while there are no shares.
pub open spec fn derived_rate(assets: int, supply: int) -> Option<i128> {
    if supply <= 0 {
        Some(WAD)
    } else if fits(assets * WAD) {
        Some(trunc_div(assets * WAD, supply) as i128)
    } else {
        None
    }
}

/// What the backing is worth.
pub open spec fn backing_value(config: Config, backing: Backing) -> Result<i128, Error> {
    match backing {
        Backing::Idle(balance) => Ok(balance),
        Backing::Position(reading) => position_value(config, reading),
    }
}

/// The first slot, from `from` on, in which the pool lists `asset`.
pub open spec fn slot_of(reserves: Seq<Address>, asset: Address, from: nat) -> Option<u32>
    decreases reserves.len() - from,
{
    if from >= reserves.len() {
        None
    } else if reserves[from as int] == asset {
        Some(from as u32)
    } else {
        slot_of(reserves, asset, from + 1)
    }
}

/// The slot of `underlying`, if the pool's list and its own record agree on it
/// and the decimals fit.
pub open spec fn confirmed_slot(reserves: Seq<Address>, underlying: Address, reserve: Reserve) -> Result<
    u32,
    Error,
> {
    match slot_of(reserves, underlying, 0) {
        None => Err(Error::InvalidBlendReserve),
        Some(slot) => if reserve.index != slot || reserve.decimals != DECIMALS {
            Err(Error::InvalidBlendReserve)
        } else {
            Ok(slot)
        },
    }
}

/// A slot that is found holds the asset, and no earlier one does.
pub proof fn lemma_slot_of(reserves: Seq<Address>, asset: Address, from: nat)
    requires
        reserves.len() <= u32::MAX,
    ensures
        match slot_of(reserves, asset, from) {
            Some(slot) => from <= slot < reserves.len() && reserves[slot as int] == asset && forall|
                i: int,
            |
                from <= i < slot ==> reserves[i] != asset,
            None => forall|i: int| from <= i < reserves.len() ==> reserves[i] != asset,
        },
    decreases reserves.len() - from,
{
    if from < reserves.len() && reserves[from as int] != asset {
        lemma_slot_of(reserves, asset, from + 1);
    }
}

pub fn assets_from_b_tokens(b_tokens: i128, b_rate: i128) -> (r: Option<i128>)
    ensures
        r == token_value(b_tokens as int, b_rate as int),
{
    match b_tokens.checked_mul(b_rate) {
        Some(product) => Some(div_trunc(product, BLEND_SCALAR_12)),
        None => None,
    }
}

pub fn derived_exchange_rate(assets: i128, supply: i128) -> (r: Option<i128>)
    ensures
        r == derived_rate(assets as int, supply as int),
{
    if supply <= 0 {
        return Some(WAD);
    }
    match assets.checked_mul(WAD) {
        Some(product) => Some(div_trunc(product, supply)),
        None => None,
    }
}

pub fn blend_assets_under_management(config: &Config, reading: &PoolReading) -> (r: Result<
    i128,
    Error,
>)
    ensures
        r == position_value(*config, *reading),
{
    let b_tokens: i128 = match reading.b_tokens {
        Some(b_tokens) => b_tokens,
        None => 0,
    };
    if reading.reserve.index != config.reserve_index {
        return Err(Error::InvalidBlendReserve);
    }
    match assets_from_b_tokens(b_tokens, reading.reserve.b_rate) {
        Some(value) => Ok(value),
        None => Err(Error::MathOverflow),
    }
}

/// Where the pool lists `asset`.
pub fn locate_reserve(reserves: &Vec<Address>, asset: Address) -> (r: Option<u32>)
    requires
        reserves@.len() <= u32::MAX,
    ensures
        r == slot_of(reserves@, asset, 0),
{
    let mut index: usize = 0;
    while index < reserves.len()
        invariant
            index <= reserves@.len() <= u32::MAX,
            slot_of(reserves@, asset, index as nat) == slot_of(reserves@, asset, 0),
        decreases reserves@.len() - index,
    {
        if reserves[index] == asset {
            return Some(index as u32);
        }
        index = index + 1;
    }
    None
}

/// The slot of `underlying`, re-derived from the pool's list and held against
/// its own record.
pub fn confirm_slot(reserves: &Vec<Address>, underlying: Address, reserve: &Reserve) -> (r: Result<
    u32,
    Error,
>)
    requires
        reserves@.len() <= u32::MAX,
    ensures
        r == confirmed_slot(reserves@, underlying, *reserve),
{
    match locate_reserve(reserves, underlying) {
        None => Err(Error::InvalidBlendReserve),
        Some(slot) => {
            if reserve.index != slot || reserve.decimals != DECIMALS {
                return Err(Error::InvalidBlendReserve);
            }
            Ok(slot)
        },
    }
}

} // verus!
