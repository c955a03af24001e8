//! Range-checked arithmetic of the curve.
use super::types::Error;
use crate::arith::{div_trunc, fits, rem_trunc, trunc_div, trunc_rem, WAD};
use vstd::prelude::*;

verus! {

pub const BPS_DENOMINATOR: i128 = 10_000;

/// Cap on either reserve and on every amount that enters or leaves it.
pub const MAX_RESERVE_UNITS: i128 = WAD;

pub open spec fn sum(lhs: int, rhs: int) -> Result<i128, Error> {
    if fits(lhs + rhs) {
        Ok((lhs + rhs) as i128)
    } else {
        Err(Error::MathOverflow)
    }
}

/// `lhs - rhs`, which may not be negative.
pub open spec fn difference(lhs: int, rhs: int) -> Result<i128, Error> {
    if 0 <= lhs - rhs <= i128::MAX {
        Ok((lhs - rhs) as i128)
    } else {
        Err(Error::MathOverflow)
    }
}

pub open spec fn product(lhs: int, rhs: int) -> Result<i128, Error> {
    if fits(lhs * rhs) {
        Ok((lhs * rhs) as i128)
    } else {
        Err(Error::MathOverflow)
    }
}

/// `lhs * rhs / denominator`, rounded toward zero. The product must be
/// representable.
pub open spec fn quotient(lhs: int, rhs: int, denominator: int) -> Result<i128, Error> {
    if denominator != 0 && fits(lhs * rhs) {
        Ok(trunc_div(lhs * rhs, denominator) as i128)
    } else {
        Err(Error::MathOverflow)
    }
}

/// [`quotient`], one higher where the division leaves a remainder.
pub open spec fn quotient_up(lhs: int, rhs: int, denominator: int) -> Result<i128, Error> {
    match quotient(lhs, rhs, denominator) {
        Err(e) => Err(e),
        Ok(q) => if trunc_rem(lhs * rhs, denominator) == 0 {
            Ok(q)
        } else {
            sum(q as int, 1)
        },
    }
}

/// A reserve after `rhs` joins it.
pub open spec fn grown_reserve(lhs: int, rhs: int) -> Result<i128, Error> {
    match sum(lhs, rhs) {
        Err(e) => Err(e),
        Ok(value) => if value > MAX_RESERVE_UNITS {
            Err(Error::InputOutOfBounds)
        } else {
            Ok(value)
        },
    }
}

/// `quotient` and `quotient_up` of non-negative values, as plain formulas.
pub proof fn lemma_quotient_nonneg(lhs: int, rhs: int, denominator: int)
    requires
        0 <= lhs,
        0 <= rhs,
        0 < denominator,
        fits(lhs * rhs),
    ensures
        0 <= lhs * rhs,
        0 <= lhs * rhs / denominator <= lhs * rhs,
        quotient(lhs, rhs, denominator) == Ok::<i128, Error>((lhs * rhs / denominator) as i128),
        lhs * rhs < i128::MAX || denominator > 1 ==> quotient_up(lhs, rhs, denominator)
            == Ok::<i128, Error>(crate::arith::ceil_div(lhs * rhs, denominator) as i128),
{
    let p = lhs * rhs;
    assert(0 <= p) by (nonlinear_arith)
        requires
            p == lhs * rhs,
            lhs >= 0,
            rhs >= 0,
    ;
    assert(0 <= p / denominator <= p && (denominator > 1 && p > 0 ==> p / denominator < p)) by (
    nonlinear_arith)
        requires
            p >= 0,
            denominator > 0,
    ;
}

pub fn checked_add(lhs: i128, rhs: i128) -> (r: Result<i128, Error>)
    ensures
        r == sum(lhs as int, rhs as int),
{
    match lhs.checked_add(rhs) {
        Some(value) => Ok(value),
        None => Err(Error::MathOverflow),
    }
}

pub fn checked_sub(lhs: i128, rhs: i128) -> (r: Result<i128, Error>)
    ensures
        r == difference(lhs as int, rhs as int),
{
    match lhs.checked_sub(rhs) {
        Some(value) => {
            if value >= 0 {
                Ok(value)
            } else {
                Err(Error::MathOverflow)
            }
        },
        None => Err(Error::MathOverflow),
    }
}

pub fn checked_mul(lhs: i128, rhs: i128) -> (r: Result<i128, Error>)
    ensures
        r == product(lhs as int, rhs as int),
{
    match lhs.checked_mul(rhs) {
        Some(value) => Ok(value),
        None => Err(Error::MathOverflow),
    }
}

pub fn mul_div_down(lhs: i128, rhs: i128, denominator: i128) -> (r: Result<i128, Error>)
    requires
        !(denominator == -1 && lhs * rhs == i128::MIN),
    ensures
        r == quotient(lhs as int, rhs as int, denominator as int),
{
    if denominator == 0 {
        return Err(Error::MathOverflow);
    }
    let product: i128 = checked_mul(lhs, rhs)?;
    Ok(div_trunc(product, denominator))
}

pub fn mul_div_up(lhs: i128, rhs: i128, denominator: i128) -> (r: Result<i128, Error>)
    requires
        !(denominator == -1 && lhs * rhs == i128::MIN),
    ensures
        r == quotient_up(lhs as int, rhs as int, denominator as int),
{
    if denominator == 0 {
        return Err(Error::MathOverflow);
    }
    let product: i128 = checked_mul(lhs, rhs)?;
    let quotient: i128 = div_trunc(product, denominator);
    if rem_trunc(product, denominator) == 0 {
        Ok(quotient)
    } else {
        checked_add(quotient, 1)
    }
}

pub fn checked_bounded_reserve_add(lhs: i128, rhs: i128) -> (r: Result<i128, Error>)
    ensures
        r == grown_reserve(lhs as int, rhs as int),
{
    let value: i128 = checked_add(lhs, rhs)?;
    if value > MAX_RESERVE_UNITS {
        return Err(Error::InputOutOfBounds);
    }
    Ok(value)
}

pub fn require_positive_amount_result(amount: i128) -> (r: Result<(), Error>)
    ensures
        r == (if amount <= 0 {
            Err::<(), Error>(Error::InvalidAmount)
        } else {
            Ok(())
        }),
{
    if amount <= 0 {
        return Err(Error::InvalidAmount);
    }
    Ok(())
}

/// An amount that may enter or leave the market: positive, and no larger than
/// a reserve may be.
pub open spec fn bounded_amount(amount: int) -> Result<(), Error> {
    if amount <= 0 {
        Err(Error::InvalidAmount)
    } else if amount > MAX_RESERVE_UNITS {
        Err(Error::InputOutOfBounds)
    } else {
        Ok(())
    }
}

pub fn require_bounded_amount_result(amount: i128) -> (r: Result<(), Error>)
    ensures
        r == bounded_amount(amount as int),
{
    require_positive_amount_result(amount)?;
    if amount > MAX_RESERVE_UNITS {
        return Err(Error::InputOutOfBounds);
    }
    Ok(())
}

} // verus!
