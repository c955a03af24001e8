//! Rates as yearly yields.
use super::checked::{checked_mul, BPS_DENOMINATOR};
use super::exponential::{exp_wad, exp_wad_checked, lemma_exp_wad_sign, HALF_LN2_WAD};
use super::market::AmmMarket;
use super::types::{Config, Error, State};
use crate::arith::{div_trunc, fits, trunc_div, WAD};
use vstd::prelude::*;

verus! {

/// `(e^ln_rate - 1)` in basis points, rounded toward zero.
pub open spec fn yearly_yield(ln_rate: int) -> Result<i128, Error> {
    match exp_wad(ln_rate) {
        None => Err(Error::MathOverflow),
        Some(growth) => if !fits((growth - WAD) * BPS_DENOMINATOR) {
            Err(Error::MathOverflow)
        } else {
            Ok(trunc_div((growth - WAD) * BPS_DENOMINATOR, WAD as int) as i128)
        },
    }
}

/// A yield has the sign of the log rate it is made from: an inverted market
/// reads as negative, and a flat one as zero.
pub proof fn lemma_yearly_yield_sign(ln_rate: int)
    ensures
        ln_rate == 0 ==> yearly_yield(ln_rate) == Ok::<i128, Error>(0),
        ln_rate > 0 ==> (yearly_yield(ln_rate) matches Ok(bps) ==> bps >= 0),
        ln_rate < 0 ==> (yearly_yield(ln_rate) matches Ok(bps) && -BPS_DENOMINATOR <= bps <= 0),
{
    lemma_exp_wad_sign(ln_rate);
}

/// A yearly log rate as a yearly yield in basis points.
pub fn ln_rate_to_bps(ln_rate: i128) -> (r: Result<i128, Error>)
    requires
        i128::MIN + HALF_LN2_WAD <= ln_rate <= i128::MAX - HALF_LN2_WAD,
    ensures
        r == yearly_yield(ln_rate as int),
{
    proof {
        lemma_exp_wad_sign(ln_rate as int);
    }
    if ln_rate == 0 {
        return Ok(0);
    }
    match exp_wad_checked(ln_rate) {
        None => Err(Error::MathOverflow),
        Some(growth) => {
            let scaled: i128 = checked_mul(growth - WAD, BPS_DENOMINATOR)?;
            Ok(div_trunc(scaled, WAD))
        },
    }
}

impl AmmMarket {
    /// The yield that the last trade left, until maturity.
    pub open spec fn last_yield(self, now: u64) -> Result<i128, Error> {
        match (self.config, self.state) {
            (Some(config), Some(state)) => if now >= config.maturity || state.total_lp == 0 {
                Ok(0)
            } else {
                yearly_yield(state.last_ln_implied_rate as int)
            },
            _ => Err(Error::NotInitialized),
        }
    }

    pub fn spot_apy(&self, now: u64) -> (r: Result<i128, Error>)
        requires
            self.wf(),
        ensures
            r == self.last_yield(now),
    {
        let config: Config = self.config()?;
        if now >= config.maturity {
            return Ok(0);
        }
        let state: State = self.state()?;
        if state.total_lp == 0 {
            return Ok(0);
        }
        ln_rate_to_bps(state.last_ln_implied_rate)
    }

    /// The averaged yield, until maturity.
    pub fn twap_apy(&self, now: u64) -> (r: Result<i128, Error>)
        requires
            self.wf(),
        ensures
            r == (match (self.config, self.state) {
                (Some(config), Some(state)) => if now >= config.maturity {
                    Ok::<i128, Error>(0)
                } else {
                    yearly_yield(state.twap_ln_implied_rate as int)
                },
                _ => Err(Error::NotInitialized),
            }),
    {
        let config: Config = self.config()?;
        let state: State = self.state()?;
        if now >= config.maturity {
            return Ok(0);
        }
        ln_rate_to_bps(state.twap_ln_implied_rate)
    }

    pub fn implied_apy(&self, now: u64) -> (r: Result<i128, Error>)
        requires
            self.wf(),
        ensures
            r == self.last_yield(now),
    {
        self.spot_apy(now)
    }
}

} // verus!
