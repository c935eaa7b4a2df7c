//! Splitting an entry fee into the time-bucketed pools.

use vstd::prelude::*;

verus! {

/// Percentage of each fee credited to the daily pool.
pub const DAILY_PERCENT: u128 = 90;

/// Percentage of each fee credited to the monthly pool.
pub const MONTHLY_PERCENT: u128 = 9;

/// Percentage of each fee credited to the yearly pool.
pub const YEARLY_PERCENT: u128 = 1;

/// How one fee is shared out between the four pools.
#[derive(PartialEq, Eq, Structural, Clone, Copy, Debug)]
pub struct FeeSplit {
    pub daily: u128,
    pub monthly: u128,
    pub yearly: u128,
    /// What the three percentages leave over, credited to the global pool.
    pub remainder: u128,
}

/// `percent` percent of `fee`, rounded down.
pub open spec fn percent_of(fee: int, percent: int) -> int {
    fee * percent / 100
}

/// The split of `fee`: each bucket its percentage rounded down, the rest to
/// the remainder.
pub open spec fn split_of(fee: int) -> FeeSplit {
    FeeSplit {
        daily: percent_of(fee, DAILY_PERCENT as int) as u128,
        monthly: percent_of(fee, MONTHLY_PERCENT as int) as u128,
        yearly: percent_of(fee, YEARLY_PERCENT as int) as u128,
        remainder: (fee - percent_of(fee, DAILY_PERCENT as int) - percent_of(
            fee,
            MONTHLY_PERCENT as int,
        ) - percent_of(fee, YEARLY_PERCENT as int)) as u128,
    }
}

proof fn lemma_percent_parts(fee: int, p: int)
    requires
        fee >= 0,
        0 <= p <= 100,
    ensures
        percent_of(fee, p) == (fee / 100) * p + (fee % 100) * p / 100,
        0 <= (fee % 100) * p / 100 <= fee % 100,
        (fee % 100) * p / 100 <= (fee % 100) * p,
{
    let q = fee / 100;
    let r = fee % 100;
    assert(fee == 100 * q + r) by (nonlinear_arith)
        requires
            q == fee / 100,
            r == fee % 100,
    ;
    assert(fee * p == 100 * (q * p) + r * p) by (nonlinear_arith)
        requires
            fee == 100 * q + r,
    ;
    assert(0 <= r * p <= r * 100) by (nonlinear_arith)
        requires
            0 <= r < 100,
            0 <= p <= 100,
    ;
    assert((100 * (q * p) + r * p) / 100 == q * p + (r * p) / 100) by (nonlinear_arith)
        requires
            r * p >= 0,
    ;
    assert((r * p) / 100 <= r) by (nonlinear_arith)
        requires
            0 <= r * p <= r * 100,
    ;
}

/// Splits `fee` by the fixed percentages, rounding each bucket down.
pub fn split(fee: u128) -> (r: FeeSplit)
    ensures
        r == split_of(fee as int),
        r.daily + r.monthly + r.yearly + r.remainder == fee,
{
    let q = fee / 100;
    let rest = fee % 100;
    proof {
        lemma_percent_parts(fee as int, DAILY_PERCENT as int);
        lemma_percent_parts(fee as int, MONTHLY_PERCENT as int);
        lemma_percent_parts(fee as int, YEARLY_PERCENT as int);
        assert(fee as int == 100 * q + rest) by (nonlinear_arith)
            requires
                q == fee as int / 100,
                rest == fee as int % 100,
        ;
        assert(q * 90 + q * 9 + q * 1 == 100 * q) by (nonlinear_arith);
        assert(rest * 90 / 100 + rest * 9 / 100 + rest * 1 / 100 <= rest) by (nonlinear_arith)
            requires
                0 <= rest < 100,
        ;
    }
    let daily = q * DAILY_PERCENT + rest * DAILY_PERCENT / 100;
    let monthly = q * MONTHLY_PERCENT + rest * MONTHLY_PERCENT / 100;
    let yearly = q * YEARLY_PERCENT + rest * YEARLY_PERCENT / 100;
    let remainder = fee - daily - monthly - yearly;
    FeeSplit { daily, monthly, yearly, remainder }
}

/// Fee conservation: the four parts of a split add up to the fee, for every
/// fee.
pub proof fn lemma_split_conserves(fee: u128)
    ensures
        split_of(fee as int).daily + split_of(fee as int).monthly + split_of(fee as int).yearly
            + split_of(fee as int).remainder == fee,
{
    lemma_percent_parts(fee as int, DAILY_PERCENT as int);
    lemma_percent_parts(fee as int, MONTHLY_PERCENT as int);
    lemma_percent_parts(fee as int, YEARLY_PERCENT as int);
    let q = fee as int / 100;
    let rest = fee as int % 100;
    assert(fee as int == 100 * q + rest) by (nonlinear_arith)
        requires
            q == fee as int / 100,
            rest == fee as int % 100,
    ;
    assert(q * 90 + q * 9 + q * 1 == 100 * q) by (nonlinear_arith);
    assert(rest * 90 / 100 + rest * 9 / 100 + rest * 1 / 100 <= rest) by (nonlinear_arith)
        requires
            0 <= rest < 100,
    ;
}

} // verus!
