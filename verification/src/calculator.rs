//! A small stateful front end over the closed-form engine: it computes
//! virtual trades at the default precision and keeps running usage
//! statistics.

use crate::errors::TwammError;
use crate::twamm_math::{spec_closed_form, TWAMMath};
use vstd::prelude::*;

verus! {

/// A calculator instance: the engine itself is stateless, the two
/// counters only track usage.
#[derive(Clone, Copy, PartialEq, Eq, Structural, Debug)]
pub struct TWAMMCalculator {
    pub total_calculations: u128,
    pub total_volume_processed: u128,
}

/// The reserve movement of one virtual-trade computation: how far each
/// reserve travelled from its starting value.
pub open spec fn spec_trade_amounts(
    p: (u128, u128, u128, u128),
    reserve_0: u128,
    reserve_1: u128,
) -> (u128, u128) {
    (
        if p.0 >= reserve_0 {
            (p.0 - reserve_0) as u128
        } else {
            (reserve_0 - p.0) as u128
        },
        if p.1 >= reserve_1 {
            (p.1 - reserve_1) as u128
        } else {
            (reserve_1 - p.1) as u128
        },
    )
}

/// One `calculate_virtual_trades` step: the returned amounts and the
/// calculator state after the call. Any failure leaves the state as it
/// was.
pub open spec fn spec_calculate_virtual_trades(
    calc: TWAMMCalculator,
    sell_rate_0: u128,
    sell_rate_1: u128,
    blocks_elapsed: u128,
    reserve_0: u128,
    reserve_1: u128,
) -> (Result<(u128, u128), TwammError>, TWAMMCalculator) {
    if reserve_0 == 0 || reserve_1 == 0 {
        (Err(TwammError::InvalidReserves), calc)
    } else {
        match spec_closed_form(sell_rate_0, sell_rate_1, blocks_elapsed, reserve_0, reserve_1) {
            Err(e) => (Err(e), calc),
            Ok(p) => {
                let amounts = spec_trade_amounts(p, reserve_0, reserve_1);
                if calc.total_calculations + 1 > u128::MAX {
                    (Err(TwammError::MathOverflow), calc)
                } else if amounts.0 + amounts.1 > u128::MAX {
                    (Err(TwammError::MathOverflow), calc)
                } else if calc.total_volume_processed + amounts.0 + amounts.1 > u128::MAX {
                    (Err(TwammError::MathOverflow), calc)
                } else {
                    (
                        Ok(amounts),
                        TWAMMCalculator {
                            total_calculations: (calc.total_calculations + 1) as u128,
                            total_volume_processed: (calc.total_volume_processed + amounts.0
                                + amounts.1) as u128,
                        },
                    )
                }
            },
        }
    }
}

/// The stub price impact: the trade size as basis points of the incoming
/// reserve.
pub open spec fn spec_simple_price_impact(
    trade_size: u128,
    reserve_in: u128,
    reserve_out: u128,
) -> Result<u128, TwammError> {
    if reserve_in == 0 || reserve_out == 0 {
        Err(TwammError::InvalidReserves)
    } else if (trade_size * 10000) / (reserve_in as int) > u128::MAX {
        Err(TwammError::MathOverflow)
    } else {
        Ok(((trade_size * 10000) / (reserve_in as int)) as u128)
    }
}

/// Determinism law: two calculator instances in the same state, given
/// identical inputs, produce the same amounts and step to the same state.
/// (Each engine routine's contract already pins its result to a spec
/// function of the arguments alone; this states the law at the level of
/// whole instances.)
pub proof fn lemma_calculator_deterministic(
    c1: TWAMMCalculator,
    c2: TWAMMCalculator,
    sell_rate_0: u128,
    sell_rate_1: u128,
    blocks_elapsed: u128,
    reserve_0: u128,
    reserve_1: u128,
)
    requires
        c1 == c2,
    ensures
        spec_calculate_virtual_trades(
            c1,
            sell_rate_0,
            sell_rate_1,
            blocks_elapsed,
            reserve_0,
            reserve_1,
        ) == spec_calculate_virtual_trades(
            c2,
            sell_rate_0,
            sell_rate_1,
            blocks_elapsed,
            reserve_0,
            reserve_1,
        ),
{
}

impl TWAMMCalculator {
    /// A fresh calculator with zeroed statistics.
    pub fn new() -> (r: Self)
        ensures
            r.total_calculations == 0,
            r.total_volume_processed == 0,
    {
        TWAMMCalculator { total_calculations: 0, total_volume_processed: 0 }
    }

    /// Runs the closed-form engine over the elapsed window at the default
    /// precision and returns how far each reserve moved; the statistics
    /// grow by one calculation and the total movement. Identical inputs
    /// give identical outputs, and any failure leaves the statistics
    /// untouched.
    pub fn calculate_virtual_trades(
        &mut self,
        sell_rate_0: u128,
        sell_rate_1: u128,
        blocks_elapsed: u128,
        reserve_0: u128,
        reserve_1: u128,
    ) -> (r: Result<(u128, u128), TwammError>)
        ensures
            r == spec_calculate_virtual_trades(
                *old(self),
                sell_rate_0,
                sell_rate_1,
                blocks_elapsed,
                reserve_0,
                reserve_1,
            ).0,
            *final(self) == spec_calculate_virtual_trades(
                *old(self),
                sell_rate_0,
                sell_rate_1,
                blocks_elapsed,
                reserve_0,
                reserve_1,
            ).1,
            r is Err ==> *final(self) == *old(self),
    {
        if reserve_0 == 0 || reserve_1 == 0 {
            return Err(TwammError::InvalidReserves);
        }
        let p = match TWAMMath::execute_virtual_orders_closed_form(
            sell_rate_0,
            sell_rate_1,
            blocks_elapsed,
            reserve_0,
            reserve_1,
        ) {
            Ok(p) => p,
            Err(e) => {
                return Err(e);
            },
        };
        let amount_0 = if p.0 >= reserve_0 {
            p.0 - reserve_0
        } else {
            reserve_0 - p.0
        };
        let amount_1 = if p.1 >= reserve_1 {
            p.1 - reserve_1
        } else {
            reserve_1 - p.1
        };
        let new_calculations = match self.total_calculations.checked_add(1) {
            Some(v) => v,
            None => {
                return Err(TwammError::MathOverflow);
            },
        };
        let moved = match amount_0.checked_add(amount_1) {
            Some(v) => v,
            None => {
                return Err(TwammError::MathOverflow);
            },
        };
        let new_volume = match self.total_volume_processed.checked_add(moved) {
            Some(v) => v,
            None => {
                return Err(TwammError::MathOverflow);
            },
        };
        self.total_calculations = new_calculations;
        self.total_volume_processed = new_volume;
        Ok((amount_0, amount_1))
    }

    /// The stub price impact of a single trade, in basis points of the
    /// incoming reserve.
    pub fn calculate_price_impact(
        trade_size: u128,
        reserve_in: u128,
        reserve_out: u128,
    ) -> (r: Result<u128, TwammError>)
        ensures
            r == spec_simple_price_impact(trade_size, reserve_in, reserve_out),
    {
        if reserve_in == 0 || reserve_out == 0 {
            return Err(TwammError::InvalidReserves);
        }
        match crate::twamm_math::mul_div(trade_size, 10000, reserve_in) {
            Ok(v) => Ok(v),
            Err(_) => Err(TwammError::MathOverflow),
        }
    }

    /// How many calculations this instance has run.
    pub fn get_total_calculations(&self) -> (r: u128)
        ensures
            r == self.total_calculations,
    {
        self.total_calculations
    }

    /// The total reserve movement this instance has processed.
    pub fn get_total_volume_processed(&self) -> (r: u128)
        ensures
            r == self.total_volume_processed,
    {
        self.total_volume_processed
    }

    /// Zeroes both statistics.
    pub fn reset_statistics(&mut self)
        ensures
            final(self).total_calculations == 0,
            final(self).total_volume_processed == 0,
    {
        self.total_calculations = 0;
        self.total_volume_processed = 0;
    }
}

} // verus!
