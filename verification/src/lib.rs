//! A Time-Weighted Average Market Maker (TWAMM) core.
//!
//! The library computes how continuously-accruing "drip" sell orders interact
//! with a constant-product liquidity reserve over elapsed block spans, and
//! manages the lifecycle of long-duration orders that are executed as a
//! continuously re-batched aggregate rather than as discrete trades.
//!
//! All quantities are unsigned 128-bit integers, scaled decimally by an
//! explicit precision parameter (default 18 decimal places). Every fallible
//! arithmetic step is checked; a failure aborts the whole call with no
//! observable state mutation.

pub mod calculator;
pub mod errors;
pub mod order_execution;
pub mod twamm_math;

pub use calculator::TWAMMCalculator;
pub use errors::TwammError;
pub use order_execution::{
    Address, ExecutionStatistics, Order, OrderDirection, OrderManager, OrderPool, OrderType,
    VirtualExecutionResult, VirtualOrderState,
};
pub use twamm_math::{FixedPoint, TWAMMath};
