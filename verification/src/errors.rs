use vstd::prelude::*;

verus! {

/// Failure taxonomy for the TWAMM core.
///
/// Every fallible operation returns an explicit `Result` carrying one of
/// these variants; there is no exception-based control flow. Callers must
/// treat any failure as "no mutation occurred".
#[derive(Clone, Copy, PartialEq, Eq, Structural, Debug)]
pub enum TwammError {
    /// A parameter is outside its documented range (zero duration or amount,
    /// a rate exceeding its bound, malformed batch parameters).
    InvalidInput,
    /// A checked arithmetic step would leave the 128-bit range.
    MathOverflow,
    /// A divisor is zero where a quotient is required.
    DivisionByZero,
    /// The computed trade would drain the available reserve.
    InsufficientLiquidity,
    /// A reserve is zero where liquidity is required.
    InvalidReserves,
    /// No active order carries the requested identifier.
    OrderNotFound,
    /// The caller does not own the order it tries to mutate.
    NotOrderOwner,
}

impl TwammError {
    /// The short, fixed, human-readable reason code for this failure.
    pub fn reason(&self) -> (r: &'static str)
        ensures
            r@ == match *self {
                TwammError::InvalidInput => "invalid input"@,
                TwammError::MathOverflow => "math overflow"@,
                TwammError::DivisionByZero => "division by zero"@,
                TwammError::InsufficientLiquidity => "insufficient liquidity"@,
                TwammError::InvalidReserves => "invalid reserves"@,
                TwammError::OrderNotFound => "order not found"@,
                TwammError::NotOrderOwner => "not order owner"@,
            },
    {
        match *self {
            TwammError::InvalidInput => "invalid input",
            TwammError::MathOverflow => "math overflow",
            TwammError::DivisionByZero => "division by zero",
            TwammError::InsufficientLiquidity => "insufficient liquidity",
            TwammError::InvalidReserves => "invalid reserves",
            TwammError::OrderNotFound => "order not found",
            TwammError::NotOrderOwner => "not order owner",
        }
    }
}

} // verus!
