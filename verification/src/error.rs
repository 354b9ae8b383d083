use vstd::prelude::*;

verus! {

/// Why a pricing request was turned down.
#[derive(Clone, Copy, Debug, PartialEq, Eq, Structural)]
pub enum PricingError {
    /// A path or step count is zero, or a shape does not match its data.
    InvalidDimension,
    /// A spot, strike, volatility, time horizon or discount factor is out of range.
    InvalidParameter,
    /// A valuer was handed a grid without a single observation.
    EmptyInput,
    /// The regression input cannot determine a quadratic.
    DegenerateRegression,
    /// An amount left the range that the fixed-point representation holds.
    Overflow,
}

} // verus!
