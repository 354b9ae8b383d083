//! The input of the quadratic regression that estimates what holding on
//! to an option is worth.

use vstd::prelude::*;
use crate::error::PricingError;

verus! {

/// The observations of one time step, one row for each path in the money:
/// the path's index, its price and the square of its price as features, and
/// its discounted realized cash flow as target.
pub struct RegressionDataset {
    pub paths: Vec<usize>,
    pub prices: Vec<i64>,
    pub squares: Vec<i128>,
    pub targets: Vec<u64>,
}

/// Whether three prices among `prices` differ from one another. An intercept,
/// a linear and a quadratic term are determined by nothing less.
pub open spec fn has_three_distinct(prices: Seq<i64>) -> bool {
    exists|i: int, j: int, k: int|
        0 <= i < prices.len() && 0 <= j < prices.len() && 0 <= k < prices.len()
            && #[trigger] prices[i] != #[trigger] prices[j] && prices[i] != #[trigger] prices[k]
            && prices[j] != prices[k]
}

/// Whether three prices among `prices` differ from one another.
pub fn three_distinct(prices: &Vec<i64>) -> (b: bool)
    ensures
        b == has_three_distinct(prices@),
{
    let n: usize = prices.len();
    if n == 0 {
        return false;
    }
    let first: i64 = prices[0];
    let mut second: i64 = first;
    let mut at: usize = 0;
    let mut i: usize = 1;
    while i < n
        invariant
            1 <= i <= n,
            n == prices@.len(),
            first == prices@[0],
            at < i,
            second == prices@[at as int],
            forall|k: int| 0 <= k < i ==> prices@[k] == first || prices@[k] == second,
        decreases n - i,
    {
        let p: i64 = prices[i];
        if second == first {
            if p != first {
                second = p;
                at = i;
            }
        } else if p != first && p != second {
            assert(prices@[0] != prices@[at as int] && prices@[0] != prices@[i as int]
                && prices@[at as int] != prices@[i as int]);
            return true;
        }
        i = i + 1;
    }
    false
}

impl RegressionDataset {
    /// The rows all have a path, both features and a target.
    pub open spec fn wf(&self) -> bool {
        &&& self.prices@.len() == self.paths@.len()
        &&& self.squares@.len() == self.paths@.len()
        &&& self.targets@.len() == self.paths@.len()
    }

    /// The number of observations.
    pub fn len(&self) -> (n: usize)
        ensures
            n == self.paths@.len(),
    {
        self.paths.len()
    }

    /// Whether a quadratic can be fitted: `DegenerateRegression` exactly when
    /// fewer than three distinct prices were observed, none at all included.
    pub fn check_rank(&self) -> (r: Result<(), PricingError>)
        ensures
            has_three_distinct(self.prices@) ==> r.is_ok(),
            !has_three_distinct(self.prices@) ==> r == Err::<(), PricingError>(
                PricingError::DegenerateRegression,
            ),
    {
        if three_distinct(&self.prices) {
            Ok(())
        } else {
            Err(PricingError::DegenerateRegression)
        }
    }
}

} // verus!
