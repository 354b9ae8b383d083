//! The value of an option that can be exercised only at the last step.

use vstd::prelude::*;
use crate::error::PricingError;
use crate::grid::Grid;
use crate::payoff::exercise_payoff;
use crate::payoff::payoff;
use crate::payoff::OptionSide;

verus! {

/// What one path pays at its last step.
pub open spec fn terminal_payoff(row: Seq<i64>, strike: int, side: OptionSide) -> nat
    recommends
        row.len() > 0,
{
    payoff(side, row.last() as int, strike)
}

/// The sum of the terminal payoffs of the first `n` paths.
pub open spec fn total_payoff(cells: Seq<Seq<i64>>, strike: int, side: OptionSide, n: nat) -> nat
    recommends
        n <= cells.len(),
    decreases n,
{
    if n == 0 {
        0
    } else {
        total_payoff(cells, strike, side, (n - 1) as nat) + terminal_payoff(
            cells[n - 1],
            strike,
            side,
        )
    }
}

/// The mean terminal payoff over all paths, rounded down.
pub open spec fn european_value(cells: Seq<Seq<i64>>, strike: int, side: OptionSide) -> nat
    recommends
        cells.len() > 0,
{
    total_payoff(cells, strike, side, cells.len()) / cells.len()
}

/// What `mc_european` returns for a grid with the given rows and width.
pub open spec fn european(cells: Seq<Seq<i64>>, width: nat, strike: int, side: OptionSide) -> Result<
    nat,
    PricingError,
> {
    if cells.len() == 0 || width == 0 {
        Err(PricingError::EmptyInput)
    } else {
        Ok(european_value(cells, strike, side))
    }
}

/// No sum of `n` payoffs exceeds `n` times the largest payoff that can be held.
pub proof fn lemma_total_payoff_bound(cells: Seq<Seq<i64>>, strike: i64, side: OptionSide, n: nat)
    ensures
        total_payoff(cells, strike as int, side, n) <= n * u64::MAX,
    decreases n,
{
    if n > 0 {
        lemma_total_payoff_bound(cells, strike, side, (n - 1) as nat);
        assert((n - 1) * u64::MAX + u64::MAX == n * u64::MAX) by (nonlinear_arith);
    }
}

/// The mean terminal payoff `max(q * (last - strike), 0)` over the paths of
/// `matrix`, without discounting. A grid without rows or without columns has
/// no terminal price and gives `EmptyInput`.
pub fn mc_european(matrix: &Grid, strike: i64, side: OptionSide) -> (r: Result<u64, PricingError>)
    ensures
        r matches Ok(v) ==> european(matrix@, matrix.width(), strike as int, side) == Ok::<
            nat,
            PricingError,
        >(v as nat),
        r matches Err(e) ==> european(matrix@, matrix.width(), strike as int, side) == Err::<
            nat,
            PricingError,
        >(e),
{
    let (n, m) = matrix.dim();
    if n == 0 || m == 0 {
        return Err(PricingError::EmptyInput);
    }
    let mut sum: u128 = 0;
    let mut i: usize = 0;
    while i < n
        invariant
            i <= n,
            n == matrix@.len(),
            m == matrix.width(),
            m > 0,
            matrix.rectangular(),
            sum == total_payoff(matrix@, strike as int, side, i as nat),
        decreases n - i,
    {
        let last: i64 = matrix.at(i, m - 1);
        let paid: u64 = exercise_payoff(side, last, strike);
        proof {
            lemma_total_payoff_bound(matrix@, strike, side, (i + 1) as nat);
            assert((i + 1) * u64::MAX <= u64::MAX * u64::MAX) by (nonlinear_arith)
                requires
                    i + 1 <= u64::MAX,
            ;
        }
        sum = sum + paid as u128;
        i = i + 1;
    }
    proof {
        lemma_total_payoff_bound(matrix@, strike, side, n as nat);
        assert(sum / (n as u128) <= u64::MAX) by (nonlinear_arith)
            requires
                sum <= n * u64::MAX,
                n > 0,
        ;
    }
    Ok((sum / n as u128) as u64)
}

} // verus!
