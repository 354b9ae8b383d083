//! From random shocks to price paths: the shocks are laid out as a grid,
//! scaled to the volatility of one step, and compounded from the spot price.

use vstd::prelude::*;
use vstd::arithmetic::div_mod::lemma_fundamental_div_mod;
use vstd::arithmetic::div_mod::lemma_mod_pos_bound;
use crate::error::PricingError;
use crate::fixed::fits_i64;
use crate::fixed::grow;
use crate::fixed::grown;
use crate::fixed::trunc_div;
use crate::fixed::SQRT_TRADING_DAYS;
use crate::grid::row_major;
use crate::grid::rows_have_width;
use crate::grid::Grid;

verus! {

/// What `generate_matrix` returns: the draws as `n` paths of `m` steps.
pub open spec fn generated(n: nat, m: nat, draws: Seq<i64>) -> Result<Seq<Seq<i64>>, PricingError> {
    if n == 0 || m == 0 || n * m != draws.len() {
        Err(PricingError::InvalidDimension)
    } else {
        Ok(row_major(draws, n, m))
    }
}

/// A shock scaled to the volatility of one step: the shock times the yearly
/// volatility, divided by the square root of the number of steps in a year.
/// It is one quotient, rounded once, toward zero.
pub open spec fn scaled_shock(shock: int, volatility: int) -> int {
    trunc_div(shock * volatility, SQRT_TRADING_DAYS as int)
}

/// Whether every shock, scaled to the volatility of one step, can be held.
pub open spec fn scales(cells: Seq<Seq<i64>>, volatility: int) -> bool {
    forall|i: int, j: int|
        0 <= i < cells.len() && 0 <= j < cells[i].len() ==> fits_i64(
            scaled_shock(#[trigger] cells[i][j] as int, volatility),
        )
}

/// Every shock scaled to the volatility of one step.
pub open spec fn scaled_cells(cells: Seq<Seq<i64>>, volatility: int) -> Seq<Seq<i64>> {
    Seq::new(
        cells.len(),
        |i: int|
            Seq::new(cells[i].len(), |j: int| scaled_shock(cells[i][j] as int, volatility) as i64),
    )
}

/// What `scale_paths` makes of a grid.
pub open spec fn scaled(cells: Seq<Seq<i64>>, volatility: int) -> Result<
    Seq<Seq<i64>>,
    PricingError,
> {
    if volatility <= 0 {
        Err(PricingError::InvalidParameter)
    } else if !scales(cells, volatility) {
        Err(PricingError::Overflow)
    } else {
        Ok(scaled_cells(cells, volatility))
    }
}

/// A scaled shock lies less than one millionth from the exact quotient, on
/// the side of zero. So a positive volatility never turns a shock into zero
/// whose exact scaled value is a millionth or more, and never changes its sign.
pub proof fn lemma_scaled_shock_error(shock: int, volatility: int)
    ensures
        shock * volatility >= 0 ==> shock * volatility - SQRT_TRADING_DAYS < scaled_shock(
            shock,
            volatility,
        ) * SQRT_TRADING_DAYS <= shock * volatility,
        shock * volatility < 0 ==> shock * volatility <= scaled_shock(shock, volatility)
            * SQRT_TRADING_DAYS < shock * volatility + SQRT_TRADING_DAYS,
        shock * volatility >= SQRT_TRADING_DAYS ==> scaled_shock(shock, volatility) >= 1,
        shock * volatility <= -SQRT_TRADING_DAYS ==> scaled_shock(shock, volatility) <= -1,
{
    let x = shock * volatility;
    let d = SQRT_TRADING_DAYS as int;
    if x >= 0 {
        let q = x / d;
        lemma_fundamental_div_mod(x, d);
        lemma_mod_pos_bound(x, d);
        assert(d * q == q * d) by (nonlinear_arith);
        if x >= d {
            assert(q >= 1) by (nonlinear_arith)
                requires
                    q * d > x - d,
                    x >= d,
                    d > 0,
            ;
        }
    } else {
        let q = (-x) / d;
        lemma_fundamental_div_mod(-x, d);
        lemma_mod_pos_bound(-x, d);
        assert(d * q == -((-q) * d)) by (nonlinear_arith);
        if x <= -d {
            assert(q >= 1) by (nonlinear_arith)
                requires
                    (-q) * d < x + d,
                    x <= -d,
                    d > 0,
            ;
        }
    }
}

/// The price of a path after step `j`: the spot price compounded with the
/// simple returns `row[0]` to `row[j]`, rounded after each step.
pub open spec fn price_at(row: Seq<i64>, spot: int, j: int) -> int
    decreases j,
{
    if j <= 0 {
        grown(spot, row[0] as int)
    } else {
        grown(price_at(row, spot, j - 1), row[j] as int)
    }
}

/// Whether every price of every path can be held.
pub open spec fn accumulates(cells: Seq<Seq<i64>>, spot: int) -> bool {
    forall|i: int, j: int|
        0 <= i < cells.len() && 0 <= j < cells[i].len() ==> fits_i64(
            #[trigger] price_at(cells[i], spot, j),
        )
}

/// The prices of every path.
pub open spec fn accumulated_cells(cells: Seq<Seq<i64>>, spot: int) -> Seq<Seq<i64>> {
    Seq::new(
        cells.len(),
        |i: int| Seq::new(cells[i].len(), |j: int| price_at(cells[i], spot, j) as i64),
    )
}

/// What `cumulative_prod` makes of a grid of scaled increments.
pub open spec fn accumulated(cells: Seq<Seq<i64>>, spot: int) -> Result<
    Seq<Seq<i64>>,
    PricingError,
> {
    if spot <= 0 {
        Err(PricingError::InvalidParameter)
    } else if !accumulates(cells, spot) {
        Err(PricingError::Overflow)
    } else {
        Ok(accumulated_cells(cells, spot))
    }
}

/// The grid that holds `after` in the cells that come before row `i`,
/// column `j` in row-major order, and `before` in that cell and what follows it.
pub open spec fn merged(
    before: Seq<Seq<i64>>,
    after: Seq<Seq<i64>>,
    width: nat,
    i: int,
    j: int,
) -> Seq<Seq<i64>> {
    Seq::new(
        before.len(),
        |r: int|
            Seq::new(
                width,
                |c: int|
                    if r < i || (r == i && c < j) {
                        after[r][c]
                    } else {
                        before[r][c]
                    },
            ),
    )
}

/// Lays `draws` out as `n` paths of `m` steps, in row-major order. Both
/// counts must be positive and `draws` must hold `n * m` shocks.
pub fn generate_matrix(n: usize, m: usize, draws: Vec<i64>) -> (r: Result<Grid, PricingError>)
    ensures
        r matches Ok(g) ==> generated(n as nat, m as nat, draws@) == Ok::<
            Seq<Seq<i64>>,
            PricingError,
        >(g@) && g.width() == m && g.rectangular(),
        r matches Err(e) ==> generated(n as nat, m as nat, draws@) == Err::<
            Seq<Seq<i64>>,
            PricingError,
        >(e),
{
    if n == 0 || m == 0 {
        return Err(PricingError::InvalidDimension);
    }
    match Grid::from_row_major(n, m, draws) {
        Some(g) => Ok(g),
        None => Err(PricingError::InvalidDimension),
    }
}

/// The exact quotient of `shock * volatility` by the square root of the
/// number of steps in a year, rounded toward zero.
fn scale_wide(shock: i64, volatility: i64) -> (r: i128)
    ensures
        r == scaled_shock(shock as int, volatility as int),
{
    assert(-(0x8000_0000_0000_0000 * 0x8000_0000_0000_0000) <= (shock as int) * (volatility as int)
        <= 0x8000_0000_0000_0000 * 0x8000_0000_0000_0000) by (nonlinear_arith)
        requires
            -0x8000_0000_0000_0000 <= shock <= 0x8000_0000_0000_0000,
            -0x8000_0000_0000_0000 <= volatility <= 0x8000_0000_0000_0000,
    ;
    let wide: i128 = (shock as i128) * (volatility as i128);
    wide / (SQRT_TRADING_DAYS as i128)
}

/// A shock scaled to the volatility of one step, or `None` where it cannot
/// be held.
pub fn scale_shock(shock: i64, volatility: i64) -> (r: Option<i64>)
    ensures
        r == (if fits_i64(scaled_shock(shock as int, volatility as int)) {
            Some(scaled_shock(shock as int, volatility as int) as i64)
        } else {
            None
        }),
{
    let wide: i128 = scale_wide(shock, volatility);
    if wide < i64::MIN as i128 || wide > i64::MAX as i128 {
        None
    } else {
        Some(wide as i64)
    }
}

/// Scales every shock to the volatility of one step: each becomes
/// `shock * volatility / sqrt(252)`, rounded once. A volatility that is not
/// positive is refused; where a scaled shock cannot be held the grid is left
/// as it was.
#[verifier::loop_isolation(false)]
pub fn scale_paths(matrix: &mut Grid, volatility: i64) -> (r: Result<(), PricingError>)
    ensures
        final(matrix).width() == old(matrix).width(),
        r is Ok ==> scaled(old(matrix)@, volatility as int) == Ok::<Seq<Seq<i64>>, PricingError>(
            final(matrix)@,
        ),
        r matches Err(e) ==> scaled(old(matrix)@, volatility as int) == Err::<
            Seq<Seq<i64>>,
            PricingError,
        >(e) && final(matrix)@ == old(matrix)@,
{
    if volatility <= 0 {
        return Err(PricingError::InvalidParameter);
    }
    let (n, m) = matrix.dim();
    let ghost before = matrix@;
    let mut i: usize = 0;
    while i < n
        invariant
            i <= n,
            n == before.len(),
            m == matrix.width(),
            matrix@ == before,
            rows_have_width(before, m as nat),
            forall|r: int, c: int|
                0 <= r < i && 0 <= c < m ==> fits_i64(
                    scaled_shock(#[trigger] before[r][c] as int, volatility as int),
                ),
        decreases n - i,
    {
        let mut j: usize = 0;
        while j < m
            invariant
                i < n,
                j <= m,
                n == before.len(),
                m == matrix.width(),
                matrix@ == before,
                rows_have_width(before, m as nat),
                forall|r: int, c: int|
                    0 <= r < i && 0 <= c < m ==> fits_i64(
                        scaled_shock(#[trigger] before[r][c] as int, volatility as int),
                    ),
                forall|c: int|
                    0 <= c < j ==> fits_i64(
                        scaled_shock(#[trigger] before[i as int][c] as int, volatility as int),
                    ),
            decreases m - j,
        {
            let cell: i64 = matrix.at(i, j);
            if scale_shock(cell, volatility).is_none() {
                assert(!fits_i64(
                    scaled_shock(before[i as int][j as int] as int, volatility as int),
                ));
                return Err(PricingError::Overflow);
            }
            j = j + 1;
        }
        i = i + 1;
    }
    assert(scales(before, volatility as int));
    let ghost after = scaled_cells(before, volatility as int);
    assert(matrix@ =~~= merged(before, after, m as nat, 0, 0));
    let mut i: usize = 0;
    while i < n
        invariant
            i <= n,
            n == before.len(),
            m == matrix.width(),
            rows_have_width(before, m as nat),
            scales(before, volatility as int),
            after == scaled_cells(before, volatility as int),
            matrix@ == merged(before, after, m as nat, i as int, 0),
        decreases n - i,
    {
        let mut j: usize = 0;
        while j < m
            invariant
                i < n,
                j <= m,
                n == before.len(),
                m == matrix.width(),
                rows_have_width(before, m as nat),
                scales(before, volatility as int),
                after == scaled_cells(before, volatility as int),
                matrix@ == merged(before, after, m as nat, i as int, j as int),
            decreases m - j,
        {
            let cell: i64 = matrix.at(i, j);
            assert(cell == before[i as int][j as int]);
            matrix.put(i, j, scale_wide(cell, volatility) as i64);
            assert(matrix@ =~~= merged(before, after, m as nat, i as int, j + 1));
            j = j + 1;
        }
        assert(merged(before, after, m as nat, i as int, m as int) =~~= merged(
            before,
            after,
            m as nat,
            i + 1,
            0,
        ));
        i = i + 1;
    }
    assert(matrix@ =~~= after);
    Ok(())
}

/// Compounds the scaled increments of every path from the spot price: the
/// first column is `spot * (1 + increment)`, each later column the column
/// before it times `1 + increment`. A spot price that is not positive is
/// refused, and so is a path whose price cannot be held.
#[verifier::loop_isolation(false)]
pub fn cumulative_prod(matrix: Grid, spot_price: i64) -> (r: Result<Grid, PricingError>)
    ensures
        r matches Ok(g) ==> accumulated(matrix@, spot_price as int) == Ok::<
            Seq<Seq<i64>>,
            PricingError,
        >(g@) && g.width() == matrix.width() && g.rectangular(),
        r matches Err(e) ==> accumulated(matrix@, spot_price as int) == Err::<
            Seq<Seq<i64>>,
            PricingError,
        >(e),
{
    if spot_price <= 0 {
        return Err(PricingError::InvalidParameter);
    }
    let ghost before = matrix@;
    let ghost after = accumulated_cells(before, spot_price as int);
    let mut paths = matrix;
    let (n, m) = paths.dim();
    assert(paths@ =~~= merged(before, after, m as nat, 0, 0));
    let mut i: usize = 0;
    while i < n
        invariant
            i <= n,
            n == before.len(),
            m == paths.width(),
            rows_have_width(before, m as nat),
            after == accumulated_cells(before, spot_price as int),
            paths@ == merged(before, after, m as nat, i as int, 0),
            forall|r: int, c: int|
                0 <= r < i && 0 <= c < m ==> fits_i64(
                    #[trigger] price_at(before[r], spot_price as int, c),
                ),
        decreases n - i,
    {
        let mut previous: i64 = spot_price;
        let mut j: usize = 0;
        while j < m
            invariant
                i < n,
                j <= m,
                n == before.len(),
                m == paths.width(),
                rows_have_width(before, m as nat),
                after == accumulated_cells(before, spot_price as int),
                paths@ == merged(before, after, m as nat, i as int, j as int),
                forall|r: int, c: int|
                    0 <= r < i && 0 <= c < m ==> fits_i64(
                        #[trigger] price_at(before[r], spot_price as int, c),
                    ),
                forall|c: int|
                    0 <= c < j ==> fits_i64(
                        #[trigger] price_at(before[i as int], spot_price as int, c),
                    ),
                j == 0 ==> previous == spot_price,
                j > 0 ==> previous == price_at(before[i as int], spot_price as int, j - 1),
            decreases m - j,
        {
            let increment: i64 = paths.at(i, j);
            assert(increment == before[i as int][j as int]);
            assert(price_at(before[i as int], spot_price as int, j as int) == grown(
                previous as int,
                increment as int,
            ));
            match grow(previous, increment) {
                Some(price) => {
                    paths.put(i, j, price);
                    assert(price == after[i as int][j as int]);
                    previous = price;
                },
                None => {
                    assert(!fits_i64(price_at(before[i as int], spot_price as int, j as int)));
                    return Err(PricingError::Overflow);
                },
            }
            assert(paths@ =~~= merged(before, after, m as nat, i as int, j + 1));
            j = j + 1;
        }
        assert(merged(before, after, m as nat, i as int, m as int) =~~= merged(
            before,
            after,
            m as nat,
            i + 1,
            0,
        ));
        i = i + 1;
    }
    assert(accumulates(before, spot_price as int));
    assert(paths@ =~~= after);
    Ok(paths)
}

} // verus!
