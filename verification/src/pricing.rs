//! The pricing request as a whole: checking of the parameters, simulation
//! of the price paths from a given set of shocks, and the choice of valuer.

use vstd::prelude::*;
use crate::american::AmericanValuer;
use crate::american::Induction;
use crate::error::PricingError;
use crate::european::european;
use crate::european::mc_european;
use crate::fixed::SCALE;
use crate::grid::Grid;
use crate::payoff::OptionSide;
use crate::utils::accumulated;
use crate::utils::cumulative_prod;
use crate::utils::generate_matrix;
use crate::utils::generated;
use crate::utils::scale_paths;
use crate::utils::scaled;

verus! {

/// When the option can be exercised.
#[derive(Clone, Copy, Debug, PartialEq, Eq, Structural)]
pub enum ExerciseStyle {
    European,
    American,
}

impl ExerciseStyle {
    /// The style that a label names: `"european"` is European, any other
    /// label American.
    pub fn from_label(label: &str) -> (style: ExerciseStyle)
        ensures
            style == (if label@ == "european"@ {
                ExerciseStyle::European
            } else {
                ExerciseStyle::American
            }),
    {
        let given: String = label.to_owned();
        let european: String = "european".to_owned();
        if given == european {
            ExerciseStyle::European
        } else {
            ExerciseStyle::American
        }
    }
}

/// What a pricing request comes to: the value of a European option, or the
/// backward induction of an American option, ready for its first step.
pub enum Valuation {
    European(u64),
    American(AmericanValuer),
}

/// What `monte_carlo` returns, as the contracts speak of it.
pub enum Priced {
    European(nat),
    American(Induction),
}

/// The check of the parameters that comes before any simulation: the counts
/// first, then the amounts.
pub open spec fn validated(
    spot: int,
    strike: int,
    n: nat,
    m: nat,
    volatility: int,
    horizon: int,
) -> Result<(), PricingError> {
    if n == 0 || m == 0 {
        Err(PricingError::InvalidDimension)
    } else if spot <= 0 || strike <= 0 || volatility <= 0 || horizon <= 0 {
        Err(PricingError::InvalidParameter)
    } else {
        Ok(())
    }
}

/// The price paths that `draws` give: laid out, scaled and compounded.
pub open spec fn simulated(spot: int, n: nat, m: nat, volatility: int, draws: Seq<i64>) -> Result<
    Seq<Seq<i64>>,
    PricingError,
> {
    match generated(n, m, draws) {
        Err(e) => Err(e),
        Ok(shocks) => match scaled(shocks, volatility) {
            Err(e) => Err(e),
            Ok(increments) => accumulated(increments, spot),
        },
    }
}

/// What `monte_carlo` returns. An American option is not discounted here.
pub open spec fn priced(
    spot: int,
    strike: int,
    n: nat,
    m: nat,
    volatility: int,
    side: OptionSide,
    horizon: int,
    style: ExerciseStyle,
    draws: Seq<i64>,
) -> Result<Priced, PricingError> {
    match validated(spot, strike, n, m, volatility, horizon) {
        Err(e) => Err(e),
        Ok(_) => match simulated(spot, n, m, volatility, draws) {
            Err(e) => Err(e),
            Ok(paths) => match style {
                ExerciseStyle::European => match european(paths, m, strike, side) {
                    Err(e) => Err(e),
                    Ok(v) => Ok(Priced::European(v)),
                },
                ExerciseStyle::American => match Induction::start(
                    paths,
                    m,
                    strike,
                    side,
                    SCALE as int,
                ) {
                    Err(e) => Err(e),
                    Ok(first) => Ok(Priced::American(first)),
                },
            },
        },
    }
}

/// The price paths of `n` paths over `m` steps that the shocks `draws` give.
pub fn simulate_paths(spot_price: i64, n: usize, m: usize, volatility: i64, draws: Vec<i64>) -> (r:
    Result<Grid, PricingError>)
    ensures
        r matches Ok(g) ==> simulated(
            spot_price as int,
            n as nat,
            m as nat,
            volatility as int,
            draws@,
        ) == Ok::<Seq<Seq<i64>>, PricingError>(g@) && g.width() == m && g.rectangular(),
        r matches Err(e) ==> simulated(
            spot_price as int,
            n as nat,
            m as nat,
            volatility as int,
            draws@,
        ) == Err::<Seq<Seq<i64>>, PricingError>(e),
{
    let mut matrix = match generate_matrix(n, m, draws) {
        Ok(g) => g,
        Err(e) => {
            return Err(e);
        },
    };
    match scale_paths(&mut matrix, volatility) {
        Ok(_) => {},
        Err(e) => {
            return Err(e);
        },
    }
    cumulative_prod(matrix, spot_price)
}

/// Prices an option on `n` simulated paths of `m` steps. The parameters are
/// checked before anything is simulated. `draws` holds the `n * m` standard
/// normal shocks of the simulation in fixed point, path after path.
pub fn monte_carlo(
    spot_price: i64,
    strike: i64,
    n: usize,
    m: usize,
    volatility: i64,
    side: OptionSide,
    t: i64,
    style: ExerciseStyle,
    draws: Vec<i64>,
) -> (r: Result<Valuation, PricingError>)
    ensures
        r matches Ok(Valuation::European(v)) ==> priced(
            spot_price as int,
            strike as int,
            n as nat,
            m as nat,
            volatility as int,
            side,
            t as int,
            style,
            draws@,
        ) == Ok::<Priced, PricingError>(Priced::European(v as nat)),
        r matches Ok(Valuation::American(valuer)) ==> valuer.wf() && priced(
            spot_price as int,
            strike as int,
            n as nat,
            m as nat,
            volatility as int,
            side,
            t as int,
            style,
            draws@,
        ) == Ok::<Priced, PricingError>(Priced::American(valuer@)),
        r matches Err(e) ==> priced(
            spot_price as int,
            strike as int,
            n as nat,
            m as nat,
            volatility as int,
            side,
            t as int,
            style,
            draws@,
        ) == Err::<Priced, PricingError>(e),
{
    if n == 0 || m == 0 {
        return Err(PricingError::InvalidDimension);
    }
    if spot_price <= 0 || strike <= 0 || volatility <= 0 || t <= 0 {
        return Err(PricingError::InvalidParameter);
    }
    let paths = match simulate_paths(spot_price, n, m, volatility, draws) {
        Ok(g) => g,
        Err(e) => {
            return Err(e);
        },
    };
    match style {
        ExerciseStyle::European => match mc_european(&paths, strike, side) {
            Ok(v) => Ok(Valuation::European(v)),
            Err(e) => Err(e),
        },
        ExerciseStyle::American => match AmericanValuer::new(paths, strike, side, SCALE) {
            Ok(valuer) => Ok(Valuation::American(valuer)),
            Err(e) => Err(e),
        },
    }
}

} // verus!
