use mc_options::error::PricingError;
use mc_options::european::mc_european;
use mc_options::fixed::SCALE;
use mc_options::grid::Grid;
use mc_options::payoff::OptionSide;
use mc_options::pricing::monte_carlo;
use mc_options::pricing::simulate_paths;
use mc_options::pricing::ExerciseStyle;
use mc_options::pricing::Valuation;
use mc_options::utils::cumulative_prod;
use mc_options::utils::generate_matrix;
use mc_options::utils::scale_paths;

const SPOT: i64 = 100_000_000;
const STRIKE: i64 = 100_000_000;
const VOLATILITY: i64 = 150_000;
const YEAR: i64 = 1_000_000;

fn rows_of(g: &Grid) -> Vec<Vec<i64>> {
    let (n, m) = g.dim();
    (0..n).map(|i| (0..m).map(|j| g.get(i, j).unwrap()).collect()).collect()
}

fn shocks() -> Vec<i64> {
    vec![1_000_000, -1_000_000, 500_000, 2_000_000]
}

fn error_of(r: Result<Valuation, PricingError>) -> Option<PricingError> {
    r.err()
}

fn european_of(r: Result<Valuation, PricingError>) -> u64 {
    match r {
        Ok(Valuation::European(v)) => v,
        _ => panic!("not a European value"),
    }
}

#[test]
fn style_of_a_label() {
    assert_eq!(ExerciseStyle::from_label("european"), ExerciseStyle::European);
    assert_eq!(ExerciseStyle::from_label("american"), ExerciseStyle::American);
    assert_eq!(ExerciseStyle::from_label("European"), ExerciseStyle::American);
    assert_eq!(ExerciseStyle::from_label(""), ExerciseStyle::American);
}

#[test]
fn simulate_paths_lays_out_scales_and_compounds() {
    let p = simulate_paths(SPOT, 2, 2, VOLATILITY, shocks()).unwrap();
    assert_eq!(rows_of(&p), vec![vec![100_944_900, 99_991_071], vec![100_472_400, 102_371_127]]);
    let mut g = generate_matrix(2, 2, shocks()).unwrap();
    scale_paths(&mut g, VOLATILITY).unwrap();
    let q = cumulative_prod(g, SPOT).unwrap();
    assert_eq!(rows_of(&p), rows_of(&q));
}

#[test]
fn simulate_paths_hands_on_each_refusal() {
    assert_eq!(simulate_paths(SPOT, 2, 2, VOLATILITY, vec![1, 2, 3]).err(), Some(PricingError::InvalidDimension));
    assert_eq!(simulate_paths(SPOT, 2, 2, 0, shocks()).err(), Some(PricingError::InvalidParameter));
    assert_eq!(simulate_paths(0, 2, 2, VOLATILITY, shocks()).err(), Some(PricingError::InvalidParameter));
    assert_eq!(
        simulate_paths(SPOT, 1, 2, 100_000_000, vec![i64::MAX, 0]).err(),
        Some(PricingError::Overflow)
    );
    assert_eq!(
        simulate_paths(i64::MAX, 1, 2, VOLATILITY, vec![0, 1_000_000]).err(),
        Some(PricingError::Overflow)
    );
}

#[test]
fn monte_carlo_values_a_european_option() {
    let put = monte_carlo(SPOT, STRIKE, 2, 2, VOLATILITY, OptionSide::Put, YEAR, ExerciseStyle::European, shocks());
    assert_eq!(european_of(put), 4_464);
    let call = monte_carlo(SPOT, STRIKE, 2, 2, VOLATILITY, OptionSide::Call, YEAR, ExerciseStyle::European, shocks());
    assert_eq!(european_of(call), 1_185_563);
    let paths = simulate_paths(SPOT, 2, 2, VOLATILITY, shocks()).unwrap();
    assert_eq!(mc_european(&paths, STRIKE, OptionSide::Put), Ok(4_464));
}

#[test]
fn monte_carlo_starts_the_induction_of_an_american_option() {
    let draws: Vec<i64> = (0..12).map(|k| (k as i64 - 6) * 1_000_000).collect();
    let r = monte_carlo(SPOT, STRIKE, 3, 4, VOLATILITY, OptionSide::Put, YEAR, ExerciseStyle::American, draws.clone());
    let paths = simulate_paths(SPOT, 3, 4, VOLATILITY, draws).unwrap();
    let european = mc_european(&paths, STRIKE, OptionSide::Put).unwrap();
    match r {
        Ok(Valuation::American(mut valuer)) => {
            assert_eq!(valuer.pending(), Some(2));
            assert_eq!(valuer.value(), european);
            valuer.advance(None).unwrap();
            valuer.advance(None).unwrap();
            assert!(valuer.is_finished());
            assert_eq!(valuer.value(), european);
        },
        _ => panic!("not an induction"),
    }
}

#[test]
fn monte_carlo_refuses_counts_that_are_zero() {
    let side = OptionSide::Put;
    let style = ExerciseStyle::European;
    assert_eq!(
        error_of(monte_carlo(SPOT, STRIKE, 0, 2, VOLATILITY, side, YEAR, style, vec![])),
        Some(PricingError::InvalidDimension)
    );
    assert_eq!(
        error_of(monte_carlo(SPOT, STRIKE, 2, 0, VOLATILITY, side, YEAR, style, vec![])),
        Some(PricingError::InvalidDimension)
    );
    // the counts are looked at before the amounts
    assert_eq!(
        error_of(monte_carlo(0, 0, 0, 0, 0, side, 0, style, vec![])),
        Some(PricingError::InvalidDimension)
    );
}

#[test]
fn monte_carlo_refuses_amounts_that_are_not_positive() {
    let side = OptionSide::Call;
    let style = ExerciseStyle::American;
    for bad in [0, -1, i64::MIN] {
        assert_eq!(
            error_of(monte_carlo(bad, STRIKE, 2, 2, VOLATILITY, side, YEAR, style, shocks())),
            Some(PricingError::InvalidParameter)
        );
        assert_eq!(
            error_of(monte_carlo(SPOT, bad, 2, 2, VOLATILITY, side, YEAR, style, shocks())),
            Some(PricingError::InvalidParameter)
        );
        assert_eq!(
            error_of(monte_carlo(SPOT, STRIKE, 2, 2, bad, side, YEAR, style, shocks())),
            Some(PricingError::InvalidParameter)
        );
        assert_eq!(
            error_of(monte_carlo(SPOT, STRIKE, 2, 2, VOLATILITY, side, bad, style, shocks())),
            Some(PricingError::InvalidParameter)
        );
    }
    // the amounts are looked at before the shocks are counted
    assert_eq!(
        error_of(monte_carlo(SPOT, STRIKE, 2, 2, 0, side, YEAR, style, vec![1])),
        Some(PricingError::InvalidParameter)
    );
}

#[test]
fn monte_carlo_refuses_a_wrong_number_of_shocks() {
    assert_eq!(
        error_of(monte_carlo(
            SPOT,
            STRIKE,
            2,
            2,
            VOLATILITY,
            OptionSide::Put,
            YEAR,
            ExerciseStyle::European,
            vec![1, 2, 3]
        )),
        Some(PricingError::InvalidDimension)
    );
}

#[test]
fn monte_carlo_reports_amounts_that_cannot_be_held() {
    assert_eq!(
        error_of(monte_carlo(
            i64::MAX,
            STRIKE,
            1,
            2,
            VOLATILITY,
            OptionSide::Put,
            YEAR,
            ExerciseStyle::European,
            vec![0, 1_000_000]
        )),
        Some(PricingError::Overflow)
    );
}

#[test]
fn one_unit_of_volatility_is_a_hundred_percent() {
    // 1.0 a year is 0.062994 a step
    let p = simulate_paths(SCALE, 1, 1, SCALE, vec![SCALE]).unwrap();
    assert_eq!(p.get(0, 0), Some(1_062_994));
}
