use mc_options::american::AmericanValuer;
use mc_options::error::PricingError;
use mc_options::european::mc_european;
use mc_options::fixed::SCALE;
use mc_options::payoff::OptionSide;
use mc_options::pricing::monte_carlo;
use mc_options::pricing::simulate_paths;
use mc_options::pricing::ExerciseStyle;
use mc_options::pricing::Valuation;
use mc_options::regression::RegressionDataset;
use rand::rngs::StdRng;
use rand::Rng;
use rand::SeedableRng;
use rand_distr::StandardNormal;
use rusty_machine::learning::lin_reg::LinRegressor;
use rusty_machine::learning::SupModel;
use rusty_machine::linalg::Matrix;
use rusty_machine::linalg::Vector;

fn draws(seed: u64, count: usize) -> Vec<i64> {
    let mut rng = StdRng::seed_from_u64(seed);
    (0..count)
        .map(|_| {
            let z: f64 = rng.sample(StandardNormal);
            (z * SCALE as f64).round() as i64
        })
        .collect()
}

fn fit_and_predict(data: &RegressionDataset) -> Vec<i64> {
    let unit = SCALE as f64;
    let mut features: Vec<f64> = Vec::new();
    for k in 0..data.len() {
        features.push(data.prices[k] as f64 / unit);
        features.push(data.squares[k] as f64 / unit);
    }
    let x = Matrix::new(data.len(), 2, features);
    let y = Vector::new(data.targets.iter().map(|t| *t as f64 / unit).collect::<Vec<f64>>());
    let mut model = LinRegressor::default();
    model.train(&x, &y).unwrap();
    let fitted = model.predict(&x).unwrap();
    fitted.into_vec().iter().map(|v| (v * unit).round() as i64).collect()
}

/// The Black-Scholes price of a put at the money, without interest:
/// `spot * (2 * Phi(volatility / 2) - 1)`, which is 5.9785 for a spot of 100
/// and a volatility of 0.15 over one year.
const REFERENCE: f64 = 5.9785;

#[test]
fn european_put_at_the_money_is_close_to_its_closed_form() {
    for seed in [1u64, 2, 3] {
        let r = monte_carlo(
            100 * SCALE,
            100 * SCALE,
            10_000,
            252,
            150_000,
            OptionSide::Put,
            SCALE,
            ExerciseStyle::European,
            draws(seed, 10_000 * 252),
        );
        let value = match r {
            Ok(Valuation::European(v)) => v as f64 / SCALE as f64,
            _ => panic!("not a European value"),
        };
        assert!((value - REFERENCE).abs() < 0.35, "seed {}: {}", seed, value);
    }
}

#[test]
fn a_seed_gives_the_same_value_every_time() {
    let value = |seed: u64| {
        let paths = simulate_paths(100 * SCALE, 500, 50, 150_000, draws(seed, 500 * 50)).unwrap();
        mc_european(&paths, 100 * SCALE, OptionSide::Put).unwrap()
    };
    assert_eq!(value(7), value(7));
    assert_ne!(value(7), value(8));
}

#[test]
fn american_put_with_a_fitted_regression_at_every_step() {
    let paths = simulate_paths(100 * SCALE, 2_000, 50, 150_000, draws(11, 2_000 * 50)).unwrap();
    let european = mc_european(&paths, 105 * SCALE, OptionSide::Put).unwrap();
    let mut valuer = AmericanValuer::new(paths, 105 * SCALE, OptionSide::Put, SCALE).ok().unwrap();
    let mut decided = 0;
    while let Some(step) = valuer.pending() {
        let report = match valuer.regression_dataset() {
            Ok(data) => valuer.advance(Some(&fit_and_predict(&data))).unwrap(),
            Err(e) => {
                assert_eq!(e, PricingError::DegenerateRegression);
                valuer.advance(None).unwrap()
            },
        };
        assert_eq!(report.step, step);
        assert!(report.exercised <= 2_000);
        decided += 1;
    }
    assert_eq!(decided, 48);
    let american = valuer.value() as f64 / SCALE as f64;
    let european = european as f64 / SCALE as f64;
    // without interest nothing is gained by exercising early: both values
    // estimate the same price, about 5.6 for these terms
    assert!((european - 5.6).abs() < 0.5, "european {}", european);
    assert!((american - european).abs() < 0.5, "american {} european {}", american, european);
}
