use mc_options::error::PricingError;
use mc_options::regression::three_distinct;
use mc_options::regression::RegressionDataset;

fn dataset(prices: Vec<i64>) -> RegressionDataset {
    let n = prices.len();
    RegressionDataset {
        paths: (0..n).collect(),
        squares: prices.iter().map(|p| (*p as i128) * (*p as i128) / 1_000_000).collect(),
        targets: vec![0; n],
        prices,
    }
}

#[test]
fn three_distinct_prices_are_found() {
    assert!(three_distinct(&vec![1, 2, 3]));
    assert!(three_distinct(&vec![5, 5, 5, 7, 5, 7, 9]));
    assert!(three_distinct(&vec![9, 7, 9, 7, 5]));
    assert!(three_distinct(&vec![i64::MIN, 0, i64::MAX]));
}

#[test]
fn fewer_than_three_distinct_prices_are_not() {
    assert!(!three_distinct(&vec![]));
    assert!(!three_distinct(&vec![4]));
    assert!(!three_distinct(&vec![4, 4, 4, 4]));
    assert!(!three_distinct(&vec![4, 8]));
    assert!(!three_distinct(&vec![4, 8, 4, 8, 8, 4]));
}

#[test]
fn check_rank_accepts_three_distinct_prices() {
    assert_eq!(dataset(vec![1_080_000, 1_070_000, 970_000]).check_rank(), Ok(()));
    assert_eq!(dataset(vec![1_080_000, 1_070_000, 970_000]).len(), 3);
}

#[test]
fn check_rank_refuses_fewer_than_three_distinct_prices() {
    assert_eq!(dataset(vec![]).check_rank(), Err(PricingError::DegenerateRegression));
    assert_eq!(dataset(vec![1_080_000]).check_rank(), Err(PricingError::DegenerateRegression));
    assert_eq!(
        dataset(vec![1_080_000, 1_080_000, 1_080_000, 1_080_000]).check_rank(),
        Err(PricingError::DegenerateRegression)
    );
    assert_eq!(
        dataset(vec![1_080_000, 970_000, 1_080_000, 970_000]).check_rank(),
        Err(PricingError::DegenerateRegression)
    );
}
