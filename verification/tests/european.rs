use mc_options::error::PricingError;
use mc_options::european::mc_european;
use mc_options::grid::Grid;
use mc_options::payoff::exercise_payoff;
use mc_options::payoff::is_in_the_money;
use mc_options::payoff::OptionSide;
use mc_options::utils::generate_matrix;

fn grid_of(rows: &[Vec<i64>]) -> Grid {
    let m = rows[0].len();
    let flat: Vec<i64> = rows.iter().flat_map(|r| r.iter().copied()).collect();
    generate_matrix(rows.len(), m, flat).unwrap()
}

#[test]
fn payoff_of_a_call_and_of_a_put() {
    assert_eq!(exercise_payoff(OptionSide::Call, 120, 100), 20);
    assert_eq!(exercise_payoff(OptionSide::Call, 80, 100), 0);
    assert_eq!(exercise_payoff(OptionSide::Put, 80, 100), 20);
    assert_eq!(exercise_payoff(OptionSide::Put, 120, 100), 0);
    assert_eq!(exercise_payoff(OptionSide::Call, 100, 100), 0);
    assert_eq!(exercise_payoff(OptionSide::Put, 100, 100), 0);
}

#[test]
fn payoff_at_the_ends_of_the_range() {
    assert_eq!(exercise_payoff(OptionSide::Call, i64::MAX, i64::MIN), u64::MAX);
    assert_eq!(exercise_payoff(OptionSide::Put, i64::MIN, i64::MAX), u64::MAX);
    assert_eq!(exercise_payoff(OptionSide::Put, i64::MAX, i64::MIN), 0);
    assert_eq!(exercise_payoff(OptionSide::Call, i64::MIN, i64::MAX), 0);
}

#[test]
fn in_the_money_is_strict() {
    assert!(is_in_the_money(OptionSide::Put, 99, 100));
    assert!(!is_in_the_money(OptionSide::Put, 100, 100));
    assert!(!is_in_the_money(OptionSide::Put, 101, 100));
    assert!(is_in_the_money(OptionSide::Call, 101, 100));
    assert!(!is_in_the_money(OptionSide::Call, 100, 100));
    assert!(!is_in_the_money(OptionSide::Call, 99, 100));
}

#[test]
fn sign_and_label_of_a_side() {
    assert_eq!(OptionSide::Call.sign(), 1);
    assert_eq!(OptionSide::Put.sign(), -1);
    assert_eq!(OptionSide::from_label("put"), OptionSide::Put);
    assert_eq!(OptionSide::from_label("call"), OptionSide::Call);
    assert_eq!(OptionSide::from_label("Put"), OptionSide::Call);
    assert_eq!(OptionSide::from_label(""), OptionSide::Call);
}

#[test]
fn european_value_is_the_mean_terminal_payoff() {
    let g = grid_of(&[vec![90, 95], vec![100, 120], vec![70, 101]]);
    // put: (5 + 0 + 0) / 3, call: (0 + 20 + 1) / 3
    assert_eq!(mc_european(&g, 100, OptionSide::Put), Ok(1));
    assert_eq!(mc_european(&g, 100, OptionSide::Call), Ok(7));
}

#[test]
fn european_value_reads_only_the_last_column() {
    let g = grid_of(&[vec![1, 1, 80_000_000], vec![500_000_000, 7, 110_000_000]]);
    assert_eq!(mc_european(&g, 100_000_000, OptionSide::Put), Ok(10_000_000));
    assert_eq!(mc_european(&g, 100_000_000, OptionSide::Call), Ok(5_000_000));
}

#[test]
fn european_value_of_the_largest_payoffs() {
    let g = grid_of(&[vec![i64::MAX], vec![i64::MAX], vec![i64::MAX]]);
    assert_eq!(mc_european(&g, i64::MIN, OptionSide::Call), Ok(u64::MAX));
    assert_eq!(mc_european(&g, i64::MIN, OptionSide::Put), Ok(0));
}

#[test]
fn european_value_of_an_empty_grid_is_refused() {
    let no_rows = Grid::zeros(0, 3).unwrap();
    assert_eq!(mc_european(&no_rows, 100, OptionSide::Put), Err(PricingError::EmptyInput));
    let no_columns = Grid::zeros(3, 0).unwrap();
    assert_eq!(mc_european(&no_columns, 100, OptionSide::Call), Err(PricingError::EmptyInput));
}

#[test]
fn european_value_at_the_strike_is_zero() {
    let g = grid_of(&[vec![90, 100], vec![130, 100], vec![100, 100]]);
    assert_eq!(mc_european(&g, 100, OptionSide::Put), Ok(0));
    assert_eq!(mc_european(&g, 100, OptionSide::Call), Ok(0));
}

#[test]
fn european_value_one_tick_from_the_strike_pays() {
    let above = grid_of(&[vec![101], vec![101]]);
    assert_eq!(mc_european(&above, 100, OptionSide::Call), Ok(1));
    assert_eq!(mc_european(&above, 100, OptionSide::Put), Ok(0));
    let below = grid_of(&[vec![99], vec![99]]);
    assert_eq!(mc_european(&below, 100, OptionSide::Put), Ok(1));
    assert_eq!(mc_european(&below, 100, OptionSide::Call), Ok(0));
}

#[test]
fn european_value_moves_with_the_strike() {
    let g = grid_of(&[vec![80], vec![95], vec![105], vec![130]]);
    let strikes = [60i64, 80, 90, 100, 110, 140];
    let calls: Vec<u64> =
        strikes.iter().map(|k| mc_european(&g, *k, OptionSide::Call).unwrap()).collect();
    let puts: Vec<u64> =
        strikes.iter().map(|k| mc_european(&g, *k, OptionSide::Put).unwrap()).collect();
    assert_eq!(calls, vec![42, 22, 15, 8, 5, 0]);
    assert_eq!(puts, vec![0, 0, 2, 6, 12, 37]);
    for w in calls.windows(2) {
        assert!(w[1] <= w[0]);
    }
    for w in puts.windows(2) {
        assert!(w[0] <= w[1]);
    }
}

#[test]
fn european_call_value_stays_where_no_path_ends_above_the_strike() {
    let g = grid_of(&[vec![80], vec![95]]);
    assert_eq!(mc_european(&g, 100, OptionSide::Call), Ok(0));
    assert_eq!(mc_european(&g, 120, OptionSide::Call), Ok(0));
}
