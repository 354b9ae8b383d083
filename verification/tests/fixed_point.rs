use mc_options::fixed::discount_amount;
use mc_options::fixed::grow;
use mc_options::fixed::mul_scaled;
use mc_options::fixed::square_scaled;
use mc_options::fixed::SCALE;
use mc_options::fixed::SQRT_TRADING_DAYS;
use mc_options::fixed::TRADING_DAYS;

#[test]
fn one_unit_is_a_million() {
    assert_eq!(SCALE, 1_000_000);
    assert_eq!(TRADING_DAYS, 252);
}

#[test]
fn sqrt_constant_is_the_rounded_down_root() {
    let root = (TRADING_DAYS as f64).sqrt() * SCALE as f64;
    assert_eq!(SQRT_TRADING_DAYS, root.floor() as i64);
    let s = SQRT_TRADING_DAYS as i128;
    let target = TRADING_DAYS as i128 * SCALE as i128 * SCALE as i128;
    assert!(s * s <= target);
    assert!((s + 1) * (s + 1) > target);
}

#[test]
fn mul_scaled_multiplies_in_fixed_point() {
    assert_eq!(mul_scaled(1_500_000, 2_000_000), Some(3_000_000));
    assert_eq!(mul_scaled(-1_500_000, 2_000_000), Some(-3_000_000));
    assert_eq!(mul_scaled(1_234_567, 9_449), Some(11_665));
    assert_eq!(mul_scaled(7, SCALE), Some(7));
}

#[test]
fn mul_scaled_rounds_toward_zero() {
    assert_eq!(mul_scaled(3, 333_333), Some(0));
    assert_eq!(mul_scaled(-3, 333_333), Some(0));
    assert_eq!(mul_scaled(-2_500_000, 9_449), Some(-23_622));
    assert_eq!(mul_scaled(2_500_000, 9_449), Some(23_622));
}

#[test]
fn mul_scaled_reports_what_cannot_be_held() {
    assert_eq!(mul_scaled(i64::MAX, 2_000_000), None);
    assert_eq!(mul_scaled(i64::MIN, 2_000_000), None);
    assert_eq!(mul_scaled(i64::MAX, SCALE), Some(i64::MAX));
    assert_eq!(mul_scaled(i64::MIN, SCALE), Some(i64::MIN));
    assert_eq!(mul_scaled(i64::MIN, -SCALE), None);
}

#[test]
fn grow_applies_a_simple_return() {
    assert_eq!(grow(100_000_000, 10_000), Some(101_000_000));
    assert_eq!(grow(101_000_000, -20_000), Some(98_980_000));
    assert_eq!(grow(100_000_000, 0), Some(100_000_000));
    assert_eq!(grow(100_000_000, -SCALE), Some(0));
    assert_eq!(grow(3_000_000, -1_500_000), Some(-1_500_000));
    assert_eq!(grow(-3, 500_000), Some(-4));
}

#[test]
fn grow_reports_what_cannot_be_held() {
    assert_eq!(grow(i64::MAX, 1), None);
    assert_eq!(grow(i64::MAX, i64::MAX), None);
    assert_eq!(grow(i64::MAX, 0), Some(i64::MAX));
    assert_eq!(grow(1, i64::MAX), Some(9_223_372_036_855));
}

#[test]
fn square_scaled_squares_a_price() {
    assert_eq!(square_scaled(1_500_000), 2_250_000);
    assert_eq!(square_scaled(-2_500_000), 6_250_000);
    assert_eq!(square_scaled(1_080_000), 1_166_400);
    assert_eq!(square_scaled(0), 0);
    let big = i64::MAX as i128;
    assert_eq!(square_scaled(i64::MAX), big * big / 1_000_000);
}

#[test]
fn discount_amount_rounds_down() {
    assert_eq!(discount_amount(100, 941_765), 94);
    assert_eq!(discount_amount(70_000, 835_271), 58_468);
    assert_eq!(discount_amount(u64::MAX, SCALE), u64::MAX);
    assert_eq!(discount_amount(u64::MAX, 1), 18_446_744_073_709);
    assert_eq!(discount_amount(12_345, 0), 0);
}
