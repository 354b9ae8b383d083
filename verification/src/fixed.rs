//! Fixed-point amounts: an `i64` counts millionths of a unit.

use vstd::prelude::*;
use vstd::arithmetic::div_mod::lemma_div_multiples_vanish;
use vstd::arithmetic::div_mod::lemma_div_is_ordered;
use vstd::arithmetic::div_mod::lemma_fundamental_div_mod;
use vstd::arithmetic::div_mod::lemma_mod_pos_bound;

verus! {

/// One whole unit.
pub const SCALE: i64 = 1_000_000;

/// Steps per year by which a yearly volatility is brought down to one step.
pub const TRADING_DAYS: i64 = 252;

/// The square root of `TRADING_DAYS` in fixed point, rounded down.
pub const SQRT_TRADING_DAYS: i64 = 15_874_507;

/// Division that rounds toward zero, as the machine does.
pub open spec fn trunc_div(a: int, b: int) -> int
    recommends
        b > 0,
{
    if a >= 0 {
        a / b
    } else {
        -((-a) / b)
    }
}

/// The product of two fixed-point amounts, rounded toward zero.
pub open spec fn scaled_mul(a: int, b: int) -> int {
    trunc_div(a * b, SCALE as int)
}

/// Whether an amount can be held.
pub open spec fn fits_i64(x: int) -> bool {
    i64::MIN <= x <= i64::MAX
}

/// `price` after one step with the simple return `increment`.
pub open spec fn grown(price: int, increment: int) -> int {
    scaled_mul(price, SCALE + increment)
}

/// What `k` steps of discounting at the factor `discount` leave of one unit.
pub open spec fn discount_factor(discount: int, k: nat) -> int
    decreases k,
{
    if k == 0 {
        SCALE as int
    } else {
        scaled_mul(discount_factor(discount, (k - 1) as nat), discount)
    }
}

/// An amount that is not negative, brought down by `factor` and rounded down.
pub open spec fn discounted(amount: nat, factor: int) -> nat
    recommends
        0 <= factor <= SCALE,
{
    ((amount * factor) / (SCALE as int)) as nat
}

/// `SQRT_TRADING_DAYS` is the integer square root of `TRADING_DAYS` units squared.
pub proof fn lemma_sqrt_trading_days()
    ensures
        SQRT_TRADING_DAYS * SQRT_TRADING_DAYS <= TRADING_DAYS * SCALE * SCALE,
        TRADING_DAYS * SCALE * SCALE < (SQRT_TRADING_DAYS + 1) * (SQRT_TRADING_DAYS + 1),
{
}

/// A product in fixed point lies less than one millionth from the exact
/// product, on the side of zero.
pub proof fn lemma_scaled_mul_error(a: int, b: int)
    ensures
        a * b >= 0 ==> a * b - SCALE < scaled_mul(a, b) * SCALE <= a * b,
        a * b < 0 ==> a * b <= scaled_mul(a, b) * SCALE < a * b + SCALE,
{
    let x = a * b;
    if x >= 0 {
        lemma_fundamental_div_mod(x, SCALE as int);
        lemma_mod_pos_bound(x, SCALE as int);
        assert(SCALE * (x / (SCALE as int)) == (x / (SCALE as int)) * SCALE) by (nonlinear_arith);
    } else {
        lemma_fundamental_div_mod(-x, SCALE as int);
        lemma_mod_pos_bound(-x, SCALE as int);
        assert(SCALE * ((-x) / (SCALE as int)) == -((-((-x) / (SCALE as int))) * SCALE))
            by (nonlinear_arith);
    }
}

/// Multiplying by one unit changes nothing.
pub proof fn lemma_scaled_mul_unit(a: int)
    ensures
        scaled_mul(a, SCALE as int) == a,
{
    if a >= 0 {
        lemma_div_multiples_vanish(a, SCALE as int);
        assert(a * SCALE == SCALE * a) by (nonlinear_arith);
    } else {
        lemma_div_multiples_vanish(-a, SCALE as int);
        assert(-(a * SCALE) == SCALE * (-a)) by (nonlinear_arith);
    }
}

/// A product of amounts that are not negative is not negative.
pub proof fn lemma_scaled_mul_nonnegative(a: int, b: int)
    requires
        a >= 0,
        b >= 0,
    ensures
        scaled_mul(a, b) >= 0,
{
    assert(a * b >= 0) by (nonlinear_arith)
        requires
            a >= 0,
            b >= 0,
    ;
}

/// A factor between zero and one unit never raises an amount that is not negative.
pub proof fn lemma_scaled_mul_shrinks(a: int, factor: int)
    requires
        a >= 0,
        0 <= factor <= SCALE,
    ensures
        0 <= scaled_mul(a, factor) <= a,
{
    assert(0 <= a * factor <= a * SCALE) by (nonlinear_arith)
        requires
            a >= 0,
            0 <= factor <= SCALE,
    ;
    lemma_div_is_ordered(a * factor, a * SCALE, SCALE as int);
    lemma_scaled_mul_unit(a);
}

/// A discount factor between zero and one unit stays there, however many
/// steps it is applied.
pub proof fn lemma_discount_factor_range(discount: int, k: nat)
    requires
        0 <= discount <= SCALE,
    ensures
        0 <= discount_factor(discount, k) <= SCALE,
    decreases k,
{
    if k > 0 {
        lemma_discount_factor_range(discount, (k - 1) as nat);
        lemma_scaled_mul_shrinks(discount_factor(discount, (k - 1) as nat), discount);
    }
}

/// Without discounting every factor is one unit.
pub proof fn lemma_discount_factor_unit(k: nat)
    ensures
        discount_factor(SCALE as int, k) == SCALE,
    decreases k,
{
    if k > 0 {
        lemma_discount_factor_unit((k - 1) as nat);
        lemma_scaled_mul_unit(SCALE as int);
    }
}

/// Discounting never raises an amount, and one unit as factor keeps it.
pub proof fn lemma_discounted_range(amount: nat, factor: int)
    requires
        0 <= factor <= SCALE,
    ensures
        discounted(amount, factor) <= amount,
        factor == SCALE ==> discounted(amount, factor) == amount,
{
    lemma_scaled_mul_shrinks(amount as int, factor);
    assert(amount * factor >= 0) by (nonlinear_arith)
        requires
            amount >= 0,
            factor >= 0,
    ;
    if factor == SCALE {
        lemma_scaled_mul_unit(amount as int);
    }
}

/// The exact product of `a` and `b`, brought back to fixed point.
fn scaled_product(a: i64, b: i128) -> (r: i128)
    requires
        -0x8000_0000_0010_0000 <= b <= 0x8000_0000_0010_0000,
    ensures
        r == scaled_mul(a as int, b as int),
{
    assert(-(0x8000_0000_0000_0000 * 0x8000_0000_0010_0000) <= (a as int) * (b as int)
        <= 0x8000_0000_0000_0000 * 0x8000_0000_0010_0000) by (nonlinear_arith)
        requires
            -0x8000_0000_0000_0000 <= a <= 0x8000_0000_0000_0000,
            -0x8000_0000_0010_0000 <= b <= 0x8000_0000_0010_0000,
    ;
    let wide: i128 = (a as i128) * b;
    wide / (SCALE as i128)
}

/// The product of two amounts, or `None` where it cannot be held.
pub fn mul_scaled(a: i64, b: i64) -> (r: Option<i64>)
    ensures
        r == (if fits_i64(scaled_mul(a as int, b as int)) {
            Some(scaled_mul(a as int, b as int) as i64)
        } else {
            None
        }),
{
    let wide: i128 = scaled_product(a, b as i128);
    if wide < i64::MIN as i128 || wide > i64::MAX as i128 {
        None
    } else {
        Some(wide as i64)
    }
}

/// The product of two amounts where it is known to be held.
pub(crate) fn mul_scaled_held(a: i64, b: i64) -> (r: i64)
    requires
        fits_i64(scaled_mul(a as int, b as int)),
    ensures
        r == scaled_mul(a as int, b as int),
{
    scaled_product(a, b as i128) as i64
}

/// The square of a price in fixed point, which always fits the wider type.
pub fn square_scaled(price: i64) -> (r: i128)
    ensures
        r == scaled_mul(price as int, price as int),
{
    scaled_product(price, price as i128)
}

/// `amount` brought down by `factor`, a factor between zero and one unit.
pub fn discount_amount(amount: u64, factor: i64) -> (r: u64)
    requires
        0 <= factor <= SCALE,
    ensures
        r == discounted(amount as nat, factor as int),
{
    proof {
        lemma_discounted_range(amount as nat, factor as int);
        assert(0 <= amount * factor <= 0xFFFF_FFFF_FFFF_FFFF * 1_000_000) by (nonlinear_arith)
            requires
                0 <= amount <= 0xFFFF_FFFF_FFFF_FFFF,
                0 <= factor <= 1_000_000,
        ;
    }
    let wide: u128 = (amount as u128) * (factor as u128);
    (wide / (SCALE as u128)) as u64
}

/// `price` after one step with the simple return `increment`, or `None`
/// where the new price cannot be held.
pub fn grow(price: i64, increment: i64) -> (r: Option<i64>)
    ensures
        r == (if fits_i64(grown(price as int, increment as int)) {
            Some(grown(price as int, increment as int) as i64)
        } else {
            None
        }),
{
    let factor: i128 = SCALE as i128 + increment as i128;
    let wide: i128 = scaled_product(price, factor);
    if wide < i64::MIN as i128 || wide > i64::MAX as i128 {
        None
    } else {
        Some(wide as i64)
    }
}

} // verus!
