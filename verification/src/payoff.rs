//! What an option pays when it is exercised at a given price.

use vstd::prelude::*;

verus! {

/// Whether the option is a right to buy or a right to sell.
#[derive(Clone, Copy, Debug, PartialEq, Eq, Structural)]
pub enum OptionSide {
    Call,
    Put,
}

impl OptionSide {
    /// The sign of the payoff formula: `+1` for a call, `-1` for a put.
    pub open spec fn multiplier(self) -> int {
        match self {
            OptionSide::Call => 1,
            OptionSide::Put => -1,
        }
    }

    /// The side that a label names: `"put"` is a put, any other label a call.
    pub fn from_label(label: &str) -> (side: OptionSide)
        ensures
            side == (if label@ == "put"@ {
                OptionSide::Put
            } else {
                OptionSide::Call
            }),
    {
        let given: String = label.to_owned();
        let put: String = "put".to_owned();
        if given == put {
            OptionSide::Put
        } else {
            OptionSide::Call
        }
    }

    /// The sign of the payoff formula.
    pub fn sign(self) -> (q: i64)
        ensures
            q == self.multiplier(),
    {
        match self {
            OptionSide::Call => 1,
            OptionSide::Put => -1,
        }
    }
}

/// The payoff of exercising at `price`: what the price exceeds the strike by
/// for a call, what it falls short of the strike by for a put, and nothing
/// where that is negative.
pub open spec fn payoff(side: OptionSide, price: int, strike: int) -> nat {
    match side {
        OptionSide::Call => if price > strike {
            (price - strike) as nat
        } else {
            0
        },
        OptionSide::Put => if price < strike {
            (strike - price) as nat
        } else {
            0
        },
    }
}

/// Whether exercising at `price` would pay anything.
pub open spec fn in_the_money(side: OptionSide, price: int, strike: int) -> bool {
    payoff(side, price, strike) > 0
}

/// The payoff is `max(q * (price - strike), 0)` with the sign `q` of the side.
pub proof fn lemma_payoff_formula(side: OptionSide, price: int, strike: int)
    ensures
        payoff(side, price, strike) == (if side.multiplier() * (price - strike) > 0 {
            side.multiplier() * (price - strike)
        } else {
            0
        }),
{
    match side {
        OptionSide::Call => {
            assert(1 * (price - strike) == price - strike);
        },
        OptionSide::Put => {
            assert((-1) * (price - strike) == strike - price);
        },
    }
}

/// A call pays when the price is above the strike, a put when it is below.
pub proof fn lemma_in_the_money(side: OptionSide, price: int, strike: int)
    ensures
        in_the_money(side, price, strike) <==> match side {
            OptionSide::Call => price > strike,
            OptionSide::Put => price < strike,
        },
{
}

/// The payoff of exercising at `price`.
pub fn exercise_payoff(side: OptionSide, price: i64, strike: i64) -> (r: u64)
    ensures
        r == payoff(side, price as int, strike as int),
{
    match side {
        OptionSide::Call => {
            if price > strike {
                (price as i128 - strike as i128) as u64
            } else {
                0
            }
        },
        OptionSide::Put => {
            if price < strike {
                (strike as i128 - price as i128) as u64
            } else {
                0
            }
        },
    }
}

/// Whether exercising at `price` would pay anything.
pub fn is_in_the_money(side: OptionSide, price: i64, strike: i64) -> (b: bool)
    ensures
        b == in_the_money(side, price as int, strike as int),
{
    match side {
        OptionSide::Call => price > strike,
        OptionSide::Put => price < strike,
    }
}

} // verus!
