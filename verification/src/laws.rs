//! What holds of the valuers on every input, proved from the definitions
//! that their contracts use.

use vstd::prelude::*;
use vstd::arithmetic::div_mod::lemma_div_is_ordered;
use crate::american::american;
use crate::american::Induction;
use crate::error::PricingError;
use crate::european::european_value;
use crate::european::lemma_total_payoff_bound;
use crate::european::total_payoff;
use crate::fixed::discount_factor;
use crate::fixed::lemma_discount_factor_unit;
use crate::fixed::lemma_discounted_range;
use crate::fixed::lemma_scaled_mul_nonnegative;
use crate::fixed::SCALE;
use crate::grid::rows_have_width;
use crate::payoff::OptionSide;
use crate::regression::has_three_distinct;
use crate::utils::accumulated;
use crate::utils::price_at;
use crate::american::lemma_decide_wf;
use crate::american::lemma_skip_wf;

verus! {

/// The European value is never negative and never exceeds the largest
/// payoff that can be held.
pub proof fn lemma_european_value_bounded(cells: Seq<Seq<i64>>, strike: i64, side: OptionSide)
    requires
        cells.len() > 0,
    ensures
        0 <= european_value(cells, strike as int, side) <= u64::MAX,
{
    let n = cells.len();
    lemma_total_payoff_bound(cells, strike, side, n);
    assert(total_payoff(cells, strike as int, side, n) / n <= u64::MAX) by (nonlinear_arith)
        requires
            total_payoff(cells, strike as int, side, n) <= n * u64::MAX,
            n > 0,
    ;
}

/// With a higher strike the paths together pay a call no more and a put no less.
pub proof fn lemma_total_payoff_monotonic(
    cells: Seq<Seq<i64>>,
    low: int,
    high: int,
    side: OptionSide,
    n: nat,
)
    requires
        low <= high,
    ensures
        side == OptionSide::Call ==> total_payoff(cells, high, side, n) <= total_payoff(
            cells,
            low,
            side,
            n,
        ),
        side == OptionSide::Put ==> total_payoff(cells, low, side, n) <= total_payoff(
            cells,
            high,
            side,
            n,
        ),
    decreases n,
{
    if n > 0 {
        lemma_total_payoff_monotonic(cells, low, high, side, (n - 1) as nat);
    }
}

/// On the same paths, a higher strike gives a call a value no higher and a
/// put a value no lower.
pub proof fn lemma_european_value_monotonic(
    cells: Seq<Seq<i64>>,
    low: int,
    high: int,
    side: OptionSide,
)
    requires
        low <= high,
        cells.len() > 0,
    ensures
        side == OptionSide::Call ==> european_value(cells, high, side) <= european_value(
            cells,
            low,
            side,
        ),
        side == OptionSide::Put ==> european_value(cells, low, side) <= european_value(
            cells,
            high,
            side,
        ),
{
    let n = cells.len();
    lemma_total_payoff_monotonic(cells, low, high, side, n);
    match side {
        OptionSide::Call => {
            lemma_div_is_ordered(
                total_payoff(cells, high, side, n) as int,
                total_payoff(cells, low, side, n) as int,
                n as int,
            );
        },
        OptionSide::Put => {
            lemma_div_is_ordered(
                total_payoff(cells, low, side, n) as int,
                total_payoff(cells, high, side, n) as int,
                n as int,
            );
        },
    }
}

/// A strictly higher strike makes the paths together pay a call strictly
/// less exactly when some path ends above the lower strike.
pub proof fn lemma_call_total_falls_strictly(cells: Seq<Seq<i64>>, low: int, high: int, n: nat)
    requires
        low < high,
    ensures
        total_payoff(cells, high, OptionSide::Call, n) < total_payoff(
            cells,
            low,
            OptionSide::Call,
            n,
        ) <==> exists|i: int| 0 <= i < n && (#[trigger] cells[i]).last() > low,
    decreases n,
{
    if n > 0 {
        let rest = (n - 1) as nat;
        lemma_call_total_falls_strictly(cells, low, high, rest);
        lemma_total_payoff_monotonic(cells, low, high, OptionSide::Call, rest);
        if exists|i: int| 0 <= i < n && (#[trigger] cells[i]).last() > low {
            let i = choose|i: int| 0 <= i < n && (#[trigger] cells[i]).last() > low;
            if i < rest {
                assert(0 <= i < rest && cells[i].last() > low);
            }
        }
        if total_payoff(cells, high, OptionSide::Call, n) < total_payoff(
            cells,
            low,
            OptionSide::Call,
            n,
        ) {
            if cells[n - 1].last() > low {
                assert(0 <= n - 1 < n && cells[n - 1].last() > low);
            } else {
                let i = choose|i: int| 0 <= i < rest && (#[trigger] cells[i]).last() > low;
                assert(0 <= i < n && cells[i].last() > low);
            }
        }
    }
}

/// Paths that all end exactly at the strike pay nothing, for a call and for
/// a put alike.
pub proof fn lemma_at_the_strike_pays_nothing(cells: Seq<Seq<i64>>, strike: int, side: OptionSide)
    requires
        cells.len() > 0,
        forall|i: int| 0 <= i < cells.len() ==> (#[trigger] cells[i]).last() == strike,
    ensures
        european_value(cells, strike, side) == 0,
{
    lemma_nothing_paid(cells, strike, side, cells.len());
}

/// The first `n` paths pay nothing in total when each ends at the strike.
proof fn lemma_nothing_paid(cells: Seq<Seq<i64>>, strike: int, side: OptionSide, n: nat)
    requires
        n <= cells.len(),
        forall|i: int| 0 <= i < cells.len() ==> (#[trigger] cells[i]).last() == strike,
    ensures
        total_payoff(cells, strike, side, n) == 0,
    decreases n,
{
    if n > 0 {
        lemma_nothing_paid(cells, strike, side, (n - 1) as nat);
        assert(cells[n - 1].last() == strike);
    }
}

/// Compounding the same increments from the same spot price gives the same
/// prices, or the same refusal, every time.
pub proof fn lemma_accumulation_repeats(
    cells: Seq<Seq<i64>>,
    spot: int,
    first: Result<Seq<Seq<i64>>, PricingError>,
    second: Result<Seq<Seq<i64>>, PricingError>,
)
    requires
        first == accumulated(cells, spot),
        second == accumulated(cells, spot),
    ensures
        first == second,
{
}

/// No price of a path is negative as long as the spot price is not and no
/// increment takes away more than the whole price.
pub proof fn lemma_prices_nonnegative(row: Seq<i64>, spot: int, j: int)
    requires
        spot >= 0,
        0 <= j < row.len(),
        forall|c: int| 0 <= c <= j ==> #[trigger] row[c] >= -SCALE,
    ensures
        price_at(row, spot, j) >= 0,
    decreases j,
{
    if j <= 0 {
        assert(row[0] >= -SCALE);
        lemma_scaled_mul_nonnegative(spot, SCALE + row[0]);
    } else {
        lemma_prices_nonnegative(row, spot, j - 1);
        assert(row[j] >= -SCALE);
        lemma_scaled_mul_nonnegative(price_at(row, spot, j - 1), SCALE + row[j]);
    }
}

/// Prices that take no more than two values do not hold three distinct ones.
pub proof fn lemma_two_values_are_degenerate(prices: Seq<i64>, a: i64, b: i64)
    requires
        forall|k: int| 0 <= k < prices.len() ==> #[trigger] prices[k] == a || prices[k] == b,
    ensures
        !has_three_distinct(prices),
{
}

/// Deciding a step writes one column of the cash flow grid and clears what
/// lies behind it, in keeping with the decision. At the step decided, a path
/// that exercises holds its payoff, and every other path what it held one
/// step later. Behind that step, a path that exercises holds nothing and
/// every other path what it held. Before that step nothing changes.
pub proof fn lemma_decide_cash_flow(s: Induction, estimates: Seq<i64>, i: int, t: int)
    requires
        s.wf(),
        !s.finished(),
        0 <= i < s.cells.len(),
        0 <= t < s.width,
    ensures
        t < s.step() ==> s.decide(estimates).cash_flow(i, t) == s.cash_flow(i, t),
        t == s.step() ==> s.decide(estimates).cash_flow(i, t) == (if s.exercises(estimates, i) {
            s.payoff_now(i)
        } else {
            s.cash_flow(i, t + 1)
        }),
        t > s.step() ==> s.decide(estimates).cash_flow(i, t) == (if s.exercises(estimates, i) {
            0
        } else {
            s.cash_flow(i, t)
        }),
{
    assert(s.decided <= s.exercised[i]);
}

/// A step that is passed over hands each path's cash flow on: the column
/// of that step holds what the column one step later held, and nothing else
/// changes.
pub proof fn lemma_skip_cash_flow(s: Induction, i: int, t: int)
    requires
        s.wf(),
        !s.finished(),
        0 <= i < s.cells.len(),
        0 <= t < s.width,
    ensures
        t != s.step() ==> s.skip().cash_flow(i, t) == s.cash_flow(i, t),
        t == s.step() ==> s.skip().cash_flow(i, t) == s.cash_flow(i, t + 1),
{
    assert(s.decided <= s.exercised[i]);
}

/// Whether no path exercises at the step to decide for less than the cash
/// flow that it already realizes.
pub open spec fn prudent(s: Induction, estimates: Seq<i64>) -> bool {
    forall|i: int|
        0 <= i < s.cells.len() && s.exercises(estimates, i) ==> s.payoff_now(i)
            >= #[trigger] s.cash[i]
}

/// Whether every estimate for a path in the money is at least the cash flow
/// that the path already realizes.
pub open spec fn cautious(s: Induction, estimates: Seq<i64>) -> bool {
    forall|i: int|
        0 <= i < s.cells.len() && s.in_money(i) ==> estimates[s.in_money_rows(i as nat).len() as int]
            >= #[trigger] s.cash[i]
}

/// Whether every step that uses its estimates is prudent, from this state
/// to the end of the induction.
pub open spec fn prudent_run(s: Induction, plan: Seq<Option<Seq<i64>>>, k: nat) -> bool
    decreases s.decided,
{
    if s.finished() {
        true
    } else {
        &&& s.regresses(plan[k as int]) ==> prudent(s, plan[k as int].unwrap())
        &&& match s.advance(plan[k as int]) {
            Ok(next) => prudent_run(next, plan, k + 1),
            Err(_) => true,
        }
    }
}

/// Whether `later` is a state of the same induction as `earlier` in which
/// no path realizes less.
pub open spec fn no_path_worse(earlier: Induction, later: Induction) -> bool {
    &&& later.cells == earlier.cells
    &&& later.width == earlier.width
    &&& later.strike == earlier.strike
    &&& later.side == earlier.side
    &&& later.discount == earlier.discount
    &&& forall|i: int| 0 <= i < earlier.cells.len() ==> #[trigger] later.cash[i] >= earlier.cash[i]
}

/// Cautious estimates make a prudent step: a path exercises only for a
/// payoff that is at least its estimate.
pub proof fn lemma_cautious_is_prudent(s: Induction, estimates: Seq<i64>)
    requires
        cautious(s, estimates),
    ensures
        prudent(s, estimates),
{
    assert forall|i: int| 0 <= i < s.cells.len() && s.exercises(estimates, i) implies s.payoff_now(
        i,
    ) >= #[trigger] s.cash[i] by {
        assert(estimates[s.in_money_rows(i as nat).len() as int] >= s.cash[i]);
    }
}

/// A decided step lowers the cash flow of no path exactly when it is prudent.
pub proof fn lemma_prudent_step(s: Induction, estimates: Seq<i64>)
    requires
        s.wf(),
        !s.finished(),
    ensures
        s.decide(estimates).wf(),
        prudent(s, estimates) <==> no_path_worse(s, s.decide(estimates)),
{
    let next = s.decide(estimates);
    lemma_decide_wf(s, estimates);
    if prudent(s, estimates) {
        assert forall|i: int| 0 <= i < s.cells.len() implies #[trigger] next.cash[i]
            >= s.cash[i] by {
            if s.exercises(estimates, i) {
                assert(s.payoff_now(i) >= s.cash[i]);
            }
        }
    }
    if no_path_worse(s, next) {
        assert forall|i: int| 0 <= i < s.cells.len() && s.exercises(
            estimates,
            i,
        ) implies s.payoff_now(i) >= #[trigger] s.cash[i] by {
            assert(next.cash[i] >= s.cash[i]);
        }
    }
}

/// A step of the induction that is prudent where it uses its estimates
/// lowers the cash flow of no path.
pub proof fn lemma_prudent_advance(s: Induction, estimates: Option<Seq<i64>>)
    requires
        s.wf(),
        !s.finished(),
        s.regresses(estimates) ==> prudent(s, estimates.unwrap()),
        s.advance(estimates) is Ok,
    ensures
        s.advance(estimates).unwrap().wf(),
        no_path_worse(s, s.advance(estimates).unwrap()),
{
    if s.regresses(estimates) {
        lemma_prudent_step(s, estimates.unwrap());
    } else {
        lemma_skip_wf(s);
    }
}

/// An induction run to its end with prudent steps lowers the cash flow of
/// no path.
pub proof fn lemma_prudent_run(s: Induction, plan: Seq<Option<Seq<i64>>>, k: nat)
    requires
        s.wf(),
        prudent_run(s, plan, k),
        s.run(plan, k) is Ok,
    ensures
        s.run(plan, k).unwrap().wf(),
        no_path_worse(s, s.run(plan, k).unwrap()),
    decreases s.decided,
{
    if !s.finished() {
        lemma_prudent_advance(s, plan[k as int]);
        let next = s.advance(plan[k as int]).unwrap();
        lemma_prudent_run(next, plan, k + 1);
        let last = next.run(plan, k + 1).unwrap();
        assert forall|i: int| 0 <= i < s.cells.len() implies #[trigger] last.cash[i]
            >= s.cash[i] by {
            assert(next.cash[i] >= s.cash[i]);
        }
    }
}

/// Without discounting, the present values of the first `n` paths add up to
/// no less in a state in which no path realizes less.
pub proof fn lemma_total_follows_cash(earlier: Induction, later: Induction, n: nat)
    requires
        earlier.wf(),
        later.wf(),
        earlier.discount == SCALE,
        no_path_worse(earlier, later),
        n <= earlier.cells.len(),
    ensures
        earlier.total(n) <= later.total(n),
    decreases n,
{
    if n > 0 {
        lemma_total_follows_cash(earlier, later, (n - 1) as nat);
        lemma_present_value_undiscounted(earlier, n - 1);
        lemma_present_value_undiscounted(later, n - 1);
        assert(later.cash[n - 1] >= earlier.cash[n - 1]);
    }
}

/// Without discounting, the present value of a cash flow is the cash flow.
pub proof fn lemma_present_value_undiscounted(s: Induction, i: int)
    requires
        s.discount == SCALE,
        0 <= i < s.cash.len(),
    ensures
        s.present_value(i) == s.cash[i],
{
    lemma_discount_factor_unit(s.exercised[i] + 1);
    lemma_discounted_range(s.cash[i], discount_factor(SCALE as int, s.exercised[i] + 1));
}

/// Before any decision and without discounting, the first `n` paths are
/// worth what they pay at the last step.
pub proof fn lemma_initial_total(
    cells: Seq<Seq<i64>>,
    width: nat,
    strike: int,
    side: OptionSide,
    n: nat,
)
    requires
        width > 0,
        rows_have_width(cells, width),
        n <= cells.len(),
    ensures
        Induction::initial(cells, width, strike, side, SCALE as int).total(n) == total_payoff(
            cells,
            strike,
            side,
            n,
        ),
    decreases n,
{
    if n > 0 {
        let first = Induction::initial(cells, width, strike, side, SCALE as int);
        lemma_initial_total(cells, width, strike, side, (n - 1) as nat);
        lemma_present_value_undiscounted(first, n - 1);
        assert(cells[n - 1].len() == width);
        assert(cells[n - 1].last() == cells[n - 1][width - 1]);
    }
}

/// Without discounting, and with every step prudent that uses its
/// estimates, the American value is at least the European value on the same
/// paths: no path then gives up a cash flow for a smaller one.
pub proof fn lemma_american_at_least_european(
    cells: Seq<Seq<i64>>,
    width: nat,
    strike: int,
    side: OptionSide,
    plan: Seq<Option<Seq<i64>>>,
)
    requires
        rows_have_width(cells, width),
        american(cells, width, strike, side, SCALE as int, plan) is Ok,
        prudent_run(Induction::initial(cells, width, strike, side, SCALE as int), plan, 0),
    ensures
        american(cells, width, strike, side, SCALE as int, plan).unwrap() >= european_value(
            cells,
            strike,
            side,
        ),
{
    let n = cells.len();
    let first = Induction::initial(cells, width, strike, side, SCALE as int);
    assert(first.wf());
    lemma_prudent_run(first, plan, 0);
    let last = first.run(plan, 0).unwrap();
    lemma_total_follows_cash(first, last, n);
    lemma_initial_total(cells, width, strike, side, n);
    lemma_div_is_ordered(first.total(n) as int, last.total(n) as int, n as int);
}

} // verus!
