//! The value of an option that can be exercised at any step, by backward
//! induction over the steps with a regression estimate of what holding on
//! is worth.
//!
//! The regression itself is not part of this module. The valuer hands out
//! the observations of the step it is about to decide, takes the estimates
//! back, and decides for each path whether it exercises.

use vstd::prelude::*;
use crate::error::PricingError;
use crate::fixed::discount_amount;
use crate::fixed::discount_factor;
use crate::fixed::discounted;
use crate::fixed::lemma_discount_factor_range;
use crate::fixed::lemma_discounted_range;
use crate::fixed::mul_scaled_held;
use crate::fixed::scaled_mul;
use crate::fixed::square_scaled;
use crate::fixed::SCALE;
use crate::grid::rows_have_width;
use crate::grid::Grid;
use crate::payoff::exercise_payoff;
use crate::payoff::is_in_the_money;
use crate::payoff::payoff;
use crate::payoff::OptionSide;
use crate::regression::has_three_distinct;
use crate::regression::three_distinct;
use crate::regression::RegressionDataset;

verus! {

/// The state of a backward induction: the price paths, the terms of the
/// option, and for each path the cash flow it realizes as decided so far,
/// with the step at which it is paid.
///
/// Step `t` is column `t` of the paths. The first column holds the prices
/// one step after the valuation date, as `cumulative_prod` makes them, so
/// step `t` lies `t + 1` steps after the valuation date.
pub struct Induction {
    /// The price paths, one row for each path.
    pub cells: Seq<Seq<i64>>,
    /// The number of steps of each path.
    pub width: nat,
    pub strike: int,
    pub side: OptionSide,
    /// What one step of discounting leaves of one unit.
    pub discount: int,
    /// For each path the cash flow that it realizes, not discounted.
    pub cash: Seq<nat>,
    /// For each path the step at which that cash flow is paid.
    pub exercised: Seq<nat>,
    /// The earliest step whose decision is taken.
    pub decided: nat,
}

/// What one decided step did.
#[derive(Clone, Copy, Debug, PartialEq, Eq, Structural)]
pub struct StepReport {
    /// The step that was decided.
    pub step: usize,
    /// Whether the estimates were used; `false` where the step was passed over.
    pub regressed: bool,
    /// The number of paths that exercise at this step.
    pub exercised: usize,
}

impl Induction {
    /// Each path realizes the payoff of one step that is already decided.
    pub open spec fn wf(self) -> bool {
        &&& self.cells.len() > 0
        &&& self.width > 0
        &&& rows_have_width(self.cells, self.width)
        &&& 0 < self.discount <= SCALE
        &&& self.cash.len() == self.cells.len()
        &&& self.exercised.len() == self.cells.len()
        &&& self.decided < self.width
        &&& forall|i: int|
            0 <= i < self.cells.len() ==> self.decided <= #[trigger] self.exercised[i]
                < self.width
        &&& forall|i: int|
            0 <= i < self.cells.len() ==> #[trigger] self.cash[i] == payoff(
                self.side,
                self.cells[i][self.exercised[i] as int] as int,
                self.strike,
            )
    }

    /// The state before any decision: every path is paid at the last step.
    pub open spec fn initial(
        cells: Seq<Seq<i64>>,
        width: nat,
        strike: int,
        side: OptionSide,
        discount: int,
    ) -> Induction {
        Induction {
            cells,
            width,
            strike,
            side,
            discount,
            cash: Seq::new(cells.len(), |i: int| payoff(side, cells[i][width - 1] as int, strike)),
            exercised: Seq::new(cells.len(), |i: int| (width - 1) as nat),
            decided: (width - 1) as nat,
        }
    }

    /// What `AmericanValuer::new` returns: a discount factor outside
    /// `(0, SCALE]` is an invalid parameter, a grid without rows or columns
    /// an empty input.
    pub open spec fn start(
        cells: Seq<Seq<i64>>,
        width: nat,
        strike: int,
        side: OptionSide,
        discount: int,
    ) -> Result<Induction, PricingError> {
        if discount <= 0 || discount > SCALE {
            Err(PricingError::InvalidParameter)
        } else if cells.len() == 0 || width == 0 {
            Err(PricingError::EmptyInput)
        } else {
            Ok(Induction::initial(cells, width, strike, side, discount))
        }
    }

    /// Steps 1 and above are decided; step 0 is never an exercise date.
    pub open spec fn finished(self) -> bool {
        self.decided <= 1
    }

    /// The step to decide next.
    pub open spec fn step(self) -> int {
        self.decided - 1
    }

    /// The price of path `i` at the step to decide.
    pub open spec fn price_now(self, i: int) -> int {
        self.cells[i][self.step()] as int
    }

    /// What path `i` would be paid for exercising at the step to decide.
    pub open spec fn payoff_now(self, i: int) -> nat {
        payoff(self.side, self.price_now(i), self.strike)
    }

    /// Whether path `i` is in the money at the step to decide.
    pub open spec fn in_money(self, i: int) -> bool {
        self.payoff_now(i) > 0
    }

    /// The paths among the first `n` that are in the money at the step to
    /// decide, in ascending order.
    pub open spec fn in_money_rows(self, n: nat) -> Seq<int>
        decreases n,
    {
        if n == 0 {
            Seq::empty()
        } else {
            let rest = self.in_money_rows((n - 1) as nat);
            if self.in_money(n - 1) {
                rest.push(n - 1)
            } else {
                rest
            }
        }
    }

    /// The prices of the paths in the money at the step to decide.
    pub open spec fn in_money_prices(self) -> Seq<i64> {
        let rows = self.in_money_rows(self.cells.len());
        Seq::new(rows.len(), |k: int| self.cells[rows[k]][self.step()])
    }

    /// Whether the step to decide has enough distinct prices in the money
    /// for a quadratic regression.
    pub open spec fn regressable(self) -> bool {
        has_three_distinct(self.in_money_prices())
    }

    /// The regression target of path `i`: its realized cash flow, discounted
    /// from the step at which it is paid to the step to decide.
    pub open spec fn target(self, i: int) -> nat {
        discounted(
            self.cash[i],
            discount_factor(self.discount, (self.exercised[i] - self.step()) as nat),
        )
    }

    /// Whether `data` holds the observations of the step to decide: one row
    /// for each path in the money, with the path's price, the square of that
    /// price and the path's target.
    pub open spec fn observes(self, data: RegressionDataset) -> bool {
        let rows = self.in_money_rows(self.cells.len());
        &&& data.wf()
        &&& data.paths@.len() == rows.len()
        &&& forall|k: int| 0 <= k < rows.len() ==> (#[trigger] data.paths@[k]) == rows[k]
        &&& forall|k: int|
            0 <= k < rows.len() ==> (#[trigger] data.prices@[k]) == self.cells[rows[k]][self.step()]
        &&& forall|k: int|
            0 <= k < rows.len() ==> (#[trigger] data.squares@[k]) == scaled_mul(
                data.prices@[k] as int,
                data.prices@[k] as int,
            )
        &&& forall|k: int|
            0 <= k < rows.len() ==> (#[trigger] data.targets@[k]) == self.target(rows[k])
    }

    /// Whether path `i` exercises at the step to decide: it is in the money
    /// and its payoff is at least the estimate made for it. The estimates
    /// come in the order of the paths in the money.
    pub open spec fn exercises(self, estimates: Seq<i64>, i: int) -> bool {
        self.in_money(i) && self.payoff_now(i) >= estimates[self.in_money_rows(i as nat).len() as int]
    }

    /// The number of paths among the first `n` that exercise.
    pub open spec fn count_exercised(self, estimates: Seq<i64>, n: nat) -> nat
        decreases n,
    {
        if n == 0 {
            0
        } else {
            self.count_exercised(estimates, (n - 1) as nat) + if self.exercises(estimates, n - 1) {
                1nat
            } else {
                0nat
            }
        }
    }

    /// The state after the step to decide was passed over: every path keeps
    /// its cash flow.
    pub open spec fn skip(self) -> Induction {
        Induction { decided: (self.decided - 1) as nat, ..self }
    }

    /// The state after the step was decided with `estimates`: a path that
    /// exercises is paid now and gives up what it had, every other path
    /// keeps its cash flow.
    pub open spec fn decide(self, estimates: Seq<i64>) -> Induction {
        Induction {
            cash: Seq::new(
                self.cash.len(),
                |i: int|
                    if self.exercises(estimates, i) {
                        self.payoff_now(i)
                    } else {
                        self.cash[i]
                    },
            ),
            exercised: Seq::new(
                self.exercised.len(),
                |i: int|
                    if self.exercises(estimates, i) {
                        self.step() as nat
                    } else {
                        self.exercised[i]
                    },
            ),
            decided: (self.decided - 1) as nat,
            ..self
        }
    }

    /// Whether a step with these estimates uses them: the step must be
    /// regressable and estimates must have been handed in.
    pub open spec fn regresses(self, estimates: Option<Seq<i64>>) -> bool {
        self.regressable() && estimates.is_some()
    }

    /// One step of the induction. A step that is not regressable, or for
    /// which no estimates came, is passed over. Estimates that are not one
    /// for each path in the money are refused.
    pub open spec fn advance(self, estimates: Option<Seq<i64>>) -> Result<Induction, PricingError> {
        if !self.regresses(estimates) {
            Ok(self.skip())
        } else if estimates.unwrap().len() != self.in_money_rows(self.cells.len()).len() {
            Err(PricingError::InvalidDimension)
        } else {
            Ok(self.decide(estimates.unwrap()))
        }
    }

    /// What `advance` reports of a step that it takes.
    pub open spec fn report(self, estimates: Option<Seq<i64>>) -> StepReport {
        if self.regresses(estimates) {
            StepReport {
                step: self.step() as usize,
                regressed: true,
                exercised: self.count_exercised(estimates.unwrap(), self.cells.len()) as usize,
            }
        } else {
            StepReport { step: self.step() as usize, regressed: false, exercised: 0 }
        }
    }

    /// The cash flow grid. At a step that is not decided yet a cell holds
    /// what the path would be paid for exercising there. From the earliest
    /// decided step up to the step at which the path is paid, it holds the
    /// cash flow that the path realizes; behind that step, nothing.
    pub open spec fn cash_flow(self, i: int, t: int) -> nat {
        if t < self.decided {
            payoff(self.side, self.cells[i][t] as int, self.strike)
        } else if t <= self.exercised[i] {
            self.cash[i]
        } else {
            0
        }
    }

    /// The present value of the cash flow of path `i`, discounted from the
    /// step at which it is paid back to the valuation date: a cash flow paid
    /// at step `t` is discounted by `t + 1` steps.
    pub open spec fn present_value(self, i: int) -> nat {
        discounted(self.cash[i], discount_factor(self.discount, self.exercised[i] + 1))
    }

    /// The sum of the present values of the first `n` paths.
    pub open spec fn total(self, n: nat) -> nat
        decreases n,
    {
        if n == 0 {
            0
        } else {
            self.total((n - 1) as nat) + self.present_value(n - 1)
        }
    }

    /// The mean present value over all paths, rounded down.
    pub open spec fn value(self) -> nat {
        self.total(self.cells.len()) / self.cells.len()
    }

    /// The number of steps that an induction over `width` columns decides.
    pub open spec fn steps(width: nat) -> nat {
        if width >= 2 {
            (width - 2) as nat
        } else {
            0
        }
    }

    /// The induction run to its end from this state, with `estimates[k]` and
    /// what follows it for the steps still to decide.
    pub open spec fn run(self, estimates: Seq<Option<Seq<i64>>>, k: nat) -> Result<
        Induction,
        PricingError,
    >
        decreases self.decided,
    {
        if self.finished() {
            Ok(self)
        } else {
            match self.advance(estimates[k as int]) {
                Ok(next) => next.run(estimates, k + 1),
                Err(e) => Err(e),
            }
        }
    }
}

/// An estimate vector as the contracts speak of it.
pub open spec fn estimates_view(estimates: Option<&Vec<i64>>) -> Option<Seq<i64>> {
    match estimates {
        Some(v) => Some(v@),
        None => None,
    }
}

/// One estimate vector for each step, as the contracts speak of them.
pub open spec fn schedule_view(schedule: Seq<Option<Vec<i64>>>) -> Seq<Option<Seq<i64>>> {
    Seq::new(
        schedule.len(),
        |k: int|
            match schedule[k] {
                Some(v) => Some(v@),
                None => None,
            },
    )
}

/// What `mc_american` returns. The schedule must hold one entry for each
/// step that the induction decides, the latest step first.
pub open spec fn american(
    cells: Seq<Seq<i64>>,
    width: nat,
    strike: int,
    side: OptionSide,
    discount: int,
    schedule: Seq<Option<Seq<i64>>>,
) -> Result<nat, PricingError> {
    match Induction::start(cells, width, strike, side, discount) {
        Err(e) => Err(e),
        Ok(first) => if schedule.len() != Induction::steps(width) {
            Err(PricingError::InvalidDimension)
        } else {
            match first.run(schedule, 0) {
                Err(e) => Err(e),
                Ok(last) => Ok(last.value()),
            }
        },
    }
}

/// A step that is passed over leaves a well-formed state.
pub proof fn lemma_skip_wf(s: Induction)
    requires
        s.wf(),
        !s.finished(),
    ensures
        s.skip().wf(),
{
}

/// A step that is decided leaves a well-formed state.
pub proof fn lemma_decide_wf(s: Induction, estimates: Seq<i64>)
    requires
        s.wf(),
        !s.finished(),
    ensures
        s.decide(estimates).wf(),
{
    let next = s.decide(estimates);
    assert forall|i: int| 0 <= i < next.cells.len() implies #[trigger] next.cash[i] == payoff(
        next.side,
        next.cells[i][next.exercised[i] as int] as int,
        next.strike,
    ) by {
        assert(s.cash[i] == payoff(s.side, s.cells[i][s.exercised[i] as int] as int, s.strike));
    }
    assert forall|i: int| 0 <= i < next.cells.len() implies next.decided
        <= #[trigger] next.exercised[i] < next.width by {
        assert(s.decided <= s.exercised[i] < s.width);
    }
}

/// The rows of a step are the paths in the money: each of them is in the
/// money, they ascend, and every path in the money stands at the place that
/// the number of such paths before it gives.
pub proof fn lemma_in_money_rows(s: Induction, n: nat)
    ensures
        forall|k: int|
            0 <= k < s.in_money_rows(n).len() ==> 0 <= #[trigger] s.in_money_rows(n)[k] < n
                && s.in_money(s.in_money_rows(n)[k]),
        forall|k: int, l: int|
            0 <= k < l < s.in_money_rows(n).len() ==> #[trigger] s.in_money_rows(n)[k]
                < #[trigger] s.in_money_rows(n)[l],
        forall|i: int|
            0 <= i < n && s.in_money(i) ==> (#[trigger] s.in_money_rows(i as nat)).len()
                < s.in_money_rows(n).len() && s.in_money_rows(n)[s.in_money_rows(
                i as nat,
            ).len() as int] == i,
    decreases n,
{
    if n > 0 {
        let rest = s.in_money_rows((n - 1) as nat);
        lemma_in_money_rows(s, (n - 1) as nat);
        assert forall|i: int| 0 <= i < n && s.in_money(i) implies (#[trigger] s.in_money_rows(
            i as nat,
        )).len() < s.in_money_rows(n).len() && s.in_money_rows(n)[s.in_money_rows(
            i as nat,
        ).len() as int] == i by {
            if i < n - 1 {
                assert(s.in_money_rows(i as nat).len() < rest.len());
                assert(rest[s.in_money_rows(i as nat).len() as int] == i);
            }
        }
    }
}

/// The paths in the money among the first `a` are among those of the first `b`.
pub proof fn lemma_rows_grow(s: Induction, a: nat, b: nat)
    requires
        a <= b,
    ensures
        s.in_money_rows(a).len() <= s.in_money_rows(b).len(),
        s.in_money_rows(b).len() <= b,
    decreases b,
{
    if b > 0 {
        if a < b {
            lemma_rows_grow(s, a, (b - 1) as nat);
        } else {
            lemma_rows_grow(s, (a - 1) as nat, (b - 1) as nat);
        }
    }
}

/// No more paths exercise than there are.
pub proof fn lemma_count_exercised_bound(s: Induction, estimates: Seq<i64>, n: nat)
    ensures
        s.count_exercised(estimates, n) <= n,
    decreases n,
{
    if n > 0 {
        lemma_count_exercised_bound(s, estimates, (n - 1) as nat);
    }
}

/// No sum of `n` present values exceeds `n` times the largest cash flow.
pub proof fn lemma_total_bound(s: Induction, n: nat)
    requires
        s.wf(),
        n <= s.cells.len(),
        forall|i: int| 0 <= i < s.cells.len() ==> #[trigger] s.cash[i] <= u64::MAX,
    ensures
        s.total(n) <= n * u64::MAX,
    decreases n,
{
    if n > 0 {
        lemma_total_bound(s, (n - 1) as nat);
        lemma_discount_factor_range(s.discount, s.exercised[n - 1] + 1);
        lemma_discounted_range(s.cash[n - 1], discount_factor(s.discount, s.exercised[n - 1] + 1));
        assert((n - 1) * u64::MAX + u64::MAX == n * u64::MAX) by (nonlinear_arith);
    }
}

/// A backward induction in progress.
pub struct AmericanValuer {
    paths: Grid,
    strike: i64,
    side: OptionSide,
    discount: i64,
    /// `factors[k]` is what `k` steps of discounting leave of one unit.
    factors: Vec<i64>,
    /// What discounting over every step of the paths leaves of one unit.
    horizon: i64,
    cash: Vec<u64>,
    exercised: Vec<usize>,
    decided: usize,
}

impl View for AmericanValuer {
    type V = Induction;

    closed spec fn view(&self) -> Induction {
        Induction {
            cells: self.paths@,
            width: self.paths.width(),
            strike: self.strike as int,
            side: self.side,
            discount: self.discount as int,
            cash: Seq::new(self.cash@.len(), |i: int| self.cash@[i] as nat),
            exercised: Seq::new(self.exercised@.len(), |i: int| self.exercised@[i] as nat),
            decided: self.decided as nat,
        }
    }
}

impl AmericanValuer {
    /// The state is well formed and the table of discount factors is filled.
    pub closed spec fn wf(&self) -> bool {
        &&& self@.wf()
        &&& self.factors@.len() == self.paths.width()
        &&& self.horizon == discount_factor(self.discount as int, self.paths.width())
        &&& forall|k: int|
            0 <= k < self.factors@.len() ==> #[trigger] self.factors@[k] == discount_factor(
                self.discount as int,
                k as nat,
            )
    }

    /// A well-formed valuer stands for a well-formed state.
    pub proof fn lemma_view_wf(&self)
        requires
            self.wf(),
        ensures
            self@.wf(),
    {
    }

    /// Starts an induction on `paths`: every path is paid at the last step.
    /// `discount` is what one step of discounting leaves of one unit. The
    /// first column of `paths` is taken to lie one step after the valuation
    /// date, so a cash flow paid in column `t` is discounted by `t + 1` steps.
    pub fn new(paths: Grid, strike: i64, side: OptionSide, discount: i64) -> (r: Result<
        AmericanValuer,
        PricingError,
    >)
        ensures
            r matches Ok(v) ==> v.wf() && Induction::start(
                paths@,
                paths.width(),
                strike as int,
                side,
                discount as int,
            ) == Ok::<Induction, PricingError>(v@),
            r matches Err(e) ==> Induction::start(
                paths@,
                paths.width(),
                strike as int,
                side,
                discount as int,
            ) == Err::<Induction, PricingError>(e),
    {
        if discount <= 0 || discount > SCALE {
            return Err(PricingError::InvalidParameter);
        }
        let (n, m) = paths.dim();
        if n == 0 || m == 0 {
            return Err(PricingError::EmptyInput);
        }
        let mut factors: Vec<i64> = Vec::new();
        let mut factor: i64 = SCALE;
        let mut k: usize = 0;
        while k < m
            invariant
                k <= m,
                0 < discount <= SCALE,
                factors@.len() == k,
                factor == discount_factor(discount as int, k as nat),
                forall|j: int|
                    0 <= j < k ==> #[trigger] factors@[j] == discount_factor(
                        discount as int,
                        j as nat,
                    ),
            decreases m - k,
        {
            factors.push(factor);
            proof {
                lemma_discount_factor_range(discount as int, (k + 1) as nat);
            }
            factor = mul_scaled_held(factor, discount);
            k = k + 1;
        }
        let mut cash: Vec<u64> = Vec::new();
        let mut exercised: Vec<usize> = Vec::new();
        let mut i: usize = 0;
        while i < n
            invariant
                i <= n,
                n == paths@.len(),
                m == paths.width(),
                m > 0,
                paths.rectangular(),
                cash@.len() == i,
                exercised@.len() == i,
                forall|j: int| 0 <= j < i ==> #[trigger] exercised@[j] == m - 1,
                forall|j: int|
                    0 <= j < i ==> #[trigger] cash@[j] == payoff(
                        side,
                        paths@[j][m - 1] as int,
                        strike as int,
                    ),
            decreases n - i,
        {
            let last: i64 = paths.at(i, m - 1);
            cash.push(exercise_payoff(side, last, strike));
            exercised.push(m - 1);
            i = i + 1;
        }
        let ghost cells = paths@;
        let ghost width = paths.width();
        let v = AmericanValuer {
            paths,
            strike,
            side,
            discount,
            factors,
            horizon: factor,
            cash,
            exercised,
            decided: m - 1,
        };
        proof {
            let first = Induction::initial(cells, width, strike as int, side, discount as int);
            assert(v@.cash =~= first.cash);
            assert(v@.exercised =~= first.exercised);
            assert(v@ == first);
        }
        Ok(v)
    }

    /// Whether every step is decided.
    pub fn is_finished(&self) -> (b: bool)
        ensures
            b == self@.finished(),
    {
        self.decided <= 1
    }

    /// The step to decide next, or `None` when every step is decided.
    pub fn pending(&self) -> (r: Option<usize>)
        ensures
            r == (if self@.finished() {
                None
            } else {
                Some(self@.step() as usize)
            }),
    {
        if self.decided <= 1 {
            None
        } else {
            Some(self.decided - 1)
        }
    }

    /// The observations of the step to decide, whether or not they suffice
    /// for a regression.
    fn observations(&self) -> (data: RegressionDataset)
        requires
            self.wf(),
            !self@.finished(),
        ensures
            self@.observes(data),
            data.prices@ == self@.in_money_prices(),
    {
        let (n, m) = self.paths.dim();
        let t: usize = self.decided - 1;
        let mut data = RegressionDataset {
            paths: Vec::new(),
            prices: Vec::new(),
            squares: Vec::new(),
            targets: Vec::new(),
        };
        let mut i: usize = 0;
        while i < n
            invariant
                i <= n,
                n == self@.cells.len(),
                m == self@.width,
                t == self@.step(),
                self.wf(),
                !self@.finished(),
                data.wf(),
                data.paths@.len() == self@.in_money_rows(i as nat).len(),
                forall|k: int|
                    0 <= k < data.paths@.len() ==> (#[trigger] data.paths@[k])
                        == self@.in_money_rows(i as nat)[k],
                forall|k: int|
                    0 <= k < data.paths@.len() ==> (#[trigger] data.prices@[k])
                        == self@.cells[self@.in_money_rows(i as nat)[k]][self@.step()],
                forall|k: int|
                    0 <= k < data.paths@.len() ==> (#[trigger] data.squares@[k]) == scaled_mul(
                        data.prices@[k] as int,
                        data.prices@[k] as int,
                    ),
                forall|k: int|
                    0 <= k < data.paths@.len() ==> (#[trigger] data.targets@[k]) == self@.target(
                        self@.in_money_rows(i as nat)[k],
                    ),
            decreases n - i,
        {
            let ghost rows = self@.in_money_rows(i as nat);
            let price: i64 = self.paths.at(i, t);
            assert(self@.in_money_rows((i + 1) as nat) == if self@.in_money(i as int) {
                rows.push(i as int)
            } else {
                rows
            });
            if is_in_the_money(self.side, price, self.strike) {
                let paid_at: usize = self.exercised[i];
                assert(self@.exercised[i as int] == paid_at);
                assert(self@.cash[i as int] == self.cash@[i as int]);
                proof {
                    lemma_discount_factor_range(self.discount as int, (paid_at - t) as nat);
                }
                let target: u64 = discount_amount(self.cash[i], self.factors[paid_at - t]);
                data.paths.push(i);
                data.prices.push(price);
                data.squares.push(square_scaled(price));
                data.targets.push(target);
            }
            i = i + 1;
        }
        assert(data.prices@ =~= self@.in_money_prices());
        data
    }

    /// The observations on which to estimate what holding on is worth at the
    /// step to decide, or `DegenerateRegression` where they hold fewer than
    /// three distinct prices. Such a step is to be passed over.
    pub fn regression_dataset(&self) -> (r: Result<RegressionDataset, PricingError>)
        requires
            self.wf(),
            !self@.finished(),
        ensures
            self@.regressable() ==> (r matches Ok(data) && self@.observes(data)),
            !self@.regressable() ==> r == Err::<RegressionDataset, PricingError>(
                PricingError::DegenerateRegression,
            ),
    {
        let data = self.observations();
        if three_distinct(&data.prices) {
            Ok(data)
        } else {
            Err(PricingError::DegenerateRegression)
        }
    }

    /// Passes the pending step over: every path keeps its cash flow.
    fn pass_over(&mut self) -> (report: StepReport)
        requires
            old(self).wf(),
            !old(self)@.finished(),
        ensures
            final(self).wf(),
            final(self)@ == old(self)@.skip(),
            report == (StepReport { step: old(self)@.step() as usize, regressed: false, exercised: 0 }),
    {
        let ghost pre = self@;
        let t: usize = self.decided - 1;
        self.decided = t;
        proof {
            lemma_skip_wf(pre);
            assert(self@.cash =~= pre.skip().cash);
            assert(self@.exercised =~= pre.skip().exercised);
        }
        StepReport { step: t, regressed: false, exercised: 0 }
    }

    /// Decides the pending step with one estimate for each path in the
    /// money: a path exercises where its payoff is at least its estimate.
    fn decide_with(&mut self, guesses: &Vec<i64>) -> (report: StepReport)
        requires
            old(self).wf(),
            !old(self)@.finished(),
            guesses@.len() == old(self)@.in_money_rows(old(self)@.cells.len()).len(),
        ensures
            final(self).wf(),
            final(self)@ == old(self)@.decide(guesses@),
            report == (StepReport {
                step: old(self)@.step() as usize,
                regressed: true,
                exercised: old(self)@.count_exercised(guesses@, old(self)@.cells.len()) as usize,
            }),
    {
        let ghost pre = self@;
        let (n, _) = self.paths.dim();
        let t: usize = self.decided - 1;
        let mut count: usize = 0;
        let mut rank: usize = 0;
        let mut i: usize = 0;
        while i < n
            invariant
                i <= n,
                n == pre.cells.len(),
                t == pre.step(),
                t >= 1,
                pre.wf(),
                guesses@.len() == pre.in_money_rows(n as nat).len(),
                rank == pre.in_money_rows(i as nat).len(),
                count == pre.count_exercised(guesses@, i as nat),
                self.paths@ == pre.cells,
                self.paths.width() == pre.width,
                self.strike == pre.strike,
                self.side == pre.side,
                self.discount == pre.discount,
                self.decided == pre.decided,
                self.factors@.len() == self.paths.width(),
                self.horizon == discount_factor(self.discount as int, self.paths.width()),
                forall|k: int|
                    0 <= k < self.factors@.len() ==> #[trigger] self.factors@[k] == discount_factor(
                        self.discount as int,
                        k as nat,
                    ),
                self.cash@.len() == n,
                self.exercised@.len() == n,
                forall|j: int|
                    0 <= j < i ==> (#[trigger] self.cash@[j]) as nat == pre.decide(guesses@).cash[j],
                forall|j: int|
                    0 <= j < i ==> (#[trigger] self.exercised@[j]) as nat == pre.decide(
                        guesses@,
                    ).exercised[j],
                forall|j: int| i <= j < n ==> (#[trigger] self.cash@[j]) as nat == pre.cash[j],
                forall|j: int|
                    i <= j < n ==> (#[trigger] self.exercised@[j]) as nat == pre.exercised[j],
            decreases n - i,
        {
            proof {
                lemma_rows_grow(pre, (i + 1) as nat, n as nat);
                lemma_count_exercised_bound(pre, guesses@, (i + 1) as nat);
            }
            let price: i64 = self.paths.at(i, t);
            if is_in_the_money(self.side, price, self.strike) {
                let paid: u64 = exercise_payoff(self.side, price, self.strike);
                if paid as i128 >= guesses[rank] as i128 {
                    self.cash.set(i, paid);
                    self.exercised.set(i, t);
                    count = count + 1;
                }
                rank = rank + 1;
            }
            i = i + 1;
        }
        self.decided = t;
        proof {
            let next = pre.decide(guesses@);
            lemma_decide_wf(pre, guesses@);
            assert(self@.cash =~= next.cash);
            assert(self@.exercised =~= next.exercised);
        }
        StepReport { step: t, regressed: true, exercised: count }
    }

    /// Decides the pending step. With estimates of what holding on is worth,
    /// one for each path in the money in ascending order of the paths, a path
    /// exercises where its payoff is at least its estimate. Without
    /// estimates, or at a step with fewer than three distinct prices in the
    /// money, the step is passed over and every path keeps its cash flow.
    /// Estimates of the wrong number are refused and change nothing.
    pub fn advance(&mut self, estimates: Option<&Vec<i64>>) -> (r: Result<StepReport, PricingError>)
        requires
            old(self).wf(),
            !old(self)@.finished(),
        ensures
            final(self).wf(),
            r matches Ok(report) ==> old(self)@.advance(estimates_view(estimates)) == Ok::<
                Induction,
                PricingError,
            >(final(self)@) && report == old(self)@.report(estimates_view(estimates)),
            r matches Err(e) ==> old(self)@.advance(estimates_view(estimates)) == Err::<
                Induction,
                PricingError,
            >(e) && final(self)@ == old(self)@,
    {
        let data = self.observations();
        match estimates {
            Some(guesses) => {
                if !three_distinct(&data.prices) {
                    Ok(self.pass_over())
                } else if guesses.len() != data.paths.len() {
                    Err(PricingError::InvalidDimension)
                } else {
                    Ok(self.decide_with(guesses))
                }
            },
            None => Ok(self.pass_over()),
        }
    }

    /// Which paths are in the money at the step to decide.
    pub fn in_money_mask(&self) -> (mask: Vec<bool>)
        requires
            self.wf(),
            !self@.finished(),
        ensures
            mask@.len() == self@.cells.len(),
            forall|i: int| 0 <= i < mask@.len() ==> #[trigger] mask@[i] == self@.in_money(i),
    {
        let (n, _) = self.paths.dim();
        let t: usize = self.decided - 1;
        let mut mask: Vec<bool> = Vec::new();
        let mut i: usize = 0;
        while i < n
            invariant
                i <= n,
                n == self@.cells.len(),
                t == self@.step(),
                self.wf(),
                !self@.finished(),
                mask@.len() == i,
                forall|j: int| 0 <= j < i ==> #[trigger] mask@[j] == self@.in_money(j),
            decreases n - i,
        {
            let price: i64 = self.paths.at(i, t);
            mask.push(is_in_the_money(self.side, price, self.strike));
            i = i + 1;
        }
        mask
    }

    /// The cell of the cash flow grid for `path` and `step`, or `None` where
    /// the grid has no such path or step.
    pub fn cash_flow_at(&self, path: usize, step: usize) -> (r: Option<u64>)
        requires
            self.wf(),
        ensures
            r == (if path < self@.cells.len() && step < self@.width {
                Some(self@.cash_flow(path as int, step as int) as u64)
            } else {
                None
            }),
    {
        let (n, m) = self.paths.dim();
        if path < n && step < m {
            assert(self@.cash[path as int] == self.cash@[path as int]);
            assert(self@.exercised[path as int] == self.exercised@[path as int]);
            if step < self.decided {
                Some(exercise_payoff(self.side, self.paths.at(path, step), self.strike))
            } else if step <= self.exercised[path] {
                Some(self.cash[path])
            } else {
                Some(0)
            }
        } else {
            None
        }
    }

    /// The value of the option under the decisions taken so far: the mean
    /// over the paths of each path's cash flow, discounted back to the
    /// valuation date, one step before the first column.
    pub fn value(&self) -> (v: u64)
        requires
            self.wf(),
        ensures
            v == self@.value(),
    {
        let (n, m) = self.paths.dim();
        let mut sum: u128 = 0;
        let mut i: usize = 0;
        assert forall|j: int| 0 <= j < self@.cells.len() implies #[trigger] self@.cash[j]
            <= u64::MAX by {
            assert(self@.cash[j] == self.cash@[j]);
        }
        while i < n
            invariant
                i <= n,
                n == self@.cells.len(),
                m == self@.width,
                self.wf(),
                forall|j: int| 0 <= j < self@.cells.len() ==> #[trigger] self@.cash[j] <= u64::MAX,
                sum == self@.total(i as nat),
            decreases n - i,
        {
            let paid_at: usize = self.exercised[i];
            assert(self@.exercised[i as int] == paid_at);
            assert(self@.cash[i as int] == self.cash@[i as int]);
            proof {
                lemma_discount_factor_range(self.discount as int, (paid_at + 1) as nat);
            }
            let factor: i64 = if paid_at + 1 < m {
                self.factors[paid_at + 1]
            } else {
                self.horizon
            };
            let present: u64 = discount_amount(self.cash[i], factor);
            proof {
                lemma_total_bound(self@, (i + 1) as nat);
                assert((i + 1) * u64::MAX <= u64::MAX * u64::MAX) by (nonlinear_arith)
                    requires
                        i + 1 <= u64::MAX,
                ;
            }
            sum = sum + present as u128;
            i = i + 1;
        }
        proof {
            lemma_total_bound(self@, n as nat);
            assert(sum / (n as u128) <= u64::MAX) by (nonlinear_arith)
                requires
                    sum <= n * u64::MAX,
                    n > 0,
            ;
        }
        (sum / n as u128) as u64
    }
}

/// The value of an American option on the paths of `matrix` by backward
/// induction from the last step down to step 1, with `schedule[k]` as the
/// estimates for the `k`-th step that is decided (`None` to pass it over),
/// and the realized cash flows discounted by `discount` for each step back
/// to the valuation date, which lies one step before the first column.
#[verifier::loop_isolation(false)]
pub fn mc_american(
    matrix: Grid,
    strike: i64,
    side: OptionSide,
    discount: i64,
    schedule: &Vec<Option<Vec<i64>>>,
) -> (r: Result<u64, PricingError>)
    ensures
        r matches Ok(v) ==> american(
            matrix@,
            matrix.width(),
            strike as int,
            side,
            discount as int,
            schedule_view(schedule@),
        ) == Ok::<nat, PricingError>(v as nat),
        r matches Err(e) ==> american(
            matrix@,
            matrix.width(),
            strike as int,
            side,
            discount as int,
            schedule_view(schedule@),
        ) == Err::<nat, PricingError>(e),
{
    let (_, m) = matrix.dim();
    let mut valuer = match AmericanValuer::new(matrix, strike, side, discount) {
        Ok(v) => v,
        Err(e) => {
            return Err(e);
        },
    };
    let steps: usize = if m >= 2 {
        m - 2
    } else {
        0
    };
    if schedule.len() != steps {
        return Err(PricingError::InvalidDimension);
    }
    let ghost first = valuer@;
    let ghost plan = schedule_view(schedule@);
    let mut k: usize = 0;
    while k < steps
        invariant
            k <= steps,
            steps == Induction::steps(m as nat),
            steps == schedule@.len(),
            plan == schedule_view(schedule@),
            valuer.wf(),
            valuer@.decided == m - 1 - k,
            first.run(plan, 0) == valuer@.run(plan, k as nat),
        decreases steps - k,
    {
        let ghost before = valuer@;
        let guesses: Option<&Vec<i64>> = schedule[k].as_ref();
        assert(plan[k as int] == estimates_view(guesses));
        let outcome = valuer.advance(guesses);
        assert(!before.finished());
        match outcome {
            Ok(_) => {
                assert(before.run(plan, k as nat) == valuer@.run(plan, (k + 1) as nat));
            },
            Err(e) => {
                assert(before.run(plan, k as nat) == Err::<Induction, PricingError>(e));
                return Err(e);
            },
        }
        k = k + 1;
    }
    Ok(valuer.value())
}

} // verus!
