//! An expression as the right-hand side of `dx/dt = f(t, x)`: one step of
//! the classical Runge-Kutta method, and how far the simulated trajectory
//! lies from given samples.

use crate::error::ValidationError;
use crate::eval::value_at;
use crate::expr::Expr;
use crate::operator::Operator;
use crate::scalar::absolute;
use crate::scalar::at_least;
use crate::scalar::compute;
use crate::scalar::dependable;
use crate::scalar::is_nan;
use crate::scalar::minus;
use crate::scalar::over;
use crate::scalar::plus;
use crate::scalar::rank;
use crate::scalar::reaches;
use crate::scalar::times;
use crate::scalar::Calc;
use crate::scalar::NAN;
use crate::scalar::SIX;
use crate::scalar::TWO;
use crate::scalar::ZERO;
use vstd::prelude::*;

verus! {

/// A point of a trajectory: a time and the position at that time, both as
/// the bits of a double.
#[derive(Clone, Copy, Debug, PartialEq, Eq, Structural)]
pub struct State {
    pub time: u64,
    pub position: u64,
}

impl State {
    /// The state at `time` with `position`.
    pub fn new(time: u64, position: u64) -> (state: State)
        ensures
            state.time == time,
            state.position == position,
    {
        State { time, position }
    }
}

/// The state one Runge-Kutta step of size `h` after `state`:
/// `k1 = f(t, x)`, `k2 = f(t + h/2, x + h*k1/2)`,
/// `k3 = f(t + h/2, x + h*k2/2)`, `k4 = f(t + h, x + h*k3)`, and then
/// `t' = t + h`, `x' = x + h/6 * (k1 + 2*k2 + 2*k3 + k4)`.
pub open spec fn stepped<A: Fn(Calc, u64, u64) -> u64>(
    arith: A,
    tokens: Seq<Operator>,
    state: State,
    h: u64,
) -> State {
    let t = state.time;
    let x = state.position;
    let half = over(arith, h, TWO);
    let k1 = value_at(arith, tokens, t, x, 0);
    let k2 = value_at(
        arith,
        tokens,
        plus(arith, t, half),
        plus(arith, x, over(arith, times(arith, h, k1), TWO)),
        0,
    );
    let k3 = value_at(
        arith,
        tokens,
        plus(arith, t, half),
        plus(arith, x, over(arith, times(arith, h, k2), TWO)),
        0,
    );
    let k4 = value_at(arith, tokens, plus(arith, t, h), plus(arith, x, times(arith, h, k3)), 0);
    let slopes = plus(
        arith,
        plus(arith, plus(arith, k1, times(arith, TWO, k2)), times(arith, TWO, k3)),
        k4,
    );
    State {
        time: plus(arith, t, h),
        position: plus(arith, x, times(arith, over(arith, h, SIX), slopes)),
    }
}

/// The area of the triangle between two samples and a simulated point, by
/// the shoelace formula:
/// `|(t - t_next) * (x_prev - x) - (t - t_prev) * (x_next - x)| / 2`.
pub open spec fn area<A: Fn(Calc, u64, u64) -> u64>(
    arith: A,
    prev: State,
    next: State,
    current: State,
) -> u64 {
    let left = times(
        arith,
        minus(arith, current.time, next.time),
        minus(arith, prev.position, current.position),
    );
    let right = times(
        arith,
        minus(arith, current.time, prev.time),
        minus(arith, next.position, current.position),
    );
    over(arith, absolute(arith, minus(arith, left, right)), TWO)
}

/// The sum of areas from a point of the simulation on. `next` is the
/// sample that the simulation has not passed yet and `total` the sum so
/// far. Each step adds the area between the samples around the simulated
/// point and that point, moves the point one step on, and goes on to the
/// following sample once the point's time has reached that of `next`. When
/// no sample is left, the sum is the result. When the steps run out first,
/// the result is NaN.
pub open spec fn fit_from<A: Fn(Calc, u64, u64) -> u64>(
    arith: A,
    tokens: Seq<Operator>,
    samples: Seq<State>,
    h: u64,
    next: int,
    current: State,
    total: u64,
    steps: nat,
) -> u64
    decreases steps,
{
    if next < 1 || next >= samples.len() {
        total
    } else if steps == 0 {
        NAN
    } else {
        let moved = stepped(arith, tokens, current, h);
        fit_from(
            arith,
            tokens,
            samples,
            h,
            if at_least(moved.time, samples[next].time) {
                next + 1
            } else {
                next
            },
            moved,
            plus(arith, total, area(arith, samples[next - 1], samples[next], current)),
            (steps - 1) as nat,
        )
    }
}

/// How badly the expression fits the samples: the simulation starts at
/// the first sample with nothing summed.
pub open spec fn fit<A: Fn(Calc, u64, u64) -> u64>(
    arith: A,
    tokens: Seq<Operator>,
    samples: Seq<State>,
    h: u64,
    steps: nat,
) -> u64 {
    fit_from(arith, tokens, samples, h, 1, samples[0], ZERO, steps)
}

/// Zero or above, or no number at all.
pub open spec fn not_negative(bits: u64) -> bool {
    is_nan(bits) || rank(bits) >= 0
}

/// As far as signs go, `arith` computes as doubles do: an absolute value
/// is not negative, nor is half of what is not negative, nor the sum of
/// two values that are not negative.
pub open spec fn keeps_signs<A: Fn(Calc, u64, u64) -> u64>(arith: A) -> bool {
    &&& forall|a: u64| not_negative(#[trigger] absolute(arith, a))
    &&& forall|a: u64| not_negative(a) ==> not_negative(#[trigger] over(arith, a, TWO))
    &&& forall|a: u64, b: u64|
        not_negative(a) && not_negative(b) ==> not_negative(#[trigger] plus(arith, a, b))
}

/// From a sum that is not negative on, the sum of areas is not negative.
proof fn lemma_fit_from_not_negative<A: Fn(Calc, u64, u64) -> u64>(
    arith: A,
    tokens: Seq<Operator>,
    samples: Seq<State>,
    h: u64,
    next: int,
    current: State,
    total: u64,
    steps: nat,
)
    requires
        keeps_signs(arith),
        not_negative(total),
    ensures
        not_negative(fit_from(arith, tokens, samples, h, next, current, total, steps)),
    decreases steps,
{
    if 1 <= next < samples.len() && steps > 0 {
        let moved = stepped(arith, tokens, current, h);
        let triangle = area(arith, samples[next - 1], samples[next], current);
        assert(not_negative(triangle));
        lemma_fit_from_not_negative(
            arith,
            tokens,
            samples,
            h,
            if at_least(moved.time, samples[next].time) {
                next + 1
            } else {
                next
            },
            moved,
            plus(arith, total, triangle),
            (steps - 1) as nat,
        );
    }
}

/// A fitness is never negative: it is zero or above, or NaN where the
/// simulation left the numbers or was given up.
pub proof fn law_fitness_not_negative<A: Fn(Calc, u64, u64) -> u64>(
    arith: A,
    tokens: Seq<Operator>,
    samples: Seq<State>,
    h: u64,
    steps: nat,
)
    requires
        keeps_signs(arith),
    ensures
        not_negative(fit(arith, tokens, samples, h, steps)),
{
    lemma_fit_from_not_negative(arith, tokens, samples, h, 1, samples[0], ZERO, steps);
}

/// The samples that pair each time with the position at the same place.
pub open spec fn paired(times: Seq<u64>, positions: Seq<u64>) -> Seq<State> {
    Seq::new(times.len(), |i: int| State { time: times[i], position: positions[i] })
}

/// What is wrong with samples of so many times and so many positions, if
/// anything is: they must be as many, and at least one.
pub open spec fn fault(times: nat, positions: nat) -> Option<ValidationError> {
    if times != positions {
        Some(ValidationError::LengthMismatch)
    } else if times == 0 {
        Some(ValidationError::EmptyData)
    } else {
        None
    }
}

/// Pairs times and positions, which must be as many and at least one.
pub fn pair_samples(times: &Vec<u64>, positions: &Vec<u64>) -> (r: Result<
    Vec<State>,
    ValidationError,
>)
    ensures
        match fault(times@.len(), positions@.len()) {
            Some(e) => r == Err::<Vec<State>, ValidationError>(e),
            None => r is Ok && r->Ok_0@ == paired(times@, positions@),
        },
{
    let n: usize = times.len();
    if n != positions.len() {
        return Err(ValidationError::LengthMismatch);
    }
    if n == 0 {
        return Err(ValidationError::EmptyData);
    }
    let mut samples: Vec<State> = Vec::new();
    let mut i: usize = 0;
    while i < n
        invariant
            n == times@.len(),
            n == positions@.len(),
            i <= n,
            samples@.len() == i,
            forall|j: int|
                0 <= j < i ==> samples@[j] == (State { time: times@[j], position: positions@[j] }),
        decreases n - i,
    {
        samples.push(State::new(times[i], positions[i]));
        i += 1;
    }
    assert(samples@ =~= paired(times@, positions@));
    Ok(samples)
}

impl Expr {
    /// One step of the classical Runge-Kutta method of size `step`.
    pub fn next<A: Fn(Calc, u64, u64) -> u64>(&self, state: State, step: u64, arith: &A) -> (r:
        State)
        requires
            dependable(*arith),
        ensures
            r == stepped(*arith, self@, state, step),
    {
        let t: u64 = state.time;
        let x: u64 = state.position;
        let half: u64 = compute(arith, Calc::Quotient, step, TWO);
        let k1: u64 = self.eval(t, x, arith);
        let k2: u64 = self.eval(
            compute(arith, Calc::Sum, t, half),
            compute(
                arith,
                Calc::Sum,
                x,
                compute(arith, Calc::Quotient, compute(arith, Calc::Product, step, k1), TWO),
            ),
            arith,
        );
        let k3: u64 = self.eval(
            compute(arith, Calc::Sum, t, half),
            compute(
                arith,
                Calc::Sum,
                x,
                compute(arith, Calc::Quotient, compute(arith, Calc::Product, step, k2), TWO),
            ),
            arith,
        );
        let k4: u64 = self.eval(
            compute(arith, Calc::Sum, t, step),
            compute(arith, Calc::Sum, x, compute(arith, Calc::Product, step, k3)),
            arith,
        );
        let slopes: u64 = compute(
            arith,
            Calc::Sum,
            compute(
                arith,
                Calc::Sum,
                compute(arith, Calc::Sum, k1, compute(arith, Calc::Product, TWO, k2)),
                compute(arith, Calc::Product, TWO, k3),
            ),
            k4,
        );
        State::new(
            compute(arith, Calc::Sum, t, step),
            compute(
                arith,
                Calc::Sum,
                x,
                compute(arith, Calc::Product, compute(arith, Calc::Quotient, step, SIX), slopes),
            ),
        )
    }

    /// How badly the expression fits the samples, taken as the derivative
    /// of position by time and simulated in steps of size `step` from the
    /// first sample on: the sum of the areas between the simulated points
    /// and the straight lines from sample to sample. Lower is better. After
    /// `limit` steps the simulation is given up and the result is NaN.
    /// Without a sample there is nothing to fit. Where the arithmetic keeps
    /// signs as doubles do, the result is never negative.
    pub fn fitness<A: Fn(Calc, u64, u64) -> u64>(
        &self,
        states: &Vec<State>,
        step: u64,
        limit: usize,
        arith: &A,
    ) -> (r: Result<u64, ValidationError>)
        requires
            dependable(*arith),
        ensures
            r == if states@.len() == 0 {
                Err::<u64, ValidationError>(ValidationError::EmptyData)
            } else {
                Ok(fit(*arith, self@, states@, step, limit as nat))
            },
            keeps_signs(*arith) && r is Ok ==> not_negative(r->Ok_0),
    {
        proof {
            if keeps_signs(*arith) {
                law_fitness_not_negative(*arith, self@, states@, step, limit as nat);
            }
        }
        let n: usize = states.len();
        if n == 0 {
            return Err(ValidationError::EmptyData);
        }
        let mut current: State = states[0];
        let mut total: u64 = ZERO;
        let mut next: usize = 1;
        let mut left: usize = limit;
        while next < n
            invariant
                dependable(*arith),
                n == states@.len(),
                1 <= next <= n,
                fit(*arith, self@, states@, step, limit as nat) == fit_from(
                    *arith,
                    self@,
                    states@,
                    step,
                    next as int,
                    current,
                    total,
                    left as nat,
                ),
            decreases left,
        {
            if left == 0 {
                return Ok(NAN);
            }
            left -= 1;
            let before: State = states[next - 1];
            let after: State = states[next];
            total = compute(arith, Calc::Sum, total, shoelace(before, after, current, arith));
            current = self.next(current, step, arith);
            if reaches(current.time, after.time) {
                next += 1;
            }
        }
        Ok(total)
    }
}

/// The area of the triangle between two samples and a simulated point.
pub fn shoelace<A: Fn(Calc, u64, u64) -> u64>(
    prev: State,
    next: State,
    current: State,
    arith: &A,
) -> (r: u64)
    requires
        dependable(*arith),
    ensures
        r == area(*arith, prev, next, current),
{
    let left: u64 = compute(
        arith,
        Calc::Product,
        compute(arith, Calc::Difference, current.time, next.time),
        compute(arith, Calc::Difference, prev.position, current.position),
    );
    let right: u64 = compute(
        arith,
        Calc::Product,
        compute(arith, Calc::Difference, current.time, prev.time),
        compute(arith, Calc::Difference, next.position, current.position),
    );
    compute(
        arith,
        Calc::Quotient,
        compute(arith, Calc::Magnitude, compute(arith, Calc::Difference, left, right), ZERO),
        TWO,
    )
}

/// How badly `expr` fits the samples that pair `times` with `positions`;
/// see `Expr::fitness`. The two must be as many and at least one.
pub fn fitness<A: Fn(Calc, u64, u64) -> u64>(
    expr: &Expr,
    times: &Vec<u64>,
    positions: &Vec<u64>,
    step: u64,
    limit: usize,
    arith: &A,
) -> (r: Result<u64, ValidationError>)
    requires
        dependable(*arith),
    ensures
        r == match fault(times@.len(), positions@.len()) {
            Some(e) => Err::<u64, ValidationError>(e),
            None => Ok(fit(*arith, expr@, paired(times@, positions@), step, limit as nat)),
        },
        keeps_signs(*arith) && r is Ok ==> not_negative(r->Ok_0),
{
    match pair_samples(times, positions) {
        Ok(samples) => expr.fitness(&samples, step, limit, arith),
        Err(e) => Err(e),
    }
}

} // verus!
