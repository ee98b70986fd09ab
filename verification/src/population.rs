//! Scored expressions, their order, and the population that evolves.

use crate::error::ValidationError;
use crate::expr::crossed;
use crate::expr::generated;
use crate::expr::mutated;
use crate::expr::Expr;
use crate::ode::fault;
use crate::ode::fit;
use crate::ode::pair_samples;
use crate::ode::paired;
use crate::ode::State;
use crate::operator::known;
use crate::operator::Operator;
use crate::operator::OperatorMap;
use crate::scalar::at_least;
use crate::scalar::compute;
use crate::scalar::dependable;
use crate::scalar::is_nan;
use crate::scalar::plus;
use crate::scalar::rank;
use crate::scalar::reaches;
use crate::scalar::Calc;
use vstd::prelude::*;
use vstd::set_lib::lemma_int_range;
use vstd::set_lib::lemma_subset_equality;
use vstd::set_lib::set_int_range;

verus! {

/// An expression with its score. Lower is better; NaN marks an expression
/// that could not be scored.
pub struct Individual {
    pub fitness: u64,
    pub expr: Expr,
}

impl Clone for Individual {
    /// A copy with the same fitness and the same slots.
    fn clone(&self) -> (r: Individual)
        ensures
            r.fitness == self.fitness,
            r.expr@ == self.expr@,
    {
        Individual { fitness: self.fitness, expr: self.expr.clone() }
    }
}

/// The individual at place `a` goes before the one at place `b` when the
/// sequence is sorted: it ranks lower, or it ranks the same and stands
/// earlier.
pub open spec fn goes_before(individuals: Seq<Individual>, a: int, b: int) -> bool {
    let low = rank(individuals[a].fitness);
    let high = rank(individuals[b].fitness);
    low < high || (low == high && a < b)
}

/// `after` holds the individuals of `before` by ascending fitness, NaN
/// last, and `origin` tells for each place where its individual stood
/// before. Individuals of one rank keep the order they had.
pub open spec fn ordered_from(
    before: Seq<Individual>,
    after: Seq<Individual>,
    origin: Seq<int>,
) -> bool {
    &&& after.len() == before.len()
    &&& origin.len() == before.len()
    &&& forall|i: int|
        0 <= i < after.len() ==> 0 <= #[trigger] origin[i] < before.len() && after[i]
            == before[origin[i]]
    &&& forall|i: int, j: int|
        0 <= i < j < after.len() ==> #[trigger] goes_before(before, origin[i], origin[j])
}

/// `after` is `before` sorted by ascending fitness, NaN last, with ties
/// left in the order they had.
pub open spec fn sorted_stably(before: Seq<Individual>, after: Seq<Individual>) -> bool {
    exists|origin: Seq<int>| ordered_from(before, after, origin)
}

/// In a sorted sequence no individual ranks behind a later one.
pub proof fn law_sorted_ascending(before: Seq<Individual>, after: Seq<Individual>)
    requires
        sorted_stably(before, after),
    ensures
        forall|i: int, j: int|
            0 <= i < j < after.len() ==> rank((#[trigger] after[i]).fitness) <= rank(
                (#[trigger] after[j]).fitness,
            ),
{
    let origin = choose|origin: Seq<int>| ordered_from(before, after, origin);
    assert forall|i: int, j: int| 0 <= i < j < after.len() implies rank(
        (#[trigger] after[i]).fitness,
    ) <= rank((#[trigger] after[j]).fitness) by {
        assert(goes_before(before, origin[i], origin[j]));
        assert(after[i] == before[origin[i]]);
        assert(after[j] == before[origin[j]]);
    }
}

/// In a sorted sequence every individual whose fitness is NaN stands
/// behind every individual whose fitness is a number.
pub proof fn law_nan_last(before: Seq<Individual>, after: Seq<Individual>)
    requires
        sorted_stably(before, after),
    ensures
        forall|i: int, j: int|
            0 <= i < after.len() && 0 <= j < after.len() && is_nan((#[trigger] after[i]).fitness)
                && !is_nan((#[trigger] after[j]).fitness) ==> j < i,
{
    law_sorted_ascending(before, after);
    assert forall|i: int, j: int|
        0 <= i < after.len() && 0 <= j < after.len() && is_nan((#[trigger] after[i]).fitness)
            && !is_nan((#[trigger] after[j]).fitness) implies j < i by {
        if i < j {
            assert(rank(after[i].fitness) <= rank(after[j].fitness));
        }
    }
}

/// Sorting leaves individuals of one rank, and so those whose fitness is
/// NaN, in the order in which they stood.
pub proof fn law_ties_keep_order(
    before: Seq<Individual>,
    after: Seq<Individual>,
    origin: Seq<int>,
)
    requires
        ordered_from(before, after, origin),
    ensures
        forall|i: int, j: int|
            0 <= i < j < after.len() && rank((#[trigger] after[i]).fitness) == rank(
                (#[trigger] after[j]).fitness,
            ) ==> origin[i] < origin[j],
        forall|i: int, j: int|
            0 <= i < j < after.len() && is_nan((#[trigger] after[i]).fitness) && is_nan(
                (#[trigger] after[j]).fitness,
            ) ==> origin[i] < origin[j],
{
    assert forall|i: int, j: int|
        0 <= i < j < after.len() && rank((#[trigger] after[i]).fitness) == rank(
            (#[trigger] after[j]).fitness,
        ) implies origin[i] < origin[j] by {
        assert(goes_before(before, origin[i], origin[j]));
        assert(after[i] == before[origin[i]]);
        assert(after[j] == before[origin[j]]);
    }
}

/// Every individual has a place after sorting: each place of `before` is
/// the origin of a place of `after`.
pub proof fn law_sorting_loses_nothing(
    before: Seq<Individual>,
    after: Seq<Individual>,
    origin: Seq<int>,
    place: int,
) -> (now: int)
    requires
        ordered_from(before, after, origin),
        0 <= place < before.len(),
    ensures
        0 <= now < after.len(),
        origin[now] == place,
        after[now] == before[place],
{
    broadcast use vstd::seq_lib::group_seq_properties;

    let n = before.len() as int;
    assert forall|i: int, j: int|
        0 <= i < origin.len() && 0 <= j < origin.len() && i != j implies origin[i]
        != origin[j] by {
        if i < j {
            assert(goes_before(before, origin[i], origin[j]));
        } else {
            assert(goes_before(before, origin[j], origin[i]));
        }
    }
    origin.unique_seq_to_set();
    lemma_int_range(0, n);
    assert forall|x: int| origin.to_set().contains(x) implies set_int_range(0, n).contains(x) by {
        let k = choose|k: int| 0 <= k < origin.len() && origin[k] == x;
        assert(0 <= origin[k] < n);
    }
    lemma_subset_equality(origin.to_set(), set_int_range(0, n));
    assert(set_int_range(0, n).contains(place));
    assert(origin.to_set().contains(place));
    let now = choose|k: int| 0 <= k < origin.len() && origin[k] == place;
    now
}

/// Two sortings of one sequence agree on where the individual at a place
/// came from.
proof fn lemma_origins_agree(
    before: Seq<Individual>,
    first: Seq<Individual>,
    first_origin: Seq<int>,
    second: Seq<Individual>,
    second_origin: Seq<int>,
    at: int,
)
    requires
        ordered_from(before, first, first_origin),
        ordered_from(before, second, second_origin),
        0 <= at < before.len(),
    ensures
        first_origin[at] == second_origin[at],
    decreases at,
{
    assert forall|k: int| 0 <= k < at implies first_origin[k] == second_origin[k] by {
        lemma_origins_agree(before, first, first_origin, second, second_origin, k);
    }
    let x = first_origin[at];
    let y = second_origin[at];
    if x != y {
        let in_second = law_sorting_loses_nothing(before, second, second_origin, x);
        let in_first = law_sorting_loses_nothing(before, first, first_origin, y);
        // Neither can stand before `at` in the other sorting, where the two
        // agree; so each stands behind `at` there, and `x` and `y` would
        // each go before the other.
        if in_second < at {
            assert(first_origin[in_second] == second_origin[in_second]);
            assert(goes_before(before, first_origin[in_second], first_origin[at]));
        }
        if in_first < at {
            assert(first_origin[in_first] == second_origin[in_first]);
            assert(goes_before(before, second_origin[in_first], second_origin[at]));
        }
        assert(goes_before(before, second_origin[at], second_origin[in_second]));
        assert(goes_before(before, first_origin[at], first_origin[in_first]));
    }
}

/// A sequence can be sorted in one way only.
pub proof fn law_sorting_is_unique(
    before: Seq<Individual>,
    first: Seq<Individual>,
    second: Seq<Individual>,
)
    requires
        sorted_stably(before, first),
        sorted_stably(before, second),
    ensures
        first == second,
{
    let first_origin = choose|origin: Seq<int>| ordered_from(before, first, origin);
    let second_origin = choose|origin: Seq<int>| ordered_from(before, second, origin);
    assert forall|i: int| 0 <= i < first.len() implies first[i] == second[i] by {
        lemma_origins_agree(before, first, first_origin, second, second_origin, i);
        assert(first[i] == before[first_origin[i]]);
        assert(second[i] == before[second_origin[i]]);
    }
    assert(first =~= second);
}

/// Sorts by ascending fitness. NaN comes behind every number and is equal
/// to NaN; individuals that compare equal keep their order.
pub fn sort_by_fitness(individuals: &mut Vec<Individual>)
    ensures
        sorted_stably(old(individuals)@, final(individuals)@),
{
    let ghost before = individuals@;
    let n: usize = individuals.len();
    let ghost mut origin: Seq<int> = Seq::new(n as nat, |i: int| i);
    let mut i: usize = 0;
    while i < n
        invariant
            i <= n,
            n == before.len(),
            individuals@.len() == n,
            origin.len() == n,
            forall|k: int|
                0 <= k < n ==> 0 <= #[trigger] origin[k] < n && individuals@[k]
                    == before[origin[k]],
            forall|k: int| i <= k < n ==> #[trigger] origin[k] == k,
            forall|k: int| 0 <= k < i ==> #[trigger] origin[k] < i,
            forall|a: int, b: int|
                0 <= a < b < i ==> #[trigger] goes_before(before, origin[a], origin[b]),
        decreases n - i,
    {
        let ghost held = individuals@;
        let ghost came = origin;
        let moving: Individual = individuals.remove(i);
        let mut j: usize = i;
        while j > 0 && moving < individuals[j - 1]
            invariant
                j <= i < n,
                individuals@ == held.remove(i as int),
                held.len() == n,
                forall|k: int|
                    j <= k < i ==> rank(moving.fitness) < rank((#[trigger] held[k]).fitness),
            decreases j,
        {
            j -= 1;
        }
        individuals.insert(j, moving);
        proof {
            origin = came.remove(i as int).insert(j as int, i as int);
            let now = individuals@;
            assert forall|k: int| 0 <= k < n implies #[trigger] now[k] == (if k < j {
                held[k]
            } else if k == j {
                moving
            } else if k <= i {
                held[k - 1]
            } else {
                held[k]
            }) by {}
            assert forall|k: int| 0 <= k < n implies #[trigger] origin[k] == (if k < j {
                came[k]
            } else if k == j {
                i as int
            } else if k <= i {
                came[k - 1]
            } else {
                came[k]
            }) by {}
            assert(came[i as int] == i);
            assert(moving == held[i as int]);
            assert(moving == before[i as int]);
            assert forall|k: int| 0 <= k < n implies 0 <= #[trigger] origin[k] < n && now[k]
                == before[origin[k]] by {
                if k < j {
                    assert(held[k] == before[came[k]]);
                } else if k == j {
                } else if k <= i {
                    assert(held[k - 1] == before[came[k - 1]]);
                } else {
                    assert(held[k] == before[came[k]]);
                }
            }
            assert forall|a: int, b: int| 0 <= a < b < i + 1 implies #[trigger] goes_before(
                before,
                origin[a],
                origin[b],
            ) by {
                if b == j {
                    // what moved goes behind everything before its new place
                    assert(held[a] == before[came[a]]);
                    assert(came[a] < i);
                    if a < j - 1 {
                        assert(goes_before(before, came[a], came[j - 1]));
                    }
                    assert(held[j - 1] == before[came[j - 1]]);
                } else if a == j {
                    // and before everything that it passed
                    assert(held[b - 1] == before[came[b - 1]]);
                } else {
                    let from_a = if a < j {
                        a
                    } else {
                        a - 1
                    };
                    let from_b = if b < j {
                        b
                    } else {
                        b - 1
                    };
                    assert(goes_before(before, came[from_a], came[from_b]));
                }
            }
        }
        i += 1;
    }
    assert(ordered_from(before, individuals@, origin));
}

/// The step size of every simulation: 0.01.
pub const TIME_STEP: u64 = 0x3F84_7AE1_47AE_147B;

/// The number of steps after which a simulation is given up, unless the
/// population is told another.
pub const STEP_LIMIT: usize = 1_000_000;

/// The score of an expression against the samples, simulated for `limit`
/// steps at most.
pub open spec fn score<A: Fn(Calc, u64, u64) -> u64>(
    arith: A,
    tokens: Seq<Operator>,
    samples: Seq<State>,
    limit: nat,
) -> u64 {
    fit(arith, tokens, samples, TIME_STEP, limit)
}

/// `at` is the place that a threshold selects: the first individual whose
/// fitness reaches it, or the first of all where none does.
pub open spec fn selects(individuals: Seq<Individual>, threshold: u64, at: int) -> bool {
    &&& 0 <= at < individuals.len()
    &&& forall|k: int| 0 <= k < at ==> !at_least((#[trigger] individuals[k]).fitness, threshold)
    &&& at_least(individuals[at].fitness, threshold) || (at == 0 && forall|k: int|
        0 <= k < individuals.len() ==> !at_least((#[trigger] individuals[k]).fitness, threshold))
}

/// `child` is a mutation of a crossover of two individuals of the sorted
/// `pool`, each selected by a threshold: the best fitness plus a draw of
/// `sample`.
pub open spec fn bred<S: Fn() -> u64, A: Fn(Calc, u64, u64) -> u64>(
    sample: S,
    arith: A,
    pool: Seq<Individual>,
    child: Seq<Operator>,
) -> bool {
    exists|a: int, b: int, first: u64, second: u64, between: Seq<Operator>|
        {
            &&& #[trigger] call_ensures(sample, (), first)
            &&& #[trigger] call_ensures(sample, (), second)
            &&& selects(pool, plus(arith, first, pool[0].fitness), a)
            &&& selects(pool, plus(arith, second, pool[0].fitness), b)
            &&& #[trigger] crossed(between, pool[a].expr@, pool[b].expr@)
            &&& mutated(child, between)
        }
}

/// `next` is a generation that follows the sorted generation `sorted`: as
/// large, its first tenth the first tenth of `sorted` unchanged, every
/// other individual bred from `sorted` and scored against the samples.
pub open spec fn follows<S: Fn() -> u64, A: Fn(Calc, u64, u64) -> u64>(
    sample: S,
    arith: A,
    samples: Seq<State>,
    limit: nat,
    sorted: Seq<Individual>,
    next: Seq<Individual>,
) -> bool {
    &&& next.len() == sorted.len()
    &&& forall|i: int| 0 <= i < sorted.len() / 10 ==> #[trigger] next[i] == sorted[i]
    &&& forall|i: int|
        sorted.len() / 10 <= i < next.len() ==> bred(
            sample,
            arith,
            sorted,
            (#[trigger] next[i]).expr@,
        ) && next[i].fitness == score(arith, next[i].expr@, samples, limit)
}

/// The best tenth survives a generation unchanged: the first tenth of the
/// next generation is the first tenth of the sorted one, individual by
/// individual, and nothing that was left behind ranks before any of it.
pub proof fn law_elite_survives<S: Fn() -> u64, A: Fn(Calc, u64, u64) -> u64>(
    sample: S,
    arith: A,
    samples: Seq<State>,
    limit: nat,
    before: Seq<Individual>,
    sorted: Seq<Individual>,
    next: Seq<Individual>,
)
    requires
        sorted_stably(before, sorted),
        follows(sample, arith, samples, limit, sorted, next),
    ensures
        next.len() == before.len(),
        forall|i: int|
            0 <= i < before.len() / 10 ==> (#[trigger] next[i]).fitness == sorted[i].fitness
                && next[i].expr@ == sorted[i].expr@,
        forall|i: int, j: int|
            0 <= i < before.len() / 10 <= j < before.len() ==> rank((#[trigger] next[i]).fitness)
                <= rank((#[trigger] sorted[j]).fitness),
{
    law_sorted_ascending(before, sorted);
    let origin = choose|origin: Seq<int>| ordered_from(before, sorted, origin);
    assert forall|i: int, j: int| 0 <= i < before.len() / 10 <= j < before.len() implies rank(
        (#[trigger] next[i]).fitness,
    ) <= rank((#[trigger] sorted[j]).fitness) by {
        assert(next[i] == sorted[i]);
        assert(rank(sorted[i].fitness) <= rank(sorted[j].fitness));
    }
}

/// Individuals, the samples that they are scored against, and the number
/// of generations that have passed.
pub struct Population {
    states: Vec<State>,
    population: Vec<Individual>,
    generation: u64,
    limit: usize,
}

impl Population {
    /// The samples, in the order of their times.
    pub closed spec fn samples(&self) -> Seq<State> {
        self.states@
    }

    /// The individuals, in the order in which they are held.
    pub closed spec fn individuals(&self) -> Seq<Individual> {
        self.population@
    }

    /// The number of generations that have passed.
    pub closed spec fn generations(&self) -> nat {
        self.generation as nat
    }

    /// The number of steps after which a simulation is given up.
    pub closed spec fn limit(&self) -> nat {
        self.limit as nat
    }

    /// There is at least one sample, as in every population that `new`
    /// has made.
    pub open spec fn wf(&self) -> bool {
        self.samples().len() > 0
    }

    /// An empty population of generation zero for the samples that pair
    /// `times` with `positions`. The two must be as many and at least one.
    pub fn new(times: Vec<u64>, positions: Vec<u64>) -> (r: Result<Population, ValidationError>)
        ensures
            match r {
                Ok(p) => {
                    &&& fault(times@.len(), positions@.len()) is None
                    &&& p.wf()
                    &&& p.samples() == paired(times@, positions@)
                    &&& p.individuals().len() == 0
                    &&& p.generations() == 0
                    &&& p.limit() == STEP_LIMIT
                },
                Err(e) => fault(times@.len(), positions@.len()) == Some(e),
            },
    {
        match pair_samples(&times, &positions) {
            Ok(states) => Ok(
                Population { states, population: Vec::new(), generation: 0, limit: STEP_LIMIT },
            ),
            Err(e) => Err(e),
        }
    }

    /// The samples.
    pub fn states(&self) -> (r: &Vec<State>)
        ensures
            r@ == self.samples(),
    {
        &self.states
    }

    /// The individuals.
    pub fn population(&self) -> (r: &Vec<Individual>)
        ensures
            r@ == self.individuals(),
    {
        &self.population
    }

    /// The number of generations that have passed.
    pub fn generation(&self) -> (r: u64)
        ensures
            r == self.generations(),
    {
        self.generation
    }

    /// The number of steps after which a simulation is given up.
    pub fn step_limit(&self) -> (r: usize)
        ensures
            r == self.limit(),
    {
        self.limit
    }

    /// Sets the number of steps after which a simulation is given up, for
    /// what is scored from now on.
    pub fn set_step_limit(&mut self, limit: usize)
        ensures
            final(self).limit() == limit,
            final(self).samples() == old(self).samples(),
            final(self).individuals() == old(self).individuals(),
            final(self).generations() == old(self).generations(),
    {
        self.limit = limit;
    }

    /// Adds one individual behind the others.
    pub fn push(&mut self, individual: Individual)
        ensures
            final(self).individuals() == old(self).individuals().push(individual),
            final(self).samples() == old(self).samples(),
            final(self).limit() == old(self).limit(),
            final(self).generations() == old(self).generations(),
    {
        self.population.push(individual);
    }

    /// Adds `n` individuals, each generated over the registry, with its
    /// constants from `constant`, and scored against the samples.
    pub fn grow<C: Fn() -> u64, A: Fn(Calc, u64, u64) -> u64>(
        &mut self,
        n: usize,
        map: &OperatorMap,
        constant: &C,
        arith: &A,
    )
        requires
            old(self).wf(),
            call_requires(*constant, ()),
            dependable(*arith),
        ensures
            final(self).wf(),
            final(self).samples() == old(self).samples(),
            final(self).limit() == old(self).limit(),
            final(self).generations() == old(self).generations(),
            final(self).individuals().len() == old(self).individuals().len() + n,
            final(self).individuals().subrange(0, old(self).individuals().len() as int) == old(
                self,
            ).individuals(),
            forall|i: int|
                old(self).individuals().len() <= i < final(self).individuals().len() ==> {
                    let grown = #[trigger] final(self).individuals()[i];
                    &&& grown.fitness == score(
                        *arith,
                        grown.expr@,
                        final(self).samples(),
                        final(self).limit(),
                    )
                    &&& generated(map@, *constant, grown.expr@)
                    &&& forall|k: int|
                        0 <= k < grown.expr@.len() ==> known(map@, #[trigger] grown.expr@[k])
                },
    {
        let ghost before = self.population@;
        let mut count: usize = 0;
        while count < n
            invariant
                call_requires(*constant, ()),
                dependable(*arith),
                count <= n,
                self.wf(),
                self.samples() == old(self).samples(),
                self.limit() == old(self).limit(),
                self.generation == old(self).generation,
                self.population@.len() == before.len() + count,
                self.population@.subrange(0, before.len() as int) == before,
                forall|i: int|
                    before.len() <= i < self.population@.len() ==> {
                        let grown = #[trigger] self.population@[i];
                        &&& grown.fitness == score(
                            *arith,
                            grown.expr@,
                            self.samples(),
                            self.limit(),
                        )
                        &&& generated(map@, *constant, grown.expr@)
                        &&& forall|k: int|
                            0 <= k < grown.expr@.len() ==> known(map@, #[trigger] grown.expr@[k])
                    },
            decreases n - count,
        {
            let expr = Expr::generate(map, constant);
            let fitness: u64 = expr.fitness(&self.states, TIME_STEP, self.limit, arith).unwrap();
            let ghost held = self.population@;
            self.population.push(Individual { fitness, expr });
            count += 1;
            proof {
                assert(self.population@.subrange(0, before.len() as int) =~= held.subrange(
                    0,
                    before.len() as int,
                ));
                assert forall|i: int| before.len() <= i < self.population@.len() - 1 implies (
                #[trigger] self.population@[i]) == held[i] by {}
            }
        }
    }

    /// Sorts the individuals by ascending fitness, NaN last, ties in the
    /// order they had.
    pub fn sort(&mut self)
        ensures
            sorted_stably(old(self).individuals(), final(self).individuals()),
            final(self).samples() == old(self).samples(),
            final(self).limit() == old(self).limit(),
            final(self).generations() == old(self).generations(),
    {
        sort_by_fitness(&mut self.population);
    }

    /// Sorts the individuals and hands out the first, which none is
    /// better than.
    pub fn best_fit(&mut self) -> (r: &Individual)
        requires
            old(self).individuals().len() > 0,
        ensures
            sorted_stably(old(self).individuals(), final(self).individuals()),
            *r == final(self).individuals()[0],
            final(self).samples() == old(self).samples(),
            final(self).limit() == old(self).limit(),
            final(self).generations() == old(self).generations(),
    {
        sort_by_fitness(&mut self.population);
        &self.population[0]
    }

    /// Replaces the population by the next generation and counts it. The
    /// individuals are sorted; the best tenth, rounded down, is kept as it
    /// is. Each other place is filled by a mutation of a crossover of two
    /// parents. A parent is selected by a threshold, which is the best
    /// fitness plus what `sample` draws. The offspring is scored against
    /// the samples. A population without individuals cannot evolve and
    /// stays as it is.
    pub fn evolve<S: Fn() -> u64, A: Fn(Calc, u64, u64) -> u64>(&mut self, sample: &S, arith: &A) -> (r:
        Result<(), ValidationError>)
        requires
            old(self).wf(),
            old(self).generations() < u64::MAX,
            call_requires(*sample, ()),
            dependable(*arith),
        ensures
            final(self).wf(),
            final(self).samples() == old(self).samples(),
            final(self).limit() == old(self).limit(),
            match r {
                Ok(()) => {
                    &&& old(self).individuals().len() > 0
                    &&& final(self).generations() == old(self).generations() + 1
                    &&& exists|sorted: Seq<Individual>|
                        sorted_stably(old(self).individuals(), sorted) && #[trigger] follows(
                            *sample,
                            *arith,
                            final(self).samples(),
                            final(self).limit(),
                            sorted,
                            final(self).individuals(),
                        )
                },
                Err(e) => {
                    &&& e == ValidationError::EmptyPopulation
                    &&& old(self).individuals().len() == 0
                    &&& final(self).individuals() == old(self).individuals()
                    &&& final(self).generations() == old(self).generations()
                },
            },
    {
        let size: usize = self.population.len();
        if size == 0 {
            return Err(ValidationError::EmptyPopulation);
        }
        sort_by_fitness(&mut self.population);
        let ghost sorted = self.population@;
        let min_fitness: u64 = self.population[0].fitness;
        let elite: usize = size / 10;
        let mut offspring: Vec<Individual> = Vec::new();
        let mut filled: usize = elite;
        while filled < size
            invariant
                call_requires(*sample, ()),
                dependable(*arith),
                self.wf(),
                self.samples() == old(self).samples(),
                self.limit() == old(self).limit(),
                self.generations() == old(self).generations(),
                self.population@ == sorted,
                sorted.len() == size,
                min_fitness == sorted[0].fitness,
                size > 0,
                elite <= filled <= size,
                offspring@.len() == filled - elite,
                forall|i: int|
                    0 <= i < offspring@.len() ==> bred(
                        *sample,
                        *arith,
                        sorted,
                        (#[trigger] offspring@[i]).expr@,
                    ) && offspring@[i].fitness == score(
                        *arith,
                        offspring@[i].expr@,
                        self.samples(),
                        self.limit(),
                    ),
            decreases size - filled,
        {
            let first_draw: u64 = sample();
            let first = self.closest(compute(arith, Calc::Sum, first_draw, min_fitness));
            let second_draw: u64 = sample();
            let second = self.closest(compute(arith, Calc::Sum, second_draw, min_fitness));
            let between = first.expr.crossover(&second.expr);
            let expr = between.mutate();
            proof {
                let a = choose|at: int|
                    selects(sorted, plus(*arith, first_draw, min_fitness), at) && *first
                        == sorted[at];
                let b = choose|at: int|
                    selects(sorted, plus(*arith, second_draw, min_fitness), at) && *second
                        == sorted[at];
                assert(call_ensures(*sample, (), first_draw));
                assert(call_ensures(*sample, (), second_draw));
                assert(crossed(between@, sorted[a].expr@, sorted[b].expr@));
                assert(bred(*sample, *arith, sorted, expr@));
            }
            let fitness: u64 = expr.fitness(&self.states, TIME_STEP, self.limit, arith).unwrap();
            offspring.push(Individual { fitness, expr });
            filled += 1;
        }
        self.population.truncate(elite);
        self.population.append(&mut offspring);
        self.generation += 1;
        proof {
            assert(follows(
                *sample,
                *arith,
                self.samples(),
                self.limit(),
                sorted,
                self.individuals(),
            ));
        }
        Ok(())
    }

    /// The individual that a threshold selects: the first whose fitness
    /// reaches it, or the first of all where none does. On a sorted
    /// population that is the best one at or above the threshold.
    pub fn closest(&self, threshold: u64) -> (r: &Individual)
        requires
            self.individuals().len() > 0,
        ensures
            exists|at: int|
                selects(self.individuals(), threshold, at) && *r == self.individuals()[at],
    {
        let n: usize = self.population.len();
        let mut i: usize = 0;
        while i < n
            invariant
                n == self.population@.len(),
                i <= n,
                forall|k: int|
                    0 <= k < i ==> !at_least((#[trigger] self.population@[k]).fitness, threshold),
            decreases n - i,
        {
            if reaches(self.population[i].fitness, threshold) {
                assert(selects(self.individuals(), threshold, i as int));
                return &self.population[i];
            }
            i += 1;
        }
        assert(selects(self.individuals(), threshold, 0));
        &self.population[0]
    }
}

} // verus!
