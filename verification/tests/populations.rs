use odegp::error::ValidationError;
use odegp::expr::is_balanced;
use odegp::expr::Expr;
use odegp::operator::Operator;
use odegp::operator::OperatorMap;
use odegp::population::sort_by_fitness;
use odegp::population::Individual;
use odegp::population::Population;
use odegp::population::STEP_LIMIT;
use odegp::population::TIME_STEP;
use odegp::scalar::Calc;
use rand::Rng;
use rand_distr::Exp;

const ADD: Operator = Operator::Binary(0);
const SUB: Operator = Operator::Binary(1);
const MUL: Operator = Operator::Binary(2);
const DIV: Operator = Operator::Binary(3);
const SQUARE: Operator = Operator::Unary(0);
const SQRT: Operator = Operator::Unary(1);

fn arith(op: Calc, a: u64, b: u64) -> u64 {
    let x = f64::from_bits(a);
    let y = f64::from_bits(b);
    let r = match op {
        Calc::Sum => x + y,
        Calc::Difference => x - y,
        Calc::Product => x * y,
        Calc::Quotient => x / y,
        Calc::Magnitude => x.abs(),
        Calc::Unary(0) => x * x,
        Calc::Unary(1) => x.sqrt(),
        Calc::Binary(0) => x + y,
        Calc::Binary(1) => x - y,
        Calc::Binary(2) => x * y,
        Calc::Binary(3) => x / y,
        _ => f64::NAN,
    };
    r.to_bits()
}

fn constant() -> u64 {
    rand::thread_rng().gen_range(-100.0f64, 100.0f64).to_bits()
}

fn sample() -> u64 {
    let draw: f64 = rand::thread_rng().sample(Exp::new(0.1).unwrap());
    draw.to_bits()
}

fn registry() -> OperatorMap<'static> {
    let mut map = OperatorMap::new();
    map.insert(ADD, "ADD").unwrap();
    map.insert(SUB, "SUB").unwrap();
    map.insert(MUL, "MUL").unwrap();
    map.insert(DIV, "DIV").unwrap();
    map.insert(SQUARE, "SQUARE").unwrap();
    map.insert(SQRT, "SQRT").unwrap();
    map.insert(Operator::Constant(1.0f64.to_bits()), "ONE").unwrap();
    map
}

fn bits(values: &[f64]) -> Vec<u64> {
    values.iter().map(|v| v.to_bits()).collect()
}

fn data() -> Population {
    let times = [0.0, 0.5, 1.0, 1.5, 2.0];
    let positions: Vec<f64> = times.iter().map(|t: &f64| t.exp() / (1.0 + t.exp())).collect();
    Population::new(bits(&times), bits(&positions)).unwrap()
}

// An individual that can be told from every other: its expression is the
// constant `tag`.
fn tagged(fitness: f64, tag: u64) -> Individual {
    Individual { fitness: fitness.to_bits(), expr: Expr::new(vec![Operator::Constant(tag)]).unwrap() }
}

fn tags(individuals: &Vec<Individual>) -> Vec<u64> {
    individuals
        .iter()
        .map(|i| match i.expr.operators()[0] {
            Operator::Constant(tag) => tag,
            _ => panic!("not a tagged individual"),
        })
        .collect()
}

#[test]
fn time_step_is_a_hundredth() {
    assert_eq!(f64::from_bits(TIME_STEP), 0.01);
}

#[test]
fn new_population_is_empty() {
    let p = data();
    assert_eq!(p.population().len(), 0);
    assert_eq!(p.generation(), 0);
    assert_eq!(p.states().len(), 5);
    assert_eq!(f64::from_bits(p.states()[2].time), 1.0);
}

#[test]
fn new_refuses_bad_samples() {
    assert!(matches!(
        Population::new(bits(&[0.0, 1.0]), bits(&[0.0])),
        Err(ValidationError::LengthMismatch)
    ));
    assert!(matches!(Population::new(vec![], vec![]), Err(ValidationError::EmptyData)));
    assert!(matches!(
        Population::new(vec![], bits(&[1.0])),
        Err(ValidationError::LengthMismatch)
    ));
}

#[test]
fn grow_adds_scored_individuals() {
    let map = registry();
    let mut p = data();
    p.grow(20, &map, &constant, &arith);
    assert_eq!(p.population().len(), 20);
    p.grow(5, &map, &constant, &arith);
    assert_eq!(p.population().len(), 25);
    assert_eq!(p.generation(), 0);
    for individual in p.population().iter() {
        assert!(is_balanced(individual.expr.operators()));
        assert!(individual.expr.is_known(&map));
        let again = individual.expr.fitness(p.states(), TIME_STEP, STEP_LIMIT, &arith).unwrap();
        assert_eq!(individual.fitness, again);
    }
}

#[test]
fn grow_by_nothing_changes_nothing() {
    let map = registry();
    let mut p = data();
    p.grow(0, &map, &constant, &arith);
    assert_eq!(p.population().len(), 0);
}

#[test]
fn sorting_puts_nan_last_and_keeps_ties() {
    let mut individuals = vec![
        tagged(f64::NAN, 0),
        tagged(3.0, 1),
        tagged(-f64::NAN, 2),
        tagged(0.5, 3),
        tagged(3.0, 4),
        tagged(f64::INFINITY, 5),
        tagged(f64::NAN, 6),
        tagged(0.0, 7),
        tagged(-0.0, 8),
        tagged(0.5, 9),
    ];
    sort_by_fitness(&mut individuals);
    assert_eq!(tags(&individuals), vec![7, 8, 3, 9, 1, 4, 5, 0, 2, 6]);
    let first_nan = individuals.iter().position(|i| f64::from_bits(i.fitness).is_nan()).unwrap();
    assert_eq!(first_nan, 7);
    assert!(individuals[first_nan..].iter().all(|i| f64::from_bits(i.fitness).is_nan()));
}

#[test]
fn sorting_agrees_with_a_stable_sort_on_doubles() {
    let mut rng = rand::thread_rng();
    for _ in 0..50 {
        let mut individuals: Vec<Individual> = (0..40u64)
            .map(|tag| {
                let fitness = match rng.gen_range(0, 6) {
                    0 => f64::NAN,
                    1 => 1.0,
                    2 => f64::INFINITY,
                    _ => rng.gen_range(-2.0f64, 2.0f64),
                };
                tagged(fitness, tag)
            })
            .collect();
        let mut expected: Vec<(f64, u64)> = individuals
            .iter()
            .zip(0..40u64)
            .map(|(i, tag)| (f64::from_bits(i.fitness), tag))
            .collect();
        expected.sort_by(|a, b| match (a.0.is_nan(), b.0.is_nan()) {
            (true, true) => std::cmp::Ordering::Equal,
            (_, true) => std::cmp::Ordering::Less,
            (true, _) => std::cmp::Ordering::Greater,
            (_, _) => a.0.partial_cmp(&b.0).unwrap(),
        });
        sort_by_fitness(&mut individuals);
        let expected_tags: Vec<u64> = expected.iter().map(|e| e.1).collect();
        assert_eq!(tags(&individuals), expected_tags);
    }
}

#[test]
fn sorting_nothing_and_one() {
    let mut none: Vec<Individual> = vec![];
    sort_by_fitness(&mut none);
    assert!(none.is_empty());
    let mut one = vec![tagged(1.0, 1)];
    sort_by_fitness(&mut one);
    assert_eq!(tags(&one), vec![1]);
}

#[test]
fn best_fit_is_the_lowest_fitness() {
    let mut p = data();
    p.push(tagged(2.0, 0));
    p.push(tagged(f64::NAN, 1));
    p.push(tagged(-1.0, 2));
    p.push(tagged(0.5, 3));
    let best = p.best_fit();
    assert_eq!(f64::from_bits(best.fitness), -1.0);
    assert_eq!(best.expr.operators(), &vec![Operator::Constant(2)]);
    assert_eq!(tags(p.population()), vec![2, 3, 0, 1]);
}

#[test]
fn sort_orders_the_population() {
    let mut p = data();
    p.push(tagged(2.0, 0));
    p.push(tagged(1.0, 1));
    p.sort();
    assert_eq!(tags(p.population()), vec![1, 0]);
}

#[test]
fn closest_is_the_first_to_reach_the_threshold() {
    let mut p = data();
    p.push(tagged(1.0, 0));
    p.push(tagged(2.0, 1));
    p.push(tagged(2.0, 2));
    p.push(tagged(4.0, 3));
    p.push(tagged(f64::NAN, 4));
    let tag_of = |threshold: f64| -> u64 {
        match p.closest(threshold.to_bits()).expr.operators()[0] {
            Operator::Constant(tag) => tag,
            _ => panic!("not a tagged individual"),
        }
    };
    assert_eq!(tag_of(0.0), 0);
    assert_eq!(tag_of(1.0), 0);
    assert_eq!(tag_of(1.5), 1);
    assert_eq!(tag_of(2.0), 1);
    assert_eq!(tag_of(3.0), 3);
    assert_eq!(tag_of(4.0), 3);
    // nothing reaches the threshold: the best one
    assert_eq!(tag_of(5.0), 0);
    assert_eq!(tag_of(f64::INFINITY), 0);
    assert_eq!(tag_of(f64::NAN), 0);
}

#[test]
fn evolve_keeps_the_best_tenth() {
    let map = registry();
    let mut p = data();
    p.grow(100, &map, &constant, &arith);
    p.sort();
    let elite: Vec<(u64, Vec<Operator>)> = p.population()[..10]
        .iter()
        .map(|i| (i.fitness, i.expr.operators().clone()))
        .collect();
    assert_eq!(p.evolve(&sample, &arith), Ok(()));
    assert_eq!(p.population().len(), 100);
    assert_eq!(p.generation(), 1);
    for (kept, was) in p.population()[..10].iter().zip(elite.iter()) {
        assert_eq!(kept.fitness, was.0);
        assert_eq!(kept.expr.operators(), &was.1);
    }
}

#[test]
fn evolve_sorts_before_it_keeps() {
    let mut p = data();
    for tag in 0..20u64 {
        p.push(tagged(20.0 - tag as f64, tag));
    }
    p.evolve(&sample, &arith).unwrap();
    assert_eq!(p.population().len(), 20);
    assert_eq!(f64::from_bits(p.population()[0].fitness), 1.0);
    assert_eq!(p.population()[0].expr.operators(), &vec![Operator::Constant(19)]);
    assert_eq!(f64::from_bits(p.population()[1].fitness), 2.0);
    assert_eq!(p.population()[1].expr.operators(), &vec![Operator::Constant(18)]);
}

#[test]
fn evolve_scores_the_offspring() {
    let map = registry();
    let mut p = data();
    p.grow(30, &map, &constant, &arith);
    for generation in 1..=3u64 {
        p.evolve(&sample, &arith).unwrap();
        assert_eq!(p.generation(), generation);
        assert_eq!(p.population().len(), 30);
        for individual in p.population()[3..].iter() {
            assert!(is_balanced(individual.expr.operators()));
            assert!(individual.expr.is_known(&map));
            let again =
                individual.expr.fitness(p.states(), TIME_STEP, STEP_LIMIT, &arith).unwrap();
            let same = individual.fitness == again
                || (f64::from_bits(individual.fitness).is_nan()
                    && f64::from_bits(again).is_nan());
            assert!(same);
        }
    }
}

#[test]
fn evolve_of_a_small_population_keeps_none() {
    let mut p = data();
    for tag in 0..9u64 {
        p.push(tagged(tag as f64, 100 + tag));
    }
    p.evolve(&sample, &arith).unwrap();
    assert_eq!(p.population().len(), 9);
    // every offspring of one-slot parents is a single variable
    for individual in p.population().iter() {
        assert_eq!(individual.expr.len(), 1);
        assert!(matches!(
            individual.expr.operators()[0],
            Operator::Time | Operator::Position
        ));
    }
}

#[test]
fn evolve_of_an_empty_population_fails() {
    let mut p = data();
    assert_eq!(p.evolve(&sample, &arith), Err(ValidationError::EmptyPopulation));
    assert_eq!(p.population().len(), 0);
    assert_eq!(p.generation(), 0);
}

#[test]
fn evolution_does_not_lose_the_best() {
    let map = registry();
    let mut p = data();
    p.grow(50, &map, &constant, &arith);
    let mut best = f64::from_bits(p.best_fit().fitness);
    for _ in 0..4 {
        p.evolve(&sample, &arith).unwrap();
        let now = f64::from_bits(p.best_fit().fitness);
        if !best.is_nan() {
            assert!(now <= best);
        }
        best = now;
    }
}

#[test]
fn individuals_compare_by_fitness() {
    let low = tagged(1.0, 0);
    let high = tagged(2.0, 1);
    let nan = tagged(f64::NAN, 2);
    let other_nan = tagged(-f64::NAN, 3);
    let infinite = tagged(f64::INFINITY, 4);
    assert!(low < high);
    assert!(!(high < low));
    assert!(high > low);
    assert!(low <= low);
    assert!(low == tagged(1.0, 9));
    assert!(low != high);
    assert!(infinite < nan);
    assert!(low < nan);
    assert!(!(nan < low));
    assert!(nan == other_nan);
    assert!(!(nan < other_nan) && !(other_nan < nan));
    assert!(tagged(0.0, 5) == tagged(-0.0, 6));
    assert_eq!(low.partial_cmp(&high), Some(std::cmp::Ordering::Less));
    assert_eq!(nan.partial_cmp(&other_nan), Some(std::cmp::Ordering::Equal));
    assert_eq!(nan.partial_cmp(&infinite), Some(std::cmp::Ordering::Greater));
}

#[test]
fn sorting_agrees_with_the_comparison() {
    let fitnesses = [3.0, f64::NAN, 1.0, 3.0, -f64::NAN, f64::NEG_INFINITY, 1.0, 0.0];
    let mut ours: Vec<Individual> =
        fitnesses.iter().zip(0u64..).map(|(f, tag)| tagged(*f, tag)).collect();
    let mut theirs: Vec<Individual> =
        fitnesses.iter().zip(0u64..).map(|(f, tag)| tagged(*f, tag)).collect();
    sort_by_fitness(&mut ours);
    theirs.sort_by(|a, b| a.partial_cmp(b).unwrap());
    assert_eq!(tags(&ours), tags(&theirs));
    assert_eq!(tags(&ours), vec![5, 7, 2, 6, 0, 3, 1, 4]);
}

#[test]
fn step_limit_is_a_setting() {
    let map = registry();
    let mut p = data();
    assert_eq!(p.step_limit(), STEP_LIMIT);
    assert_eq!(STEP_LIMIT, 1_000_000);
    // the samples span two time units: 200 steps of a hundredth
    p.set_step_limit(100);
    assert_eq!(p.step_limit(), 100);
    p.grow(10, &map, &constant, &arith);
    assert!(p.population().iter().all(|i| f64::from_bits(i.fitness).is_nan()));
    p.set_step_limit(1000);
    p.grow(10, &map, &constant, &arith);
    assert_eq!(p.population().len(), 20);
    for individual in p.population()[10..].iter() {
        let again = individual.expr.fitness(p.states(), TIME_STEP, 1000, &arith).unwrap();
        let same = individual.fitness == again
            || (f64::from_bits(individual.fitness).is_nan() && f64::from_bits(again).is_nan());
        assert!(same);
    }
    p.evolve(&sample, &arith).unwrap();
    assert_eq!(p.step_limit(), 1000);
}
