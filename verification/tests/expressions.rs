use odegp::expr::generate_from;
use odegp::expr::is_balanced;
use odegp::expr::kind_of;
use odegp::expr::slot_of;
use odegp::expr::Draw;
use odegp::expr::Expr;
use odegp::expr::Kind;
use odegp::expr::GENERATION_LIMIT;
use odegp::expr::KINDS;
use odegp::expr::LEAF_KINDS;
use odegp::operator::Operator;
use odegp::operator::OperatorMap;

const ADD: Operator = Operator::Binary(0);
const SUB: Operator = Operator::Binary(1);
const SQUARE: Operator = Operator::Unary(0);
const TIME: Operator = Operator::Time;
const POS: Operator = Operator::Position;

fn expr(operators: &[Operator]) -> Expr {
    Expr::new(operators.to_vec()).unwrap()
}

fn constant() -> u64 {
    1.5f64.to_bits()
}

fn number(bits: u64) -> String {
    f64::from_bits(bits).to_string()
}

fn registry() -> OperatorMap<'static> {
    let mut map = OperatorMap::new();
    map.insert(ADD, "ADD").unwrap();
    map.insert(SUB, "SUB").unwrap();
    map.insert(SQUARE, "SQUARE").unwrap();
    map.insert(Operator::Constant(1.0f64.to_bits()), "ONE").unwrap();
    map
}

#[test]
fn span_discovery() {
    let e = expr(&[ADD, SQUARE, TIME, POS]);
    assert_eq!(e.find_subexpression_span(1), 2);
    assert_eq!(e.find_subexpression_span(3), 3);
    assert_eq!(e.find_subexpression_span(0), 3);
    assert_eq!(e.find_subexpression_span(2), 2);
}

#[test]
fn span_of_nested_binary() {
    // ADD(SUB(TIME, POS), SQUARE(TIME))
    let e = expr(&[ADD, SUB, TIME, POS, SQUARE, TIME]);
    assert_eq!(e.find_subexpression_span(0), 5);
    assert_eq!(e.find_subexpression_span(1), 3);
    assert_eq!(e.find_subexpression_span(4), 5);
}

#[test]
fn balance_is_checked() {
    assert!(is_balanced(&vec![TIME]));
    assert!(is_balanced(&vec![ADD, TIME, POS]));
    assert!(is_balanced(&vec![SQUARE, SQUARE, Operator::Constant(7)]));
    assert!(!is_balanced(&vec![]));
    assert!(!is_balanced(&vec![ADD, TIME]));
    assert!(!is_balanced(&vec![TIME, POS]));
    assert!(!is_balanced(&vec![SQUARE]));
    assert!(!is_balanced(&vec![TIME, ADD, TIME, POS]));
}

#[test]
fn new_refuses_what_is_no_expression() {
    assert!(Expr::new(vec![ADD, TIME]).is_none());
    assert!(Expr::new(vec![]).is_none());
    assert!(Expr::new(vec![TIME, TIME]).is_none());
    let e = Expr::new(vec![SUB, TIME, POS]).unwrap();
    assert_eq!(e.operators(), &vec![SUB, TIME, POS]);
    assert_eq!(e.len(), 3);
}

#[test]
fn sub_expr_at_copies_the_span() {
    let e = expr(&[ADD, SQUARE, TIME, POS]);
    assert_eq!(e.sub_expr_at(1).operators(), &vec![SQUARE, TIME]);
    assert_eq!(e.sub_expr_at(3).operators(), &vec![POS]);
    assert_eq!(e.sub_expr_at(0).operators(), &vec![ADD, SQUARE, TIME, POS]);
}

#[test]
fn sub_expr_is_a_span_of_its_source() {
    let e = expr(&[ADD, SUB, TIME, POS, SQUARE, TIME]);
    let source = e.operators().clone();
    for _ in 0..100 {
        let part = e.sub_expr();
        let slots = part.operators();
        assert!(is_balanced(slots));
        let found = (0..source.len()).any(|start| {
            let end = e.find_subexpression_span(start);
            &source[start..=end] == slots.as_slice()
        });
        assert!(found);
    }
}

#[test]
fn crossover_composition() {
    let host = expr(&[ADD, TIME, POS]);
    let donor = expr(&[SQUARE, TIME]);
    let child = host.crossover_at(2, &donor, 0);
    assert_eq!(child.operators(), &vec![ADD, TIME, SQUARE, TIME]);
}

#[test]
fn crossover_takes_a_part_of_the_donor() {
    let host = expr(&[ADD, SQUARE, TIME, POS]);
    let donor = expr(&[SUB, Operator::Constant(3), SQUARE, POS]);
    let child = host.crossover_at(1, &donor, 2);
    assert_eq!(child.operators(), &vec![ADD, SQUARE, POS, POS]);
    let whole = host.crossover_at(0, &donor, 1);
    assert_eq!(whole.operators(), &vec![Operator::Constant(3)]);
}

#[test]
fn crossover_length_algebra() {
    let host = expr(&[ADD, SUB, TIME, POS, SQUARE, TIME]);
    let donor = expr(&[SUB, SQUARE, SQUARE, TIME, ADD, POS, TIME]);
    for start in 0..host.len() {
        for other_start in 0..donor.len() {
            let s = host.find_subexpression_span(start) + 1 - start;
            let o = donor.find_subexpression_span(other_start) + 1 - other_start;
            let child = host.crossover_at(start, &donor, other_start);
            assert_eq!(child.len(), host.len() - s + o);
            assert!(is_balanced(child.operators()));
        }
    }
}

#[test]
fn random_crossover_stays_balanced() {
    let host = expr(&[ADD, SUB, TIME, POS, SQUARE, TIME]);
    let donor = expr(&[SUB, SQUARE, SQUARE, TIME, ADD, POS, TIME]);
    for _ in 0..200 {
        let child = host.crossover(&donor);
        assert!(is_balanced(child.operators()));
        assert!(child.len() >= 1);
        assert!(child.len() <= host.len() - 1 + donor.len());
    }
}

#[test]
fn mutate_at_puts_a_variable() {
    let host = expr(&[ADD, SQUARE, TIME, POS]);
    assert_eq!(host.mutate_at(1, false).operators(), &vec![ADD, POS, POS]);
    assert_eq!(host.mutate_at(1, true).operators(), &vec![ADD, TIME, POS]);
    assert_eq!(host.mutate_at(0, true).operators(), &vec![TIME]);
    assert_eq!(host.mutate_at(3, true).operators(), &vec![ADD, SQUARE, TIME, TIME]);
}

#[test]
fn random_mutation_replaces_one_span_by_a_variable() {
    let host = expr(&[ADD, SUB, TIME, POS, SQUARE, Operator::Constant(9)]);
    let mut seen_time = false;
    let mut seen_position = false;
    for _ in 0..200 {
        let child = host.mutate();
        assert!(is_balanced(child.operators()));
        let matches = (0..host.len()).any(|start| {
            [true, false].iter().any(|time| {
                host.mutate_at(start, *time).operators() == child.operators()
            })
        });
        assert!(matches);
        // Replacing the constant shows which variable the coin gave.
        if child.operators() == &vec![ADD, SUB, TIME, POS, SQUARE, TIME] {
            seen_time = true;
        }
        if child.operators() == &vec![ADD, SUB, TIME, POS, SQUARE, POS] {
            seen_position = true;
        }
    }
    assert!(seen_time && seen_position);
}

#[test]
fn of_variable_is_one_slot() {
    assert_eq!(Expr::of_variable(true).operators(), &vec![TIME]);
    assert_eq!(Expr::of_variable(false).operators(), &vec![POS]);
}

#[test]
fn clone_keeps_the_slots() {
    let e = expr(&[ADD, SQUARE, TIME, POS]);
    assert_eq!(e.clone().operators(), e.operators());
}

#[test]
fn generated_expressions_are_balanced_and_known() {
    let map = registry();
    for _ in 0..500 {
        let e = Expr::generate(&map, &constant);
        assert!(is_balanced(e.operators()));
        assert!(e.len() <= 2 * GENERATION_LIMIT + 1);
        assert!(e.is_known(&map));
        for op in e.operators() {
            if let Operator::Constant(bits) = op {
                assert!(*bits == constant() || *bits == 1.0f64.to_bits());
            }
        }
    }
}

#[test]
fn generation_draws_every_kind() {
    let map = registry();
    let mut time = false;
    let mut position = false;
    let mut anonymous = false;
    let mut unary = false;
    let mut binary = false;
    for _ in 0..500 {
        let e = Expr::generate(&map, &constant);
        for op in e.operators() {
            match op {
                Operator::Time => time = true,
                Operator::Position => position = true,
                Operator::Constant(bits) => {
                    if *bits == constant() {
                        anonymous = true
                    }
                },
                Operator::Unary(_) => unary = true,
                Operator::Binary(_) => binary = true,
            }
        }
    }
    assert!(time && position && anonymous && unary && binary);
}

#[test]
fn generation_over_the_bare_registry_is_one_slot() {
    let map = OperatorMap::new();
    for _ in 0..100 {
        assert_eq!(Expr::generate(&map, &constant).len(), 1);
    }
}

#[test]
fn to_string_writes_tokens_and_values() {
    let map = registry();
    let e = expr(&[ADD, SQUARE, TIME, Operator::Constant(2.5f64.to_bits())]);
    assert_eq!(e.to_string(&map, &number), "ADD SQUARE TIME 2.5 ");
    let named = expr(&[SUB, Operator::Constant(1.0f64.to_bits()), POS]);
    assert_eq!(named.to_string(&map, &number), "SUB ONE POS ");
}

#[test]
fn is_known_tells_unregistered_functions() {
    let map = registry();
    assert!(expr(&[ADD, TIME, Operator::Constant(5)]).is_known(&map));
    assert!(!expr(&[Operator::Binary(77), TIME, POS]).is_known(&map));
    assert!(!expr(&[Operator::Unary(77), TIME]).is_known(&map));
}

fn draw(kind: u32, constant: u64, raw: usize) -> Draw {
    Draw { kind, constant, raw }
}

#[test]
fn kinds_of_draws() {
    assert_eq!(KINDS, 5);
    assert_eq!(LEAF_KINDS, 3);
    assert_eq!(kind_of(0), Kind::Time);
    assert_eq!(kind_of(1), Kind::Position);
    assert_eq!(kind_of(2), Kind::Constant);
    assert_eq!(kind_of(3), Kind::Registered);
    assert_eq!(kind_of(4), Kind::Registered);
}

#[test]
fn slot_of_a_draw() {
    // TIME, POS, ADD, SUB, SQUARE, ONE
    let map = registry();
    assert_eq!(slot_of(&map, draw(0, 7, 2), 0), TIME);
    assert_eq!(slot_of(&map, draw(1, 7, 2), 0), POS);
    assert_eq!(slot_of(&map, draw(2, 7, 2), 0), Operator::Constant(7));
    assert_eq!(slot_of(&map, draw(3, 7, 2), 0), ADD);
    assert_eq!(slot_of(&map, draw(4, 7, 3), 0), SUB);
    assert_eq!(slot_of(&map, draw(3, 7, 4), 9), SQUARE);
    assert_eq!(slot_of(&map, draw(3, 7, 6), 9), TIME);
    assert_eq!(slot_of(&map, draw(3, 7, 11), 9), Operator::Constant(1.0f64.to_bits()));
}

#[test]
fn slot_of_a_draw_behind_the_limit_needs_no_operand() {
    let map = registry();
    let last = GENERATION_LIMIT - 1;
    assert_eq!(slot_of(&map, draw(3, 7, 2), last), ADD);
    assert_eq!(slot_of(&map, draw(3, 7, 2), GENERATION_LIMIT), TIME);
    assert_eq!(slot_of(&map, draw(4, 7, 2), GENERATION_LIMIT), POS);
    assert_eq!(slot_of(&map, draw(2, 7, 2), GENERATION_LIMIT), Operator::Constant(7));
    assert_eq!(slot_of(&map, draw(0, 7, 2), GENERATION_LIMIT + 5), TIME);
    assert_eq!(slot_of(&map, draw(1, 7, 2), GENERATION_LIMIT + 5), POS);
}

#[test]
fn generate_from_stops_when_nothing_is_owed() {
    let map = registry();
    let draws = vec![draw(3, 0, 2), draw(0, 0, 0), draw(1, 0, 0)];
    assert_eq!(generate_from(&map, &draws).unwrap().operators(), &vec![ADD, TIME, POS]);
    // what is drawn behind is not used
    let more = vec![draw(3, 0, 2), draw(0, 0, 0), draw(1, 0, 0), draw(3, 0, 3), draw(2, 5, 0)];
    assert_eq!(generate_from(&map, &more).unwrap().operators(), &vec![ADD, TIME, POS]);
    let one = vec![draw(2, 42, 0), draw(3, 0, 2)];
    assert_eq!(generate_from(&map, &one).unwrap().operators(), &vec![Operator::Constant(42)]);
}

#[test]
fn generate_from_nests() {
    let map = registry();
    // SUB(SQUARE(7), ADD(TIME, ONE))
    let draws = vec![
        draw(4, 0, 3),
        draw(3, 0, 4),
        draw(2, 7, 0),
        draw(3, 0, 8),
        draw(0, 0, 0),
        draw(4, 0, 5),
    ];
    assert_eq!(
        generate_from(&map, &draws).unwrap().operators(),
        &vec![SUB, SQUARE, Operator::Constant(7), ADD, TIME, Operator::Constant(1.0f64.to_bits())]
    );
}

#[test]
fn generate_from_too_few_draws_is_none() {
    let map = registry();
    assert!(generate_from(&map, &vec![]).is_none());
    assert!(generate_from(&map, &vec![draw(3, 0, 2)]).is_none());
    assert!(generate_from(&map, &vec![draw(3, 0, 2), draw(0, 0, 0)]).is_none());
    assert!(generate_from(&map, &vec![draw(3, 0, 4), draw(3, 0, 4)]).is_none());
}

#[test]
fn generate_from_closes_behind_the_limit() {
    let map = registry();
    // nothing but ADD is drawn: behind the limit every draw is a leaf
    let draws = vec![draw(3, 0, 2); 2 * GENERATION_LIMIT + 1];
    let e = generate_from(&map, &draws).unwrap();
    assert_eq!(e.len(), 2 * GENERATION_LIMIT + 1);
    assert!(e.operators()[..GENERATION_LIMIT].iter().all(|op| *op == ADD));
    assert!(e.operators()[GENERATION_LIMIT..].iter().all(|op| *op == TIME));
    let short = vec![draw(3, 0, 2); 2 * GENERATION_LIMIT];
    assert!(generate_from(&map, &short).is_none());
}

#[test]
fn generated_constants_come_from_the_supplier() {
    let map = OperatorMap::new();
    let supplier = || 77u64;
    let mut seen = false;
    for _ in 0..300 {
        let e = Expr::generate(&map, &supplier);
        for op in e.operators() {
            match op {
                Operator::Time | Operator::Position => {},
                Operator::Constant(bits) => {
                    assert_eq!(*bits, 77);
                    seen = true;
                },
                _ => panic!("a function that was never registered"),
            }
        }
    }
    assert!(seen);
}
