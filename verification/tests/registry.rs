use odegp::error::LookupError;
use odegp::error::ValidationError;
use odegp::operator::check_token;
use odegp::operator::judge;
use odegp::operator::same_text;
use odegp::operator::Operator;
use odegp::operator::OperatorMap;
use odegp::operator::POS_TOKEN;
use odegp::operator::TIME_TOKEN;

#[test]
fn new_registry_holds_the_variables() {
    let map = OperatorMap::new();
    assert_eq!(map.len(), 2);
    assert_eq!(map.get(&Operator::Time), Some(&"TIME"));
    assert_eq!(map.get(&Operator::Position), Some(&"POS"));
    assert_eq!(map.lookup_by_token(TIME_TOKEN), Ok(Operator::Time));
    assert_eq!(map.lookup_by_token(POS_TOKEN), Ok(Operator::Position));
}

#[test]
fn insert_records_an_operator() {
    let mut map = OperatorMap::new();
    assert_eq!(map.insert(Operator::Binary(0), "ADD"), Ok(()));
    assert_eq!(map.len(), 3);
    assert_eq!(map.get(&Operator::Binary(0)), Some(&"ADD"));
    assert_eq!(map.get(&Operator::Unary(0)), None);
    assert_eq!(map.lookup_by_token("ADD"), Ok(Operator::Binary(0)));
}

#[test]
fn insert_again_overwrites_the_token() {
    let mut map = OperatorMap::new();
    map.insert(Operator::Unary(4), "SIN").unwrap();
    map.insert(Operator::Unary(5), "COS").unwrap();
    map.insert(Operator::Unary(4), "SINE").unwrap();
    assert_eq!(map.len(), 4);
    assert_eq!(map.get(&Operator::Unary(4)), Some(&"SINE"));
    assert_eq!(map.get(&Operator::Unary(5)), Some(&"COS"));
    assert_eq!(map.lookup_by_token("SIN"), Err(LookupError::UnknownToken));
    assert_eq!(map.lookup_by_token("SINE"), Ok(Operator::Unary(4)));
}

#[test]
fn insert_refuses_bad_tokens() {
    let mut map = OperatorMap::new();
    assert_eq!(map.insert(Operator::Unary(0), ""), Err(ValidationError::EmptyToken));
    assert_eq!(
        map.insert(Operator::Unary(0), "A B"),
        Err(ValidationError::NonAlphanumericToken)
    );
    assert_eq!(
        map.insert(Operator::Unary(0), "A+"),
        Err(ValidationError::NonAlphanumericToken)
    );
    assert_eq!(
        map.insert(Operator::Unary(0), "2X"),
        Err(ValidationError::LeadingDigitToken)
    );
    assert_eq!(
        map.insert(Operator::Unary(0), "2 X"),
        Err(ValidationError::NonAlphanumericToken)
    );
    assert_eq!(map.insert(Operator::Unary(0), "TIME"), Err(ValidationError::ReservedToken));
    assert_eq!(map.insert(Operator::Unary(0), "POS"), Err(ValidationError::ReservedToken));
    assert_eq!(map.len(), 2);
    assert_eq!(map.get(&Operator::Unary(0)), None);
}

#[test]
fn tokens_may_hold_letters_and_digits_of_any_script() {
    assert_eq!(check_token("X2"), Ok(()));
    assert_eq!(check_token("été"), Ok(()));
    assert_eq!(check_token("x١"), Ok(()));
    assert_eq!(check_token("١x"), Err(ValidationError::LeadingDigitToken));
    assert_eq!(check_token("x_y"), Err(ValidationError::NonAlphanumericToken));
}

#[test]
fn lookup_of_an_unknown_token_fails() {
    let map = OperatorMap::new();
    assert_eq!(map.lookup_by_token("ADD"), Err(LookupError::UnknownToken));
    assert_eq!(map.lookup_by_token(""), Err(LookupError::UnknownToken));
    assert_eq!(map.lookup_by_token("TIM"), Err(LookupError::UnknownToken));
}

#[test]
fn lookup_finds_the_first_of_equal_tokens() {
    let mut map = OperatorMap::new();
    map.insert(Operator::Unary(1), "F").unwrap();
    map.insert(Operator::Unary(2), "F").unwrap();
    assert_eq!(map.lookup_by_token("F"), Ok(Operator::Unary(1)));
}

#[test]
fn named_constants_are_told_apart_by_their_bits() {
    let mut map = OperatorMap::new();
    map.insert(Operator::Constant(1.0f64.to_bits()), "ONE").unwrap();
    assert_eq!(map.get(&Operator::Constant(1.0f64.to_bits())), Some(&"ONE"));
    assert_eq!(map.get(&Operator::Constant(2.0f64.to_bits())), None);
}

#[test]
fn pick_wraps_around() {
    let mut map = OperatorMap::new();
    map.insert(Operator::Binary(0), "ADD").unwrap();
    assert_eq!(*map.pick(0), Operator::Time);
    assert_eq!(*map.pick(1), Operator::Position);
    assert_eq!(*map.pick(2), Operator::Binary(0));
    assert_eq!(*map.pick(3), Operator::Time);
    assert_eq!(*map.pick(usize::MAX), [Operator::Time, Operator::Position, Operator::Binary(0)][usize::MAX % 3]);
}

#[test]
fn rand_operator_gives_every_registered_operator() {
    let mut map = OperatorMap::new();
    map.insert(Operator::Binary(0), "ADD").unwrap();
    map.insert(Operator::Unary(0), "SQUARE").unwrap();
    let mut seen = [false; 4];
    for _ in 0..400 {
        let op = *map.rand_operator();
        assert!(map.get(&op).is_some());
        match op {
            Operator::Time => seen[0] = true,
            Operator::Position => seen[1] = true,
            Operator::Binary(0) => seen[2] = true,
            Operator::Unary(0) => seen[3] = true,
            _ => panic!("an operator that was never registered"),
        }
    }
    assert_eq!(seen, [true; 4]);
}

#[test]
fn same_text_compares_characters() {
    assert!(same_text("ADD", "ADD"));
    assert!(same_text("", ""));
    assert!(!same_text("ADD", "AD"));
    assert!(!same_text("ADD", "ADE"));
    assert!(!same_text("é", "e"));
}

#[test]
fn judge_applies_the_rules_in_order() {
    assert_eq!(judge(&vec![], false, false), Err(ValidationError::EmptyToken));
    assert_eq!(judge(&vec![], true, true), Err(ValidationError::EmptyToken));
    assert_eq!(judge(&vec![true, false], true, true), Err(ValidationError::NonAlphanumericToken));
    assert_eq!(judge(&vec![false], false, false), Err(ValidationError::NonAlphanumericToken));
    assert_eq!(judge(&vec![true, true], true, true), Err(ValidationError::LeadingDigitToken));
    assert_eq!(judge(&vec![true, true], false, true), Err(ValidationError::ReservedToken));
    assert_eq!(judge(&vec![true, true], false, false), Ok(()));
}
