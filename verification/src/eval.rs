//! What an expression is worth at a time and a position, and the stack
//! machine that computes it.

use crate::arity::balanced;
use crate::arity::closes;
use crate::arity::lemma_balanced_subrange;
use crate::arity::lemma_span_in_part;
use crate::arity::lemma_span_is;
use crate::arity::lemma_span_of_binary;
use crate::arity::lemma_span_of_leaf;
use crate::arity::lemma_span_of_unary;
use crate::arity::lemma_span_within;
use crate::arity::owed;
use crate::arity::span_end;
use crate::error::EvaluationError;
use crate::expr::crossed;
use crate::expr::extracted;
use crate::expr::law_crossed_balanced;
use crate::expr::law_extracted_balanced;
use crate::expr::law_mutated_balanced;
use crate::expr::mutated;
use crate::expr::Expr;
use crate::operator::effect;
use crate::operator::Operator;
use crate::scalar::compute;
use crate::scalar::dependable;
use crate::scalar::outcome;
use crate::scalar::Calc;
use crate::scalar::ZERO;
use vstd::prelude::*;

verus! {

/// The value of the expression that begins at slot `at`: a variable is
/// worth what is bound to it, a constant itself, and a function what
/// `arith` makes of the values of its operands, which follow it from left
/// to right.
pub open spec fn value_at<A: Fn(Calc, u64, u64) -> u64>(
    arith: A,
    tokens: Seq<Operator>,
    time: u64,
    position: u64,
    at: int,
) -> u64
    decreases tokens.len() - at,
{
    if at < 0 || at >= tokens.len() {
        ZERO
    } else {
        match tokens[at] {
            Operator::Time => time,
            Operator::Position => position,
            Operator::Constant(c) => c,
            Operator::Unary(f) => outcome(
                arith,
                Calc::Unary(f),
                value_at(arith, tokens, time, position, at + 1),
                ZERO,
            ),
            Operator::Binary(f) => {
                let second = span_end(tokens, at + 1) + 1;
                if at < second <= tokens.len() {
                    outcome(
                        arith,
                        Calc::Binary(f),
                        value_at(arith, tokens, time, position, at + 1),
                        value_at(arith, tokens, time, position, second),
                    )
                } else {
                    ZERO
                }
            },
        }
    }
}

/// The values of the expressions that stand side by side from slot `at`
/// to the end, the last of them first.
pub open spec fn values_from<A: Fn(Calc, u64, u64) -> u64>(
    arith: A,
    tokens: Seq<Operator>,
    time: u64,
    position: u64,
    at: int,
) -> Seq<u64>
    decreases tokens.len() - at,
{
    if at < 0 || at >= tokens.len() {
        Seq::empty()
    } else {
        let next = span_end(tokens, at) + 1;
        if at < next <= tokens.len() {
            values_from(arith, tokens, time, position, next).push(
                value_at(arith, tokens, time, position, at),
            )
        } else {
            Seq::empty()
        }
    }
}

/// Somewhere a function finds fewer operands than it takes: at some slot
/// no more is owed than at the end.
pub open spec fn starved(tokens: Seq<Operator>) -> bool {
    exists|at: int| 0 <= at < tokens.len() && #[trigger] owed(tokens, at) <= owed(
        tokens,
        tokens.len() as int,
    )
}

/// What evaluating a sequence of slots comes to: the value where the slots
/// form one expression, and else the reason why they do not.
pub open spec fn evaluation<A: Fn(Calc, u64, u64) -> u64>(
    arith: A,
    tokens: Seq<Operator>,
    time: u64,
    position: u64,
) -> Result<u64, EvaluationError> {
    if balanced(tokens) {
        Ok(value_at(arith, tokens, time, position, 0))
    } else if starved(tokens) {
        Err(EvaluationError::MissingOperand)
    } else {
        Err(EvaluationError::NotOneValue)
    }
}

/// Evaluates the slots from the last to the first on a stack of values: a
/// variable or constant is pushed, a function takes its operands off the
/// stack, the first operand from the top, and pushes its result.
pub fn evaluate<A: Fn(Calc, u64, u64) -> u64>(
    operators: &Vec<Operator>,
    time: u64,
    position: u64,
    arith: &A,
) -> (r: Result<u64, EvaluationError>)
    requires
        dependable(*arith),
    ensures
        r == evaluation(*arith, operators@, time, position),
{
    let ghost tokens = operators@;
    let n: usize = operators.len();
    let mut stack: Vec<u64> = Vec::new();
    let mut i: usize = n;
    while i > 0
        invariant
            dependable(*arith),
            tokens == operators@,
            n == tokens.len(),
            i <= n,
            stack@.len() == owed(tokens, i as int) - owed(tokens, n as int),
            forall|j: int| i <= j < n ==> #[trigger] owed(tokens, j) > owed(tokens, n as int),
            stack@ == values_from(*arith, tokens, time, position, i as int),
        decreases i,
    {
        let ghost above = i as int;
        i -= 1;
        let ghost at = i as int;
        proof {
            if above < n {
                lemma_span_within(tokens, above);
            }
        }
        match operators[i] {
            Operator::Time => {
                stack.push(time);
                proof {
                    lemma_span_of_leaf(tokens, at);
                }
            },
            Operator::Position => {
                stack.push(position);
                proof {
                    lemma_span_of_leaf(tokens, at);
                }
            },
            Operator::Constant(c) => {
                stack.push(c);
                proof {
                    lemma_span_of_leaf(tokens, at);
                }
            },
            Operator::Unary(f) => {
                if stack.len() < 1 {
                    proof {
                        assert(owed(tokens, at) <= owed(tokens, n as int));
                        lemma_starved_unbalanced(tokens);
                    }
                    return Err(EvaluationError::MissingOperand);
                }
                let operand: u64 = stack.pop().unwrap();
                stack.push(compute(arith, Calc::Unary(f), operand, ZERO));
                proof {
                    lemma_span_of_unary(tokens, at, span_end(tokens, above));
                    assert(stack@ =~= values_from(*arith, tokens, time, position, at));
                }
            },
            Operator::Binary(f) => {
                if stack.len() < 2 {
                    proof {
                        assert(owed(tokens, at) <= owed(tokens, n as int));
                        lemma_starved_unbalanced(tokens);
                    }
                    return Err(EvaluationError::MissingOperand);
                }
                let ghost before = stack@;
                let first: u64 = stack.pop().unwrap();
                let second: u64 = stack.pop().unwrap();
                stack.push(compute(arith, Calc::Binary(f), first, second));
                proof {
                    let first_end = span_end(tokens, above);
                    let next = first_end + 1;
                    assert(owed(tokens, next) > owed(tokens, n as int));
                    lemma_span_within(tokens, next);
                    let end = span_end(tokens, next);
                    lemma_span_of_binary(tokens, at, first_end, end);
                    let rest = values_from(*arith, tokens, time, position, end + 1);
                    let below = values_from(*arith, tokens, time, position, next);
                    assert(below == rest.push(value_at(*arith, tokens, time, position, next)));
                    assert(before == below.push(value_at(*arith, tokens, time, position, above)));
                    assert(first == value_at(*arith, tokens, time, position, above));
                    assert(second == value_at(*arith, tokens, time, position, next));
                    assert(values_from(*arith, tokens, time, position, at) == rest.push(
                        value_at(*arith, tokens, time, position, at),
                    ));
                    assert(stack@ =~= values_from(*arith, tokens, time, position, at));
                }
            },
        }
    }
    if stack.len() == 1 {
        proof {
            assert(owed(tokens, 0) == 1);
        }
        Ok(stack[0])
    } else {
        proof {
            assert(owed(tokens, 0) == 1);
            assert(!starved(tokens));
        }
        Err(EvaluationError::NotOneValue)
    }
}

/// Slots among which a function lacks an operand do not form an
/// expression.
pub proof fn lemma_starved_unbalanced(tokens: Seq<Operator>)
    requires
        starved(tokens),
    ensures
        !balanced(tokens),
{
}

/// The value of an expression does not depend on what stands around it:
/// inside a part that is an expression, values are what they are in the
/// part alone.
pub proof fn lemma_value_in_part<A: Fn(Calc, u64, u64) -> u64>(
    arith: A,
    tokens: Seq<Operator>,
    time: u64,
    position: u64,
    start: int,
    end: int,
    at: int,
)
    requires
        closes(tokens, start, end),
        start <= at <= end,
    ensures
        value_at(arith, tokens, time, position, at) == value_at(
            arith,
            tokens.subrange(start, end + 1),
            time,
            position,
            at - start,
        ),
    decreases end - at,
{
    let part = tokens.subrange(start, end + 1);
    assert(part[at - start] == tokens[at]);
    lemma_span_in_part(tokens, start, end, at);
    lemma_balanced_subrange(tokens, at, span_end(tokens, at));
    match tokens[at] {
        Operator::Unary(_) => {
            assert(owed(tokens, at + 1) == owed(tokens, at));
            lemma_value_in_part(arith, tokens, time, position, start, end, at + 1);
        },
        Operator::Binary(_) => {
            assert(owed(tokens, at + 1) == owed(tokens, at) + 1);
            lemma_span_in_part(tokens, start, end, at + 1);
            let second = span_end(tokens, at + 1) + 1;
            lemma_balanced_subrange(tokens, at + 1, second - 1);
            assert(owed(tokens, second) >= owed(tokens, at));
            lemma_value_in_part(arith, tokens, time, position, start, end, at + 1);
            lemma_value_in_part(arith, tokens, time, position, start, end, second);
        },
        _ => {},
    }
}

/// A variable is worth what is bound to it, and a constant itself.
pub proof fn law_value_of_leaf<A: Fn(Calc, u64, u64) -> u64>(
    arith: A,
    leaf: Operator,
    time: u64,
    position: u64,
)
    requires
        effect(leaf) == -1,
    ensures
        balanced(seq![leaf]),
        value_at(arith, seq![leaf], time, position, 0) == match leaf {
            Operator::Time => time,
            Operator::Position => position,
            Operator::Constant(c) => c,
            _ => ZERO,
        },
{
    lemma_span_of_leaf(seq![leaf], 0);
    assert(seq![leaf].subrange(0, 1) =~= seq![leaf]);
}

/// A function of one argument before an expression is worth the function
/// at the value of that expression.
pub proof fn law_value_of_unary<A: Fn(Calc, u64, u64) -> u64>(
    arith: A,
    f: u64,
    operand: Seq<Operator>,
    time: u64,
    position: u64,
)
    requires
        balanced(operand),
    ensures
        balanced(seq![Operator::Unary(f)] + operand),
        value_at(arith, seq![Operator::Unary(f)] + operand, time, position, 0) == outcome(
            arith,
            Calc::Unary(f),
            value_at(arith, operand, time, position, 0),
            ZERO,
        ),
{
    let whole = seq![Operator::Unary(f)] + operand;
    let n = operand.len() as int;
    assert(whole.subrange(1, n + 1) =~= operand);
    lemma_span_of_unary(whole, 0, n);
    assert(whole.subrange(0, n + 1) =~= whole);
    lemma_value_in_part(arith, whole, time, position, 1, n, 1);
}

/// A function of two arguments before two expressions is worth the
/// function at their values, the first expression's value first.
pub proof fn law_value_of_binary<A: Fn(Calc, u64, u64) -> u64>(
    arith: A,
    f: u64,
    first: Seq<Operator>,
    second: Seq<Operator>,
    time: u64,
    position: u64,
)
    requires
        balanced(first),
        balanced(second),
    ensures
        balanced(seq![Operator::Binary(f)] + first + second),
        value_at(arith, seq![Operator::Binary(f)] + first + second, time, position, 0) == outcome(
            arith,
            Calc::Binary(f),
            value_at(arith, first, time, position, 0),
            value_at(arith, second, time, position, 0),
        ),
{
    let whole = seq![Operator::Binary(f)] + first + second;
    let n = first.len() as int;
    let m = second.len() as int;
    assert(whole.subrange(1, n + 1) =~= first);
    assert(whole.subrange(n + 1, n + m + 1) =~= second);
    lemma_span_is(whole, 1, n);
    lemma_span_of_binary(whole, 0, n, n + m);
    assert(whole.subrange(0, n + m + 1) =~= whole);
    lemma_value_in_part(arith, whole, time, position, 1, n, 1);
    lemma_value_in_part(arith, whole, time, position, n + 1, n + m, n + 1);
}

/// Slots that form one expression always evaluate, to the value of the
/// expression that begins at the first slot.
pub proof fn law_expressions_evaluate<A: Fn(Calc, u64, u64) -> u64>(
    arith: A,
    tokens: Seq<Operator>,
    time: u64,
    position: u64,
)
    requires
        balanced(tokens),
    ensures
        evaluation(arith, tokens, time, position) == Ok::<u64, EvaluationError>(
            value_at(arith, tokens, time, position, 0),
        ),
        !starved(tokens),
{
}

/// What extraction, crossover and mutation make of expressions are
/// expressions again, so they evaluate.
pub proof fn law_offspring_evaluate<A: Fn(Calc, u64, u64) -> u64>(
    arith: A,
    host: Seq<Operator>,
    donor: Seq<Operator>,
    child: Seq<Operator>,
    time: u64,
    position: u64,
)
    requires
        balanced(host),
        balanced(donor),
        crossed(child, host, donor) || mutated(child, host) || extracted(child, host),
    ensures
        balanced(child),
        evaluation(arith, child, time, position) is Ok,
{
    if crossed(child, host, donor) {
        law_crossed_balanced(child, host, donor);
    } else if mutated(child, host) {
        law_mutated_balanced(child, host);
    } else {
        law_extracted_balanced(child, host);
    }
}

impl Expr {
    /// The value of the expression at a time and a position.
    pub fn eval<A: Fn(Calc, u64, u64) -> u64>(&self, time: u64, position: u64, arith: &A) -> (r:
        u64)
        requires
            dependable(*arith),
        ensures
            r == value_at(*arith, self@, time, position, 0),
    {
        evaluate(self.operators(), time, position, arith).unwrap()
    }
}

} // verus!
