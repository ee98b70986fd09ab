//! Expressions in prefix notation, and the operators that breed them.

use crate::arity::balanced;
use crate::arity::lemma_balanced_subrange;
use crate::arity::lemma_owed_agrees;
use crate::arity::lemma_owed_floor;
use crate::arity::lemma_span_exists;
use crate::arity::lemma_span_is;
use crate::arity::lemma_splice_balanced;
use crate::arity::owed;
use crate::arity::span_end;
use crate::arity::spliced;
use crate::chance::any_index;
use crate::chance::between;
use crate::chance::coin;
use crate::operator::effect;
use crate::operator::known;
use crate::operator::lemma_place_of;
use crate::operator::place_of;
use crate::operator::registered;
use crate::operator::Operator;
use crate::operator::OperatorMap;
use vstd::prelude::*;
use vstd::string::*;

verus! {

/// While an expression under generation is shorter than this, every kind
/// of slot may be drawn; from here on only variables and constants are, so
/// that the expression closes.
pub const GENERATION_LIMIT: usize = 4096;

/// The draws among which generation chooses the kind of a slot.
pub const KINDS: u32 = 5;

/// The draws that stand for a variable or a constant; they come first.
pub const LEAF_KINDS: u32 = 3;

/// The kinds of slot that generation draws from.
#[derive(Clone, Copy, Debug, PartialEq, Eq, Structural)]
pub enum Kind {
    /// The time variable.
    Time,
    /// The position variable.
    Position,
    /// A constant that is not registered.
    Constant,
    /// An operator of the registry.
    Registered,
}

/// The kind that a draw stands for: one draw each for time, position and
/// a constant, every other draw for the registry.
pub open spec fn kind_for(draw: u32) -> Kind {
    match draw {
        0 => Kind::Time,
        1 => Kind::Position,
        2 => Kind::Constant,
        _ => Kind::Registered,
    }
}

/// The kind that a draw stands for.
pub fn kind_of(draw: u32) -> (kind: Kind)
    ensures
        kind == kind_for(draw),
{
    match draw {
        0 => Kind::Time,
        1 => Kind::Position,
        2 => Kind::Constant,
        _ => Kind::Registered,
    }
}

/// What is drawn for one slot: the kind, and with it the value that a
/// constant takes and the draw that picks an operator of the registry.
/// Only the kind that is drawn reads its part; the other part is idle.
#[derive(Clone, Copy, Debug, PartialEq, Eq, Structural)]
pub struct Draw {
    /// The draw of the kind; see `kind_for`.
    pub kind: u32,
    /// The value of the constant.
    pub constant: u64,
    /// The draw that the registry takes; see `OperatorMap::pick`.
    pub raw: usize,
}

/// The kind of the slot at place `at` for a draw: what the draw stands for,
/// and from `GENERATION_LIMIT` on what it stands for when counted round
/// the kinds that need no operand, so that the expression closes.
pub open spec fn kind_at(draw: u32, at: int) -> Kind {
    if at < GENERATION_LIMIT {
        kind_for(draw)
    } else {
        kind_for(draw % LEAF_KINDS)
    }
}

/// The slot at place `at` that a draw yields over the entries of a
/// registry.
pub open spec fn slot(entries: Seq<(Operator, Seq<char>)>, draw: Draw, at: int) -> Operator {
    match kind_at(draw.kind, at) {
        Kind::Time => Operator::Time,
        Kind::Position => Operator::Position,
        Kind::Constant => Operator::Constant(draw.constant),
        Kind::Registered => entries[draw.raw as int % entries.len() as int].0,
    }
}

/// The slots that the first `n` draws yield, in their order.
pub open spec fn slots(entries: Seq<(Operator, Seq<char>)>, draws: Seq<Draw>, n: int) -> Seq<
    Operator,
> {
    Seq::new(n as nat, |i: int| slot(entries, draws[i], i))
}

/// `tokens` is what these draws yield, all of them; each kind is one of
/// those that are drawn, and each constant is an answer of `constant`.
pub open spec fn drawn<C: Fn() -> u64>(
    entries: Seq<(Operator, Seq<char>)>,
    constant: C,
    draws: Seq<Draw>,
    tokens: Seq<Operator>,
) -> bool {
    &&& tokens == slots(entries, draws, draws.len() as int)
    &&& forall|i: int|
        0 <= i < draws.len() ==> {
            let draw = #[trigger] draws[i];
            &&& draw.kind < KINDS
            &&& kind_at(draw.kind, i) == Kind::Constant ==> call_ensures(
                constant,
                (),
                draw.constant,
            )
        }
}

/// `tokens` is an outcome of generation over the registry: some draws yield
/// it, and each of its slots is registered or a constant that `constant`
/// answered.
pub open spec fn generated<C: Fn() -> u64>(
    entries: Seq<(Operator, Seq<char>)>,
    constant: C,
    tokens: Seq<Operator>,
) -> bool {
    &&& exists|draws: Seq<Draw>| #[trigger] drawn(entries, constant, draws, tokens)
    &&& forall|i: int|
        0 <= i < tokens.len() ==> registered(entries, #[trigger] tokens[i]) || (tokens[i] is Constant
            && call_ensures(constant, (), tokens[i]->Constant_0))
}

/// The slot at place `at` that a draw yields over the registry.
pub fn slot_of(map: &OperatorMap, draw: Draw, at: usize) -> (op: Operator)
    ensures
        op == slot(map@, draw, at as int),
        at >= GENERATION_LIMIT ==> effect(op) == -1,
        kind_at(draw.kind, at as int) == Kind::Registered ==> registered(map@, op),
{
    let kind = if at < GENERATION_LIMIT {
        kind_of(draw.kind)
    } else {
        kind_of(draw.kind % LEAF_KINDS)
    };
    match kind {
        Kind::Time => Operator::Time,
        Kind::Position => Operator::Position,
        Kind::Constant => Operator::Constant(draw.constant),
        Kind::Registered => *map.pick(draw.raw),
    }
}

/// The expression that the draws yield: slot after slot until nothing is
/// owed any more. The draws behind that are not used. Where the draws run
/// out before, they yield none.
pub fn generate_from(map: &OperatorMap, draws: &Vec<Draw>) -> (r: Option<Expr>)
    ensures
        match r {
            Some(expr) => exists|n: int|
                0 < n <= draws@.len() && balanced(expr@) && expr@ == #[trigger] slots(
                    map@,
                    draws@,
                    n,
                ),
            None => forall|n: int|
                0 < n <= draws@.len() ==> !balanced(#[trigger] slots(map@, draws@, n)),
        },
{
    let total: usize = draws.len();
    let ghost all = slots(map@, draws@, total as int);
    let mut operators: Vec<Operator> = Vec::new();
    let mut need: usize = 1;
    let mut i: usize = 0;
    while i < total
        invariant
            total == draws@.len(),
            all == slots(map@, draws@, total as int),
            i <= total,
            operators@ == slots(map@, draws@, i as int),
            need == owed(all, i as int),
            0 < need <= i + 1,
            forall|k: int| 0 <= k <= i ==> #[trigger] owed(all, k) > 0,
        decreases total - i,
    {
        if need > total - i {
            proof {
                lemma_never_closes(map@, draws@, i as int);
            }
            return None;
        }
        let operator = slot_of(map, draws[i], i);
        need = settle(need, operator);
        operators.push(operator);
        i += 1;
        proof {
            assert(all[i - 1] == operator);
            assert(operators@ =~= slots(map@, draws@, i as int));
        }
        if need == 0 {
            proof {
                lemma_prefix_owes(map@, draws@, i as int, total as int);
            }
            return Some(Expr { operators });
        }
    }
    proof {
        lemma_never_closes(map@, draws@, total as int);
    }
    None
}

/// The first `n` of the slots that draws yield owe what the slots of all
/// the draws owe, as far as they go.
pub proof fn lemma_prefix_owes(
    entries: Seq<(Operator, Seq<char>)>,
    draws: Seq<Draw>,
    n: int,
    total: int,
)
    requires
        0 <= n <= total,
    ensures
        forall|k: int|
            0 <= k <= n ==> #[trigger] owed(slots(entries, draws, n), k) == owed(
                slots(entries, draws, total),
                k,
            ),
{
    assert forall|k: int| 0 <= k <= n implies #[trigger] owed(slots(entries, draws, n), k) == owed(
        slots(entries, draws, total),
        k,
    ) by {
        lemma_owed_agrees(slots(entries, draws, n), slots(entries, draws, total), k);
    }
}

/// Draws yield one expression at most: where the first `n` of them close
/// an expression, no other number of them does, and so none of the draws
/// behind is used.
pub proof fn law_draws_close_once(
    entries: Seq<(Operator, Seq<char>)>,
    draws: Seq<Draw>,
    n: int,
    m: int,
)
    requires
        0 < n <= draws.len(),
        0 < m <= draws.len(),
        balanced(slots(entries, draws, n)),
        balanced(slots(entries, draws, m)),
    ensures
        n == m,
{
    let total = draws.len() as int;
    lemma_prefix_owes(entries, draws, n, total);
    lemma_prefix_owes(entries, draws, m, total);
    if n < m {
        assert(owed(slots(entries, draws, m), n) > 0);
        assert(owed(slots(entries, draws, n), n) == 0);
    }
    if m < n {
        assert(owed(slots(entries, draws, n), m) > 0);
        assert(owed(slots(entries, draws, m), m) == 0);
    }
}

/// Draws that still owe more after some of them than draws are left, and
/// owed something all the way there, never yield an expression.
proof fn lemma_never_closes(entries: Seq<(Operator, Seq<char>)>, draws: Seq<Draw>, done: int)
    requires
        0 <= done <= draws.len(),
        forall|k: int|
            0 <= k <= done ==> #[trigger] owed(slots(entries, draws, draws.len() as int), k) > 0,
        owed(slots(entries, draws, draws.len() as int), done) > draws.len() - done || done
            == draws.len(),
    ensures
        forall|n: int| 0 < n <= draws.len() ==> !balanced(#[trigger] slots(entries, draws, n)),
{
    let total = draws.len() as int;
    let all = slots(entries, draws, total);
    assert forall|n: int| 0 < n <= draws.len() implies !balanced(
        #[trigger] slots(entries, draws, n),
    ) by {
        lemma_prefix_owes(entries, draws, n, total);
        assert(owed(slots(entries, draws, n), n) == owed(all, n));
        if n > done {
            lemma_owed_floor(all, done, n);
        } else {
            assert(owed(all, n) > 0);
        }
    }
}

/// The variable that a coin picks: time for `true`, position for `false`.
pub open spec fn variable(time: bool) -> Operator {
    if time {
        Operator::Time
    } else {
        Operator::Position
    }
}

/// `child` is `host` with one of its expressions replaced by one of
/// `donor`.
pub open spec fn crossed(child: Seq<Operator>, host: Seq<Operator>, donor: Seq<Operator>) -> bool {
    exists|start: int, other_start: int|
        0 <= start < host.len() && 0 <= other_start < donor.len() && child == spliced(
            host,
            start,
            #[trigger] span_end(host, start),
            donor.subrange(other_start, #[trigger] span_end(donor, other_start) + 1),
        )
}

/// `child` is `host` with one of its expressions replaced by a variable.
pub open spec fn mutated(child: Seq<Operator>, host: Seq<Operator>) -> bool {
    exists|start: int, time: bool|
        0 <= start < host.len() && child == spliced(
            host,
            start,
            #[trigger] span_end(host, start),
            seq![#[trigger] variable(time)],
        )
}

/// The text that `number` writes for a constant.
pub open spec fn printed<N: Fn(u64) -> String>(number: N, bits: u64) -> Seq<char> {
    (choose|text: String| call_ensures(number, (bits,), text))@
}

/// `number` accepts every constant and writes each in one way only.
pub open spec fn legible<N: Fn(u64) -> String>(number: N) -> bool {
    &&& forall|bits: u64| #[trigger] call_requires(number, (bits,))
    &&& forall|bits: u64, text: String| #[trigger]
        call_ensures(number, (bits,), text) ==> text@ == printed(number, bits)
}

/// How one slot is written: a registered operator as its token, any other
/// constant as its value.
pub open spec fn word<N: Fn(u64) -> String>(
    entries: Seq<(Operator, Seq<char>)>,
    number: N,
    op: Operator,
) -> Seq<char> {
    if registered(entries, op) {
        entries[place_of(entries, op)].1
    } else {
        match op {
            Operator::Constant(bits) => printed(number, bits),
            _ => Seq::empty(),
        }
    }
}

/// The slots written one after the other, a space behind each.
pub open spec fn description<N: Fn(u64) -> String>(
    entries: Seq<(Operator, Seq<char>)>,
    number: N,
    tokens: Seq<Operator>,
) -> Seq<char>
    decreases tokens.len(),
{
    if tokens.len() == 0 {
        Seq::empty()
    } else {
        description(entries, number, tokens.drop_last()) + word(entries, number, tokens.last())
            + seq![' ']
    }
}

/// `child` is one of the expressions inside `host`.
pub open spec fn extracted(child: Seq<Operator>, host: Seq<Operator>) -> bool {
    exists|start: int|
        0 <= start < host.len() && child == host.subrange(
            start,
            #[trigger] span_end(host, start) + 1,
        )
}

/// An expression inside an expression is an expression.
pub proof fn law_extracted_balanced(child: Seq<Operator>, host: Seq<Operator>)
    requires
        balanced(host),
        extracted(child, host),
    ensures
        balanced(child),
        child.len() <= host.len(),
{
    let start = choose|start: int|
        0 <= start < host.len() && child == host.subrange(
            start,
            #[trigger] span_end(host, start) + 1,
        );
    lemma_span_exists(host, start);
}

/// A crossover of two expressions is an expression, as long as the host
/// without what it lost and with what it got.
pub proof fn law_crossover_length(
    host: Seq<Operator>,
    start: int,
    donor: Seq<Operator>,
    other_start: int,
)
    requires
        balanced(host),
        balanced(donor),
        0 <= start < host.len(),
        0 <= other_start < donor.len(),
    ensures
        ({
            let lost = span_end(host, start) + 1 - start;
            let got = span_end(donor, other_start) + 1 - other_start;
            let child = spliced(
                host,
                start,
                span_end(host, start),
                donor.subrange(other_start, span_end(donor, other_start) + 1),
            );
            &&& 1 <= lost <= host.len()
            &&& 1 <= got <= donor.len()
            &&& child.len() == host.len() - lost + got
            &&& balanced(child)
        }),
{
    lemma_span_exists(host, start);
    lemma_span_exists(donor, other_start);
    lemma_splice_balanced(
        host,
        start,
        span_end(host, start),
        donor.subrange(other_start, span_end(donor, other_start) + 1),
    );
}

/// A crossover of two expressions is an expression.
pub proof fn law_crossed_balanced(child: Seq<Operator>, host: Seq<Operator>, donor: Seq<Operator>)
    requires
        balanced(host),
        balanced(donor),
        crossed(child, host, donor),
    ensures
        balanced(child),
        1 <= child.len() <= host.len() - 1 + donor.len(),
{
    let (start, other_start) = choose|start: int, other_start: int|
        0 <= start < host.len() && 0 <= other_start < donor.len() && child == spliced(
            host,
            start,
            #[trigger] span_end(host, start),
            donor.subrange(other_start, #[trigger] span_end(donor, other_start) + 1),
        );
    law_crossover_length(host, start, donor, other_start);
}

/// A mutation of an expression is an expression, and no longer than it.
pub proof fn law_mutated_balanced(child: Seq<Operator>, host: Seq<Operator>)
    requires
        balanced(host),
        mutated(child, host),
    ensures
        balanced(child),
        1 <= child.len() <= host.len(),
{
    let (start, time) = choose|start: int, time: bool|
        0 <= start < host.len() && child == spliced(
            host,
            start,
            #[trigger] span_end(host, start),
            seq![#[trigger] variable(time)],
        );
    let single = seq![variable(time)];
    assert(owed(single, 0) == 1);
    assert(owed(single, 1) == 0);
    lemma_span_exists(host, start);
    lemma_splice_balanced(host, start, span_end(host, start), single);
}

/// What is owed after one more slot.
fn settle(need: usize, op: Operator) -> (r: usize)
    requires
        0 < need < usize::MAX,
    ensures
        r == need + effect(op),
{
    match op {
        Operator::Unary(_) => need,
        Operator::Binary(_) => need + 1,
        _ => need - 1,
    }
}

/// Whether the slots form exactly one expression.
pub fn is_balanced(operators: &Vec<Operator>) -> (r: bool)
    ensures
        r == balanced(operators@),
{
    let n: usize = operators.len();
    if n == 0 {
        return false;
    }
    let mut need: usize = 1;
    let mut i: usize = 0;
    while i < n
        invariant
            n == operators@.len(),
            i <= n,
            need == owed(operators@, i as int),
            0 < need <= i + 1,
            forall|k: int| 0 <= k < i ==> #[trigger] owed(operators@, k) > 0,
        decreases n - i,
    {
        if need > n - i {
            proof {
                lemma_owed_floor(operators@, i as int, n as int);
            }
            return false;
        }
        assert(owed(operators@, i as int) > 0);
        need = settle(need, operators[i]);
        i += 1;
        if need == 0 {
            assert(owed(operators@, i as int) == 0);
            return i == n;
        }
    }
    false
}

/// Appends the slots of `source` from `from` up to `to`.
fn extend_with(target: &mut Vec<Operator>, source: &Vec<Operator>, from: usize, to: usize)
    requires
        from <= to <= source@.len(),
    ensures
        final(target)@ == old(target)@ + source@.subrange(from as int, to as int),
{
    let mut i: usize = from;
    while i < to
        invariant
            from <= i <= to <= source@.len(),
            target@ == old(target)@ + source@.subrange(from as int, i as int),
        decreases to - i,
    {
        target.push(source[i]);
        i += 1;
        assert(target@ =~= old(target)@ + source@.subrange(from as int, i as int));
    }
    assert(target@ =~= old(target)@ + source@.subrange(from as int, to as int));
}

/// A symbolic formula over time and position: its slots in prefix
/// notation. The slots of every value form exactly one expression.
pub struct Expr {
    operators: Vec<Operator>,
}

impl Clone for Expr {
    /// A copy with the same slots.
    fn clone(&self) -> (r: Expr)
        ensures
            r@ == self@,
    {
        proof {
            use_type_invariant(self);
        }
        let mut operators: Vec<Operator> = Vec::new();
        extend_with(&mut operators, &self.operators, 0, self.operators.len());
        proof {
            assert(operators@ =~= self.operators@);
        }
        Expr { operators }
    }
}

impl Expr {
    #[verifier::type_invariant]
    spec fn inv(self) -> bool {
        balanced(self.operators@)
    }

    /// The slots, first to last.
    pub closed spec fn view(&self) -> Seq<Operator> {
        self.operators@
    }

    /// The expression with these slots, if they form one.
    pub fn new(operators: Vec<Operator>) -> (r: Option<Expr>)
        ensures
            match r {
                Some(expr) => balanced(operators@) && expr@ == operators@,
                None => !balanced(operators@),
            },
    {
        if is_balanced(&operators) {
            Some(Expr { operators })
        } else {
            None
        }
    }

    /// The expression that is one variable: time for `true`, position for
    /// `false`.
    pub fn of_variable(time: bool) -> (r: Expr)
        ensures
            r@ == seq![variable(time)],
    {
        let mut operators: Vec<Operator> = Vec::new();
        if time {
            operators.push(Operator::Time);
        } else {
            operators.push(Operator::Position);
        }
        proof {
            assert(operators@ =~= seq![variable(time)]);
            assert(owed(operators@, 0) == 1);
            assert(owed(operators@, 1) == 0);
        }
        Expr { operators }
    }

    /// A random expression over the registry. Each slot is drawn from five
    /// kinds, each as likely as any other: time, position, a constant that
    /// `constant` supplies, and twice an operator of the registry. Drawing
    /// ends when nothing is owed any more. From `GENERATION_LIMIT` slots on,
    /// only the first three kinds are drawn. The expression is what
    /// `generate_from` makes of the draws.
    pub fn generate<C: Fn() -> u64>(map: &OperatorMap, constant: &C) -> (r: Expr)
        requires
            call_requires(*constant, ()),
        ensures
            balanced(r@),
            r@.len() <= 2 * GENERATION_LIMIT + 1,
            generated(map@, *constant, r@),
            forall|i: int| 0 <= i < r@.len() ==> known(map@, #[trigger] r@[i]),
    {
        // Every registry holds the two variables.
        map.len();
        proof {
            lemma_place_of(map@, Operator::Time, 0);
            lemma_place_of(map@, Operator::Position, 1);
        }
        let mut draws: Vec<Draw> = Vec::new();
        let mut need: usize = 1;
        while need > 0
            invariant
                call_requires(*constant, ()),
                registered(map@, Operator::Time),
                registered(map@, Operator::Position),
                need == owed(slots(map@, draws@, draws@.len() as int), draws@.len() as int),
                forall|k: int|
                    0 <= k < draws@.len() ==> #[trigger] owed(
                        slots(map@, draws@, draws@.len() as int),
                        k,
                    ) > 0,
                drawn(map@, *constant, draws@, slots(map@, draws@, draws@.len() as int)),
                forall|i: int|
                    0 <= i < draws@.len() ==> {
                        let op = #[trigger] slots(map@, draws@, draws@.len() as int)[i];
                        registered(map@, op) || (op is Constant && call_ensures(
                            *constant,
                            (),
                            op->Constant_0,
                        ))
                    },
                draws@.len() < GENERATION_LIMIT ==> need <= draws@.len() + 1,
                draws@.len() >= GENERATION_LIMIT ==> draws@.len() + need <= 2 * GENERATION_LIMIT
                    + 1,
            decreases 2 * GENERATION_LIMIT + 2 - draws@.len(),
        {
            let at: usize = draws.len();
            let kinds: u32 = if at < GENERATION_LIMIT {
                KINDS
            } else {
                LEAF_KINDS
            };
            let kind: u32 = between(0, kinds);
            let draw = match kind_of(kind) {
                Kind::Constant => Draw { kind, constant: constant(), raw: 0 },
                Kind::Registered => Draw { kind, constant: 0, raw: any_index() },
                _ => Draw { kind, constant: 0, raw: 0 },
            };
            let operator = slot_of(map, draw, at);
            let ghost before = draws@;
            let ghost held = slots(map@, before, at as int);
            need = settle(need, operator);
            draws.push(draw);
            proof {
                let now = slots(map@, draws@, at + 1);
                assert(now =~= held.push(operator));
                assert forall|k: int| 0 <= k <= at implies #[trigger] owed(now, k) == owed(
                    held,
                    k,
                ) by {
                    lemma_owed_agrees(now, held, k);
                }
                assert(owed(now, at + 1) == owed(now, at as int) + effect(operator));
                assert forall|i: int| 0 <= i < at + 1 implies {
                    let op = #[trigger] now[i];
                    registered(map@, op) || (op is Constant && call_ensures(
                        *constant,
                        (),
                        op->Constant_0,
                    ))
                } by {
                    if i < at {
                        assert(now[i] == held[i]);
                    } else {
                        assert(now[i] == operator);
                        assert(kind_at(kind, at as int) == kind_for(kind));
                    }
                }
            }
        }
        let ghost all = slots(map@, draws@, draws@.len() as int);
        let made = generate_from(map, &draws);
        proof {
            assert(balanced(all));
            if made is Some {
                let n = choose|n: int|
                    0 < n <= draws@.len() && balanced(made->Some_0@) && made->Some_0@
                        == #[trigger] slots(map@, draws@, n);
                law_draws_close_once(map@, draws@, n, draws@.len() as int);
            }
        }
        made.unwrap()
    }

    /// Whether every slot can be written down with the registry: it is
    /// registered or a constant.
    pub fn is_known(&self, map: &OperatorMap) -> (r: bool)
        ensures
            r == forall|i: int| 0 <= i < self@.len() ==> known(map@, #[trigger] self@[i]),
    {
        let n: usize = self.operators.len();
        let mut i: usize = 0;
        while i < n
            invariant
                n == self@.len(),
                i <= n,
                forall|k: int| 0 <= k < i ==> known(map@, #[trigger] self@[k]),
            decreases n - i,
        {
            let known_here: bool = match self.operators[i] {
                Operator::Constant(_) => true,
                _ => map.get(&self.operators[i]).is_some(),
            };
            if !known_here {
                assert(!known(map@, self@[i as int]));
                return false;
            }
            i += 1;
        }
        true
    }

    /// The expression as text: its slots in order, a space behind each. A
    /// registered operator is written as its token, any other constant as
    /// `number` writes its value. Every slot must be one or the other.
    pub fn to_string<N: Fn(u64) -> String>(&self, map: &OperatorMap, number: &N) -> (r: String)
        requires
            legible(*number),
            forall|i: int| 0 <= i < self@.len() ==> known(map@, #[trigger] self@[i]),
        ensures
            r@ == description(map@, *number, self@),
    {
        let n: usize = self.operators.len();
        let mut text: String = String::new();
        let mut i: usize = 0;
        assert(self@.subrange(0, 0) =~= Seq::<Operator>::empty());
        while i < n
            invariant
                legible(*number),
                forall|k: int| 0 <= k < self@.len() ==> known(map@, #[trigger] self@[k]),
                n == self@.len(),
                i <= n,
                text@ == description(map@, *number, self@.subrange(0, i as int)),
            decreases n - i,
        {
            let ghost before = text@;
            assert(known(map@, self@[i as int]));
            match map.get(&self.operators[i]) {
                Some(token) => {
                    text.append(token);
                },
                None => {
                    match self.operators[i] {
                        Operator::Constant(bits) => {
                            let value: String = number(bits);
                            text.append(value.as_str());
                        },
                        _ => {},
                    }
                },
            }
            proof {
                reveal_strlit(" ");
                assert(" "@ =~= seq![' ']);
            }
            text.append(" ");
            i += 1;
            proof {
                let now = self@.subrange(0, i as int);
                assert(now.drop_last() =~= self@.subrange(0, i - 1));
                assert(now.last() == self@[i - 1]);
                assert(text@ == before + word(map@, *number, self@[i - 1]) + seq![' ']);
            }
        }
        assert(self@.subrange(0, n as int) =~= self@);
        text
    }

    /// The slots, which always form exactly one expression.
    pub fn operators(&self) -> (r: &Vec<Operator>)
        ensures
            r@ == self@,
            balanced(self@),
    {
        proof {
            use_type_invariant(self);
        }
        &self.operators
    }

    /// The number of slots.
    pub fn len(&self) -> (n: usize)
        ensures
            n == self@.len(),
            n > 0,
    {
        proof {
            use_type_invariant(self);
        }
        self.operators.len()
    }

    /// The last slot of the expression that begins at `start`: the
    /// shortest run of slots from there that is an expression itself.
    pub fn find_subexpression_span(&self, start: usize) -> (end: usize)
        requires
            start < self@.len(),
        ensures
            start <= end < self@.len(),
            end < usize::MAX,
            balanced(self@.subrange(start as int, end + 1)),
            end == span_end(self@, start as int),
    {
        proof {
            use_type_invariant(self);
        }
        let ghost tokens = self.operators@;
        let n: usize = self.operators.len();
        let mut end: usize = start;
        let mut need: usize = settle(1, self.operators[start]);
        proof {
            lemma_owed_floor(tokens, start + 1, n as int);
            assert(owed(tokens, start as int) > 0);
            assert(owed(tokens, start + 1) == owed(tokens, start as int) + effect(
                tokens[start as int],
            ));
        }
        while need > 0
            invariant
                tokens == self.operators@,
                n == tokens.len(),
                balanced(tokens),
                start <= end < tokens.len(),
                need == 1 + owed(tokens, end + 1) - owed(tokens, start as int),
                need < n - end,
                forall|j: int| start <= j <= end ==> #[trigger] owed(tokens, j) >= owed(
                    tokens,
                    start as int,
                ),
            decreases tokens.len() - end,
        {
            proof {
                assert(owed(tokens, start as int) > 0);
                assert(owed(tokens, end + 1) > 0);
            }
            end += 1;
            need = settle(need, self.operators[end]);
            proof {
                lemma_owed_floor(tokens, end + 1, n as int);
            }
        }
        proof {
            lemma_balanced_subrange(tokens, start as int, end as int);
            lemma_span_is(tokens, start as int, end as int);
        }
        end
    }

    /// The expression that begins at `start`, as an expression of its own.
    pub fn sub_expr_at(&self, start: usize) -> (r: Expr)
        requires
            start < self@.len(),
        ensures
            r@ == self@.subrange(start as int, span_end(self@, start as int) + 1),
            balanced(r@),
    {
        let end: usize = self.find_subexpression_span(start);
        let mut operators: Vec<Operator> = Vec::new();
        extend_with(&mut operators, &self.operators, start, end + 1);
        proof {
            assert(operators@ =~= self@.subrange(start as int, end + 1));
        }
        Expr { operators }
    }

    /// The expression that begins at a slot drawn at random, each slot as
    /// likely as any other.
    pub fn sub_expr(&self) -> (r: Expr)
        ensures
            balanced(r@),
            extracted(r@, self@),
    {
        let start: usize = any_index() % self.len();
        self.sub_expr_at(start)
    }

    /// This expression with the expression that begins at `start` replaced
    /// by the one that begins at `other_start` in `other`.
    pub fn crossover_at(&self, start: usize, other: &Expr, other_start: usize) -> (r: Expr)
        requires
            start < self@.len(),
            other_start < other@.len(),
        ensures
            r@ == spliced(
                self@,
                start as int,
                span_end(self@, start as int),
                other@.subrange(other_start as int, span_end(other@, other_start as int) + 1),
            ),
            r@.len() == self@.len() - (span_end(self@, start as int) + 1 - start) + (span_end(
                other@,
                other_start as int,
            ) + 1 - other_start),
            balanced(r@),
    {
        proof {
            use_type_invariant(self);
            use_type_invariant(other);
        }
        let end: usize = self.find_subexpression_span(start);
        let other_end: usize = other.find_subexpression_span(other_start);
        let mut operators: Vec<Operator> = Vec::new();
        extend_with(&mut operators, &self.operators, 0, start);
        extend_with(&mut operators, &other.operators, other_start, other_end + 1);
        extend_with(&mut operators, &self.operators, end + 1, self.operators.len());
        proof {
            let graft = other@.subrange(other_start as int, other_end + 1);
            assert(operators@ =~= spliced(self@, start as int, end as int, graft));
            lemma_splice_balanced(self@, start as int, end as int, graft);
        }
        Expr { operators }
    }

    /// This expression with one of its expressions, drawn at random,
    /// replaced by one of `other`, drawn at random.
    pub fn crossover(&self, other: &Expr) -> (r: Expr)
        ensures
            balanced(r@),
            crossed(r@, self@, other@),
    {
        let start: usize = any_index() % self.len();
        let other_start: usize = any_index() % other.len();
        self.crossover_at(start, other, other_start)
    }

    /// This expression with the expression that begins at `start` replaced
    /// by one variable: time for `true`, position for `false`.
    pub fn mutate_at(&self, start: usize, time: bool) -> (r: Expr)
        requires
            start < self@.len(),
        ensures
            r@ == spliced(self@, start as int, span_end(self@, start as int), seq![variable(time)]),
            r@.len() == self@.len() - (span_end(self@, start as int) + 1 - start) + 1,
            balanced(r@),
    {
        let single = Expr::of_variable(time);
        proof {
            use_type_invariant(&single);
            assert(single@.subrange(0, 1) =~= single@);
            lemma_span_is(single@, 0, 0);
        }
        self.crossover_at(start, &single, 0)
    }

    /// This expression with one of its expressions, drawn at random,
    /// replaced by a variable, drawn at random.
    pub fn mutate(&self) -> (r: Expr)
        ensures
            balanced(r@),
            mutated(r@, self@),
    {
        let time: bool = coin();
        let start: usize = any_index() % self.len();
        self.mutate_at(start, time)
    }
}

} // verus!
