//! The vocabulary of expressions, and the registry that names it.

use crate::chance::any_index;
use crate::error::LookupError;
use crate::error::ValidationError;
use vstd::prelude::*;

verus! {

/// The token of the time variable.
pub const TIME_TOKEN: &'static str = "TIME";

/// The token of the position variable.
pub const POS_TOKEN: &'static str = "POS";

/// One slot of an expression.
#[derive(Clone, Copy, Debug, PartialEq, Eq, Structural, Hash)]
pub enum Operator {
    /// The free variable time.
    Time,
    /// The free variable position.
    Position,
    /// A constant, as the bits of a double. Most constants are anonymous:
    /// they stand in expressions only, not in the registry.
    Constant(u64),
    /// A function of one argument, by the handle under which the caller
    /// keeps it.
    Unary(u64),
    /// A function of two arguments, by the handle under which the caller
    /// keeps it.
    Binary(u64),
}

/// By how much a slot changes the number of operands that are still owed:
/// a variable or constant supplies one, a unary function supplies one and
/// asks for one, a binary function supplies one and asks for two.
pub open spec fn effect(op: Operator) -> int {
    match op {
        Operator::Unary(_) => 0,
        Operator::Binary(_) => 1,
        _ => -1,
    }
}

/// What `char::is_alphanumeric` answers for a character.
pub uninterp spec fn alphanumeric(c: char) -> bool;

/// What `char::is_numeric` answers for a character.
pub uninterp spec fn numeric(c: char) -> bool;

/// `char::is_alphanumeric` depends on the character alone; its answer, which
/// the Unicode tables decide, is `alphanumeric`.
pub assume_specification[ char::is_alphanumeric ](c: char) -> (r: bool)
    ensures
        r == alphanumeric(c),
;

/// `char::is_numeric` depends on the character alone; its answer, which the
/// Unicode tables decide, is `numeric`.
pub assume_specification[ char::is_numeric ](c: char) -> (r: bool)
    ensures
        r == numeric(c),
;

/// The characters of the time variable's token.
pub open spec fn time_token() -> Seq<char> {
    seq!['T', 'I', 'M', 'E']
}

/// The characters of the position variable's token.
pub open spec fn pos_token() -> Seq<char> {
    seq!['P', 'O', 'S']
}

/// What the rules for tokens make of what was found out about a token:
/// for each character whether it is a letter or a digit, whether the first
/// is a digit, and whether the token is one of the two of the variables.
/// The first rule that is broken decides.
pub open spec fn ruling(letter_or_digit: Seq<bool>, leading_digit: bool, reserved: bool) -> Result<
    (),
    ValidationError,
> {
    if letter_or_digit.len() == 0 {
        Err(ValidationError::EmptyToken)
    } else if exists|i: int| 0 <= i < letter_or_digit.len() && !letter_or_digit[i] {
        Err(ValidationError::NonAlphanumericToken)
    } else if leading_digit {
        Err(ValidationError::LeadingDigitToken)
    } else if reserved {
        Err(ValidationError::ReservedToken)
    } else {
        Ok(())
    }
}

/// Whether a token may be registered, and why not if it may not.
pub open spec fn admission(token: Seq<char>) -> Result<(), ValidationError> {
    ruling(
        Seq::new(token.len(), |i: int| alphanumeric(token[i])),
        token.len() > 0 && numeric(token[0]),
        token == time_token() || token == pos_token(),
    )
}

/// The first place at which `op` is registered, or the number of entries
/// where it is not.
pub open spec fn place_of(entries: Seq<(Operator, Seq<char>)>, op: Operator) -> int
    decreases entries.len(),
{
    if entries.len() == 0 {
        0
    } else if entries[0].0 == op {
        0
    } else {
        1 + place_of(entries.drop_first(), op)
    }
}

/// The first place at which `token` is registered, or the number of entries
/// where it is not.
pub open spec fn place_of_token(entries: Seq<(Operator, Seq<char>)>, token: Seq<char>) -> int
    decreases entries.len(),
{
    if entries.len() == 0 {
        0
    } else if entries[0].1 == token {
        0
    } else {
        1 + place_of_token(entries.drop_first(), token)
    }
}

/// Whether `op` has an entry.
pub open spec fn registered(entries: Seq<(Operator, Seq<char>)>, op: Operator) -> bool {
    place_of(entries, op) < entries.len()
}

/// Whether `op` can be written down with these entries: it has one, or it
/// is a constant, which is written as its value.
pub open spec fn known(entries: Seq<(Operator, Seq<char>)>, op: Operator) -> bool {
    op is Constant || registered(entries, op)
}

/// The entries after `op` was registered under `token`: its entry is
/// rewritten where it has one, and added at the end where it has none.
pub open spec fn recorded(
    entries: Seq<(Operator, Seq<char>)>,
    op: Operator,
    token: Seq<char>,
) -> Seq<(Operator, Seq<char>)> {
    let at = place_of(entries, op);
    if at < entries.len() {
        entries.update(at, (op, token))
    } else {
        entries.push((op, token))
    }
}

/// Whether two strings hold the same characters.
pub fn same_text(a: &str, b: &str) -> (r: bool)
    ensures
        r == (a@ == b@),
{
    let n: usize = a.unicode_len();
    if n != b.unicode_len() {
        return false;
    }
    let mut i: usize = 0;
    while i < n
        invariant
            n == a@.len(),
            n == b@.len(),
            i <= n,
            forall|j: int| 0 <= j < i ==> a@[j] == b@[j],
        decreases n - i,
    {
        if a.get_char(i) != b.get_char(i) {
            return false;
        }
        i += 1;
    }
    assert(a@ =~= b@);
    true
}

/// Applies the rules for tokens to what was found out about a token.
pub fn judge(letter_or_digit: &Vec<bool>, leading_digit: bool, reserved: bool) -> (r: Result<
    (),
    ValidationError,
>)
    ensures
        r == ruling(letter_or_digit@, leading_digit, reserved),
{
    let n: usize = letter_or_digit.len();
    if n == 0 {
        return Err(ValidationError::EmptyToken);
    }
    let mut i: usize = 0;
    while i < n
        invariant
            n == letter_or_digit@.len(),
            i <= n,
            forall|j: int| 0 <= j < i ==> letter_or_digit@[j],
        decreases n - i,
    {
        if !letter_or_digit[i] {
            return Err(ValidationError::NonAlphanumericToken);
        }
        i += 1;
    }
    if leading_digit {
        Err(ValidationError::LeadingDigitToken)
    } else if reserved {
        Err(ValidationError::ReservedToken)
    } else {
        Ok(())
    }
}

/// Holds a token against the rules for registered tokens: it has a
/// character, all its characters are letters or digits, the first is no
/// digit, and it is not one of the two tokens of the variables.
pub fn check_token(token: &str) -> (r: Result<(), ValidationError>)
    ensures
        r == admission(token@),
{
    let n: usize = token.unicode_len();
    let mut letter_or_digit: Vec<bool> = Vec::new();
    let mut i: usize = 0;
    while i < n
        invariant
            n == token@.len(),
            i <= n,
            letter_or_digit@.len() == i,
            forall|j: int| 0 <= j < i ==> letter_or_digit@[j] == alphanumeric(token@[j]),
        decreases n - i,
    {
        letter_or_digit.push(token.get_char(i).is_alphanumeric());
        i += 1;
    }
    let leading_digit: bool = n > 0 && token.get_char(0).is_numeric();
    proof {
        reveal_strlit("TIME");
        reveal_strlit("POS");
        assert(TIME_TOKEN@ =~= time_token());
        assert(POS_TOKEN@ =~= pos_token());
        assert(letter_or_digit@ =~= Seq::new(token@.len(), |i: int| alphanumeric(token@[i])));
    }
    let reserved: bool = same_text(token, TIME_TOKEN) || same_text(token, POS_TOKEN);
    judge(&letter_or_digit, leading_digit, reserved)
}

/// What holds of the entries of every registry: the two variables come
/// first, no operator is entered twice, and each token is one of the two
/// that the registry starts with or passes the rules for tokens.
pub open spec fn sound(entries: Seq<(Operator, Seq<char>)>) -> bool {
    &&& entries.len() >= 2
    &&& entries[0].0 == Operator::Time
    &&& entries[1].0 == Operator::Position
    &&& forall|i: int, j: int|
        0 <= i < j < entries.len() ==> (#[trigger] entries[i]).0 != (#[trigger] entries[j]).0
    &&& forall|i: int|
        0 <= i < entries.len() ==> {
            let token = (#[trigger] entries[i]).1;
            admission(token) is Ok || token == time_token() || token == pos_token()
        }
}

/// `place_of` is the one place before which `op` does not occur and at
/// which it does, or the end.
pub proof fn lemma_place_of(entries: Seq<(Operator, Seq<char>)>, op: Operator, at: int)
    requires
        0 <= at <= entries.len(),
        forall|j: int| 0 <= j < at ==> (#[trigger] entries[j]).0 != op,
        at < entries.len() ==> entries[at].0 == op,
    ensures
        place_of(entries, op) == at,
    decreases at,
{
    if at > 0 {
        let rest = entries.drop_first();
        assert forall|j: int| 0 <= j < at - 1 implies (#[trigger] rest[j]).0 != op by {
            assert(rest[j] == entries[j + 1]);
        }
        if at < entries.len() {
            assert(rest[at - 1] == entries[at]);
        }
        lemma_place_of(rest, op, at - 1);
    }
}

/// `place_of_token` is the one place before which `token` does not occur
/// and at which it does, or the end.
pub proof fn lemma_place_of_token(entries: Seq<(Operator, Seq<char>)>, token: Seq<char>, at: int)
    requires
        0 <= at <= entries.len(),
        forall|j: int| 0 <= j < at ==> (#[trigger] entries[j]).1 != token,
        at < entries.len() ==> entries[at].1 == token,
    ensures
        place_of_token(entries, token) == at,
    decreases at,
{
    if at > 0 {
        let rest = entries.drop_first();
        assert forall|j: int| 0 <= j < at - 1 implies (#[trigger] rest[j]).1 != token by {
            assert(rest[j] == entries[j + 1]);
        }
        if at < entries.len() {
            assert(rest[at - 1] == entries[at]);
        }
        lemma_place_of_token(rest, token, at - 1);
    }
}

/// Registering a token that passes the rules keeps the entries sound.
pub proof fn lemma_recorded_sound(entries: Seq<(Operator, Seq<char>)>, op: Operator, token: Seq<char>)
    requires
        sound(entries),
        admission(token) is Ok,
    ensures
        sound(recorded(entries, op, token)),
{
    let at = place_of(entries, op);
    let after = recorded(entries, op, token);
    lemma_place_of_bounds(entries, op);
    assert forall|i: int, j: int| 0 <= i < j < after.len() implies (#[trigger] after[i]).0 != (
    #[trigger] after[j]).0 by {
        if at < entries.len() {
            assert(after[i].0 == entries[i].0);
            assert(after[j].0 == entries[j].0);
        } else {
            if j < entries.len() {
                assert(after[i] == entries[i]);
                assert(after[j] == entries[j]);
            } else {
                assert(after[i] == entries[i]);
            }
        }
    }
    assert forall|i: int| 0 <= i < after.len() implies {
        let t = (#[trigger] after[i]).1;
        admission(t) is Ok || t == time_token() || t == pos_token()
    } by {
        if i != at {
            assert(after[i] == entries[i]);
        }
    }
    assert(after[0].0 == Operator::Time);
    assert(after[1].0 == Operator::Position);
}

/// `place_of` lies within the entries or just behind them; it holds `op`
/// where it lies within, and nothing before it does.
pub proof fn lemma_place_of_bounds(entries: Seq<(Operator, Seq<char>)>, op: Operator)
    ensures
        0 <= place_of(entries, op) <= entries.len(),
        place_of(entries, op) < entries.len() ==> entries[place_of(entries, op)].0 == op,
        forall|j: int| 0 <= j < place_of(entries, op) ==> (#[trigger] entries[j]).0 != op,
    decreases entries.len(),
{
    if entries.len() > 0 && entries[0].0 != op {
        let rest = entries.drop_first();
        lemma_place_of_bounds(rest, op);
        assert forall|j: int| 0 <= j < place_of(entries, op) implies (#[trigger] entries[j]).0
            != op by {
            if j > 0 {
                assert(entries[j] == rest[j - 1]);
            }
        }
    }
}

/// What was registered is found: after `op` was registered under `token`
/// it has an entry, and the entry holds `token`.
pub proof fn law_recorded_is_found(
    entries: Seq<(Operator, Seq<char>)>,
    op: Operator,
    token: Seq<char>,
)
    ensures
        registered(recorded(entries, op, token), op),
        recorded(entries, op, token)[place_of(recorded(entries, op, token), op)].1 == token,
{
    lemma_place_of_bounds(entries, op);
    let at = place_of(entries, op);
    let after = recorded(entries, op, token);
    assert forall|j: int| 0 <= j < at implies (#[trigger] after[j]).0 != op by {
        assert(after[j] == entries[j]);
    }
    lemma_place_of(after, op, at);
}

/// Registering one operator leaves every other as it was: registered or
/// not, and under the same token.
pub proof fn law_recorded_keeps_others(
    entries: Seq<(Operator, Seq<char>)>,
    op: Operator,
    token: Seq<char>,
    other: Operator,
)
    requires
        other != op,
    ensures
        registered(recorded(entries, op, token), other) == registered(entries, other),
        registered(entries, other) ==> recorded(entries, op, token)[place_of(
            recorded(entries, op, token),
            other,
        )] == entries[place_of(entries, other)],
{
    lemma_place_of_bounds(entries, op);
    lemma_place_of_bounds(entries, other);
    let after = recorded(entries, op, token);
    let at = place_of(entries, other);
    assert forall|j: int| 0 <= j < after.len() && j < entries.len() implies (#[trigger] after[j]).0
        == entries[j].0 by {}
    if at < entries.len() {
        assert forall|j: int| 0 <= j < at implies (#[trigger] after[j]).0 != other by {
            assert(after[j].0 == entries[j].0);
        }
        assert(after[at].0 == entries[at].0);
        lemma_place_of(after, other, at);
    } else {
        assert forall|j: int| 0 <= j < after.len() implies (#[trigger] after[j]).0 != other by {
            if j < entries.len() {
                assert(after[j].0 == entries[j].0);
            }
        }
        lemma_place_of(after, other, after.len() as int);
    }
}

/// The registry: which operators have a name, and which.
pub struct OperatorMap<'a> {
    entries: Vec<(Operator, &'a str)>,
}

impl<'a> OperatorMap<'a> {
    #[verifier::type_invariant]
    spec fn inv(self) -> bool {
        sound(self@)
    }

    /// The entries in the order in which their operators were first
    /// registered, each with the characters of its token.
    pub closed spec fn view(&self) -> Seq<(Operator, Seq<char>)> {
        Seq::new(self.entries@.len(), |i: int| (self.entries@[i].0, self.entries@[i].1@))
    }

    /// A registry that holds time and position under their two tokens.
    pub fn new() -> (map: OperatorMap<'a>)
        ensures
            map@ == seq![(Operator::Time, time_token()), (Operator::Position, pos_token())],
    {
        let mut entries: Vec<(Operator, &'a str)> = Vec::new();
        entries.push((Operator::Time, TIME_TOKEN));
        entries.push((Operator::Position, POS_TOKEN));
        proof {
            reveal_strlit("TIME");
            reveal_strlit("POS");
            assert(TIME_TOKEN@ =~= time_token());
            assert(POS_TOKEN@ =~= pos_token());
            let held = Seq::new(entries@.len(), |i: int| (entries@[i].0, entries@[i].1@));
            assert(held =~= seq![(Operator::Time, time_token()), (Operator::Position, pos_token())]);
        }
        OperatorMap { entries }
    }

    /// The number of registered operators, with what holds of every
    /// registry.
    pub fn len(&self) -> (n: usize)
        ensures
            n == self@.len(),
            sound(self@),
    {
        proof {
            use_type_invariant(self);
        }
        self.entries.len()
    }

    /// The place of `operator` among the entries.
    fn locate(&self, operator: &Operator) -> (at: usize)
        ensures
            at == place_of(self@, *operator),
            at <= self@.len(),
    {
        let n: usize = self.entries.len();
        let mut i: usize = 0;
        while i < n
            invariant
                n == self.entries@.len(),
                n == self@.len(),
                i <= n,
                forall|j: int| 0 <= j < i ==> (#[trigger] self@[j]).0 != *operator,
            decreases n - i,
        {
            if self.entries[i].0 == *operator {
                proof {
                    lemma_place_of(self@, *operator, i as int);
                }
                return i;
            }
            i += 1;
        }
        proof {
            lemma_place_of(self@, *operator, n as int);
        }
        n
    }

    /// Registers `operator` under `token`. A token that breaks a rule is
    /// refused and the registry stays as it was; otherwise the operator's
    /// entry is rewritten, or added where it had none.
    pub fn insert(&mut self, operator: Operator, token: &'a str) -> (r: Result<(), ValidationError>)
        ensures
            r == admission(token@),
            final(self)@ == if r is Ok {
                recorded(old(self)@, operator, token@)
            } else {
                old(self)@
            },
    {
        proof {
            use_type_invariant(&*self);
        }
        match check_token(token) {
            Err(e) => Err(e),
            Ok(()) => {
                let at: usize = self.locate(&operator);
                let ghost before = self@;
                let n: usize = self.entries.len();
                let mut entries: Vec<(Operator, &'a str)> = Vec::new();
                let mut i: usize = 0;
                while i < n
                    invariant
                        n == self.entries@.len(),
                        i <= n,
                        entries@.len() == i,
                        forall|j: int|
                            0 <= j < i ==> entries@[j] == if j == at {
                                (operator, token)
                            } else {
                                self.entries@[j]
                            },
                    decreases n - i,
                {
                    if i == at {
                        entries.push((operator, token));
                    } else {
                        entries.push(self.entries[i]);
                    }
                    i += 1;
                }
                if at >= n {
                    entries.push((operator, token));
                }
                proof {
                    let after = Seq::new(entries@.len(), |i: int| (entries@[i].0, entries@[i].1@));
                    assert(after =~= recorded(before, operator, token@));
                    lemma_recorded_sound(before, operator, token@);
                }
                self.entries = entries;
                Ok(())
            },
        }
    }

    /// The token under which `operator` is registered, if it is.
    pub fn get(&self, operator: &Operator) -> (r: Option<&&'a str>)
        ensures
            match r {
                Some(token) => place_of(self@, *operator) < self@.len() && token@ == self@[place_of(
                    self@,
                    *operator,
                )].1,
                None => place_of(self@, *operator) == self@.len(),
            },
    {
        let at: usize = self.locate(operator);
        if at < self.entries.len() {
            Some(&self.entries[at].1)
        } else {
            None
        }
    }

    /// The operator that is registered under `token`; the first one where
    /// several are. What is found under a token is registered under it.
    pub fn lookup_by_token(&self, token: &str) -> (r: Result<Operator, LookupError>)
        ensures
            match r {
                Ok(op) => {
                    &&& place_of_token(self@, token@) < self@.len()
                    &&& op == self@[place_of_token(self@, token@)].0
                    &&& place_of(self@, op) == place_of_token(self@, token@)
                },
                Err(e) => place_of_token(self@, token@) == self@.len() && e
                    == LookupError::UnknownToken,
            },
    {
        proof {
            use_type_invariant(self);
        }
        let n: usize = self.entries.len();
        let mut i: usize = 0;
        while i < n
            invariant
                n == self.entries@.len(),
                n == self@.len(),
                i <= n,
                sound(self@),
                forall|j: int| 0 <= j < i ==> (#[trigger] self@[j]).1 != token@,
            decreases n - i,
        {
            if same_text(self.entries[i].1, token) {
                proof {
                    lemma_place_of_token(self@, token@, i as int);
                    let found = self@[i as int];
                    assert forall|j: int| 0 <= j < i implies (#[trigger] self@[j]).0
                        != found.0 by {}
                    lemma_place_of(self@, found.0, i as int);
                }
                return Ok(self.entries[i].0);
            }
            i += 1;
        }
        proof {
            lemma_place_of_token(self@, token@, n as int);
        }
        Err(LookupError::UnknownToken)
    }

    /// The operator at the place that a raw draw comes down to.
    pub fn pick(&self, raw: usize) -> (r: &Operator)
        ensures
            self@.len() > 0,
            *r == self@[raw as int % self@.len() as int].0,
            registered(self@, *r),
    {
        proof {
            use_type_invariant(self);
        }
        let at: usize = raw % self.entries.len();
        proof {
            lemma_place_of_bounds(self@, self@[at as int].0);
        }
        &self.entries[at].0
    }

    /// A registered operator, each as likely as any other.
    pub fn rand_operator(&self) -> (r: &Operator)
        ensures
            registered(self@, *r),
    {
        self.pick(any_index())
    }
}

} // verus!
