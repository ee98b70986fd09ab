//! Prefix notation as arithmetic: how many operands a sequence of slots
//! still owes, when it is one whole expression, and where the expression
//! that begins at a slot ends.

use crate::operator::effect;
use crate::operator::Operator;
use vstd::prelude::*;

verus! {

/// The number of operands that are owed after the first `k` slots, when one
/// was owed before the first.
pub open spec fn owed(tokens: Seq<Operator>, k: int) -> int
    decreases k,
{
    if k <= 0 {
        1
    } else {
        owed(tokens, k - 1) + effect(tokens[k - 1])
    }
}

/// The slots form exactly one expression: nothing is owed after the last
/// slot, and something is owed before every slot.
pub open spec fn balanced(tokens: Seq<Operator>) -> bool {
    &&& tokens.len() > 0
    &&& owed(tokens, tokens.len() as int) == 0
    &&& forall|k: int| 0 <= k < tokens.len() ==> #[trigger] owed(tokens, k) > 0
}

/// The slots from `start` to `end`, both included, form one expression.
pub open spec fn closes(tokens: Seq<Operator>, start: int, end: int) -> bool {
    0 <= start <= end < tokens.len() && balanced(tokens.subrange(start, end + 1))
}

/// The last slot of the expression that begins at `start`.
pub open spec fn span_end(tokens: Seq<Operator>, start: int) -> int {
    choose|end: int| closes(tokens, start, end)
}

/// `host` with its slots from `start` to `end` replaced by `graft`.
pub open spec fn spliced(host: Seq<Operator>, start: int, end: int, graft: Seq<Operator>) -> Seq<
    Operator,
> {
    host.subrange(0, start) + graft + host.subrange(end + 1, host.len() as int)
}

/// What is owed after `k` slots depends on those slots alone.
pub proof fn lemma_owed_agrees(a: Seq<Operator>, b: Seq<Operator>, k: int)
    requires
        0 <= k <= a.len(),
        k <= b.len(),
        forall|j: int| 0 <= j < k ==> a[j] == b[j],
    ensures
        owed(a, k) == owed(b, k),
    decreases k,
{
    if k > 0 {
        lemma_owed_agrees(a, b, k - 1);
    }
}

/// Within a part of a sequence, what is owed moves as it does in the whole.
pub proof fn lemma_owed_subrange(tokens: Seq<Operator>, start: int, end: int, k: int)
    requires
        0 <= start <= end <= tokens.len(),
        0 <= k <= end - start,
    ensures
        owed(tokens.subrange(start, end), k) == 1 + owed(tokens, start + k) - owed(tokens, start),
    decreases k,
{
    if k > 0 {
        lemma_owed_subrange(tokens, start, end, k - 1);
        assert(tokens.subrange(start, end)[k - 1] == tokens[start + k - 1]);
    }
}

/// One slot lowers what is owed by one at most.
pub proof fn lemma_owed_step(tokens: Seq<Operator>, k: int)
    requires
        0 <= k,
    ensures
        owed(tokens, k + 1) == owed(tokens, k) + effect(tokens[k]),
        owed(tokens, k + 1) >= owed(tokens, k) - 1,
        owed(tokens, k + 1) <= owed(tokens, k) + 1,
{
}

/// What is owed cannot fall faster than slots go by.
pub proof fn lemma_owed_floor(tokens: Seq<Operator>, from: int, to: int)
    requires
        0 <= from <= to,
    ensures
        owed(tokens, to) >= owed(tokens, from) - (to - from),
        owed(tokens, to) <= owed(tokens, from) + (to - from),
    decreases to - from,
{
    if from < to {
        lemma_owed_floor(tokens, from, to - 1);
    }
}

/// A part of a sequence is one expression exactly when what is owed stays
/// at or above its starting level inside the part and ends one below it.
pub proof fn lemma_balanced_subrange(tokens: Seq<Operator>, start: int, end: int)
    requires
        0 <= start <= end < tokens.len(),
    ensures
        balanced(tokens.subrange(start, end + 1)) <==> (owed(tokens, end + 1) == owed(tokens, start)
            - 1 && forall|j: int| start <= j <= end ==> #[trigger] owed(tokens, j) >= owed(
            tokens,
            start,
        )),
{
    let part = tokens.subrange(start, end + 1);
    assert forall|k: int| 0 <= k <= end + 1 - start implies #[trigger] owed(part, k) == 1 + owed(
        tokens,
        start + k,
    ) - owed(tokens, start) by {
        lemma_owed_subrange(tokens, start, end + 1, k);
    }
    if balanced(part) {
        assert(owed(part, part.len() as int) == 0);
        assert forall|j: int| start <= j <= end implies #[trigger] owed(tokens, j) >= owed(
            tokens,
            start,
        ) by {
            assert(owed(part, j - start) > 0);
        }
    }
    if owed(tokens, end + 1) == owed(tokens, start) - 1 && forall|j: int|
        start <= j <= end ==> #[trigger] owed(tokens, j) >= owed(tokens, start) {
        assert forall|k: int| 0 <= k < part.len() implies #[trigger] owed(part, k) > 0 by {
            assert(owed(tokens, start + k) >= owed(tokens, start));
        }
        assert(owed(part, part.len() as int) == 0);
    }
}

/// From one start, at most one end closes an expression.
pub proof fn lemma_span_unique(tokens: Seq<Operator>, start: int, first: int, second: int)
    requires
        0 <= start <= first < tokens.len(),
        start <= second < tokens.len(),
        balanced(tokens.subrange(start, first + 1)),
        balanced(tokens.subrange(start, second + 1)),
    ensures
        first == second,
{
    lemma_balanced_subrange(tokens, start, first);
    lemma_balanced_subrange(tokens, start, second);
    if first < second {
        assert(owed(tokens, first + 1) >= owed(tokens, start));
    }
    if second < first {
        assert(owed(tokens, second + 1) >= owed(tokens, start));
    }
}

/// A slot that closes the expression begun at `start` is its `span_end`.
pub proof fn lemma_span_is(tokens: Seq<Operator>, start: int, end: int)
    requires
        0 <= start <= end < tokens.len(),
        balanced(tokens.subrange(start, end + 1)),
    ensures
        span_end(tokens, start) == end,
{
    assert(closes(tokens, start, end));
    let chosen = span_end(tokens, start);
    lemma_span_unique(tokens, start, end, chosen);
}

/// Looks for the end of the expression begun at `start`, from `at` on.
proof fn span_search(tokens: Seq<Operator>, start: int, at: int) -> (end: int)
    requires
        owed(tokens, tokens.len() as int) < owed(tokens, start),
        0 <= start <= at < tokens.len(),
        forall|j: int| start <= j <= at ==> #[trigger] owed(tokens, j) >= owed(tokens, start),
    ensures
        at <= end < tokens.len(),
        owed(tokens, end + 1) == owed(tokens, start) - 1,
        forall|j: int| start <= j <= end ==> #[trigger] owed(tokens, j) >= owed(tokens, start),
    decreases tokens.len() - at,
{
    lemma_owed_step(tokens, at);
    assert(owed(tokens, at) >= owed(tokens, start));
    if owed(tokens, at + 1) == owed(tokens, start) - 1 {
        at
    } else {
        assert(at + 1 < tokens.len());
        span_search(tokens, start, at + 1)
    }
}

/// Where less is owed at the end than at a slot, an expression begins at
/// that slot and ends within the sequence.
pub proof fn lemma_span_within(tokens: Seq<Operator>, start: int)
    requires
        0 <= start < tokens.len(),
        owed(tokens, tokens.len() as int) < owed(tokens, start),
    ensures
        closes(tokens, start, span_end(tokens, start)),
        owed(tokens, span_end(tokens, start) + 1) == owed(tokens, start) - 1,
{
    let end = span_search(tokens, start, start);
    lemma_balanced_subrange(tokens, start, end);
    lemma_span_is(tokens, start, end);
}

/// In an expression, an expression begins at every slot, and ends within
/// the whole.
pub proof fn lemma_span_exists(tokens: Seq<Operator>, start: int)
    requires
        balanced(tokens),
        0 <= start < tokens.len(),
    ensures
        start <= span_end(tokens, start) < tokens.len(),
        balanced(tokens.subrange(start, span_end(tokens, start) + 1)),
{
    lemma_span_within(tokens, start);
}

/// Inside a part that is an expression, expressions end where they end in
/// the whole, and within the part.
pub proof fn lemma_span_in_part(tokens: Seq<Operator>, start: int, end: int, at: int)
    requires
        closes(tokens, start, end),
        start <= at <= end,
    ensures
        closes(tokens, at, span_end(tokens, at)),
        span_end(tokens, at) <= end,
        span_end(tokens.subrange(start, end + 1), at - start) == span_end(tokens, at) - start,
{
    let part = tokens.subrange(start, end + 1);
    lemma_span_exists(part, at - start);
    let part_end = span_end(part, at - start);
    assert(part.subrange(at - start, part_end + 1) =~= tokens.subrange(at, start + part_end + 1));
    lemma_span_is(tokens, at, start + part_end);
}

/// A variable or a constant is an expression by itself.
pub proof fn lemma_span_of_leaf(tokens: Seq<Operator>, at: int)
    requires
        0 <= at < tokens.len(),
        effect(tokens[at]) == -1,
    ensures
        closes(tokens, at, at),
        span_end(tokens, at) == at,
{
    lemma_balanced_subrange(tokens, at, at);
    lemma_span_is(tokens, at, at);
}

/// A function of one argument ends where its argument ends.
pub proof fn lemma_span_of_unary(tokens: Seq<Operator>, at: int, end: int)
    requires
        0 <= at,
        effect(tokens[at]) == 0,
        closes(tokens, at + 1, end),
    ensures
        closes(tokens, at, end),
        span_end(tokens, at) == end,
{
    lemma_balanced_subrange(tokens, at + 1, end);
    lemma_balanced_subrange(tokens, at, end);
    lemma_span_is(tokens, at, end);
}

/// A function of two arguments ends where its second argument ends, which
/// begins behind the first.
pub proof fn lemma_span_of_binary(tokens: Seq<Operator>, at: int, first_end: int, end: int)
    requires
        0 <= at,
        effect(tokens[at]) == 1,
        closes(tokens, at + 1, first_end),
        closes(tokens, first_end + 1, end),
    ensures
        closes(tokens, at, end),
        span_end(tokens, at) == end,
{
    lemma_balanced_subrange(tokens, at + 1, first_end);
    lemma_balanced_subrange(tokens, first_end + 1, end);
    lemma_balanced_subrange(tokens, at, end);
    lemma_span_is(tokens, at, end);
}

/// The whole of an expression is the expression that begins at its first
/// slot.
pub proof fn law_whole_is_a_span(tokens: Seq<Operator>)
    requires
        balanced(tokens),
    ensures
        span_end(tokens, 0) == tokens.len() - 1,
{
    assert(tokens.subrange(0, tokens.len() as int) =~= tokens);
    lemma_span_is(tokens, 0, tokens.len() - 1);
}

/// Replacing one expression inside another by a third leaves an expression.
pub proof fn lemma_splice_balanced(host: Seq<Operator>, start: int, end: int, graft: Seq<Operator>)
    requires
        balanced(host),
        balanced(graft),
        0 <= start <= end < host.len(),
        balanced(host.subrange(start, end + 1)),
    ensures
        balanced(spliced(host, start, end, graft)),
        spliced(host, start, end, graft).len() == host.len() - (end + 1 - start) + graft.len(),
{
    let head = host.subrange(0, start);
    let tail = host.subrange(end + 1, host.len() as int);
    let whole = spliced(host, start, end, graft);
    let n = graft.len() as int;
    lemma_balanced_subrange(host, start, end);
    assert(whole.subrange(0, start) =~= head);
    assert(whole.subrange(start, start + n) =~= graft);
    assert(whole.subrange(start + n, whole.len() as int) =~= tail);
    assert forall|k: int| 0 <= k <= start implies #[trigger] owed(whole, k) == owed(host, k) by {
        lemma_owed_agrees(whole, host, k);
    }
    assert forall|k: int| 0 <= k <= n implies #[trigger] owed(whole, start + k) == owed(host, start)
        + owed(graft, k) - 1 by {
        lemma_owed_subrange(whole, start, start + n, k);
    }
    assert forall|k: int| 0 <= k <= tail.len() implies #[trigger] owed(whole, start + n + k)
        == owed(host, end + 1 + k) by {
        lemma_owed_subrange(whole, start + n, whole.len() as int, k);
        lemma_owed_subrange(host, end + 1, host.len() as int, k);
        assert(owed(graft, n) == 0);
        assert(owed(whole, start + n) == owed(host, start) + owed(graft, n) - 1);
    }
    assert forall|k: int| 0 <= k < whole.len() implies #[trigger] owed(whole, k) > 0 by {
        if k <= start {
            assert(owed(whole, k) == owed(host, k));
            assert(owed(host, k) > 0);
        } else if k < start + n {
            assert(owed(whole, start + (k - start)) == owed(host, start) + owed(graft, k - start)
                - 1);
            assert(owed(graft, k - start) > 0);
            assert(owed(host, start) > 0);
        } else {
            assert(owed(whole, start + n + (k - start - n)) == owed(host, end + 1 + (k - start - n)));
            assert(owed(host, end + 1 + (k - start - n)) > 0);
        }
    }
    assert(owed(whole, start + n + tail.len()) == owed(host, end + 1 + tail.len()));
}

} // verus!
