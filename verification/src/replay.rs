//! What recorded actions do to a state.
//!
//! A `Command` action executes or reverts its command. An `Undo(n)` action
//! at index `i` stands for undoing the `n` actions directly before it, so
//! executing it reverts actions `i - 1` down to `i - n`, and reverting it
//! executes actions `i - n` up to `i - 1` again.
use vstd::prelude::*;

use crate::action::HistoryAction;
use crate::command::Command;

verus! {

/// The first index that an `Undo(n)` at `index` refers to
/// (`index - n`, or 0 where `n` is larger than `index`).
pub open spec fn span_start(index: int, n: int) -> int {
    if n <= index {
        index - n
    } else {
        0
    }
}

/// The state that executing the action at `index` makes of `state`.
/// An index outside the sequence leaves the state as it is.
pub open spec fn execute_at<State, C: Command<State>>(
    actions: Seq<HistoryAction<C>>,
    index: int,
    state: State,
) -> State
    decreases index + 1, 0int,
{
    if 0 <= index < actions.len() {
        match actions[index] {
            HistoryAction::Command(c) => c.executed(state),
            HistoryAction::Undo(n) => revert_span(actions, span_start(index, n as int), index, state),
        }
    } else {
        state
    }
}

/// The state that reverting the action at `index` makes of `state`.
/// An index outside the sequence leaves the state as it is.
pub open spec fn revert_at<State, C: Command<State>>(
    actions: Seq<HistoryAction<C>>,
    index: int,
    state: State,
) -> State
    decreases index + 1, 0int,
{
    if 0 <= index < actions.len() {
        match actions[index] {
            HistoryAction::Command(c) => c.reverted(state),
            HistoryAction::Undo(n) => execute_span(actions, span_start(index, n as int), index, state),
        }
    } else {
        state
    }
}

/// Executes the actions at `lo`, `lo + 1`, ..., `hi - 1`, in that order.
pub open spec fn execute_span<State, C: Command<State>>(
    actions: Seq<HistoryAction<C>>,
    lo: int,
    hi: int,
    state: State,
) -> State
    decreases hi, hi - lo,
{
    if 0 <= lo < hi {
        execute_at(actions, hi - 1, execute_span(actions, lo, hi - 1, state))
    } else {
        state
    }
}

/// Reverts the actions at `hi - 1`, `hi - 2`, ..., `lo`, in that order.
pub open spec fn revert_span<State, C: Command<State>>(
    actions: Seq<HistoryAction<C>>,
    lo: int,
    hi: int,
    state: State,
) -> State
    decreases hi, hi - lo,
{
    if 0 <= lo < hi {
        revert_at(actions, lo, revert_span(actions, lo + 1, hi, state))
    } else {
        state
    }
}

/// `revert` undoes `execute` and `execute` undoes `revert`, on every state.
pub open spec fn reversible<State, C: Command<State>>(c: C) -> bool {
    forall|s: State|
        #![trigger c.executed(s)]
        #![trigger c.reverted(s)]
        c.reverted(c.executed(s)) == s && c.executed(c.reverted(s)) == s
}

/// Every command among `actions` is reversible.
pub open spec fn all_reversible<State, C: Command<State>>(actions: Seq<HistoryAction<C>>) -> bool {
    forall|i: int|
        0 <= i < actions.len() ==> match #[trigger] actions[i] {
            HistoryAction::Command(c) => reversible::<State, C>(c),
            HistoryAction::Undo(_) => true,
        }
}

/// Executing and reverting the action at `index` cancel out, either way round.
pub open spec fn inverse_at<State, C: Command<State>>(
    actions: Seq<HistoryAction<C>>,
    index: int,
) -> bool {
    forall|s: State|
        #![trigger execute_at(actions, index, s)]
        #![trigger revert_at(actions, index, s)]
        revert_at(actions, index, execute_at(actions, index, s)) == s && execute_at(
            actions,
            index,
            revert_at(actions, index, s),
        ) == s
}

/// The action at `index` has the same effect in both sequences.
pub open spec fn same_at<State, C: Command<State>>(
    a1: Seq<HistoryAction<C>>,
    i1: int,
    a2: Seq<HistoryAction<C>>,
    i2: int,
) -> bool {
    forall|s: State|
        #![trigger execute_at(a1, i1, s)]
        #![trigger revert_at(a1, i1, s)]
        execute_at(a1, i1, s) == execute_at(a2, i2, s) && revert_at(a1, i1, s) == revert_at(
            a2,
            i2,
            s,
        )
}

/// Reverting a span, peeled at its upper end.
pub proof fn lemma_revert_span_high<State, C: Command<State>>(
    actions: Seq<HistoryAction<C>>,
    lo: int,
    hi: int,
    state: State,
)
    requires
        0 <= lo < hi,
    ensures
        revert_span(actions, lo, hi, state) == revert_span(
            actions,
            lo,
            hi - 1,
            revert_at(actions, hi - 1, state),
        ),
    decreases hi - lo,
{
    if lo + 1 < hi {
        lemma_revert_span_high(actions, lo + 1, hi, state);
    } else {
        assert(revert_span(actions, lo + 1, hi, state) == state);
    }
}

/// Executing a span, peeled at its lower end.
pub proof fn lemma_execute_span_low<State, C: Command<State>>(
    actions: Seq<HistoryAction<C>>,
    lo: int,
    hi: int,
    state: State,
)
    requires
        0 <= lo < hi,
    ensures
        execute_span(actions, lo, hi, state) == execute_span(
            actions,
            lo + 1,
            hi,
            execute_at(actions, lo, state),
        ),
    decreases hi - lo,
{
    if lo + 1 < hi {
        lemma_execute_span_low(actions, lo, hi - 1, state);
    } else {
        assert(execute_span(actions, lo, hi - 1, state) == state);
    }
}

/// Executing `lo..hi` is executing `lo..mid` and then `mid..hi`.
pub proof fn lemma_execute_span_split<State, C: Command<State>>(
    actions: Seq<HistoryAction<C>>,
    lo: int,
    mid: int,
    hi: int,
    state: State,
)
    requires
        0 <= lo <= mid <= hi,
    ensures
        execute_span(actions, lo, hi, state) == execute_span(
            actions,
            mid,
            hi,
            execute_span(actions, lo, mid, state),
        ),
    decreases hi,
{
    if mid < hi {
        lemma_execute_span_split(actions, lo, mid, hi - 1, state);
    }
}

/// Spans of actions that all cancel out cancel out as a whole.
pub proof fn lemma_span_inverse<State, C: Command<State>>(
    actions: Seq<HistoryAction<C>>,
    lo: int,
    hi: int,
)
    requires
        0 <= lo,
        forall|j: int| lo <= j < hi ==> #[trigger] inverse_at::<State, C>(actions, j),
    ensures
        forall|s: State|
            #![trigger execute_span(actions, lo, hi, s)]
            #![trigger revert_span(actions, lo, hi, s)]
            revert_span(actions, lo, hi, execute_span(actions, lo, hi, s)) == s && execute_span(
                actions,
                lo,
                hi,
                revert_span(actions, lo, hi, s),
            ) == s,
    decreases hi - lo,
{
    if lo < hi {
        lemma_span_inverse::<State, C>(actions, lo, hi - 1);
        lemma_span_inverse::<State, C>(actions, lo + 1, hi);
        assert forall|s: State|
            revert_span(actions, lo, hi, execute_span(actions, lo, hi, s)) == s && execute_span(
                actions,
                lo,
                hi,
                revert_span(actions, lo, hi, s),
            ) == s by {
            assert(inverse_at::<State, C>(actions, hi - 1));
            assert(inverse_at::<State, C>(actions, lo));
            let x = execute_span(actions, lo, hi - 1, s);
            lemma_revert_span_high(actions, lo, hi, execute_at(actions, hi - 1, x));
            assert(revert_at(actions, hi - 1, execute_at(actions, hi - 1, x)) == x);
            let y = revert_span(actions, lo + 1, hi, s);
            lemma_execute_span_low(actions, lo, hi, revert_at(actions, lo, y));
            assert(execute_at(actions, lo, revert_at(actions, lo, y)) == y);
        }
    }
}

/// Where every command is reversible, every action is undone by reverting it.
pub proof fn lemma_inverse_at<State, C: Command<State>>(actions: Seq<HistoryAction<C>>, i: int)
    requires
        all_reversible::<State, C>(actions),
    ensures
        inverse_at::<State, C>(actions, i),
    decreases i,
{
    if 0 <= i < actions.len() {
        match actions[i] {
            HistoryAction::Command(c) => {
                assert(reversible::<State, C>(c));
                assert forall|s: State|
                    revert_at(actions, i, execute_at(actions, i, s)) == s && execute_at(
                        actions,
                        i,
                        revert_at(actions, i, s),
                    ) == s by {
                    assert(execute_at(actions, i, s) == c.executed(s));
                    assert(revert_at(actions, i, c.executed(s)) == c.reverted(c.executed(s)));
                    assert(revert_at(actions, i, s) == c.reverted(s));
                    assert(execute_at(actions, i, c.reverted(s)) == c.executed(c.reverted(s)));
                }
            },
            HistoryAction::Undo(n) => {
                let lo = span_start(i, n as int);
                assert forall|j: int| lo <= j < i implies #[trigger] inverse_at::<State, C>(
                    actions,
                    j,
                ) by {
                    lemma_inverse_at::<State, C>(actions, j);
                }
                lemma_span_inverse::<State, C>(actions, lo, i);
                assert forall|s: State|
                    revert_at(actions, i, execute_at(actions, i, s)) == s && execute_at(
                        actions,
                        i,
                        revert_at(actions, i, s),
                    ) == s by {
                    assert(execute_at(actions, i, s) == revert_span(actions, lo, i, s));
                    assert(revert_at(actions, i, s) == execute_span(actions, lo, i, s));
                    assert(revert_at(actions, i, revert_span(actions, lo, i, s)) == execute_span(actions, lo, i, revert_span(actions, lo, i, s)));
                    assert(execute_at(actions, i, execute_span(actions, lo, i, s)) == revert_span(actions, lo, i, execute_span(actions, lo, i, s)));
                }
            },
        }
    }
}

/// Spans whose actions behave alike in two sequences, `shift` places apart,
/// behave alike.
pub proof fn lemma_spans_alike<State, C: Command<State>>(
    a1: Seq<HistoryAction<C>>,
    a2: Seq<HistoryAction<C>>,
    shift: int,
    lo: int,
    hi: int,
)
    requires
        0 <= lo,
        0 <= lo - shift,
        forall|j: int| lo <= j < hi ==> #[trigger] same_at::<State, C>(a1, j, a2, j - shift),
    ensures
        forall|s: State|
            #![trigger execute_span(a1, lo, hi, s)]
            #![trigger revert_span(a1, lo, hi, s)]
            execute_span(a1, lo, hi, s) == execute_span(a2, lo - shift, hi - shift, s)
                && revert_span(a1, lo, hi, s) == revert_span(a2, lo - shift, hi - shift, s),
    decreases hi - lo,
{
    if lo < hi {
        lemma_spans_alike::<State, C>(a1, a2, shift, lo, hi - 1);
        lemma_spans_alike::<State, C>(a1, a2, shift, lo + 1, hi);
        assert(same_at::<State, C>(a1, hi - 1, a2, hi - 1 - shift));
        assert(same_at::<State, C>(a1, lo, a2, lo - shift));
        assert forall|s: State|
            execute_span(a1, lo, hi, s) == execute_span(a2, lo - shift, hi - shift, s)
                && revert_span(a1, lo, hi, s) == revert_span(a2, lo - shift, hi - shift, s) by {
            let x = execute_span(a1, lo, hi - 1, s);
            assert(execute_at(a1, hi - 1, x) == execute_at(a2, hi - 1 - shift, x));
            let y = revert_span(a1, lo + 1, hi, s);
            assert(revert_at(a1, lo, y) == revert_at(a2, lo - shift, y));
        }
    }
}

/// Actions before `hi` only look at actions before `hi`: two sequences that
/// agree below `hi` give them the same effect.
pub proof fn lemma_prefix_alike<State, C: Command<State>>(
    a1: Seq<HistoryAction<C>>,
    a2: Seq<HistoryAction<C>>,
    hi: int,
    i: int,
)
    requires
        0 <= i < hi <= a1.len(),
        hi <= a2.len(),
        forall|j: int| 0 <= j < hi ==> a1[j] == a2[j],
    ensures
        same_at::<State, C>(a1, i, a2, i),
    decreases i,
{
    assert(a1[i] == a2[i]);
    match a1[i] {
        HistoryAction::Command(c) => {},
        HistoryAction::Undo(n) => {
            let lo = span_start(i, n as int);
            assert forall|j: int| lo <= j < i implies #[trigger] same_at::<State, C>(
                a1,
                j,
                a2,
                j - 0,
            ) by {
                lemma_prefix_alike::<State, C>(a1, a2, hi, j);
            }
            lemma_spans_alike::<State, C>(a1, a2, 0, lo, i);
            assert forall|s: State|
                execute_at(a1, i, s) == execute_at(a2, i, s) && revert_at(a1, i, s) == revert_at(
                    a2,
                    i,
                    s,
                ) by {
                assert(execute_at(a1, i, s) == revert_span(a1, lo, i, s));
                assert(revert_at(a1, i, s) == execute_span(a1, lo, i, s));
            }
        },
    }
}

/// Executing a prefix of actions only looks at that prefix.
pub proof fn lemma_prefix_execute<State, C: Command<State>>(
    a1: Seq<HistoryAction<C>>,
    a2: Seq<HistoryAction<C>>,
    hi: int,
    state: State,
)
    requires
        0 <= hi <= a1.len(),
        hi <= a2.len(),
        forall|j: int| 0 <= j < hi ==> a1[j] == a2[j],
    ensures
        execute_span(a1, 0, hi, state) == execute_span(a2, 0, hi, state),
{
    assert forall|j: int| 0 <= j < hi implies #[trigger] same_at::<State, C>(a1, j, a2, j - 0) by {
        lemma_prefix_alike::<State, C>(a1, a2, hi, j);
    }
    lemma_spans_alike::<State, C>(a1, a2, 0, 0, hi);
}

/// No undo at or after `from` refers to an action before `from`.
pub open spec fn anchored<C>(actions: Seq<HistoryAction<C>>, from: int) -> bool {
    forall|j: int|
        from <= j < actions.len() ==> match #[trigger] actions[j] {
            HistoryAction::Undo(n) => from <= j - n,
            HistoryAction::Command(_) => true,
        }
}

/// Dropping `count` leading actions leaves the effect of every later action
/// as it was, where no later undo refers to a dropped action.
pub proof fn lemma_skip_alike<State, C: Command<State>>(
    actions: Seq<HistoryAction<C>>,
    count: int,
    i: int,
)
    requires
        0 <= count <= i < actions.len(),
        anchored(actions, count),
    ensures
        same_at::<State, C>(actions, i, actions.skip(count), i - count),
    decreases i,
{
    let rest = actions.skip(count);
    assert(rest[i - count] == actions[i]);
    match actions[i] {
        HistoryAction::Command(c) => {},
        HistoryAction::Undo(n) => {
            let lo = span_start(i, n as int);
            assert(count <= i - n);
            assert(span_start(i - count, n as int) == lo - count);
            assert forall|j: int| lo <= j < i implies #[trigger] same_at::<State, C>(
                actions,
                j,
                rest,
                j - count,
            ) by {
                lemma_skip_alike::<State, C>(actions, count, j);
            }
            lemma_spans_alike::<State, C>(actions, rest, count, lo, i);
            assert forall|s: State|
                execute_at(actions, i, s) == execute_at(rest, i - count, s) && revert_at(
                    actions,
                    i,
                    s,
                ) == revert_at(rest, i - count, s) by {
                assert(execute_at(actions, i, s) == revert_span(actions, lo, i, s));
                assert(revert_at(actions, i, s) == execute_span(actions, lo, i, s));
                assert(execute_at(rest, i - count, s) == revert_span(rest, lo - count, i - count, s));
                assert(revert_at(rest, i - count, s) == execute_span(rest, lo - count, i - count, s));
            }
        },
    }
}

/// Replaying all actions up to `hi` is replaying the dropped ones, then the
/// rest, where no kept undo refers to a dropped action.
pub proof fn lemma_skip_execute<State, C: Command<State>>(
    actions: Seq<HistoryAction<C>>,
    count: int,
    hi: int,
    state: State,
)
    requires
        0 <= count <= hi <= actions.len(),
        anchored(actions, count),
    ensures
        execute_span(actions, 0, hi, state) == execute_span(
            actions.skip(count),
            0,
            hi - count,
            execute_span(actions, 0, count, state),
        ),
{
    lemma_execute_span_split(actions, 0, count, hi, state);
    assert forall|j: int| count <= j < hi implies #[trigger] same_at::<State, C>(
        actions,
        j,
        actions.skip(count),
        j - count,
    ) by {
        lemma_skip_alike::<State, C>(actions, count, j);
    }
    lemma_spans_alike::<State, C>(actions, actions.skip(count), count, count, hi);
}

} // verus!
