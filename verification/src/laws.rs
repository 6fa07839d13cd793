//! What holds of a history across its operations.
//!
//! The state a history works on is always the state reached by executing,
//! from some base state, the actions in effect. Undo and redo move back and
//! forth over those actions one at a time, and dropping old actions changes
//! none of the states that can still be reached.
use vstd::prelude::*;

use crate::action::HistoryAction;
use crate::command::{merges, Command};
use crate::history::{
    agree_below,
    lowest_undo,
    minus_or_zero,
    lemma_drop_is_anchored,
    lemma_redone_wf,
    lemma_trimmed_wf,
    lemma_undone_wf,
    lemma_with_command_wf,
    undo_follows_command,
    HistoryView,
};
use crate::replay::{
    all_reversible,
    anchored,
    execute_at,
    execute_span,
    inverse_at,
    lemma_execute_span_split,
    lemma_inverse_at,
    lemma_prefix_alike,
    lemma_prefix_execute,
    lemma_skip_execute,
    lemma_span_inverse,
    revert_at,
    revert_span,
    reversible,
    span_start,
};

verus! {

/// Undo steps back by one action: where the state is what the actions in
/// effect make of a base state, after `undo` it is what one action fewer
/// makes of it.
pub proof fn law_undo_steps_back<State, C: Command<State>>(
    v: HistoryView<C>,
    state: State,
    base: State,
)
    requires
        v.wf(),
        all_reversible::<State, C>(v.actions),
        state == v.replayed(base),
        v.can_undo_step(),
    ensures
        v.after_undo().next == v.next - 1,
        v.undo_state(state) == v.after_undo().replayed(base),
        v.undo_state(state) == execute_span(v.actions, 0, v.next - 1, base),
        all_reversible::<State, C>(v.after_undo().actions),
{
    let w = v.undone();
    lemma_undone_wf(v);
    let x = execute_span(v.actions, 0, v.next - 1, base);
    lemma_inverse_at::<State, C>(v.actions, v.next - 1);
    assert(revert_at(v.actions, v.next - 1, execute_at(v.actions, v.next - 1, x)) == x);
    lemma_prefix_execute::<State, C>(v.actions, w.actions, v.next - 1, base);
    assert forall|i: int| 0 <= i < w.actions.len() implies match #[trigger] w.actions[i] {
        HistoryAction::Command(c) => reversible::<State, C>(c),
        HistoryAction::Undo(_) => true,
    } by {
        if i < v.actions.len() {
            assert(match v.actions[i] {
                HistoryAction::Command(c) => reversible::<State, C>(c),
                HistoryAction::Undo(_) => true,
            });
        }
    }
}

/// Redo steps forward by one action: where the state is what the actions in
/// effect make of a base state, after `redo` it is what one action more
/// makes of it.
pub proof fn law_redo_steps_forward<State, C: Command<State>>(
    v: HistoryView<C>,
    state: State,
    base: State,
)
    requires
        v.wf(),
        state == v.replayed(base),
        v.can_redo_step(),
    ensures
        v.after_redo().next == v.next + 1,
        v.redo_state(state) == v.after_redo().replayed(base),
        v.redo_state(state) == execute_span(v.actions, 0, v.next + 1 as int, base),
        all_reversible::<State, C>(v.actions) ==> all_reversible::<State, C>(v.after_redo().actions),
{
    let w = v.redone();
    lemma_redone_wf(v);
    lemma_prefix_execute::<State, C>(v.actions, w.actions, v.next + 1 as int, base);
    if all_reversible::<State, C>(v.actions) {
        assert forall|i: int| 0 <= i < w.actions.len() implies match #[trigger] w.actions[i] {
            HistoryAction::Command(c) => reversible::<State, C>(c),
            HistoryAction::Undo(_) => true,
        } by {
            assert(match v.actions[i] {
                HistoryAction::Command(c) => reversible::<State, C>(c),
                HistoryAction::Undo(_) => true,
            });
        }
    }
}

/// Redo takes back an undo: the same actions are recorded again, the same
/// number of them is in effect, and the state is the one before the undo.
pub proof fn law_redo_after_undo<State, C: Command<State>>(v: HistoryView<C>, state: State)
    requires
        v.wf(),
        all_reversible::<State, C>(v.actions),
        v.can_undo_step(),
    ensures
        v.after_undo().can_redo_step(),
        v.after_undo().after_redo().actions == v.actions,
        v.after_undo().after_redo().next == v.next,
        v.after_undo().redo_state(v.undo_state(state)) == state,
{
    let u = v.undone();
    lemma_undone_wf(v);
    assert(u.redone().actions =~= v.actions);
    lemma_inverse_at::<State, C>(v.actions, v.next - 1);
    lemma_prefix_alike::<State, C>(v.actions, u.actions, v.next as int, v.next - 1);
    let t = revert_at(v.actions, v.next - 1, state);
    assert(execute_at(u.actions, v.next - 1, t) == execute_at(v.actions, v.next - 1, t));
}

/// Undo takes back a redo: the same actions are recorded again, the same
/// number of them is in effect, and the state is the one before the redo.
pub proof fn law_undo_after_redo<State, C: Command<State>>(v: HistoryView<C>, state: State)
    requires
        v.wf(),
        all_reversible::<State, C>(v.actions),
        v.can_redo_step(),
    ensures
        v.after_redo().can_undo_step(),
        v.after_redo().after_undo().actions == v.actions,
        v.after_redo().after_undo().next == v.next,
        v.after_redo().undo_state(v.redo_state(state)) == state,
{
    let r = v.redone();
    lemma_redone_wf(v);
    assert(undo_follows_command(v.actions, v.actions.len() - 1));
    assert(r.undone().actions =~= v.actions);
    lemma_inverse_at::<State, C>(v.actions, v.next as int);
    lemma_prefix_alike::<State, C>(v.actions, r.actions, v.next + 1 as int, v.next as int);
    let t = execute_at(v.actions, v.next as int, state);
    assert(revert_at(r.actions, v.next as int, t) == revert_at(v.actions, v.next as int, t));
}

/// Replaying every recorded action ends in the same state as replaying the
/// actions in effect: an undo in progress cancels what it undid.
pub proof fn law_replay_all_is_replay_in_effect<State, C: Command<State>>(v: HistoryView<C>, base: State)
    requires
        v.wf(),
        all_reversible::<State, C>(v.actions),
    ensures
        execute_span(v.actions, 0, v.actions.len() as int, base) == v.replayed(base),
{
    if v.last_undo() is Some {
        let u = v.actions.len() - 1;
        let n = v.undo_count() as int;
        assert(v.actions[u] == HistoryAction::<C>::Undo(n as usize));
        let lo = span_start(u, n);
        assert(lo == v.next);
        assert forall|j: int| lo <= j < u implies #[trigger] inverse_at::<State, C>(v.actions, j) by {
            lemma_inverse_at::<State, C>(v.actions, j);
        }
        lemma_span_inverse::<State, C>(v.actions, lo, u);
        lemma_execute_span_split(v.actions, 0, lo, u, base);
        let x = execute_span(v.actions, 0, lo, base);
        assert(execute_at(v.actions, u, execute_span(v.actions, 0, u, base)) == revert_span(
            v.actions,
            lo,
            u,
            execute_span(v.actions, lo, u, x),
        ));
    }
}

/// Recording a command keeps the state what the actions in effect make of a
/// base state. Where old actions are dropped, the base moves past them: it
/// becomes the state those actions made of the old base, so that dropping
/// changes none of the states the kept actions lead to.
pub proof fn law_push_keeps_replay<State, C: Command<State>>(
    v: HistoryView<C>,
    state: State,
    base: State,
    c: C,
)
    requires
        v.wf(),
        v.actions.len() < usize::MAX,
        all_reversible::<State, C>(v.actions),
        reversible::<State, C>(c),
        state == v.replayed(base),
    ensures
        v.pushed(c).actions == v.with_command(c).actions.skip(v.with_command(c).excess_dropped() as int),
        c.executed(state) == v.pushed(c).replayed(
            execute_span(
                v.with_command(c).actions,
                0,
                v.with_command(c).excess_dropped() as int,
                base,
            ),
        ),
        all_reversible::<State, C>(v.pushed(c).actions),
{
    let w = v.with_command(c);
    lemma_with_command_wf(v, c);
    law_replay_all_is_replay_in_effect::<State, C>(v, base);
    lemma_prefix_execute::<State, C>(v.actions, w.actions, v.actions.len() as int, base);
    assert(w.actions[v.actions.len() as int] == HistoryAction::Command(c));
    assert(w.replayed(base) == execute_at(
        w.actions,
        v.actions.len() as int,
        execute_span(w.actions, 0, v.actions.len() as int, base),
    ));
    assert(w.replayed(base) == c.executed(state));
    assert(all_reversible::<State, C>(w.actions)) by {
        assert forall|i: int| 0 <= i < w.actions.len() implies match #[trigger] w.actions[i] {
            HistoryAction::Command(k) => reversible::<State, C>(k),
            HistoryAction::Undo(_) => true,
        } by {
            if i < v.actions.len() {
                assert(w.actions[i] == v.actions[i]);
            }
        }
    }
    if w.drops_excess() {
        let count = w.excess() as int;
        lemma_drop_is_anchored(w);
        lemma_skip_execute::<State, C>(w.actions, count, w.actions.len() as int, base);
        assert forall|i: int| 0 <= i < w.actions.len() - count implies match #[trigger] w.actions.skip(count)[i] {
            HistoryAction::Command(k) => reversible::<State, C>(k),
            HistoryAction::Undo(_) => true,
        } by {
            assert(w.actions.skip(count)[i] == w.actions[i + count]);
            assert(match w.actions[i + count] {
                HistoryAction::Command(k) => reversible::<State, C>(k),
                HistoryAction::Undo(_) => true,
            });
        }
    } else {
        assert(w.actions.skip(0) =~= w.actions);
    }
}

/// Merging a command into the last one keeps the state what the actions in
/// effect make of the same base state.
pub proof fn law_merge_keeps_replay<State, C: Command<State>>(
    v: HistoryView<C>,
    state: State,
    base: State,
    c: C,
    last: C,
    merged: C,
)
    requires
        v.wf(),
        v.actions.len() > 0,
        v.actions.last() == HistoryAction::Command(last),
        merges::<State, C>(last, c, merged),
        all_reversible::<State, C>(v.actions),
        reversible::<State, C>(c),
        state == v.replayed(base),
    ensures
        c.executed(state) == v.with_last(merged).replayed(base),
        all_reversible::<State, C>(v.with_last(merged).actions),
{
    let w = v.with_last(merged);
    let k = v.actions.len() - 1;
    lemma_prefix_execute::<State, C>(v.actions, w.actions, k, base);
    let x = execute_span(v.actions, 0, k, base);
    assert(state == execute_at(v.actions, k, x));
    assert(w.replayed(base) == execute_at(w.actions, k, x));
    assert(merged.executed(x) == c.executed(last.executed(x)));
    assert(reversible::<State, C>(last));
    assert(reversible::<State, C>(merged)) by {
        assert forall|s: State|
            merged.reverted(merged.executed(s)) == s && merged.executed(merged.reverted(s)) == s by {
            assert(merged.executed(s) == c.executed(last.executed(s)));
            assert(merged.reverted(merged.executed(s)) == last.reverted(
                c.reverted(merged.executed(s)),
            ));
            assert(merged.reverted(s) == last.reverted(c.reverted(s)));
            assert(merged.executed(merged.reverted(s)) == c.executed(
                last.executed(merged.reverted(s)),
            ));
        }
    }
    assert forall|i: int| 0 <= i < w.actions.len() implies match #[trigger] w.actions[i] {
        HistoryAction::Command(k) => reversible::<State, C>(k),
        HistoryAction::Undo(_) => true,
    } by {
        if i < k {
            assert(w.actions[i] == v.actions[i]);
        }
    }
}

/// Undo takes back the command just executed: after `execute` records `c`
/// without merging it, `undo` acts and brings back the state before.
pub proof fn law_undo_after_execute<State, C: Command<State>>(
    v: HistoryView<C>,
    state: State,
    c: C,
)
    requires
        v.wf(),
        reversible::<State, C>(c),
        v.pushed(c).actions.len() > 0,
    ensures
        v.pushed(c).can_undo_step(),
        v.pushed(c).undo_state(c.executed(state)) == state,
{
    let w = v.with_command(c);
    let p = v.pushed(c);
    assert(p.actions.last() == HistoryAction::<C>::Command(c)) by {
        if w.drops_excess() {
            assert(p.actions.last() == w.actions.skip(w.excess() as int)[p.actions.len() - 1]);
        }
    }
    assert(p.next == p.actions.len());
    assert(p.undo_state(c.executed(state)) == c.reverted(c.executed(state)));
}

/// Undo takes nothing away: every recorded command stays where it was, and
/// so does every recorded undo but the one in progress.
pub proof fn law_undo_keeps_record<C>(v: HistoryView<C>)
    requires
        v.wf(),
    ensures
        v.actions.len() <= v.after_undo().actions.len(),
        forall|i: int|
            0 <= i < v.actions.len() && (v.actions[i] is Command || i < v.actions.len() - 1)
                ==> #[trigger] v.after_undo().actions[i] == v.actions[i],
{
}

/// Redo drops nothing but undo counts: every recorded command stays where
/// it was.
pub proof fn law_redo_keeps_commands<C>(v: HistoryView<C>)
    requires
        v.wf(),
    ensures
        forall|i: int|
            0 <= i < v.actions.len() && v.actions[i] is Command ==> i < v.after_redo().actions.len()
                && #[trigger] v.after_redo().actions[i] == v.actions[i],
{
}

/// Old actions are dropped only down to the limit, and only where no undo
/// that stays refers to them; what stays is the newest actions, in order.
pub proof fn law_trim_drops_only_unreferenced<C>(v: HistoryView<C>, c: C)
    requires
        v.wf(),
        v.actions.len() < usize::MAX,
    ensures
        v.pushed(c).actions == v.with_command(c).actions.skip(
            v.with_command(c).excess_dropped() as int,
        ),
        v.with_command(c).excess_dropped() > 0 ==> v.pushed(c).actions.len() == v.limit,
        anchored(v.with_command(c).actions, v.with_command(c).excess_dropped() as int),
        v.actions.len() + 1 <= v.limit ==> v.pushed(c) == v.with_command(c),
        v.pushed(c).wf(),
{
    let w = v.with_command(c);
    lemma_with_command_wf(v, c);
    if w.drops_excess() {
        lemma_drop_is_anchored(w);
        lemma_trimmed_wf(w);
    } else {
        assert(w.actions.skip(0) =~= w.actions);
        assert(anchored(w.actions, 0)) by {
            assert forall|j: int| 0 <= j < w.actions.len() implies match #[trigger] w.actions[j] {
                HistoryAction::Undo(n) => 0 <= j - n,
                HistoryAction::Command(_) => true,
            } by {
                assert(match w.actions[j] {
                    HistoryAction::Undo(n) => 1 <= n <= j,
                    HistoryAction::Command(_) => true,
                });
            }
        }
    }
}

/// What holds after `k` undos in a row (see `law_undo_reaches_earlier_states`).
proof fn lemma_undo_times<State, C: Command<State>>(
    v: HistoryView<C>,
    state: State,
    base: State,
    k: nat,
)
    requires
        v.wf(),
        v.actions.len() < usize::MAX,
        all_reversible::<State, C>(v.actions),
        state == v.replayed(base),
        k <= v.next,
        v.undo_count() + k <= v.limit,
    ensures
        ({
            let (w, s) = v.undo_times(state, k);
            &&& w.wf()
            &&& all_reversible::<State, C>(w.actions)
            &&& s == w.replayed(base)
            &&& s == execute_span(v.actions, 0, v.next - k, base)
            &&& w.next == v.next - k
            &&& w.limit == v.limit
            &&& agree_below(v.actions, w.actions, v.next - k)
            &&& k > 0 ==> w.last_undo() == Some(v.undo_count() + k)
            &&& k == 0 ==> w == v
        }),
    decreases k,
{
    if k > 0 {
        lemma_undo_times::<State, C>(v, state, base, (k - 1) as nat);
        let (w, s) = v.undo_times(state, (k - 1) as nat);
        assert(w.next > 0);
        if k == 1 {
            assert(w == v);
            assert(v.last_undo() is Some ==> v.last_undo() == Some(v.undo_count()));
            assert(v.can_undo_step());
        } else {
            assert(w.last_undo() == Some(v.undo_count() + (k - 1) as nat));
        }
        assert(w.can_undo_step());
        lemma_undone_wf(w);
        law_undo_steps_back::<State, C>(w, s, base);
        lemma_prefix_execute::<State, C>(v.actions, w.actions, v.next - k, base);
    }
}

/// All earlier states can be reached again by undoing: `k` undos in a row,
/// where the undo in progress may count that many more actions, bring back
/// the state that the first `next - k` actions in effect made of the base.
pub proof fn law_undo_reaches_earlier_states<State, C: Command<State>>(
    v: HistoryView<C>,
    state: State,
    base: State,
    k: nat,
)
    requires
        v.wf(),
        v.actions.len() < usize::MAX,
        all_reversible::<State, C>(v.actions),
        state == v.replayed(base),
        k <= v.next,
        v.undo_count() + k <= v.limit,
    ensures
        v.undo_times(state, k).0.next == v.next - k,
        v.undo_times(state, k).1 == execute_span(v.actions, 0, v.next - k, base),
{
    lemma_undo_times::<State, C>(v, state, base, k);
}

/// A fresh or cleared history is in step with any state: no action is in
/// effect, so the state is its own base.
pub proof fn law_initial_replays_nothing<State, C: Command<State>>(limit: nat, state: State)
    requires
        limit <= usize::MAX,
    ensures
        HistoryView::<C>::initial(limit).wf(),
        HistoryView::<C>::initial(limit).replayed(state) == state,
        all_reversible::<State, C>(HistoryView::<C>::initial(limit).actions),
{
}

/// The undo in progress never counts more actions than the limit allows
/// (a single undo is always allowed), and is refused once it reaches it.
pub proof fn law_undo_count_within_limit<C>(v: HistoryView<C>)
    requires
        v.wf(),
    ensures
        v.undo_count() <= v.limit || v.undo_count() <= 1,
        v.undo_count() >= v.limit && v.last_undo() is Some ==> v.after_undo() == v,
{
}

/// No operation changes the limit.
pub proof fn law_limit_is_kept<State, C: Command<State>>(v: HistoryView<C>, c: C, merged: C)
    ensures
        v.after_undo().limit == v.limit,
        v.after_redo().limit == v.limit,
        v.pushed(c).limit == v.limit,
        v.with_last(merged).limit == v.limit,
        HistoryView::<C>::initial(v.limit).limit == v.limit,
{
}

/// Executing action `i` after the first `i` actions is replaying `i + 1`
/// actions, and reverting it then goes back to the replay of `i` actions.
pub proof fn law_one_action_steps_the_replay<State, C: Command<State>>(
    actions: Seq<HistoryAction<C>>,
    base: State,
    i: int,
)
    requires
        0 <= i < actions.len(),
        all_reversible::<State, C>(actions),
    ensures
        execute_at(actions, i, execute_span(actions, 0, i, base)) == execute_span(
            actions,
            0,
            i + 1,
            base,
        ),
        revert_at(actions, i, execute_span(actions, 0, i + 1, base)) == execute_span(
            actions,
            0,
            i,
            base,
        ),
{
    lemma_inverse_at::<State, C>(actions, i);
    assert(revert_at(actions, i, execute_at(actions, i, execute_span(actions, 0, i, base)))
        == execute_span(actions, 0, i, base));
}

/// Trimming to the limit leaves a history within the limit as it is;
/// otherwise it either leaves it as it is or drops exactly the oldest actions
/// over the limit, moving `next` back by as many. No undo that stays refers
/// to a dropped action.
pub proof fn law_trim_keeps_or_drops_oldest<C>(v: HistoryView<C>)
    requires
        v.wf(),
    ensures
        v.actions.len() <= v.limit ==> v.trimmed() == v,
        v.trimmed() == v || {
            &&& v.excess() > 0
            &&& v.trimmed().actions == v.actions.skip(v.excess() as int)
            &&& v.trimmed().actions.len() == v.limit
            &&& v.trimmed().next == minus_or_zero(v.next, v.excess())
            &&& v.trimmed().limit == v.limit
        },
        anchored(v.actions, v.excess_dropped() as int),
        v.trimmed().wf(),
{
    lemma_trimmed_wf(v);
    if v.drops_excess() {
        lemma_drop_is_anchored(v);
    } else {
        assert forall|j: int| 0 <= j < v.actions.len() implies match #[trigger] v.actions[j] {
            HistoryAction::Undo(n) => 0 <= j - n,
            HistoryAction::Command(_) => true,
        } by {
            assert(match v.actions[j] {
                HistoryAction::Undo(n) => 1 <= n <= j,
                HistoryAction::Command(_) => true,
            });
        }
    }
}

/// The history after recording the commands `cs` in turn, none merged.
pub open spec fn pushed_all<C>(v: HistoryView<C>, cs: Seq<C>) -> HistoryView<C>
    decreases cs.len(),
{
    if cs.len() == 0 {
        v
    } else {
        pushed_all(v, cs.drop_last()).pushed(cs.last())
    }
}

/// The actions that record the commands `cs`.
pub open spec fn as_actions<C>(cs: Seq<C>) -> Seq<HistoryAction<C>> {
    cs.map_values(|c: C| HistoryAction::Command(c))
}

/// Scanning only commands finds no undo.
proof fn lemma_lowest_undo_of_commands<C>(actions: Seq<HistoryAction<C>>, k: int)
    requires
        0 <= k <= actions.len(),
        forall|j: int| 0 <= j < actions.len() ==> #[trigger] actions[j] is Command,
    ensures
        lowest_undo(actions, k) == (usize::MAX as nat, 0nat),
    decreases k,
{
    if k > 0 {
        lemma_lowest_undo_of_commands(actions, k - 1);
        assert(actions[k - 1] is Command);
    }
}

/// Recording commands one after another, with no merge, undo or redo, keeps
/// the newest `limit` of them, in order, all in effect.
pub proof fn law_appends_keep_newest<C>(limit: nat, cs: Seq<C>)
    requires
        1 <= limit <= usize::MAX,
    ensures
        ({
            let w = pushed_all(HistoryView::<C>::initial(limit), cs);
            let kept = if cs.len() <= limit {
                cs.len()
            } else {
                limit
            };
            &&& w.actions == as_actions(cs).skip(cs.len() - kept)
            &&& w.actions.len() == kept
            &&& w.next == kept
            &&& w.limit == limit
            &&& w.threshold_index == usize::MAX
            &&& w.threshold_span == 0
        }),
    decreases cs.len(),
{
    let v0 = HistoryView::<C>::initial(limit);
    if cs.len() == 0 {
        assert(as_actions(cs).skip(0) =~= Seq::<HistoryAction<C>>::empty());
    } else {
        let prev = cs.drop_last();
        law_appends_keep_newest(limit, prev);
        let p = pushed_all(v0, prev);
        let c = cs.last();
        let kp = if prev.len() <= limit { prev.len() } else { limit };
        let w = p.with_command(c);
        assert(as_actions(cs) =~= as_actions(prev).push(HistoryAction::Command(c)));
        assert(w.actions =~= as_actions(cs).skip(prev.len() - kp)) by {
            assert(p.actions == as_actions(prev).skip(prev.len() - kp));
        }
        if w.actions.len() <= limit {
            assert(w.excess() == 0);
            assert(pushed_all(v0, cs) == w);
        } else {
            assert(w.excess() == 1);
            assert(w.threshold() == usize::MAX);
            assert(w.drops_excess());
            let kept = w.actions.skip(1);
            assert(kept =~= as_actions(cs).skip(cs.len() - limit));
            assert forall|j: int| 0 <= j < kept.len() implies #[trigger] kept[j] is Command by {
                assert(kept[j] == as_actions(cs)[j + cs.len() - limit]);
            }
            lemma_lowest_undo_of_commands(kept, kept.len() as int);
        }
    }
}

} // verus!
