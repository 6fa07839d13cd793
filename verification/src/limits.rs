//! How a history keeps to its limit.
//!
//! Old actions are dropped once the history is over its limit and no kept
//! undo reaches back to them. The threshold is a cheap lower bound on how far
//! back recorded undos reach: undo lowers it to the undo it records where
//! that reaches further back, redo leaves it, and dropping computes it anew
//! from the undos kept. Whatever was undone or redone before, once `limit + 1`
//! more commands have been recorded, the history holds just the newest
//! `limit` of them.
use vstd::prelude::*;

use crate::action::HistoryAction;
use crate::command::{merges, Command};
use crate::history::{
    lemma_lowest_undo,
    lemma_trimmed_wf,
    lemma_with_command_wf,
    lowest_undo,
    HistoryView,
};
use crate::laws::{as_actions, pushed_all};
use crate::replay::{anchored, span_start};

verus! {

/// Redo leaves the threshold as it is.
pub proof fn law_redo_keeps_threshold<C>(v: HistoryView<C>)
    ensures
        v.after_redo().threshold_index == v.threshold_index,
        v.after_redo().threshold_span == v.threshold_span,
        v.after_redo().limit == v.limit,
{
}

/// Undo records, as the threshold, the undo it leaves on top (its index and
/// count) where that reaches further back than the threshold did, and
/// otherwise leaves the threshold as it is.
pub proof fn law_undo_records_threshold<C>(v: HistoryView<C>)
    requires
        v.can_undo_step(),
    ensures
        ({
            let w = v.after_undo();
            let top = w.actions.len() - 1;
            let n = v.undo_count() + 1;
            &&& w.actions[top] == HistoryAction::<C>::Undo(n as usize)
            &&& top - n < span_start(v.threshold_index as int, v.threshold_span as int) ==> (
            w.threshold_index == top && w.threshold_span == n)
            &&& top - n >= span_start(v.threshold_index as int, v.threshold_span as int) ==> (
            w.threshold_index == v.threshold_index && w.threshold_span == v.threshold_span)
        }),
{
}

/// After old actions are dropped, the threshold is the kept undo that reaches
/// back furthest (its index and count; the first of them on a tie), or
/// `(usize::MAX, 0)` where no undo is kept.
pub proof fn law_dropping_recomputes_threshold<C>(v: HistoryView<C>)
    requires
        v.wf(),
        v.drops_excess(),
    ensures
        ({
            let w = v.trimmed();
            let ti = w.threshold_index as int;
            let ts = w.threshold_span as int;
            &&& forall|j: int|
                0 <= j < w.actions.len() ==> match #[trigger] w.actions[j] {
                    HistoryAction::Undo(n) => ti - ts <= j - n,
                    HistoryAction::Command(_) => true,
                }
            &&& ((ti == usize::MAX && ts == 0 && forall|j: int|
                0 <= j < w.actions.len() ==> #[trigger] w.actions[j] is Command) || (0 <= ti
                < w.actions.len() && w.actions[ti] == HistoryAction::<C>::Undo(ts as usize)))
            &&& forall|j: int|
                0 <= j < ti && j < w.actions.len() ==> match #[trigger] w.actions[j] {
                    HistoryAction::Undo(n) => ti - ts < j - n,
                    HistoryAction::Command(_) => true,
                }
        }),
{
    lemma_trimmed_wf(v);
    let w = v.trimmed();
    lemma_lowest_undo(w.actions, w.actions.len() as int);
    assert forall|j: int| 0 <= j < w.threshold_index && j < w.actions.len() implies match #[trigger] w.actions[j] {
        HistoryAction::Undo(n) => w.threshold_index - w.threshold_span < j - n,
        HistoryAction::Command(_) => true,
    } by {
        assert(match w.actions[j] {
            HistoryAction::Undo(n) => 1 <= n <= j && w.threshold() < j - n,
            HistoryAction::Command(_) => true,
        });
    }
    assert forall|j: int| 0 <= j < w.actions.len() implies match #[trigger] w.actions[j] {
        HistoryAction::Undo(n) => w.threshold_index - w.threshold_span <= j - n,
        HistoryAction::Command(_) => true,
    } by {
        assert(match w.actions[j] {
            HistoryAction::Undo(n) => 1 <= n <= j && w.threshold() <= j - n,
            HistoryAction::Command(_) => true,
        });
    }
}

/// Over the limit, the oldest excess actions are dropped where the threshold
/// lies at or past the excess, or where it names a position before the
/// excess and no undo from the excess on reaches back below it; the history
/// then holds exactly `limit` actions. Where some undo from the excess on
/// reaches back below it, or where the threshold lies before the excess but
/// names a position from it on, nothing is dropped.
pub proof fn law_trim_drops_when_safe<C>(v: HistoryView<C>)
    requires
        v.wf(),
        v.actions.len() > v.limit,
    ensures
        ({
            let count = v.actions.len() - v.limit;
            let w = v.trimmed();
            &&& (span_start(v.threshold_index as int, v.threshold_span as int) >= count || (
            v.threshold_index < count && anchored(v.actions, count))) ==> {
                &&& w.actions == v.actions.skip(count)
                &&& w.actions.len() == v.limit
                &&& w.next == (if v.next >= count {
                    v.next - count
                } else {
                    0
                })
                &&& w.limit == v.limit
            }
            &&& !anchored(v.actions, count) ==> w == v
            &&& (span_start(v.threshold_index as int, v.threshold_span as int) < count
                && v.threshold_index >= count) ==> w == v
        }),
{
    let count = v.actions.len() - v.limit;
    if !anchored(v.actions, count) {
        if span_start(v.threshold_index as int, v.threshold_span as int) >= count {
            let j = choose|j: int|
                count <= j < v.actions.len() && !match #[trigger] v.actions[j] {
                    HistoryAction::Undo(n) => count <= j - n,
                    HistoryAction::Command(_) => true,
                };
            assert(match v.actions[j] {
                HistoryAction::Undo(n) => 1 <= n <= j && v.threshold() <= j - n,
                HistoryAction::Command(_) => true,
            });
        }
    }
}

/// `append` merges exactly where the last action is a command that accepts
/// the new one: the length stays and the last command becomes one that does
/// what the two did in turn. Otherwise the command is pushed and the history
/// trimmed.
pub proof fn law_append_merges_exactly_when_accepted<State, C: Command<State>>(
    v: HistoryView<C>,
    c: C,
    after: HistoryView<C>,
)
    requires
        v.appended::<State>(c, after),
    ensures
        (v.actions.len() > 0 && v.actions.last() is Command && v.actions.last()->Command_0.accepts(
            &c,
        )) ==> {
            &&& after.actions.len() == v.actions.len()
            &&& after.actions.last() is Command
            &&& after == v.with_last(after.actions.last()->Command_0)
            &&& merges::<State, C>(v.actions.last()->Command_0, c, after.actions.last()->Command_0)
        },
        !(v.actions.len() > 0 && v.actions.last() is Command && v.actions.last()->Command_0.accepts(
            &c,
        )) ==> after == v.pushed(c),
{
}

/// Undo, redo, recording and merging keep the threshold within the history,
/// or at the mark of a history with no undo on record.
pub proof fn law_threshold_stays_tracked<C>(v: HistoryView<C>, c: C, m: C)
    requires
        v.wf(),
        v.threshold_tracked(),
        v.actions.len() < usize::MAX,
    ensures
        v.after_undo().threshold_tracked(),
        v.after_redo().threshold_tracked(),
        v.pushed(c).threshold_tracked(),
        v.actions.len() > 0 && v.actions.last() is Command ==> v.with_last(m).threshold_tracked(),
        HistoryView::<C>::initial(v.limit).threshold_tracked(),
{
    if v.can_redo_step() && v.last_undo() is Some && v.undo_count() <= 1 {
        assert(crate::history::undo_follows_command(v.actions, v.actions.len() - 1));
    }
    let w = v.with_command(c);
    lemma_with_command_wf(v, c);
    if w.drops_excess() {
        lemma_trimmed_wf(w);
        lemma_lowest_undo(w.trimmed().actions, w.trimmed().actions.len() as int);
        assert forall|j: int| 0 <= j < w.trimmed().actions.len() implies match #[trigger] w.trimmed().actions[j] {
            HistoryAction::Undo(n) => n <= j,
            HistoryAction::Command(_) => true,
        } by {
            assert(match w.trimmed().actions[j] {
                HistoryAction::Undo(n) => 1 <= n <= j,
                HistoryAction::Command(_) => true,
            });
        }
    }
}

/// What holds after recording the commands `ds` in turn (see
/// `law_pushes_keep_the_newest`).
proof fn lemma_pushes<C>(v: HistoryView<C>, ds: Seq<C>)
    requires
        v.wf(),
        v.threshold_tracked(),
        1 <= v.limit,
        v.actions.len() + ds.len() < usize::MAX,
    ensures
        ({
            let w = pushed_all(v, ds);
            &&& w.wf()
            &&& w.threshold_tracked()
            &&& w.limit == v.limit
            &&& ds.len() <= v.limit ==> {
                &&& ds.len() <= w.actions.len() <= v.actions.len() + ds.len()
                &&& w.actions == v.actions.skip(v.actions.len() + ds.len() - w.actions.len())
                    + as_actions(ds)
                &&& ((w.threshold_index == usize::MAX && w.threshold_span == 0)
                    || w.threshold_index + ds.len() <= w.actions.len())
            }
            &&& ds.len() > v.limit ==> {
                &&& w.actions == as_actions(ds).skip(ds.len() - v.limit)
                &&& w.threshold_index == usize::MAX
                &&& w.threshold_span == 0
            }
        }),
    decreases ds.len(),
{
    let l = v.limit;
    if ds.len() == 0 {
        assert(v.actions.skip(0) + as_actions(ds) =~= v.actions);
    } else {
        let prev = ds.drop_last();
        let c = ds.last();
        lemma_pushes(v, prev);
        let p = pushed_all(v, prev);
        let w0 = p.with_command(c);
        let w = pushed_all(v, ds);
        assert(w == w0.trimmed());
        lemma_with_command_wf(p, c);
        lemma_trimmed_wf(w0);
        assert(as_actions(ds) =~= as_actions(prev).push(HistoryAction::Command(c)));
        assert forall|j: int| 0 <= j < ds.len() implies #[trigger] as_actions(ds)[j] is Command by {
        }
        if prev.len() < l {
            let d = v.actions.len() + prev.len() - p.actions.len();
            let s = v.actions.skip(d);
            assert(w0.actions =~= s + as_actions(ds));
            if w0.drops_excess() {
                let count = w0.excess() as int;
                assert(count <= s.len());
                let kept = w0.actions.skip(count);
                assert(kept =~= v.actions.skip(d + count) + as_actions(ds));
                assert(w.actions == kept);
                lemma_lowest_undo(kept, kept.len() as int);
                assert forall|j: int| 0 <= j < kept.len() implies match #[trigger] kept[j] {
                    HistoryAction::Undo(n) => n <= j,
                    HistoryAction::Command(_) => true,
                } by {
                    assert(match w.actions[j] {
                        HistoryAction::Undo(n) => 1 <= n <= j,
                        HistoryAction::Command(_) => true,
                    });
                }
                if !(w.threshold_index == usize::MAX && w.threshold_span == 0) {
                    let ti = w.threshold_index as int;
                    if ti >= kept.len() - ds.len() {
                        assert(kept[ti] == as_actions(ds)[ti - (kept.len() - ds.len())]);
                    }
                }
            } else {
                assert(w == w0);
            }
        } else if prev.len() == l {
            let d = v.actions.len() + prev.len() - p.actions.len();
            let s = v.actions.skip(d);
            assert(w0.actions =~= s + as_actions(ds));
            let count = w0.excess() as int;
            assert(count == s.len() + 1);
            assert(anchored(w0.actions, count)) by {
                assert forall|j: int| count <= j < w0.actions.len() implies match #[trigger] w0.actions[j] {
                    HistoryAction::Undo(n) => count <= j - n,
                    HistoryAction::Command(_) => true,
                } by {
                    assert(w0.actions[j] == as_actions(ds)[j - s.len()]);
                }
            }
            assert(w0.drops_excess());
            let kept = w0.actions.skip(count);
            assert(kept =~= as_actions(ds).skip(1));
            assert forall|j: int| 0 <= j < kept.len() implies #[trigger] kept[j] is Command by {
                assert(kept[j] == as_actions(ds)[j + 1]);
            }
            lemma_lowest_undo(kept, kept.len() as int);
        } else {
            assert(w0.actions =~= as_actions(ds).skip(ds.len() - l - 1));
            assert(w0.excess() == 1);
            assert(w0.drops_excess());
            let kept = w0.actions.skip(1);
            assert(kept =~= as_actions(ds).skip(ds.len() - l));
            assert forall|j: int| 0 <= j < kept.len() implies #[trigger] kept[j] is Command by {
                assert(kept[j] == as_actions(ds)[j + ds.len() - l]);
            }
            lemma_lowest_undo(kept, kept.len() as int);
        }
    }
}

/// Whatever was undone or redone before, once at least `limit + 1` commands
/// are recorded in turn without merging, the history holds just the newest
/// `limit` of them, in order.
pub proof fn law_pushes_keep_the_newest<C>(v: HistoryView<C>, cs: Seq<C>)
    requires
        v.wf(),
        v.threshold_tracked(),
        1 <= v.limit,
        cs.len() > v.limit,
        v.actions.len() + cs.len() < usize::MAX,
    ensures
        pushed_all(v, cs).actions == as_actions(cs).skip(cs.len() - v.limit),
        pushed_all(v, cs).actions.len() == v.limit,
{
    lemma_pushes(v, cs);
}

} // verus!
