use vstd::prelude::*;

use core::marker::PhantomData;
use vstd::std_specs::iter::IteratorSpec;

pub use crate::action::HistoryAction;
pub use crate::command::Command;
use crate::command::merges;
use crate::replay::{anchored, execute_at, execute_span, revert_at, revert_span, span_start};

verus! {

/// The mathematical model of a `History`.
///
/// `actions` is the stack of recorded actions and `next` the number of them
/// that are in effect: the next action to redo, if any, is `actions[next]`.
/// `threshold_index` and `threshold_span` describe the undo that reaches
/// furthest back (a lower bound on how far back any recorded undo reaches),
/// which tells cheaply when old actions can be dropped.
pub struct HistoryView<C> {
    pub actions: Seq<HistoryAction<C>>,
    pub next: nat,
    pub limit: nat,
    pub threshold_index: nat,
    pub threshold_span: nat,
}

/// `a - b`, or 0 where `b` is larger.
pub open spec fn minus_or_zero(a: nat, b: nat) -> nat {
    if b <= a {
        (a - b) as nat
    } else {
        0
    }
}

/// Among the first `k` actions, the undo that reaches back furthest (the first
/// such one on a tie), as its index and span; `(usize::MAX, 0)` where there is
/// none.
pub open spec fn lowest_undo<C>(actions: Seq<HistoryAction<C>>, k: int) -> (nat, nat)
    decreases k,
{
    if k <= 0 {
        (usize::MAX as nat, 0nat)
    } else {
        let (ti, ts) = lowest_undo(actions, k - 1);
        match actions[k - 1] {
            HistoryAction::Undo(n) => if span_start(k - 1, n as int) < span_start(
                ti as int,
                ts as int,
            ) {
                ((k - 1) as nat, n as nat)
            } else {
                (ti, ts)
            },
            HistoryAction::Command(_) => (ti, ts),
        }
    }
}

/// An undo at `i` directly follows a command.
pub open spec fn undo_follows_command<C>(actions: Seq<HistoryAction<C>>, i: int) -> bool {
    actions[i] is Undo ==> 0 < i && actions[i - 1] is Command
}

impl<C> HistoryView<C> {
    /// An empty history with the given limit.
    pub open spec fn initial(limit: nat) -> Self {
        HistoryView {
            actions: Seq::empty(),
            next: 0,
            limit,
            threshold_index: usize::MAX as nat,
            threshold_span: 0,
        }
    }

    /// No recorded undo reaches back below this index.
    pub open spec fn threshold(self) -> int {
        span_start(self.threshold_index as int, self.threshold_span as int)
    }

    /// The count of the last action, where it is an undo.
    pub open spec fn last_undo(self) -> Option<nat> {
        if self.actions.len() > 0 {
            match self.actions.last() {
                HistoryAction::Undo(n) => Some(n as nat),
                HistoryAction::Command(_) => None,
            }
        } else {
            None
        }
    }

    /// The invariant of a history: every undo counts at least one action and
    /// no more than there are before it, follows a command, and reaches no
    /// further back than the threshold says; the last action, where it is an
    /// undo, undid exactly the actions from `next` on and counts no more
    /// than the limit allows; otherwise every action is in effect.
    pub open spec fn wf(self) -> bool {
        &&& self.next <= self.actions.len() <= usize::MAX
        &&& self.limit <= usize::MAX
        &&& self.threshold_span <= self.threshold_index <= usize::MAX
        &&& forall|i: int|
            0 <= i < self.actions.len() ==> match #[trigger] self.actions[i] {
                HistoryAction::Undo(n) => 1 <= n <= i && self.threshold() <= i - n,
                HistoryAction::Command(_) => true,
            }
        &&& forall|i: int|
            0 <= i < self.actions.len() ==> #[trigger] undo_follows_command(self.actions, i)
        &&& match self.last_undo() {
            Some(n) => self.next + n + 1 == self.actions.len() && (n <= self.limit || n == 1),
            None => self.next == self.actions.len(),
        }
    }

    /// The threshold names a position within the history, or is the mark
    /// `(usize::MAX, 0)` of a history with no undo on record; it names the
    /// position just past the end only where the last action is a command.
    pub open spec fn threshold_tracked(self) -> bool {
        ||| (self.threshold_index == usize::MAX && self.threshold_span == 0)
        ||| self.threshold_index < self.actions.len()
        ||| (self.threshold_index == self.actions.len() && self.last_undo() is None)
    }

    /// `undo` does something: there is an action in effect, and the undo
    /// in progress has not reached the limit.
    pub open spec fn can_undo_step(self) -> bool {
        &&& self.next > 0
        &&& match self.last_undo() {
            Some(n) => n < self.limit,
            None => true,
        }
    }

    /// The history after one more undo: the last undo counts one more action,
    /// or a new undo of one action is recorded.
    pub open spec fn undone(self) -> Self {
        let len = self.actions.len();
        let n: nat = match self.last_undo() {
            Some(m) => m + 1,
            None => 1,
        };
        let actions = match self.last_undo() {
            Some(m) => self.actions.update(len - 1, HistoryAction::Undo(n as usize)),
            None => self.actions.push(HistoryAction::Undo(1)),
        };
        let index = actions.len() - 1;
        if index - n < self.threshold() {
            HistoryView {
                actions,
                next: (self.next - 1) as nat,
                threshold_index: index as nat,
                threshold_span: n,
                ..self
            }
        } else {
            HistoryView { actions, next: (self.next - 1) as nat, ..self }
        }
    }

    /// The history after `undo`.
    pub open spec fn after_undo(self) -> Self {
        if self.can_undo_step() {
            self.undone()
        } else {
            self
        }
    }

    /// `redo` does something: some action is not in effect.
    pub open spec fn can_redo_step(self) -> bool {
        self.next < self.actions.len()
    }

    /// The history after one redo: the last undo counts one action less, and
    /// goes where it counts none.
    pub open spec fn redone(self) -> Self {
        let len = self.actions.len();
        let actions = match self.last_undo() {
            Some(n) => if n <= 1 {
                self.actions.drop_last()
            } else {
                self.actions.update(len - 1, HistoryAction::Undo((n - 1) as usize))
            },
            None => self.actions,
        };
        HistoryView { actions, next: self.next + 1, ..self }
    }

    /// The history after `redo`.
    pub open spec fn after_redo(self) -> Self {
        if self.can_redo_step() {
            self.redone()
        } else {
            self
        }
    }

    /// The history with `c` recorded on top, before old actions are dropped.
    pub open spec fn with_command(self, c: C) -> Self {
        HistoryView {
            actions: self.actions.push(HistoryAction::Command(c)),
            next: self.actions.len() + 1,
            ..self
        }
    }

    /// The number of leading actions that go over the limit.
    pub open spec fn excess(self) -> nat {
        minus_or_zero(self.actions.len(), self.limit)
    }

    /// Whether the actions over the limit are dropped: only where no undo
    /// that stays reaches back to them, as far as the threshold and a scan
    /// tell.
    pub open spec fn drops_excess(self) -> bool {
        let count = self.excess();
        &&& count > 0
        &&& (self.threshold() >= count || (self.threshold_index < count && anchored(
            self.actions,
            count as int,
        )))
    }

    /// The history without its first `count` actions; the threshold is
    /// computed anew.
    pub open spec fn drained(self, count: nat) -> Self {
        let actions = self.actions.skip(count as int);
        let (ti, ts) = lowest_undo(actions, actions.len() as int);
        HistoryView {
            actions,
            next: minus_or_zero(self.next, count),
            limit: self.limit,
            threshold_index: ti,
            threshold_span: ts,
        }
    }

    /// How many leading actions trimming drops.
    pub open spec fn excess_dropped(self) -> nat {
        if self.drops_excess() {
            self.excess()
        } else {
            0
        }
    }

    /// The history after old actions over the limit are dropped, where they
    /// can be.
    pub open spec fn trimmed(self) -> Self {
        if self.drops_excess() {
            self.drained(self.excess())
        } else {
            self
        }
    }

    /// The history after `append` records `c` without merging it.
    pub open spec fn pushed(self, c: C) -> Self {
        self.with_command(c).trimmed()
    }

    /// The history with its last action replaced by the command `c`.
    pub open spec fn with_last(self, c: C) -> Self {
        HistoryView {
            actions: self.actions.update(self.actions.len() - 1, HistoryAction::Command(c)),
            ..self
        }
    }

    /// The last action is a command that accepts to merge `c` into itself.
    pub open spec fn merges_last<State>(self, c: C) -> bool where C: Command<State> {
        &&& self.actions.len() > 0
        &&& match self.actions.last() {
            HistoryAction::Command(last) => last.accepts(&c),
            HistoryAction::Undo(_) => false,
        }
    }

    /// `after` is this history after `append` records `c`: merged into the
    /// last action where that is a command that accepts it, and otherwise
    /// pushed on top and trimmed.
    pub open spec fn appended<State>(self, c: C, after: Self) -> bool where C: Command<State> {
        if self.merges_last(c) {
            &&& after.actions.len() == self.actions.len()
            &&& match (self.actions.last(), after.actions.last()) {
                (HistoryAction::Command(last), HistoryAction::Command(merged)) => {
                    after == self.with_last(merged) && merges::<State, C>(last, c, merged)
                },
                _ => false,
            }
        } else {
            after == self.pushed(c)
        }
    }

    /// The state reached from `base` by executing the actions in effect,
    /// oldest first.
    pub open spec fn replayed<State>(self, base: State) -> State where C: Command<State> {
        execute_span(self.actions, 0, self.next as int, base)
    }

    /// How many actions the undo in progress counts; 0 where there is none.
    pub open spec fn undo_count(self) -> nat {
        match self.last_undo() {
            Some(n) => n,
            None => 0,
        }
    }

    /// The history and the state after `k` calls of `undo`.
    pub open spec fn undo_times<State>(self, state: State, k: nat) -> (Self, State) where
        C: Command<State>,
        decreases k,
    {
        if k == 0 {
            (self, state)
        } else {
            let (v, s) = self.undo_times(state, (k - 1) as nat);
            (v.after_undo(), v.undo_state(s))
        }
    }

    /// The state that `undo` makes of `state`.
    pub open spec fn undo_state<State>(self, state: State) -> State where C: Command<State> {
        if self.can_undo_step() {
            revert_at(self.actions, self.next - 1, state)
        } else {
            state
        }
    }

    /// The state that `redo` makes of `state`.
    pub open spec fn redo_state<State>(self, state: State) -> State where C: Command<State> {
        if self.can_redo_step() {
            execute_at(self.actions, self.next as int, state)
        } else {
            state
        }
    }
}

/// A command history stack.
pub struct History<Cmd, State> {
    stack: Vec<HistoryAction<Cmd>>,
    next: usize,
    phantom: PhantomData<State>,
    limit: usize,
    threshold_index: usize,
    threshold_span: usize,
}

impl<Cmd, State> View for History<Cmd, State> {
    type V = HistoryView<Cmd>;

    closed spec fn view(&self) -> HistoryView<Cmd> {
        HistoryView {
            actions: self.stack@,
            next: self.next as nat,
            limit: self.limit as nat,
            threshold_index: self.threshold_index as nat,
            threshold_span: self.threshold_span as nat,
        }
    }
}

impl<Cmd, State> History<Cmd, State> {
    /// Creates a new history stack with the given limit.
    pub fn new(limit: usize) -> (h: Self)
        ensures
            h@ == HistoryView::<Cmd>::initial(limit as nat),
            h@.wf(),
    {
        History {
            stack: Vec::new(),
            next: 0,
            limit,
            threshold_index: usize::MAX,
            threshold_span: 0,
            phantom: PhantomData,
        }
    }

    /// Returns the limit of the history stack.
    pub fn limit(&self) -> (r: usize)
        ensures
            r == self@.limit,
    {
        self.limit
    }
}

impl<Cmd, State> History<Cmd, State> where Cmd: Command<State> {
    /// The count of the last action, where it is an undo.
    fn last_undo_count(&self) -> (r: Option<usize>)
        ensures
            match r {
                Some(k) => self@.last_undo() == Some(k as nat),
                None => self@.last_undo() is None,
            },
    {
        let len = self.stack.len();
        if len == 0 {
            return None;
        }
        match &self.stack[len - 1] {
            HistoryAction::Undo(n) => Some(*n),
            HistoryAction::Command(_) => None,
        }
    }

    /// Executes the action at `action_idx`; an index past the stack does nothing.
    fn execute_action(&self, action_idx: usize, state: &mut State)
        requires
            self@.wf(),
        ensures
            *final(state) == execute_at(self@.actions, action_idx as int, *old(state)),
        decreases action_idx,
    {
        if action_idx >= self.stack.len() {
            return;
        }
        match &self.stack[action_idx] {
            HistoryAction::Command(command) => {
                command.execute(state);
            },
            HistoryAction::Undo(n) => {
                let n = *n;
                let ghost init = *old(state);
                proof {
                    assert(1 <= n <= action_idx);
                }
                // Reverts the actions at action_idx - 1, action_idx - 2, ..., action_idx - n.
                let mut i: usize = 0;
                while i < n
                    invariant
                        self@.wf(),
                        n <= action_idx < self@.actions.len(),
                        self@.actions[action_idx as int] == HistoryAction::<Cmd>::Undo(n),
                        i <= n,
                        *state == revert_span(self@.actions, action_idx - i, action_idx as int, init),
                    decreases n - i,
                {
                    if let Some(target_idx) = action_idx.checked_sub(1 + i) {
                        self.revert_action(target_idx, state);
                    }
                    i = i + 1;
                }
            },
        }
    }

    /// Reverts the action at `action_idx`; an index past the stack does nothing.
    fn revert_action(&self, action_idx: usize, state: &mut State)
        requires
            self@.wf(),
        ensures
            *final(state) == revert_at(self@.actions, action_idx as int, *old(state)),
        decreases action_idx,
    {
        if action_idx >= self.stack.len() {
            return;
        }
        match &self.stack[action_idx] {
            HistoryAction::Command(command) => {
                command.revert(state);
            },
            HistoryAction::Undo(n) => {
                let n = *n;
                let ghost init = *old(state);
                proof {
                    assert(1 <= n <= action_idx);
                }
                // Reverting an undo redoes the actions it undid, oldest first.
                let start_index = action_idx.saturating_sub(n);
                let mut i: usize = 0;
                while i < n
                    invariant
                        self@.wf(),
                        n <= action_idx < self@.actions.len(),
                        self@.actions[action_idx as int] == HistoryAction::<Cmd>::Undo(n),
                        start_index == action_idx - n,
                        i <= n,
                        *state == execute_span(self@.actions, start_index as int, start_index + i, init),
                    decreases n - i,
                {
                    self.execute_action(start_index + i, state);
                    i = i + 1;
                }
            },
        }
    }
}

impl<Cmd, State> History<Cmd, State> where Cmd: Command<State> {
    /// Undo the last executed command.
    ///
    /// The undo is itself recorded, so it can be undone in turn. Nothing
    /// happens where no action is in effect, or where the undo in progress
    /// already counts `limit` actions.
    pub fn undo(&mut self, state: &mut State)
        requires
            old(self)@.wf(),
        ensures
            final(self)@ == old(self)@.after_undo(),
            final(self)@.wf(),
            *final(state) == old(self)@.undo_state(*old(state)),
    {
        if let Some(n) = self.last_undo_count() {
            if n >= self.limit {
                return;
            }
        }
        if self.next > 0 {
            let ghost v = self@;
            let undo_idx = self.next - 1;
            self.revert_action(undo_idx, state);
            self.next = self.next - 1;
            let count: usize = match self.last_undo_count() {
                Some(k) => {
                    let last = self.stack.len() - 1;
                    self.stack.set(last, HistoryAction::Undo(k + 1));
                    k + 1
                },
                None => {
                    self.stack.push(HistoryAction::Undo(1));
                    1
                },
            };
            let index = self.stack.len() - 1;
            if index - count < self.threshold_index.saturating_sub(self.threshold_span) {
                self.threshold_index = index;
                self.threshold_span = count;
            }
            proof {
                assert(self@.actions == v.undone().actions);
                lemma_undone_wf(v);
            }
        }
    }

    /// Redoes the last undone command.
    ///
    /// The undo in progress then counts one action less, and is dropped where
    /// it counts none. Nothing happens where every action is in effect.
    pub fn redo(&mut self, state: &mut State)
        requires
            old(self)@.wf(),
        ensures
            final(self)@ == old(self)@.after_redo(),
            final(self)@.wf(),
            *final(state) == old(self)@.redo_state(*old(state)),
    {
        if self.next < self.stack.len() {
            let ghost v = self@;
            self.execute_action(self.next, state);
            self.next = self.next + 1;
            if let Some(n) = self.last_undo_count() {
                let n = n.saturating_sub(1);
                if n == 0 {
                    self.stack.pop();
                } else {
                    let last = self.stack.len() - 1;
                    self.stack.set(last, HistoryAction::Undo(n));
                }
            }
            proof {
                assert(self@.actions == v.redone().actions);
                lemma_redone_wf(v);
            }
        }
    }
}

/// The actions of `a1` and `a2` agree below `hi`.
pub open spec fn agree_below<C>(a1: Seq<HistoryAction<C>>, a2: Seq<HistoryAction<C>>, hi: int) -> bool {
    &&& 0 <= hi <= a1.len()
    &&& hi <= a2.len()
    &&& forall|j: int| 0 <= j < hi ==> a1[j] == a2[j]
}

/// A history that `undo` changes stays well formed.
pub(crate) proof fn lemma_undone_wf<C>(v: HistoryView<C>)
    requires
        v.wf(),
        v.can_undo_step(),
    ensures
        v.last_undo() is Some || v.actions.len() < usize::MAX ==> v.undone().wf(),
        v.undone().last_undo() == Some(v.undo_count() + 1),
        agree_below(v.actions, v.undone().actions, v.actions.len() - 1),
        v.actions.len() <= v.undone().actions.len(),
        v.last_undo() is None ==> v.undone().actions == v.actions.push(HistoryAction::Undo(1)),
{
    let w = v.undone();
    assert forall|i: int| 0 <= i < w.actions.len() implies #[trigger] undo_follows_command(
        w.actions,
        i,
    ) by {
        if i < v.actions.len() {
            assert(undo_follows_command(v.actions, i));
        }
    }
    assert forall|i: int| 0 <= i < w.actions.len() implies match #[trigger] w.actions[i] {
        HistoryAction::Undo(k) => 1 <= k <= i && w.threshold() <= i - k,
        HistoryAction::Command(_) => true,
    } by {
        if i < v.actions.len() - 1 || (i == v.actions.len() - 1 && v.last_undo() is None) {
            assert(w.actions[i] == v.actions[i]);
            assert(match v.actions[i] {
                HistoryAction::Undo(k) => 1 <= k <= i && v.threshold() <= i - k,
                HistoryAction::Command(_) => true,
            });
        }
    }
}

/// A history that `redo` changes stays well formed.
pub(crate) proof fn lemma_redone_wf<C>(v: HistoryView<C>)
    requires
        v.wf(),
        v.can_redo_step(),
    ensures
        v.redone().wf(),
        agree_below(v.actions, v.redone().actions, v.actions.len() - 1),
{
    let w = v.redone();
    assert forall|i: int| 0 <= i < w.actions.len() implies #[trigger] undo_follows_command(
        w.actions,
        i,
    ) by {
        assert(undo_follows_command(v.actions, i));
    }
    assert(undo_follows_command(v.actions, v.actions.len() - 1));
    assert forall|i: int| 0 <= i < w.actions.len() implies match #[trigger] w.actions[i] {
        HistoryAction::Undo(k) => 1 <= k <= i && w.threshold() <= i - k,
        HistoryAction::Command(_) => true,
    } by {
        assert(match v.actions[i] {
            HistoryAction::Undo(k) => 1 <= k <= i && v.threshold() <= i - k,
            HistoryAction::Command(_) => true,
        });
    }
}

/// A history with a command recorded on top stays well formed.
pub(crate) proof fn lemma_with_command_wf<C>(v: HistoryView<C>, c: C)
    requires
        v.wf(),
        v.actions.len() < usize::MAX,
    ensures
        v.with_command(c).wf(),
{
    let w = v.with_command(c);
    assert forall|i: int| 0 <= i < w.actions.len() implies #[trigger] undo_follows_command(
        w.actions,
        i,
    ) by {
        if i < v.actions.len() {
            assert(undo_follows_command(v.actions, i));
        }
    }
    assert forall|i: int| 0 <= i < w.actions.len() implies match #[trigger] w.actions[i] {
        HistoryAction::Undo(k) => 1 <= k <= i && w.threshold() <= i - k,
        HistoryAction::Command(_) => true,
    } by {
        if i < v.actions.len() {
            assert(w.actions[i] == v.actions[i]);
        }
    }
}

/// Replacing a last command by another command keeps a history well formed.
pub(crate) proof fn lemma_with_last_wf<C>(v: HistoryView<C>, w: HistoryView<C>)
    requires
        v.wf(),
        v.actions.len() > 0,
        v.actions.last() is Command,
        w.actions.len() == v.actions.len(),
        w.actions.last() is Command,
        forall|i: int| 0 <= i < v.actions.len() - 1 ==> w.actions[i] == v.actions[i],
        w.next == v.next,
        w.limit == v.limit,
        w.threshold_index == v.threshold_index,
        w.threshold_span == v.threshold_span,
    ensures
        w.wf(),
{
    assert forall|i: int| 0 <= i < w.actions.len() implies #[trigger] undo_follows_command(
        w.actions,
        i,
    ) by {
        assert(undo_follows_command(v.actions, i));
    }
    assert forall|i: int| 0 <= i < w.actions.len() implies match #[trigger] w.actions[i] {
        HistoryAction::Undo(k) => 1 <= k <= i && w.threshold() <= i - k,
        HistoryAction::Command(_) => true,
    } by {
        assert(match v.actions[i] {
            HistoryAction::Undo(k) => 1 <= k <= i && v.threshold() <= i - k,
            HistoryAction::Command(_) => true,
        });
    }
}

/// What the threshold that a fresh scan computes bounds.
pub(crate) proof fn lemma_lowest_undo<C>(actions: Seq<HistoryAction<C>>, k: int)
    requires
        0 <= k <= actions.len() <= usize::MAX,
        forall|j: int|
            0 <= j < k ==> match #[trigger] actions[j] {
                HistoryAction::Undo(n) => n <= j,
                HistoryAction::Command(_) => true,
            },
    ensures
        ({
            let (ti, ts) = lowest_undo(actions, k);
            &&& ts <= ti <= usize::MAX
            &&& forall|j: int|
                0 <= j < k ==> match #[trigger] actions[j] {
                    HistoryAction::Undo(n) => span_start(ti as int, ts as int) <= j - n,
                    HistoryAction::Command(_) => true,
                }
            &&& ((ti == usize::MAX && ts == 0 && forall|j: int|
                0 <= j < k ==> #[trigger] actions[j] is Command) || (ti < k
                && actions[ti as int] == HistoryAction::<C>::Undo(ts as usize)))
            &&& forall|j: int|
                0 <= j < k && j < ti ==> match #[trigger] actions[j] {
                    HistoryAction::Undo(n) => span_start(ti as int, ts as int) < j - n,
                    HistoryAction::Command(_) => true,
                }
        }),
    decreases k,
{
    if k > 0 {
        lemma_lowest_undo(actions, k - 1);
        let (ti, ts) = lowest_undo(actions, k - 1);
        assert(k - 1 < usize::MAX);
        assert forall|j: int|
            0 <= j < k implies match #[trigger] actions[j] {
                HistoryAction::Undo(n) => span_start(
                    lowest_undo(actions, k).0 as int,
                    lowest_undo(actions, k).1 as int,
                ) <= j - n,
                HistoryAction::Command(_) => true,
            } by {
            if j < k - 1 {
                assert(match actions[j] {
                    HistoryAction::Undo(n) => span_start(ti as int, ts as int) <= j - n,
                    HistoryAction::Command(_) => true,
                });
            }
        }
    }
}

/// Old actions are dropped only where no undo that stays refers to them.
pub(crate) proof fn lemma_drop_is_anchored<C>(v: HistoryView<C>)
    requires
        v.wf(),
        v.drops_excess(),
    ensures
        anchored(v.actions, v.excess() as int),
{
    let count = v.excess() as int;
    assert forall|j: int| count <= j < v.actions.len() implies match #[trigger] v.actions[j] {
        HistoryAction::Undo(n) => count <= j - n,
        HistoryAction::Command(_) => true,
    } by {
        if v.threshold() >= count {
            assert(match v.actions[j] {
                HistoryAction::Undo(n) => 1 <= n <= j && v.threshold() <= j - n,
                HistoryAction::Command(_) => true,
            });
        }
    }
}

/// Dropping old actions keeps a history well formed.
pub(crate) proof fn lemma_trimmed_wf<C>(v: HistoryView<C>)
    requires
        v.wf(),
    ensures
        v.trimmed().wf(),
{
    if v.drops_excess() {
        let count = v.excess() as int;
        lemma_drop_is_anchored(v);
        let kept = v.actions.skip(count);
        assert forall|j: int| 0 <= j < kept.len() implies match #[trigger] kept[j] {
            HistoryAction::Undo(k) => k <= j,
            HistoryAction::Command(_) => true,
        } by {
            assert(kept[j] == v.actions[j + count]);
            assert(match v.actions[j + count] {
                HistoryAction::Undo(k) => count <= j + count - k,
                HistoryAction::Command(_) => true,
            });
        }
        let w = v.trimmed();
        lemma_lowest_undo(kept, kept.len() as int);
        assert forall|i: int| 0 <= i < w.actions.len() implies match #[trigger] w.actions[i] {
            HistoryAction::Undo(k) => 1 <= k <= i && w.threshold() <= i - k,
            HistoryAction::Command(_) => true,
        } by {
            assert(w.actions[i] == v.actions[i + count]);
            assert(match v.actions[i + count] {
                HistoryAction::Undo(k) => 1 <= k,
                HistoryAction::Command(_) => true,
            });
        }
        assert forall|i: int| 0 <= i < w.actions.len() implies #[trigger] undo_follows_command(
            w.actions,
            i,
        ) by {
            assert(w.actions[i] == v.actions[i + count]);
            assert(undo_follows_command(v.actions, i + count));
            assert(match v.actions[i + count] {
                HistoryAction::Undo(k) => count <= i + count - k && 1 <= k,
                HistoryAction::Command(_) => true,
            });
            if i > 0 {
                assert(w.actions[i - 1] == v.actions[i - 1 + count]);
            }
        }
        if w.actions.len() > 0 {
            assert(w.actions.last() == v.actions.last());
            assert(match v.actions[v.actions.len() - 1] {
                HistoryAction::Undo(k) => count <= v.actions.len() - 1 - k,
                HistoryAction::Command(_) => true,
            });
        }
    }
}

impl<Cmd, State> History<Cmd, State> where Cmd: Command<State> {
    /// Drops the actions over the limit, where no undo that stays refers to
    /// them.
    fn check_limit(&mut self)
        requires
            old(self)@.wf(),
        ensures
            final(self)@ == old(self)@.trimmed(),
            final(self)@.wf(),
    {
        let ghost v = self@;
        let n = self.stack.len();
        if n <= self.limit {
            return;
        }
        let count = n - self.limit;
        let threshold_target = self.threshold_index.saturating_sub(self.threshold_span);
        if threshold_target < count {
            if self.threshold_index >= count {
                return;
            }
            let mut i: usize = count;
            while i < n
                invariant
                    self@ == v,
                    v == old(self)@,
                    v.wf(),
                    v.threshold() < count,
                    v.threshold_index < count,
                    count == v.excess(),
                    n == v.actions.len(),
                    0 < count <= i <= n,
                    forall|j: int|
                        count <= j < i ==> match #[trigger] v.actions[j] {
                            HistoryAction::Undo(k) => count <= j - k,
                            HistoryAction::Command(_) => true,
                        },
                decreases n - i,
            {
                if let HistoryAction::Undo(span) = &self.stack[i] {
                    let target = i.saturating_sub(*span);
                    if target < count {
                        proof {
                            assert(!anchored(v.actions, count as int)) by {
                                assert(match v.actions[i as int] {
                                    HistoryAction::Undo(k) => count <= i - k,
                                    HistoryAction::Command(_) => true,
                                } ==> false);
                            }
                        }
                        return;
                    }
                }
                i = i + 1;
            }
        }
        proof {
            lemma_drop_is_anchored(v);
        }
        let rest = self.stack.split_off(count);
        self.stack = rest;
        self.next = self.next.saturating_sub(count);
        self.threshold_index = usize::MAX;
        self.threshold_span = 0;
        let ghost kept = v.actions.skip(count as int);
        proof {
            assert(self.stack@ == kept);
            assert forall|j: int| 0 <= j < kept.len() implies match #[trigger] kept[j] {
                HistoryAction::Undo(k) => k <= j,
                HistoryAction::Command(_) => true,
            } by {
                assert(kept[j] == v.actions[j + count]);
                assert(match v.actions[j + count] {
                    HistoryAction::Undo(k) => count <= j + count - k,
                    HistoryAction::Command(_) => true,
                });
            }
        }
        let mut i: usize = 0;
        while i < self.stack.len()
            invariant
                self.stack@ == kept,
                self.next == minus_or_zero(v.next, count as nat),
                self.limit == v.limit,
                kept.len() <= usize::MAX,
                i <= kept.len(),
                (self.threshold_index as nat, self.threshold_span as nat) == lowest_undo(
                    kept,
                    i as int,
                ),
                forall|j: int|
                    0 <= j < kept.len() ==> match #[trigger] kept[j] {
                        HistoryAction::Undo(k) => k <= j,
                        HistoryAction::Command(_) => true,
                    },
            decreases kept.len() - i,
        {
            proof {
                lemma_lowest_undo(kept, i as int);
            }
            if let HistoryAction::Undo(k) = &self.stack[i] {
                if i.saturating_sub(*k) < self.threshold_index.saturating_sub(self.threshold_span) {
                    self.threshold_index = i;
                    self.threshold_span = *k;
                }
            }
            i = i + 1;
        }
        proof {
            lemma_trimmed_wf(v);
        }
    }
}

impl<Cmd, State> History<Cmd, State> where Cmd: Command<State> {
    /// Append a command to the history stack without executing it.
    ///
    /// The command is merged into the last action where that is a command
    /// that accepts it; otherwise it is pushed, and the oldest actions over
    /// the limit are dropped where no undo still refers to them. Returns the
    /// index of the action that holds the command. (Where the limit is 0 the
    /// pushed command itself would be dropped; that is not allowed.)
    pub fn append(&mut self, command: Cmd) -> (r: usize)
        requires
            old(self)@.wf(),
            old(self)@.merges_last::<State>(command) || old(self)@.pushed(command).actions.len() > 0,
        ensures
            final(self)@.wf(),
            old(self)@.appended::<State>(command, final(self)@),
            r == final(self)@.actions.len() - 1,
    {
        let len = self.stack.len();
        if len > 0 {
            let ghost before = self.stack@;
            let last_action = &mut self.stack[len - 1];
            let merged = match last_action.as_command_mut() {
                Some(last) => last.merge(&command),
                None => false,
            };
            assert(self.stack@ == before.update(len - 1, self.stack@[len - 1]));
            if merged {
                proof {
                    lemma_with_last_wf(old(self)@, self@);
                }
                return len - 1;
            }
            assert(self.stack@ == before);
        }
        self.stack.push(HistoryAction::Command(command));
        self.next = self.stack.len();
        proof {
            assert(self@ == old(self)@.with_command(command));
            lemma_with_command_wf(old(self)@, command);
        }
        self.check_limit();
        self.stack.len() - 1
    }

    /// Append a command to the history stack and execute it.
    pub fn execute(&mut self, command: Cmd, state: &mut State)
        requires
            old(self)@.wf(),
            old(self)@.merges_last::<State>(command) || old(self)@.pushed(command).actions.len() > 0,
        ensures
            final(self)@.wf(),
            old(self)@.appended::<State>(command, final(self)@),
            *final(state) == command.executed(*old(state)),
    {
        command.execute(state);
        self.append(command);
    }
}

impl<Cmd, State> History<Cmd, State> where Cmd: Command<State> {
    /// Returns the index of the current (last executed) action. Might be
    /// `None` if no actions were executed yet.
    pub fn current_idx(&self) -> (r: Option<usize>)
        ensures
            r == (if self@.next > 0 {
                Some((self@.next - 1) as usize)
            } else {
                None::<usize>
            }),
    {
        self.next.checked_sub(1)
    }

    /// Returns the index of the next action: the number of actions in effect.
    pub fn next_idx(&self) -> (r: usize)
        ensures
            r == self@.next,
    {
        self.next
    }

    /// Returns the number of actions currently in the history stack.
    pub fn len(&self) -> (r: usize)
        ensures
            r == self@.actions.len(),
    {
        self.stack.len()
    }

    /// Returns whether the history stack is empty.
    pub fn is_empty(&self) -> (r: bool)
        ensures
            r == (self@.actions.len() == 0),
    {
        self.stack.len() == 0
    }

    /// Returns a reference to the action at the given index.
    pub fn get(&self, index: usize) -> (r: Option<&HistoryAction<Cmd>>)
        ensures
            match r {
                Some(a) => index < self@.actions.len() && *a == self@.actions[index as int],
                None => index >= self@.actions.len(),
            },
    {
        if index < self.stack.len() {
            Some(&self.stack[index])
        } else {
            None
        }
    }

    /// Returns a reference to the last executed action.
    pub fn get_next_undo(&self) -> (r: Option<&HistoryAction<Cmd>>)
        ensures
            match r {
                Some(a) => 0 < self@.next <= self@.actions.len() && *a == self@.actions[self@.next
                    - 1],
                None => !(0 < self@.next <= self@.actions.len()),
            },
    {
        match self.next.checked_sub(1) {
            Some(i) => self.get(i),
            None => None,
        }
    }

    /// Returns a reference to the next action that can be redone (the last
    /// undone action).
    pub fn get_next_redo(&self) -> (r: Option<&HistoryAction<Cmd>>)
        ensures
            match r {
                Some(a) => self@.next < self@.actions.len() && *a == self@.actions[self@.next as int],
                None => self@.next >= self@.actions.len(),
            },
    {
        self.get(self.next)
    }

    /// Returns whether there is an action that can be undone: one is in
    /// effect, and the undo in progress has not reached the limit, so that
    /// `undo` does something.
    pub fn can_undo(&self) -> (r: bool)
        ensures
            r == self@.can_undo_step(),
    {
        if self.next == 0 {
            return false;
        }
        match self.last_undo_count() {
            Some(n) => n < self.limit,
            None => true,
        }
    }

    /// Returns whether there is an action that can be redone.
    pub fn can_redo(&self) -> (r: bool)
        ensures
            r == (self@.next < self@.actions.len()),
    {
        self.get_next_redo().is_some()
    }

    /// Returns an iterator for the history stack, oldest action first.
    pub fn iter(&self) -> (it: std::slice::Iter<'_, HistoryAction<Cmd>>)
        ensures
            it.remaining() == self@.actions.as_ref(),
    {
        broadcast use vstd::std_specs::slice::axiom_spec_slice_iter;

        self.stack.as_slice().iter()
    }

    /// Clears the history stack resets it to its initial state.
    pub fn clear(&mut self)
        ensures
            final(self)@ == HistoryView::<Cmd>::initial(old(self)@.limit),
            final(self)@.wf(),
    {
        self.stack.clear();
        self.next = 0;
        self.threshold_index = usize::MAX;
        self.threshold_span = 0;
    }
}

impl<Cmd, State> Default for History<Cmd, State> {
    fn default() -> (h: Self)
        ensures
            h@ == HistoryView::<Cmd>::initial(1000),
            h@.wf(),
    {
        Self::new(1000)
    }
}

} // verus!
