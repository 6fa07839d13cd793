use vstd::prelude::*;

verus! {

/// A command that can be executed on a state.
///
/// The spec functions `executed`, `reverted` and `accepts` say what the
/// command does; the contracts of `execute`, `revert` and `merge` hold an
/// implementation to them. An implementation that Verus does not check keeps
/// their defaults unchecked.
pub trait Command<State> {
    /// The state that `execute` turns `state` into. An implementation states
    /// here what its `execute` does; left as it is, it describes a command
    /// that changes nothing.
    closed spec fn executed(&self, state: State) -> State {
        state
    }

    /// The state that `revert` turns `state` into. An implementation states
    /// here what its `revert` does; left as it is, it describes a command
    /// that changes nothing.
    closed spec fn reverted(&self, state: State) -> State {
        state
    }

    /// Whether `merge` accepts to take in `other`. An implementation states
    /// here when its `merge` answers `true`; left as it is, it describes a
    /// command that never merges.
    closed spec fn accepts(&self, other: &Self) -> bool {
        false
    }

    /// Executes the command on the given state.
    fn execute(&self, state: &mut State)
        ensures
            *final(state) == self.executed(*old(state)),
    ;

    /// Reverts the command on the given state.
    fn revert(&self, state: &mut State)
        ensures
            *final(state) == self.reverted(*old(state)),
    ;

    /// Merges the command with another command.
    ///
    /// Returns `true` if the command was merged, `false` otherwise: exactly
    /// where it `accepts` the other command. A merged command does what the
    /// two did one after the other. A command that never merges answers
    /// `false` and leaves itself as it is; every implementation writes this
    /// out, since a body shared by all implementations could not match each
    /// one's `accepts`.
    fn merge(&mut self, other: &Self) -> (merged: bool) where Self: Sized
        ensures
            merged == old(self).accepts(other),
            !merged ==> *final(self) == *old(self),
            merged ==> forall|s: State|
                #![trigger final(self).executed(s)]
                #![trigger final(self).reverted(s)]
                final(self).executed(s) == other.executed(old(self).executed(s))
                    && final(self).reverted(s) == old(self).reverted(other.reverted(s)),
    ;
}

/// `merged` executes as `first` followed by `second`, and reverts as
/// `second` reverted followed by `first` reverted: what `merge` promises.
pub open spec fn merges<State, C: Command<State>>(first: C, second: C, merged: C) -> bool {
    forall|s: State|
        #![trigger merged.executed(s)]
        #![trigger merged.reverted(s)]
        merged.executed(s) == second.executed(first.executed(s)) && merged.reverted(s)
            == first.reverted(second.reverted(s))
}

} // verus!
