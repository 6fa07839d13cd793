use vstd::prelude::*;

verus! {

/// An action in a history stack. Can either be a command or an undo.
///
/// `Undo(n)` records that the `n` actions directly before it were undone.
#[derive(Clone, PartialEq, Eq, Hash)]
pub enum HistoryAction<Command> {
    Undo(usize),
    Command(Command),
}

impl<Command> HistoryAction<Command> {
    /// Tries to unwrap the action as an undo action.
    pub fn as_undo(&self) -> (r: Option<usize>)
        ensures
            r == (match *self {
                HistoryAction::Undo(n) => Some(n),
                HistoryAction::Command(_) => None::<usize>,
            }),
    {
        match self {
            HistoryAction::Undo(n) => Some(*n),
            _ => None,
        }
    }

    /// Tries to unwrap the action as a command.
    pub fn as_command(&self) -> (r: Option<&Command>)
        ensures
            r == (match *self {
                HistoryAction::Command(c) => Some(&c),
                HistoryAction::Undo(_) => None::<&Command>,
            }),
    {
        match self {
            HistoryAction::Command(c) => Some(c),
            _ => None,
        }
    }

    /// Tries to mutably unwrap the action as a command.
    pub fn as_command_mut(&mut self) -> (r: Option<&mut Command>)
        ensures
            match *old(self) {
                HistoryAction::Command(c) => r is Some && *r->0 == c
                    && *final(self) == HistoryAction::Command(*final(r->0)),
                HistoryAction::Undo(_) => r is None && *final(self) == *old(self),
            },
    {
        match self {
            HistoryAction::Command(c) => Some(c),
            _ => None,
        }
    }
}

} // verus!
