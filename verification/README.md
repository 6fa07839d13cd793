# revert

A linear, history-based command pattern. Every action is pushed onto an
append-only stack, undos included, so an undo can itself be undone and every
earlier state stays reachable by undoing. A limit bounds both how far one undo
may reach and how many actions are kept; old actions are dropped only where no
recorded undo still refers to them.

## Layout

- `src/command.rs`: the `Command` trait that users implement, with the
  state transformations `executed` and `reverted` that describe it, and
  `accepts`, which says when `merge` takes in another command. `merge` has
  no default body: a command that never merges answers `false`.
- `src/action.rs`: `HistoryAction`, a recorded command or undo.
- `src/replay.rs`: what recorded actions do to a state, and lemmas about it.
- `src/history.rs`: `History`, its model `HistoryView`, and the verified
  operations (`execute`, `append`, `undo`, `redo`, trimming to the limit).
- `src/laws.rs`: properties that span operations, proved over the model:
  undo and redo step back and forth one action at a time and take each other
  back, undo takes back an execute, trimming changes no reachable state, and
  every earlier state is reached by undoing.
- `app/lib.rs`: `Display` and `Debug` text for actions.
- `tests/`: scenarios, edge cases and concrete instances of the laws.
