use revert::history::{Command, History};

/// Flips a flag: executing and reverting are inverse on every state.
#[derive(Debug, Clone)]
struct Flip(usize);

impl Command<Vec<bool>> for Flip {
    fn execute(&self, flags: &mut Vec<bool>) {
        flags[self.0] = !flags[self.0];
    }

    fn revert(&self, flags: &mut Vec<bool>) {
        flags[self.0] = !flags[self.0];
    }

    fn merge(&mut self, _other: &Self) -> bool {
        false
    }
}

/// Adds a number: exactly reversible on integers.
#[derive(Debug, Clone)]
struct Add(i64);

impl Command<i64> for Add {
    fn execute(&self, n: &mut i64) {
        *n += self.0;
    }

    fn revert(&self, n: &mut i64) {
        *n -= self.0;
    }

    fn merge(&mut self, _other: &Self) -> bool {
        false
    }
}

#[test]
fn undo_steps_back_one_state_at_a_time() {
    let mut n = 0;
    let mut history = History::new(10);
    for k in [1, 10, 100] {
        history.execute(Add(k), &mut n);
    }
    assert_eq!(n, 111);
    history.undo(&mut n);
    assert_eq!(n, 11);
    history.undo(&mut n);
    assert_eq!(n, 1);
    history.undo(&mut n);
    assert_eq!(n, 0);
    assert_eq!(history.next_idx(), 0);
}

#[test]
fn every_earlier_state_is_reached_by_undoing() {
    let mut n = 0;
    let mut history = History::new(10);
    history.execute(Add(1), &mut n); // 1
    history.undo(&mut n); // 0
    history.execute(Add(5), &mut n); // 5
    history.execute(Add(7), &mut n); // 12
    let mut seen = vec![n];
    for _ in 0..4 {
        history.undo(&mut n);
        seen.push(n);
    }
    assert_eq!(seen, vec![12, 5, 0, 1, 0]);
}

#[test]
fn redo_takes_back_undo() {
    let mut flags = vec![false, false];
    let mut history = History::new(10);
    history.execute(Flip(0), &mut flags);
    history.execute(Flip(1), &mut flags);
    history.undo(&mut flags);
    let len = history.len();
    let next = history.next_idx();
    let before = flags.clone();
    history.undo(&mut flags);
    history.redo(&mut flags);
    assert_eq!(flags, before);
    assert_eq!(history.len(), len);
    assert_eq!(history.next_idx(), next);
}

#[test]
fn undo_takes_back_redo() {
    let mut n = 0;
    let mut history = History::new(10);
    history.execute(Add(2), &mut n);
    history.execute(Add(3), &mut n);
    history.undo(&mut n);
    history.undo(&mut n);
    let len = history.len();
    let next = history.next_idx();
    history.redo(&mut n);
    assert_eq!(n, 2);
    history.undo(&mut n);
    assert_eq!(n, 0);
    assert_eq!(history.len(), len);
    assert_eq!(history.next_idx(), next);
}

#[test]
fn undo_takes_back_execute() {
    let mut n = 40;
    let mut history = History::new(3);
    history.execute(Add(1), &mut n);
    history.undo(&mut n);
    history.execute(Add(2), &mut n);
    assert_eq!(n, 42);
    history.undo(&mut n);
    assert_eq!(n, 40);
}

#[test]
fn undo_keeps_every_command() {
    let mut n = 0;
    let mut history = History::new(10);
    history.execute(Add(1), &mut n);
    history.execute(Add(2), &mut n);
    history.undo(&mut n);
    history.undo(&mut n);
    history.redo(&mut n);
    assert_eq!(history.get(0).and_then(|a| a.as_command()).map(|c| c.0), Some(1));
    assert_eq!(history.get(1).and_then(|a| a.as_command()).map(|c| c.0), Some(2));
}

#[test]
fn trimming_keeps_the_states_still_reachable() {
    let mut n = 0;
    let mut history = History::new(3);
    for k in [1, 2, 4, 8, 16] {
        history.execute(Add(k), &mut n);
    }
    assert_eq!(history.len(), 3);
    assert_eq!(n, 31);
    history.undo(&mut n);
    assert_eq!(n, 15);
    history.undo(&mut n);
    assert_eq!(n, 7);
    history.undo(&mut n);
    assert_eq!(n, 3);
}

#[test]
fn undo_count_stays_within_the_limit() {
    let mut n = 0;
    let mut history = History::new(3);
    for k in 1..=3 {
        history.execute(Add(k), &mut n);
    }
    for _ in 0..5 {
        history.undo(&mut n);
    }
    assert_eq!(n, 0);
    assert_eq!(history.get(3).and_then(|a| a.as_undo()), Some(3));
}
