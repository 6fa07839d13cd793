use revert::history::{Command, History, HistoryAction};

/// Text edits on a `String`, as in the README.
#[derive(Debug, Clone, PartialEq)]
enum Edit {
    Insert(String),
    Erase(String),
}

impl Command<String> for Edit {
    fn execute(&self, text: &mut String) {
        match self {
            Edit::Insert(s) => text.push_str(s),
            Edit::Erase(s) => {
                let new_len = text.len().saturating_sub(s.len());
                text.truncate(new_len);
            }
        }
    }

    fn revert(&self, text: &mut String) {
        match self {
            Edit::Insert(s) => {
                let new_len = text.len().saturating_sub(s.len());
                text.truncate(new_len);
            }
            Edit::Erase(s) => text.push_str(s),
        }
    }

    fn merge(&mut self, _other: &Self) -> bool {
        false
    }
}

/// Inserts that merge with the insert before them.
#[derive(Debug, Clone, PartialEq)]
struct Typing(String);

impl Command<String> for Typing {
    fn execute(&self, text: &mut String) {
        text.push_str(&self.0);
    }

    fn revert(&self, text: &mut String) {
        let new_len = text.len().saturating_sub(self.0.len());
        text.truncate(new_len);
    }

    fn merge(&mut self, other: &Self) -> bool {
        self.0.push_str(&other.0);
        true
    }
}

fn insert(s: &str) -> Edit {
    Edit::Insert(s.to_string())
}

#[test]
fn readme_usage() {
    let mut state = String::from("Hello");
    let mut history = History::default();
    history.execute(insert(" World"), &mut state);
    assert_eq!(state, "Hello World");
    history.undo(&mut state);
    assert_eq!(state, "Hello");
    history.execute(insert(" Bob"), &mut state);
    assert_eq!(state, "Hello Bob");
    history.undo(&mut state);
    assert_eq!(state, "Hello");
    history.undo(&mut state);
    assert_eq!(state, "Hello World");
    history.undo(&mut state);
    assert_eq!(state, "Hello");
    history.redo(&mut state);
    assert_eq!(state, "Hello World");
}

#[test]
fn erase_is_undone() {
    let mut state = String::from("abc");
    let mut history = History::new(10);
    history.execute(Edit::Erase("c".to_string()), &mut state);
    assert_eq!(state, "ab");
    history.undo(&mut state);
    assert_eq!(state, "abc");
    history.redo(&mut state);
    assert_eq!(state, "ab");
}

#[test]
fn default_limit_is_1000() {
    let history: History<Edit, String> = History::default();
    assert_eq!(history.limit(), 1000);
    assert!(history.is_empty());
    assert_eq!(history.len(), 0);
    assert_eq!(history.next_idx(), 0);
    assert_eq!(history.current_idx(), None);
}

#[test]
fn undo_on_empty_history_does_nothing() {
    let mut state = String::from("x");
    let mut history: History<Edit, String> = History::new(5);
    history.undo(&mut state);
    assert_eq!(state, "x");
    assert!(history.is_empty());
    assert!(!history.can_undo());
}

#[test]
fn redo_with_nothing_undone_does_nothing() {
    let mut state = String::new();
    let mut history = History::new(5);
    history.execute(insert("a"), &mut state);
    history.redo(&mut state);
    assert_eq!(state, "a");
    assert_eq!(history.len(), 1);
    assert_eq!(history.next_idx(), 1);
    assert!(!history.can_redo());
}

#[test]
fn undo_is_recorded_and_redo_removes_it() {
    let mut state = String::new();
    let mut history = History::new(5);
    history.execute(insert("a"), &mut state);
    history.undo(&mut state);
    assert_eq!(history.len(), 2);
    assert_eq!(history.get(1).and_then(|a| a.as_undo()), Some(1));
    assert_eq!(history.next_idx(), 0);
    history.redo(&mut state);
    assert_eq!(state, "a");
    assert_eq!(history.len(), 1);
    assert_eq!(history.next_idx(), 1);
}

#[test]
fn consecutive_undos_share_one_record() {
    let mut state = String::new();
    let mut history = History::new(5);
    history.execute(insert("a"), &mut state);
    history.execute(insert("b"), &mut state);
    history.execute(insert("c"), &mut state);
    history.undo(&mut state);
    history.undo(&mut state);
    assert_eq!(state, "a");
    assert_eq!(history.len(), 4);
    assert_eq!(history.get(3).and_then(|a| a.as_undo()), Some(2));
    assert_eq!(history.next_idx(), 1);
    history.redo(&mut state);
    assert_eq!(state, "ab");
    assert_eq!(history.get(3).and_then(|a| a.as_undo()), Some(1));
}

#[test]
fn undo_stops_at_the_limit() {
    let mut state = String::new();
    let mut history = History::new(2);
    history.execute(insert("a"), &mut state);
    history.execute(insert("b"), &mut state);
    history.undo(&mut state);
    history.undo(&mut state);
    assert_eq!(state, "");
    history.execute(insert("c"), &mut state);
    assert_eq!(state, "c");
    history.undo(&mut state);
    history.undo(&mut state);
    assert_eq!(state, "ab");
    // The undo in progress counts two actions, the limit: a third is refused.
    history.undo(&mut state);
    assert_eq!(state, "ab");
}

#[test]
fn old_commands_are_dropped_past_the_limit() {
    let mut state = String::new();
    let mut history = History::new(2);
    history.execute(insert("a"), &mut state);
    history.execute(insert("b"), &mut state);
    history.execute(insert("c"), &mut state);
    assert_eq!(history.len(), 2);
    assert_eq!(history.next_idx(), 2);
    assert_eq!(history.get(0).and_then(|a| a.as_command()), Some(&insert("b")));
    history.undo(&mut state);
    history.undo(&mut state);
    assert_eq!(state, "a");
    // "a" was dropped: it can no longer be undone.
    history.undo(&mut state);
    assert_eq!(state, "a");
}

#[test]
fn commands_an_undo_refers_to_are_kept() {
    let mut state = String::new();
    let mut history = History::new(2);
    history.execute(insert("a"), &mut state);
    history.execute(insert("b"), &mut state);
    history.undo(&mut state);
    history.execute(insert("c"), &mut state);
    // Over the limit, but the undo at index 2 refers to index 1.
    assert_eq!(history.len(), 4);
    assert_eq!(state, "ac");
    history.undo(&mut state);
    assert_eq!(state, "a");
    history.undo(&mut state);
    assert_eq!(state, "ab");
}

#[test]
fn limit_of_one_keeps_the_last_command() {
    let mut state = String::new();
    let mut history = History::new(1);
    history.execute(insert("a"), &mut state);
    history.execute(insert("b"), &mut state);
    assert_eq!(history.len(), 1);
    history.undo(&mut state);
    assert_eq!(state, "a");
}

#[test]
fn merged_commands_are_undone_together() {
    let mut state = String::new();
    let mut history = History::new(10);
    history.execute(Typing("a".to_string()), &mut state);
    history.execute(Typing("b".to_string()), &mut state);
    assert_eq!(state, "ab");
    assert_eq!(history.len(), 1);
    assert_eq!(history.get(0).and_then(|a| a.as_command()), Some(&Typing("ab".to_string())));
    history.undo(&mut state);
    assert_eq!(state, "");
}

#[test]
fn append_records_without_executing() {
    let mut history: History<Edit, String> = History::new(10);
    assert_eq!(history.append(insert("a")), 0);
    assert_eq!(history.append(insert("b")), 1);
    assert_eq!(history.len(), 2);
    let mut state = String::from("ab");
    history.undo(&mut state);
    assert_eq!(state, "a");
}

#[test]
fn append_after_undo_keeps_the_undo() {
    let mut history: History<Edit, String> = History::new(10);
    let mut state = String::new();
    history.execute(insert("a"), &mut state);
    history.undo(&mut state);
    assert_eq!(history.append(insert("b")), 2);
    assert_eq!(history.next_idx(), 3);
    assert_eq!(history.current_idx(), Some(2));
}

#[test]
fn merge_after_an_undo_is_not_tried() {
    let mut state = String::new();
    let mut history = History::new(10);
    history.execute(Typing("a".to_string()), &mut state);
    history.undo(&mut state);
    history.execute(Typing("b".to_string()), &mut state);
    assert_eq!(history.len(), 3);
    assert_eq!(state, "b");
}

#[test]
fn queries_follow_the_cursor() {
    let mut state = String::new();
    let mut history = History::new(10);
    history.execute(insert("a"), &mut state);
    history.execute(insert("b"), &mut state);
    assert_eq!(history.current_idx(), Some(1));
    assert_eq!(history.get_next_undo().and_then(|a| a.as_command()), Some(&insert("b")));
    assert!(history.get_next_redo().is_none());
    assert!(history.can_undo());
    assert!(!history.can_redo());
    history.undo(&mut state);
    assert_eq!(history.current_idx(), Some(0));
    assert_eq!(history.get_next_undo().and_then(|a| a.as_command()), Some(&insert("a")));
    // The action that redo executes next is the one just undone.
    assert_eq!(history.get_next_redo().and_then(|a| a.as_command()), Some(&insert("b")));
    assert!(history.can_redo());
    assert!(history.get(3).is_none());
}

#[test]
fn iter_lists_actions_oldest_first() {
    let mut state = String::new();
    let mut history = History::new(10);
    history.execute(insert("a"), &mut state);
    history.undo(&mut state);
    let actions: Vec<&HistoryAction<Edit>> = history.iter().collect();
    assert_eq!(actions.len(), 2);
    assert_eq!(actions[0].as_command(), Some(&insert("a")));
    assert_eq!(actions[1].as_undo(), Some(1));
}

#[test]
fn clear_resets_the_history() {
    let mut state = String::new();
    let mut history = History::new(3);
    history.execute(insert("a"), &mut state);
    history.undo(&mut state);
    history.clear();
    assert!(history.is_empty());
    assert_eq!(history.next_idx(), 0);
    assert_eq!(history.limit(), 3);
    history.undo(&mut state);
    assert_eq!(state, "");
    history.execute(insert("z"), &mut state);
    assert_eq!(history.len(), 1);
}

#[test]
fn action_accessors() {
    let mut undo: HistoryAction<Edit> = HistoryAction::Undo(3);
    assert_eq!(undo.as_undo(), Some(3));
    assert!(undo.as_command().is_none());
    assert!(undo.as_command_mut().is_none());
    let mut cmd = HistoryAction::Command(insert("a"));
    assert_eq!(cmd.as_undo(), None);
    assert_eq!(cmd.as_command(), Some(&insert("a")));
    if let Some(c) = cmd.as_command_mut() {
        *c = insert("b");
    }
    assert_eq!(cmd.as_command(), Some(&insert("b")));
}

#[test]
fn can_undo_is_false_once_the_undo_reaches_the_limit() {
    let mut state = String::new();
    let mut history = History::new(1);
    history.execute(insert("a"), &mut state);
    history.undo(&mut state);
    history.redo(&mut state);
    history.execute(insert("b"), &mut state);
    assert!(history.can_undo());
    history.undo(&mut state);
    assert_eq!(state, "a");
    // The undo in progress counts one action, the limit.
    assert!(!history.can_undo());
    history.undo(&mut state);
    assert_eq!(state, "a");
    assert_eq!(history.next_idx(), 1);
}

/// Typing that merges only into typing of the same kind of text.
#[derive(Debug, Clone, PartialEq)]
struct Word(String);

impl Command<String> for Word {
    fn execute(&self, text: &mut String) {
        text.push_str(&self.0);
    }

    fn revert(&self, text: &mut String) {
        let new_len = text.len().saturating_sub(self.0.len());
        text.truncate(new_len);
    }

    fn merge(&mut self, other: &Self) -> bool {
        if other.0 == " " {
            return false;
        }
        self.0.push_str(&other.0);
        true
    }
}

#[test]
fn a_declined_merge_pushes_the_command() {
    let mut state = String::new();
    let mut history = History::new(10);
    history.execute(Word("he".to_string()), &mut state);
    history.execute(Word("y".to_string()), &mut state);
    history.execute(Word(" ".to_string()), &mut state);
    assert_eq!(state, "hey ");
    assert_eq!(history.len(), 2);
    assert_eq!(history.get(0).and_then(|a| a.as_command()), Some(&Word("hey".to_string())));
    assert_eq!(history.get(1).and_then(|a| a.as_command()), Some(&Word(" ".to_string())));
    history.undo(&mut state);
    assert_eq!(state, "hey");
    history.undo(&mut state);
    assert_eq!(state, "");
}
