use revert::history::{Command, History};

#[derive(Debug, Clone)]
enum TextCommand {
    Insert(String),
}

impl Command<String> for TextCommand {
    fn execute(&self, context: &mut String) {
        match self {
            TextCommand::Insert(s) => context.push_str(s),
        }
    }

    fn revert(&self, context: &mut String) {
        match self {
            TextCommand::Insert(s) => {
                let start = context.len().saturating_sub(s.len());
                context.truncate(start);
            }
        }
    }

    fn merge(&mut self, _other: &Self) -> bool {
        false
    }
}

#[test]
fn test_history() {
    let mut state = String::from("Hello");
    let mut history = History::default();

    // Apply a command
    history.execute(TextCommand::Insert(" World".to_string()), &mut state);
    assert_eq!(state, "Hello World");

    // Undo
    history.undo(&mut state);
    assert_eq!(state, "Hello");

    // Apply another command
    history.execute(TextCommand::Insert(" Bob".to_string()), &mut state);
    assert_eq!(state, "Hello Bob");

    // All previous states are accessible by undoing history.
    history.undo(&mut state);
    assert_eq!(state, "Hello");
    history.undo(&mut state); // undoes the first undo
    assert_eq!(state, "Hello World");
    history.undo(&mut state);
    assert_eq!(state, "Hello"); // initial state

    // Redoing the first command
    history.redo(&mut state);
    assert_eq!(state, "Hello World");
}
