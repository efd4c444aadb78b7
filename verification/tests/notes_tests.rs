use kernel::apps::notes;
use kernel::fs::{self, FileSystem};

fn fresh() -> Option<FileSystem> {
    let mut state = None;
    fs::init(&mut state, Err("blank"));
    state
}

#[test]
fn create_list_show() {
    let mut state = fresh();
    assert_eq!(notes::handle(&mut state, "list", "").unwrap(), vec!["(no notes)".to_string()]);
    assert_eq!(
        notes::handle(&mut state, "create", " todo ").unwrap(),
        vec!["Created note: todo".to_string()]
    );
    assert_eq!(notes::handle(&mut state, " list ", "").unwrap(), vec!["todo".to_string()]);
    assert_eq!(
        notes::handle(&mut state, "show", "todo").unwrap(),
        vec!["Note: todo".to_string(), String::new()]
    );
    fs::write_in_path(&mut state, ".notes/todo", "buy milk").unwrap();
    assert_eq!(
        notes::handle(&mut state, "show", "todo").unwrap(),
        vec!["Note: todo".to_string(), "buy milk".to_string()]
    );
}

#[test]
fn usage_and_errors() {
    let mut state = fresh();
    assert_eq!(
        notes::handle(&mut state, "", "").unwrap(),
        vec![
            "Notes commands:".to_string(),
            "  notes create <name>".to_string(),
            "  notes list".to_string(),
            "  notes show <name>".to_string(),
        ]
    );
    assert_eq!(notes::handle(&mut state, "delete", "x").err(), Some("unknown notes command"));
    assert_eq!(notes::handle(&mut state, "create", "  ").err(), Some("usage: notes create <name>"));
    assert_eq!(notes::handle(&mut state, "show", "").err(), Some("usage: notes show <name>"));
    assert_eq!(notes::handle(&mut state, "show", "nope").err(), Some("directory not found"));
    let mut none: Option<FileSystem> = None;
    assert_eq!(notes::handle(&mut none, "list", "").unwrap(), vec!["(no notes)".to_string()]);
    assert_eq!(notes::handle(&mut none, "create", "a").err(), Some("filesystem not initialized"));
}
