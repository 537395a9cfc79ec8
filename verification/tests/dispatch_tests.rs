use chash::commands::Command;
use chash::dispatch::{command_log_message, execute_command, execute_query, is_write_command};
use chash::hash::HashRecord;

fn ins(name: &str, salary: u32) -> Command {
    Command::Insert { name: name.to_string(), salary, priority: 0 }
}

#[test]
fn log_messages() {
    assert_eq!(command_log_message(&ins("Alice", 75000)), "INSERT,210078619,Alice,75000");
    assert_eq!(
        command_log_message(&Command::Delete { name: "Bob".to_string(), priority: 1 }),
        "DELETE,3345588153,Bob"
    );
    assert_eq!(
        command_log_message(&Command::Update { name: "Bob".to_string(), salary: 3, priority: 1 }),
        "UPDATE,3345588153,Bob,3"
    );
    assert_eq!(
        command_log_message(&Command::Search { name: "Bob".to_string(), priority: 1 }),
        "SEARCH,3345588153,Bob"
    );
    assert_eq!(command_log_message(&Command::Print { priority: 1 }), "PRINT");
}

#[test]
fn write_commands() {
    assert!(is_write_command(&ins("a", 1)));
    assert!(is_write_command(&Command::Delete { name: "a".to_string(), priority: 1 }));
    assert!(is_write_command(&Command::Update { name: "a".to_string(), salary: 1, priority: 1 }));
    assert!(!is_write_command(&Command::Search { name: "a".to_string(), priority: 1 }));
    assert!(!is_write_command(&Command::Print { priority: 1 }));
}

#[test]
fn command_outputs() {
    let mut t: Vec<HashRecord> = Vec::new();
    assert_eq!(execute_command(&mut t, &ins("Alice", 75000)), "Inserted 210078619,Alice,75000\n");
    assert_eq!(
        execute_command(&mut t, &ins("Alice", 1)),
        "Insert failed. Entry 210078619 is a duplicate.\n"
    );
    assert_eq!(
        execute_command(&mut t, &Command::Update { name: "Alice".to_string(), salary: 9, priority: 0 }),
        "Updated record 210078619 from 210078619,Alice,75000 to 210078619,Alice,9\n"
    );
    assert_eq!(
        execute_command(&mut t, &Command::Update { name: "Bob".to_string(), salary: 9, priority: 0 }),
        "Update failed. Entry 3345588153 not found.\n"
    );
    assert_eq!(
        execute_command(&mut t, &Command::Search { name: "Alice".to_string(), priority: 0 }),
        "Found: 210078619,Alice,9\n"
    );
    assert_eq!(
        execute_command(&mut t, &Command::Print { priority: 0 }),
        "Current Database:\n210078619,Alice,9\n"
    );
    assert_eq!(
        execute_command(&mut t, &Command::Delete { name: "Alice".to_string(), priority: 0 }),
        "Deleted record for 210078619,Alice,9\n"
    );
    assert_eq!(
        execute_command(&mut t, &Command::Delete { name: "Alice".to_string(), priority: 0 }),
        "Alice not found.\n"
    );
    assert_eq!(
        execute_command(&mut t, &Command::Search { name: "Alice".to_string(), priority: 0 }),
        "Alice not found.\n"
    );
    assert!(t.is_empty());
}

#[test]
fn queries_do_not_take_writes() {
    let t: Vec<HashRecord> = Vec::new();
    assert!(execute_query(&t, &ins("a", 1)).is_none());
    assert_eq!(execute_query(&t, &Command::Print { priority: 0 }).unwrap(), "Current Database:\n");
}
