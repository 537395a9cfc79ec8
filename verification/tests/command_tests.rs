use chash::commands::{parse_commands_text, Command};

fn describe(c: &Command) -> String {
    match c {
        Command::Insert { name, salary, priority } => format!("insert {} {} {}", name, salary, priority),
        Command::Delete { name, priority } => format!("delete {} {}", name, priority),
        Command::Update { name, salary, priority } => format!("update {} {} {}", name, salary, priority),
        Command::Search { name, priority } => format!("search {} {}", name, priority),
        Command::Print { priority } => format!("print {}", priority),
    }
}

#[test]
fn priority_of_each_command() {
    assert_eq!(Command::Insert { name: "a".to_string(), salary: 1, priority: 3 }.priority(), 3);
    assert_eq!(Command::Delete { name: "a".to_string(), priority: 4 }.priority(), 4);
    assert_eq!(Command::Update { name: "a".to_string(), salary: 1, priority: 5 }.priority(), 5);
    assert_eq!(Command::Search { name: "a".to_string(), priority: 6 }.priority(), 6);
    assert_eq!(Command::Print { priority: 7 }.priority(), 7);
}

#[test]
fn parses_sample_file() {
    let text = "threads,5,0\ninsert,Alice,75000,2\ndelete,Bob,0,1\nupdate,Alice,80000,3\nsearch,Alice,0,0\nprint,0,0,4\n";
    let f = parse_commands_text(text);
    assert_eq!(f.num_threads, 5);
    let got: Vec<String> = f.commands.iter().map(describe).collect();
    assert_eq!(
        got,
        vec![
            "search Alice 0",
            "delete Bob 1",
            "insert Alice 75000 2",
            "update Alice 80000 3",
            "print 4",
        ]
    );
    assert!(f.unrecognized.is_empty());
}

#[test]
fn sort_is_stable_for_equal_priorities() {
    let text = "threads,3,0\nsearch,B,0,1\nsearch,A,0,0\nsearch,C,0,1\n";
    let f = parse_commands_text(text);
    let got: Vec<String> = f.commands.iter().map(describe).collect();
    assert_eq!(got, vec!["search A 0", "search B 1", "search C 1"]);
}

#[test]
fn verbs_ignore_case_and_fields_are_trimmed() {
    let text = "THREADS , 2 ,0\r\n  INSERT , Alice Smith , 100 , 1 \r\nSearch,Alice Smith,0\r\n";
    let f = parse_commands_text(text);
    assert_eq!(f.num_threads, 2);
    let got: Vec<String> = f.commands.iter().map(describe).collect();
    assert_eq!(got, vec!["search Alice Smith 0", "insert Alice Smith 100 1"]);
}

#[test]
fn bad_numbers_count_as_zero() {
    let text = "threads,x,0\ninsert,A,abc,+7\ninsert,B,4294967296,-1\n";
    let f = parse_commands_text(text);
    assert_eq!(f.num_threads, 0);
    let got: Vec<String> = f.commands.iter().map(describe).collect();
    assert_eq!(got, vec!["insert B 0 0", "insert A 0 7"]);
}

#[test]
fn short_and_unknown_lines_are_reported() {
    let text = "threads,1\n\ninsert,A,1\nfrobnicate,1,2,3\n   \nprint,9\ndelete,A,2\n";
    let f = parse_commands_text(text);
    assert_eq!(f.num_threads, 1);
    let got: Vec<String> = f.commands.iter().map(describe).collect();
    assert_eq!(got, vec!["delete A 2", "print 9"]);
    assert_eq!(f.unrecognized, vec!["insert,A,1".to_string(), "frobnicate,1,2,3".to_string()]);
}

#[test]
fn empty_file_has_nothing() {
    let f = parse_commands_text("");
    assert_eq!(f.num_threads, 0);
    assert!(f.commands.is_empty());
    assert!(f.unrecognized.is_empty());
}

#[test]
fn first_line_is_never_a_command() {
    let f = parse_commands_text("insert,A,1,1\nprint,0,0,0");
    assert_eq!(f.num_threads, 0);
    let got: Vec<String> = f.commands.iter().map(describe).collect();
    assert_eq!(got, vec!["print 0"]);
}

#[test]
fn salary_is_the_second_to_last_field() {
    let f = parse_commands_text("threads,1,0\ninsert,A,5,6,7,8\n");
    let got: Vec<String> = f.commands.iter().map(describe).collect();
    assert_eq!(got, vec!["insert A 7 8"]);
}
