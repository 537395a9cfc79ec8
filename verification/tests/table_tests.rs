use chash::hash::{jenkins_hash, HashRecord};
use chash::table::{table_delete, table_insert, table_print, table_search, table_update};

fn sample() -> Vec<HashRecord> {
    let mut t = Vec::new();
    assert!(table_insert(&mut t, "Bob", 50000).is_ok());
    assert!(table_insert(&mut t, "Alice", 75000).is_ok());
    assert!(table_insert(&mut t, "Carol", 60000).is_ok());
    t
}

#[test]
fn insert_keeps_hash_order() {
    let t = sample();
    let hashes: Vec<u32> = t.iter().map(|r| r.hash).collect();
    assert_eq!(hashes, vec![210078619, 3345588153, 3493922770]);
}

#[test]
fn insert_returns_the_new_record() {
    let mut t = Vec::new();
    let r = table_insert(&mut t, "Alice", 75000).unwrap();
    assert_eq!(r.hash, 210078619);
    assert_eq!(r.name, "Alice");
    assert_eq!(r.salary, 75000);
    assert_eq!(t.len(), 1);
}

#[test]
fn insert_of_duplicate_fails_with_hash() {
    let mut t = sample();
    let res = table_insert(&mut t, "Alice", 1);
    assert_eq!(res.unwrap_err(), 210078619);
    assert_eq!(t.len(), 3);
    assert_eq!(table_search(&t, "Alice").unwrap().salary, 75000);
}

#[test]
fn search_finds_inserted_record() {
    let t = sample();
    let r = table_search(&t, "Carol").unwrap();
    assert_eq!(r.name, "Carol");
    assert_eq!(r.salary, 60000);
    assert!(table_search(&t, "Dave").is_none());
}

#[test]
fn delete_removes_and_returns_record() {
    let mut t = sample();
    let r = table_delete(&mut t, "Bob").unwrap();
    assert_eq!(r.name, "Bob");
    assert_eq!(t.len(), 2);
    assert!(table_search(&t, "Bob").is_none());
    assert!(table_delete(&mut t, "Bob").is_none());
    assert_eq!(t.len(), 2);
}

#[test]
fn insert_then_delete_restores_table() {
    let mut t = sample();
    let before: Vec<(u32, String, u32)> =
        t.iter().map(|r| (r.hash, r.name.clone(), r.salary)).collect();
    assert!(table_insert(&mut t, "Zoë", 1).is_ok());
    assert_eq!(t.len(), 4);
    assert_eq!(t[1].name, "Zoë");
    table_delete(&mut t, "Zoë").unwrap();
    let after: Vec<(u32, String, u32)> =
        t.iter().map(|r| (r.hash, r.name.clone(), r.salary)).collect();
    assert_eq!(before, after);
}

#[test]
fn update_changes_salary_only() {
    let mut t = sample();
    let (h, old, new) = table_update(&mut t, "Alice", 80000).unwrap();
    assert_eq!(h, jenkins_hash("Alice"));
    assert_eq!(old, "210078619,Alice,75000");
    assert_eq!(new, "210078619,Alice,80000");
    let r = table_search(&t, "Alice").unwrap();
    assert_eq!(r.salary, 80000);
    assert_eq!(table_search(&t, "Bob").unwrap().salary, 50000);
    assert!(table_update(&mut t, "Dave", 1).is_none());
}

#[test]
fn print_lists_records_in_hash_order() {
    let t = sample();
    assert_eq!(
        table_print(&t),
        "Current Database:\n210078619,Alice,75000\n3345588153,Bob,50000\n3493922770,Carol,60000\n"
    );
    assert_eq!(table_print(&Vec::new()), "Current Database:\n");
}

#[test]
fn insert_into_unordered_table() {
    let mut t = vec![HashRecord::new("Carol", 1), HashRecord::new("Alice", 2)];
    assert_eq!(table_insert(&mut t, "Alice", 3).unwrap_err(), 210078619);
    assert_eq!(t.len(), 2);
    let r = table_insert(&mut t, "Bob", 4).unwrap();
    assert_eq!(r.name, "Bob");
    assert_eq!(t.len(), 3);
    assert_eq!(table_search(&t, "Bob").unwrap().salary, 4);
}
