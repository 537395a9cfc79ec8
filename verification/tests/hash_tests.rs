use chash::decimal::u64_to_string;
use chash::hash::{jenkins_hash, HashRecord};

#[test]
fn test_jenkins_hash_known_values() {
    // Verify against known values from the spec
    assert_eq!(jenkins_hash("a"), 0xca2e9442);
    assert_eq!(
        jenkins_hash("The quick brown fox jumps over the lazy dog"),
        0x519e91f5
    );
}

#[test]
fn record_new_hashes_its_name() {
    let r = HashRecord::new("Alice", 75000);
    assert_eq!(r.hash, jenkins_hash("Alice"));
    assert_eq!(r.name, "Alice");
    assert_eq!(r.salary, 75000);
}

#[test]
fn jenkins_hash_of_empty_name_is_zero() {
    assert_eq!(jenkins_hash(""), 0);
}

#[test]
fn jenkins_hash_uses_utf8_bytes() {
    assert_eq!(jenkins_hash("Zoë"), 1381476920);
}

#[test]
fn record_text_is_hash_name_salary() {
    let r = HashRecord::new("Alice", 75000);
    assert_eq!(r.to_string(), "210078619,Alice,75000");
}

#[test]
fn record_copy_keeps_every_field() {
    let r = HashRecord::new("Bob", 1);
    let c = r.copy();
    assert_eq!(c.hash, r.hash);
    assert_eq!(c.name, r.name);
    assert_eq!(c.salary, r.salary);
}

#[test]
fn decimal_rendering() {
    assert_eq!(u64_to_string(0), "0");
    assert_eq!(u64_to_string(7), "7");
    assert_eq!(u64_to_string(10), "10");
    assert_eq!(u64_to_string(4294967295), "4294967295");
    assert_eq!(u64_to_string(u64::MAX), "18446744073709551615");
}
