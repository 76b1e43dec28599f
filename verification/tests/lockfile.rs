use tungsten::lockfile::{Lockfile, LOCKFILE_VERSION};

#[test]
fn fresh_lockfile_is_empty_and_current() {
    let l = Lockfile::new();
    assert_eq!(l.version(), LOCKFILE_VERSION);
    assert_eq!(l.version(), 1);
    assert_eq!(l.get("icons", "abc"), None);
    assert!(l.entries().is_empty());
}

#[test]
fn default_lockfile_has_version_zero() {
    let l = Lockfile::default();
    assert_eq!(l.version(), 0);
    assert_eq!(l.get("icons", "abc"), None);
}

#[test]
fn get_after_set_returns_id() {
    let mut l = Lockfile::new();
    l.set("icons", "h1".to_string(), 42);
    assert_eq!(l.get("icons", "h1"), Some(42));
}

#[test]
fn set_keeps_other_entries() {
    let mut l = Lockfile::new();
    l.set("icons", "h1".to_string(), 1);
    l.set("icons", "h2".to_string(), 2);
    l.set("ui", "h1".to_string(), 3);
    assert_eq!(l.get("icons", "h1"), Some(1));
    assert_eq!(l.get("icons", "h2"), Some(2));
    assert_eq!(l.get("ui", "h1"), Some(3));
    assert_eq!(l.get("ui", "h2"), None);
    assert_eq!(l.get("other", "h1"), None);
}

#[test]
fn set_twice_keeps_later_id() {
    let mut l = Lockfile::new();
    l.set("icons", "h1".to_string(), 10);
    l.set("icons", "h1".to_string(), 20);
    assert_eq!(l.get("icons", "h1"), Some(20));
    assert_eq!(l.entries().len(), 1);
}

#[test]
fn set_keeps_version() {
    let mut l = Lockfile::with_version(7);
    l.set("icons", "h1".to_string(), 10);
    assert_eq!(l.version(), 7);
}

#[test]
fn entries_round_trip() {
    let mut l = Lockfile::new();
    l.set("icons", "h1".to_string(), 1);
    l.set("icons", "h2".to_string(), 2);
    l.set("ui", "h3".to_string(), 3);
    let es = l.entries();
    assert_eq!(es.len(), 3);
    assert!(es.contains(&("icons".to_string(), "h1".to_string(), 1)));
    assert!(es.contains(&("icons".to_string(), "h2".to_string(), 2)));
    assert!(es.contains(&("ui".to_string(), "h3".to_string(), 3)));
    let names = l.input_names();
    assert_eq!(names.len(), 2);
    let back = Lockfile::from_parts(l.version(), &names, &es);
    assert_eq!(back.version(), 1);
    assert_eq!(back.get("icons", "h1"), Some(1));
    assert_eq!(back.get("icons", "h2"), Some(2));
    assert_eq!(back.get("ui", "h3"), Some(3));
    assert_eq!(back.get("ui", "h1"), None);
    assert_eq!(back.entries().len(), 3);
}

#[test]
fn from_entries_later_entry_wins() {
    let es = vec![
        ("icons".to_string(), "h1".to_string(), 1u64),
        ("icons".to_string(), "h1".to_string(), 5u64),
    ];
    let l = Lockfile::from_parts(1, &vec![], &es);
    assert_eq!(l.get("icons", "h1"), Some(5));
}

#[test]
fn empty_input_table_is_kept() {
    let mut l = Lockfile::new();
    l.add_input("empty");
    l.set("icons", "h1".to_string(), 1);
    let names = l.input_names();
    assert_eq!(names.len(), 2);
    assert!(names.contains(&"empty".to_string()));
    assert!(names.contains(&"icons".to_string()));
    assert_eq!(l.entries().len(), 1);
    let back = Lockfile::from_parts(1, &names, &l.entries());
    let back_names = back.input_names();
    assert_eq!(back_names.len(), 2);
    assert!(back_names.contains(&"empty".to_string()));
    assert_eq!(back.get("icons", "h1"), Some(1));
    assert_eq!(back.get("empty", "h1"), None);
}

#[test]
fn add_input_keeps_existing_table() {
    let mut l = Lockfile::new();
    l.set("icons", "h1".to_string(), 4);
    l.add_input("icons");
    assert_eq!(l.get("icons", "h1"), Some(4));
    assert_eq!(l.input_names().len(), 1);
    // recording under a registered input adds to its table
    l.add_input("ui");
    l.set("ui", "h2".to_string(), 5);
    assert_eq!(l.get("ui", "h2"), Some(5));
    assert_eq!(l.input_names().len(), 2);
}
