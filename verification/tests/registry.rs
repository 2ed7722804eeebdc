use semaphore_contract::registry::Registry;

fn text(s: &str) -> String {
    s.to_string()
}

#[test]
fn new_registry_has_no_poll() {
    let registry = Registry::new();
    assert!(!registry.contains_key(&text("a")));
    assert!(!registry.contains(&text("a"), &text("1")));
    assert!(registry.entries().is_empty());
}

#[test]
fn insert_creates_a_poll_once() {
    let mut registry = Registry::new();
    assert!(registry.insert(text("a")));
    assert!(registry.contains_key(&text("a")));
    assert!(!registry.contains_key(&text("b")));
    assert!(!registry.insert(text("a")));
    assert!(registry.insert(text("b")));
    assert_eq!(registry.entries(), vec![(text("a"), vec![]), (text("b"), vec![])]);
}

#[test]
fn spend_marks_a_nullifier_once() {
    let mut registry = Registry::new();
    registry.insert(text("a"));
    registry.insert(text("b"));
    assert!(!registry.contains(&text("a"), &text("1")));
    assert!(registry.spend(&text("a"), text("1")));
    assert!(registry.contains(&text("a"), &text("1")));
    assert!(!registry.contains(&text("b"), &text("1")));
    assert!(!registry.spend(&text("a"), text("1")));
    assert!(registry.spend(&text("a"), text("2")));
    assert!(registry.spend(&text("b"), text("1")));
    assert_eq!(
        registry.entries(),
        vec![(text("a"), vec![text("1"), text("2")]), (text("b"), vec![text("1")])]
    );
}

#[test]
fn spend_needs_the_poll() {
    let mut registry = Registry::new();
    registry.insert(text("a"));
    assert!(!registry.spend(&text("c"), text("1")));
    assert!(!registry.contains_key(&text("c")));
    assert_eq!(registry.entries(), vec![(text("a"), vec![])]);
}

#[test]
fn insert_keeps_what_was_spent() {
    let mut registry = Registry::new();
    registry.insert(text("a"));
    registry.spend(&text("a"), text("1"));
    assert!(!registry.insert(text("a")));
    assert!(registry.contains(&text("a"), &text("1")));
}

#[test]
fn entries_come_back() {
    let entries = vec![(text("a"), vec![text("1"), text("2")]), (text("b"), vec![])];
    let registry = Registry::from_entries(&entries).expect("the ids differ");
    assert_eq!(registry.entries(), entries);
    assert!(registry.contains(&text("a"), &text("2")));
    assert!(registry.contains_key(&text("b")));
    assert!(!registry.contains(&text("b"), &text("2")));
}

#[test]
fn entries_with_one_id_twice_are_refused() {
    let entries = vec![(text("a"), vec![]), (text("b"), vec![]), (text("a"), vec![text("1")])];
    assert!(Registry::from_entries(&entries).is_none());
    assert!(Registry::from_entries(&vec![]).is_some());
}
