use tangler::{NameToBody, PathToName};

fn lines(items: &[&str]) -> Vec<String> {
    items.iter().map(|s| s.to_string()).collect()
}

#[test]
fn new_registries_are_empty() {
    let bodies = NameToBody::new();
    assert_eq!(bodies.len(), 0);
    assert_eq!(bodies.get("a"), None);
    let seeds = PathToName::new();
    assert_eq!(seeds.len(), 0);
    assert_eq!(seeds.get("a"), None);
}

#[test]
fn append_declares_a_new_name() {
    let mut bodies = NameToBody::new();
    bodies.append("a".to_string(), lines(&["1", "2"]));
    assert_eq!(bodies.len(), 1);
    assert_eq!(bodies.get("a"), Some(&lines(&["1", "2"])));
    assert_eq!(bodies.get("b"), None);
}

#[test]
fn append_adds_behind_the_lines_of_a_known_name() {
    let mut bodies = NameToBody::new();
    bodies.append("a".to_string(), lines(&["1", "2"]));
    bodies.append("b".to_string(), lines(&["x"]));
    bodies.append("a".to_string(), lines(&["3"]));
    assert_eq!(bodies.len(), 2);
    assert_eq!(bodies.get("a"), Some(&lines(&["1", "2", "3"])));
    assert_eq!(bodies.get("b"), Some(&lines(&["x"])));
}

#[test]
fn append_of_no_lines_declares_the_name() {
    let mut bodies = NameToBody::new();
    bodies.append("a".to_string(), lines(&[]));
    assert_eq!(bodies.get("a"), Some(&lines(&[])));
}

#[test]
fn names_differ_by_case() {
    let mut bodies = NameToBody::new();
    bodies.append("a".to_string(), lines(&["1"]));
    bodies.append("A".to_string(), lines(&["2"]));
    assert_eq!(bodies.len(), 2);
    assert_eq!(bodies.get("a"), Some(&lines(&["1"])));
    assert_eq!(bodies.get("A"), Some(&lines(&["2"])));
}

#[test]
fn insert_declares_a_new_path() {
    let mut seeds = PathToName::new();
    seeds.insert("out.txt".to_string(), "a".to_string());
    assert_eq!(seeds.len(), 1);
    assert_eq!(seeds.get("out.txt"), Some("a"));
    assert_eq!(seeds.entry(0), ("out.txt", "a"));
}

#[test]
fn insert_replaces_the_seed_of_a_known_path() {
    let mut seeds = PathToName::new();
    seeds.insert("one".to_string(), "a".to_string());
    seeds.insert("two".to_string(), "b".to_string());
    seeds.insert("one".to_string(), "c".to_string());
    assert_eq!(seeds.len(), 2);
    assert_eq!(seeds.get("one"), Some("c"));
    assert_eq!(seeds.get("two"), Some("b"));
    assert_eq!(seeds.entry(0), ("one", "c"));
    assert_eq!(seeds.entry(1), ("two", "b"));
}
