use sirno::edge::Dependency;
use sirno::entry::{Entry, EntryId};
use sirno::graph::DependencyIndex;

#[test]
fn entry_setters_keep_the_id() {
    let mut e = Entry::new(EntryId::new("id"), "d".to_string(), "x".to_string()).with_name("N".to_string());
    assert_eq!(e.name(), Some("N"));
    e.set_name(None);
    e.set_description("d2".to_string());
    e.set_explanation("x2".to_string());
    assert_eq!(e.id().as_str(), "id");
    assert_eq!(e.name(), None);
    assert_eq!(e.description(), "d2");
    assert_eq!(e.explanation(), "x2");
}

#[test]
fn entry_ids_compare_by_text() {
    assert_eq!(EntryId::new("a"), EntryId::new("a"));
    assert_ne!(EntryId::new("a"), EntryId::new("b"));
    assert_eq!(EntryId::new("a").clone().as_str(), "a");
}

#[test]
fn dependency_accessors() {
    let d = Dependency::new(EntryId::new("x"), EntryId::new("y"));
    assert_eq!(d.from().as_str(), "x");
    assert_eq!(d.to().as_str(), "y");
    assert!(d.meaning().is_none());
    let d = d.with_meaning(EntryId::new("m"));
    assert_eq!(d.meaning().unwrap().as_str(), "m");
}

#[test]
fn dependency_index_keeps_both_directions() {
    let mut index = DependencyIndex::new();
    let a = EntryId::new("a");
    let b = EntryId::new("b");
    let c = EntryId::new("c");
    assert!(index.insert(Dependency::new(a.clone(), b.clone()).with_meaning(c.clone())));
    assert!(index.insert(Dependency::new(a.clone(), c.clone())));
    assert!(index.insert(Dependency::new(c.clone(), b.clone()).with_meaning(c.clone())));
    assert!(!index.insert(Dependency::new(a.clone(), c.clone())));
    let mut dependents: Vec<String> = index.dependents_of(&a).iter().map(|e| e.as_str().to_string()).collect();
    dependents.sort();
    assert_eq!(dependents, vec!["b".to_string(), "c".to_string()]);
    let mut sources: Vec<String> = index.dependencies_of(&b).iter().map(|e| e.as_str().to_string()).collect();
    sources.sort();
    assert_eq!(sources, vec!["a".to_string(), "c".to_string()]);

    assert_eq!(index.clear_meanings_for(&c), 2);
    assert_eq!(index.clear_meanings_for(&c), 0);
    assert!(index.get(&a, &b).unwrap().meaning().is_none());

    index.remove_entry(&c);
    assert_eq!(index.iter().len(), 1);
    assert!(index.get(&a, &b).is_some());
    assert!(index.get(&a, &c).is_none());
    assert_eq!(index.dependents_of(&a), vec![b.clone()]);
    assert_eq!(index.dependencies_of(&b), vec![a.clone()]);
    assert!(index.dependents_of(&c).is_empty());

    assert!(index.remove(&Dependency::new(a.clone(), b.clone())));
    assert!(!index.remove(&Dependency::new(a.clone(), b.clone())));
    assert!(index.iter().is_empty());
    assert!(index.dependents_of(&a).is_empty());
}

#[test]
fn dependency_index_self_loop_removed_with_entry() {
    let mut index = DependencyIndex::default();
    let a = EntryId::new("a");
    assert!(index.insert(Dependency::new(a.clone(), a.clone())));
    assert_eq!(index.dependents_of(&a), vec![a.clone()]);
    index.remove_entry(&a);
    assert!(index.iter().is_empty());
    assert!(index.dependents_of(&a).is_empty());
    assert!(index.dependencies_of(&a).is_empty());
}
