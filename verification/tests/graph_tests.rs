use sirno::edge::{Affinity, Dependency};
use sirno::entry::{Entry, EntryId};
use sirno::graph::{Graph, GraphError};
use sirno::grounding::{GrepGrounding, Grounding, SearchPattern};

fn entry(id: &str) -> Entry {
    Entry::new(EntryId::new(id), format!("{id} description"), format!("{id} explanation"))
}

#[test]
fn removing_meaning_entry_clears_dependency_meaning() {
    let cause = EntryId::new("cause");
    let target = EntryId::new("target");
    let meaning = EntryId::new("dependency-meaning");

    let mut graph = Graph::new();
    graph.insert_entry(entry(cause.as_str())).unwrap();
    graph.insert_entry(entry(target.as_str())).unwrap();
    graph.insert_entry(entry(meaning.as_str())).unwrap();

    graph
        .add_dependency(Dependency::new(cause.clone(), target.clone()).with_meaning(meaning.clone()))
        .unwrap();
    assert_eq!(
        graph.dependency(&cause, &target).and_then(|dependency| dependency.meaning()),
        Some(&meaning)
    );

    graph.remove_entry(&meaning).unwrap();

    assert_eq!(graph.dependency(&cause, &target).and_then(|dependency| dependency.meaning()), None);
}

#[test]
fn affinity_meaning_must_exist() {
    let left = EntryId::new("left");
    let right = EntryId::new("right");
    let missing = EntryId::new("missing-meaning");

    let mut graph = Graph::new();
    graph.insert_entry(entry(left.as_str())).unwrap();
    graph.insert_entry(entry(right.as_str())).unwrap();

    let affinity = Affinity::new(left, right).unwrap().with_meaning(missing.clone());
    let error = graph.add_affinity(affinity).unwrap_err();

    match error {
        GraphError::EntryNotFound(id) => assert_eq!(id, missing),
        other => panic!("unexpected error: {other:?}"),
    }
}

#[test]
fn duplicate_entry_is_rejected_and_graph_unchanged() {
    let mut graph = Graph::new();
    graph.insert_entry(entry("a")).unwrap();
    let error = graph.insert_entry(Entry::new(EntryId::new("a"), "other".to_string(), "x".to_string()));
    match error {
        Err(GraphError::DuplicateEntry(id)) => assert_eq!(id.as_str(), "a"),
        other => panic!("unexpected result: {other:?}"),
    }
    assert_eq!(graph.entries().len(), 1);
    assert_eq!(graph.entry(&EntryId::new("a")).unwrap().description(), "a description");
}

#[test]
fn dependency_endpoints_must_exist_first_missing_reported() {
    let mut graph = Graph::new();
    graph.insert_entry(entry("a")).unwrap();
    let result = graph.add_dependency(Dependency::new(EntryId::new("a"), EntryId::new("b")));
    match result {
        Err(GraphError::EntryNotFound(id)) => assert_eq!(id.as_str(), "b"),
        other => panic!("unexpected result: {other:?}"),
    }
    let result = graph.add_dependency(Dependency::new(EntryId::new("x"), EntryId::new("y")));
    match result {
        Err(GraphError::EntryNotFound(id)) => assert_eq!(id.as_str(), "x"),
        other => panic!("unexpected result: {other:?}"),
    }
    assert!(graph.dependencies().is_empty());
}

#[test]
fn dependency_insert_reports_novelty_and_replaces_meaning() {
    let mut graph = Graph::new();
    for id in ["a", "b", "m"] {
        graph.insert_entry(entry(id)).unwrap();
    }
    let a = EntryId::new("a");
    let b = EntryId::new("b");
    assert_eq!(graph.add_dependency(Dependency::new(a.clone(), b.clone())).unwrap(), true);
    assert_eq!(
        graph.add_dependency(Dependency::new(a.clone(), b.clone()).with_meaning(EntryId::new("m"))).unwrap(),
        false
    );
    assert_eq!(graph.dependencies().len(), 1);
    assert_eq!(graph.dependency(&a, &b).unwrap().meaning().unwrap().as_str(), "m");
    assert_eq!(graph.dependents_of(&a), vec![b.clone()]);
    assert_eq!(graph.dependencies_of(&b), vec![a.clone()]);
    assert!(graph.dependents_of(&b).is_empty());
}

#[test]
fn dependency_remove_then_absent() {
    let mut graph = Graph::new();
    graph.insert_entry(entry("a")).unwrap();
    graph.insert_entry(entry("b")).unwrap();
    let dep = Dependency::new(EntryId::new("a"), EntryId::new("b"));
    graph.add_dependency(dep.clone()).unwrap();
    assert!(graph.remove_dependency(&dep));
    assert!(!graph.remove_dependency(&dep));
    assert!(graph.dependency(&EntryId::new("a"), &EntryId::new("b")).is_none());
    assert!(graph.dependents_of(&EntryId::new("a")).is_empty());
    assert!(graph.dependencies_of(&EntryId::new("b")).is_empty());
}

#[test]
fn remove_entry_cascades_edges_groundings_and_locks() {
    let mut graph = Graph::new();
    for id in ["a", "b", "c"] {
        graph.insert_entry(entry(id)).unwrap();
    }
    let a = EntryId::new("a");
    let b = EntryId::new("b");
    let c = EntryId::new("c");
    graph.add_dependency(Dependency::new(a.clone(), b.clone())).unwrap();
    graph.add_dependency(Dependency::new(b.clone(), c.clone())).unwrap();
    graph.add_dependency(Dependency::new(c.clone(), a.clone()).with_meaning(b.clone())).unwrap();
    graph.add_affinity(Affinity::new(a.clone(), b.clone()).unwrap()).unwrap();
    graph.add_affinity(Affinity::new(a.clone(), c.clone()).unwrap().with_meaning(b.clone())).unwrap();
    graph
        .add_grounding(&b, Grounding::Grep(GrepGrounding::new(vec![SearchPattern::Literal("x".to_string())])))
        .unwrap();
    graph.lock(&b).unwrap();

    let removed = graph.remove_entry(&b).unwrap();
    assert_eq!(removed.id().as_str(), "b");
    assert!(graph.entry(&b).is_none());
    assert_eq!(graph.dependencies().len(), 1);
    assert!(graph.dependency(&c, &a).unwrap().meaning().is_none());
    assert_eq!(graph.affinities().len(), 1);
    assert_eq!(graph.affinities()[0].to().as_str(), "c");
    assert!(graph.affinities()[0].meaning().is_none());
    assert!(graph.groundings(&b).is_empty());
    assert!(!graph.is_locked(&b));
    assert!(graph.dependents_of(&a).is_empty());
    assert!(graph.dependencies_of(&c).is_empty());
    assert!(graph.remove_entry(&b).is_none());
}

#[test]
fn affinities_are_listed_in_endpoint_order() {
    let mut graph = Graph::new();
    for id in ["b", "a", "c", "aa"] {
        graph.insert_entry(entry(id)).unwrap();
    }
    let pairs = [("c", "a"), ("a", "c"), ("b", "a"), ("a", "b"), ("aa", "a")];
    for (x, y) in pairs {
        assert!(graph.add_affinity(Affinity::new(EntryId::new(x), EntryId::new(y)).unwrap()).unwrap());
    }
    let listed: Vec<(String, String)> = graph
        .affinities()
        .iter()
        .map(|a| (a.from().as_str().to_string(), a.to().as_str().to_string()))
        .collect();
    let expected: Vec<(String, String)> = [("a", "b"), ("a", "c"), ("aa", "a"), ("b", "a"), ("c", "a")]
        .iter()
        .map(|(x, y)| (x.to_string(), y.to_string()))
        .collect();
    assert_eq!(listed, expected);
    assert!(!graph.add_affinity(Affinity::new(EntryId::new("a"), EntryId::new("b")).unwrap()).unwrap());
    assert!(graph.remove_affinity(&Affinity::new(EntryId::new("a"), EntryId::new("c")).unwrap()));
    assert!(!graph.remove_affinity(&Affinity::new(EntryId::new("a"), EntryId::new("c")).unwrap()));
    assert_eq!(graph.affinities().len(), 4);
}

#[test]
fn self_affinity_is_meaningless() {
    assert!(Affinity::new(EntryId::new("a"), EntryId::new("a")).is_none());
    let affinity = Affinity::new(EntryId::new("a"), EntryId::new("b")).unwrap();
    assert!(affinity.contains(&EntryId::new("a")));
    assert!(affinity.contains(&EntryId::new("b")));
    assert!(!affinity.contains(&EntryId::new("c")));
}

#[test]
fn locks_require_existing_entries() {
    let mut graph = Graph::new();
    graph.insert_entry(entry("a")).unwrap();
    let a = EntryId::new("a");
    assert_eq!(graph.lock(&a).unwrap(), true);
    assert_eq!(graph.lock(&a).unwrap(), false);
    assert!(graph.is_locked(&a));
    match graph.lock(&EntryId::new("z")) {
        Err(GraphError::EntryNotFound(id)) => assert_eq!(id.as_str(), "z"),
        other => panic!("unexpected result: {other:?}"),
    }
    assert!(graph.unlock(&a));
    assert!(!graph.unlock(&a));
    assert!(!graph.is_locked(&a));
}

#[test]
fn groundings_accumulate_in_order() {
    let mut graph = Graph::new();
    graph.insert_entry(entry("a")).unwrap();
    let a = EntryId::new("a");
    assert!(graph.groundings(&a).is_empty());
    for p in ["one", "two"] {
        graph
            .add_grounding(&a, Grounding::Grep(GrepGrounding::new(vec![SearchPattern::Literal(p.to_string())])))
            .unwrap();
    }
    let gs = graph.groundings(&a);
    assert_eq!(gs.len(), 2);
    match &gs[1] {
        Grounding::Grep(g) => match &g.patterns()[0] {
            SearchPattern::Literal(l) => assert_eq!(l, "two"),
            other => panic!("unexpected pattern: {other:?}"),
        },
        other => panic!("unexpected grounding: {other:?}"),
    }
    match graph.add_grounding(&EntryId::new("z"), Grounding::Grep(GrepGrounding::new(Vec::new()))) {
        Err(GraphError::EntryNotFound(id)) => assert_eq!(id.as_str(), "z"),
        other => panic!("unexpected result: {other:?}"),
    }
}

#[test]
fn entry_mut_updates_text_in_place() {
    let mut graph = Graph::new();
    graph.insert_entry(entry("a")).unwrap();
    let a = EntryId::new("a");
    graph.entry_mut(&a).unwrap().set_description("changed".to_string());
    assert_eq!(graph.entry(&a).unwrap().description(), "changed");
    assert!(graph.entry_mut(&EntryId::new("z")).is_none());
}

#[test]
fn inserting_then_removing_a_fresh_entry_restores_the_graph() {
    let mut graph = Graph::new();
    graph.insert_entry(entry("a")).unwrap();
    graph.insert_entry(entry("b")).unwrap();
    graph.add_dependency(Dependency::new(EntryId::new("a"), EntryId::new("b"))).unwrap();
    graph.lock(&EntryId::new("a")).unwrap();
    graph.insert_entry(entry("fresh")).unwrap();
    assert_eq!(graph.remove_entry(&EntryId::new("fresh")).unwrap().id().as_str(), "fresh");
    assert_eq!(graph.entries().len(), 2);
    assert_eq!(graph.dependencies().len(), 1);
    assert!(graph.is_locked(&EntryId::new("a")));
    assert!(graph.entry(&EntryId::new("fresh")).is_none());
}
