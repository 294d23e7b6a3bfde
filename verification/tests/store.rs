use pypeep::statement::{update_project_requirements, update_projects, update_requirements};
use pypeep::store::{Fault, Store, StoreError};

fn text(value: &str) -> String {
    value.to_string()
}

#[test]
fn a_new_store_is_empty() {
    let store = Store::new();
    assert_eq!(store.project_count(), 0);
    assert_eq!(store.requirement_count(), 0);
    assert_eq!(store.project_requirement_count(), 0);
    assert!(!store.has_project(&text("demo")));
    assert!(!store.has_requirement(&text("alpha")));
    assert_eq!(store.current_version(&text("demo"), &text("alpha")), None);
    assert_eq!(store.updated_at(&text("demo"), &text("alpha")), None);
}

#[test]
fn a_project_is_inserted_once() {
    let mut store = Store::new();
    assert_eq!(store.execute(&update_projects(&text("demo")), 1), Ok(()));
    assert!(store.has_project(&text("demo")));
    assert_eq!(store.project_count(), 1);
    assert_eq!(store.execute(&update_projects(&text("demo")), 2), Ok(()));
    assert_eq!(store.project_count(), 1);
    assert_eq!(store.execute(&update_projects(&text("other")), 3), Ok(()));
    assert_eq!(store.project_count(), 2);
    assert!(!store.has_requirement(&text("demo")));
    assert_eq!(store.requirement_count(), 0);
}

#[test]
fn a_requirement_is_inserted_once() {
    let mut store = Store::new();
    assert_eq!(store.execute(&update_requirements(&text("alpha")), 1), Ok(()));
    assert_eq!(store.execute(&update_requirements(&text("alpha")), 2), Ok(()));
    assert_eq!(store.execute(&update_requirements(&text("beta")), 3), Ok(()));
    assert!(store.has_requirement(&text("alpha")));
    assert!(store.has_requirement(&text("beta")));
    assert!(!store.has_requirement(&text("gamma")));
    assert_eq!(store.requirement_count(), 2);
    assert_eq!(store.project_count(), 0);
}

#[test]
fn a_link_needs_its_project() {
    let mut store = Store::new();
    store.execute(&update_requirements(&text("alpha")), 1).unwrap();
    let link = update_project_requirements(&text("demo"), &text("alpha"), &text("1.0"));
    assert_eq!(
        store.execute(&link, 2),
        Err(StoreError { statement: link.clone(), fault: Fault::MissingProject })
    );
    assert_eq!(store.project_requirement_count(), 0);
    assert_eq!(store.current_version(&text("demo"), &text("alpha")), None);
    assert_eq!(store.project_count(), 0);
    assert_eq!(store.requirement_count(), 1);
}

#[test]
fn a_link_needs_its_requirement() {
    let mut store = Store::new();
    store.execute(&update_projects(&text("demo")), 1).unwrap();
    let link = update_project_requirements(&text("demo"), &text("alpha"), &text("1.0"));
    assert_eq!(
        store.execute(&link, 2),
        Err(StoreError { statement: link.clone(), fault: Fault::MissingRequirement })
    );
    assert_eq!(store.project_requirement_count(), 0);
    assert_eq!(store.requirement_count(), 0);
}

#[test]
fn a_missing_project_is_named_first() {
    let mut store = Store::new();
    let link = update_project_requirements(&text("demo"), &text("alpha"), &text("1.0"));
    assert_eq!(
        store.execute(&link, 2),
        Err(StoreError { statement: link.clone(), fault: Fault::MissingProject })
    );
}

#[test]
fn a_link_is_inserted_and_then_updated() {
    let mut store = Store::new();
    store.execute(&update_projects(&text("demo")), 1).unwrap();
    store.execute(&update_requirements(&text("foo")), 2).unwrap();
    let first = update_project_requirements(&text("demo"), &text("foo"), &text("1.0"));
    assert_eq!(store.execute(&first, 10), Ok(()));
    assert_eq!(store.current_version(&text("demo"), &text("foo")), Some(text("1.0")));
    assert_eq!(store.updated_at(&text("demo"), &text("foo")), Some(10));
    assert_eq!(store.project_requirement_count(), 1);
    let second = update_project_requirements(&text("demo"), &text("foo"), &text("2.0"));
    assert_eq!(store.execute(&second, 20), Ok(()));
    assert_eq!(store.current_version(&text("demo"), &text("foo")), Some(text("2.0")));
    assert_eq!(store.updated_at(&text("demo"), &text("foo")), Some(20));
    assert_eq!(store.project_requirement_count(), 1);
}

#[test]
fn the_same_version_again_only_moves_the_time() {
    let mut store = Store::new();
    store.execute(&update_projects(&text("demo")), 1).unwrap();
    store.execute(&update_requirements(&text("foo")), 2).unwrap();
    let link = update_project_requirements(&text("demo"), &text("foo"), &text("1.0"));
    store.execute(&link, 10).unwrap();
    store.execute(&link, 11).unwrap();
    assert_eq!(store.current_version(&text("demo"), &text("foo")), Some(text("1.0")));
    assert_eq!(store.updated_at(&text("demo"), &text("foo")), Some(11));
    assert_eq!(store.project_requirement_count(), 1);
}

#[test]
fn links_are_told_apart_by_both_names() {
    let mut store = Store::new();
    for project in ["a", "b"] {
        store.execute(&update_projects(&text(project)), 1).unwrap();
    }
    for requirement in ["x", "y"] {
        store.execute(&update_requirements(&text(requirement)), 1).unwrap();
    }
    store.execute(&update_project_requirements(&text("a"), &text("x"), &text("1")), 5).unwrap();
    store.execute(&update_project_requirements(&text("a"), &text("y"), &text("2")), 6).unwrap();
    store.execute(&update_project_requirements(&text("b"), &text("x"), &text("3")), 7).unwrap();
    assert_eq!(store.project_requirement_count(), 3);
    assert_eq!(store.current_version(&text("a"), &text("x")), Some(text("1")));
    assert_eq!(store.current_version(&text("a"), &text("y")), Some(text("2")));
    assert_eq!(store.current_version(&text("b"), &text("x")), Some(text("3")));
    assert_eq!(store.current_version(&text("b"), &text("y")), None);
    assert_eq!(store.current_version(&text("x"), &text("a")), None);
    store.execute(&update_project_requirements(&text("a"), &text("y"), &text("4")), 8).unwrap();
    assert_eq!(store.current_version(&text("a"), &text("x")), Some(text("1")));
    assert_eq!(store.updated_at(&text("a"), &text("x")), Some(5));
    assert_eq!(store.current_version(&text("a"), &text("y")), Some(text("4")));
    assert_eq!(store.project_requirement_count(), 3);
}
