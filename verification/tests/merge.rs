use pypeep::listing::{get_requirements, PyRequirement};
use pypeep::merge::{merge_listing, Merge, MergeReport};
use pypeep::statement::{
    update_project_requirements, update_projects, update_requirements, Statement,
};
use pypeep::store::{Fault, Store, StoreError};

fn text(value: &str) -> String {
    value.to_string()
}

fn requirement(id: usize, name: &str, current_version: &str) -> PyRequirement {
    PyRequirement { id, name: text(name), current_version: text(current_version) }
}

fn counts(store: &Store) -> (usize, usize, usize) {
    (store.project_count(), store.requirement_count(), store.project_requirement_count())
}

fn backend(message: &str) -> Fault {
    Fault::Backend { message: text(message) }
}

#[test]
fn merges_a_parsed_listing_under_its_project() {
    let requirements = get_requirements("alpha==1.2.3\nbeta==0.9\n\n").unwrap();
    let mut store = Store::new();
    let report = merge_listing(&text("demo"), &requirements, &mut store, 100);
    assert_eq!(report, MergeReport { merged: 2, failure: None });
    assert_eq!(counts(&store), (1, 2, 2));
    assert!(store.has_project(&text("demo")));
    assert!(store.has_requirement(&text("alpha")));
    assert!(store.has_requirement(&text("beta")));
    assert_eq!(store.current_version(&text("demo"), &text("alpha")), Some(text("1.2.3")));
    assert_eq!(store.current_version(&text("demo"), &text("beta")), Some(text("0.9")));
    assert_eq!(store.updated_at(&text("demo"), &text("alpha")), Some(100));
    assert_eq!(store.updated_at(&text("demo"), &text("beta")), Some(100));
}

#[test]
fn a_merge_without_requirements_writes_the_project() {
    let mut store = Store::new();
    let report = merge_listing(&text("demo"), &vec![], &mut store, 1);
    assert_eq!(report, MergeReport { merged: 0, failure: None });
    assert_eq!(counts(&store), (1, 0, 0));
    assert!(store.has_project(&text("demo")));
}

#[test]
fn merging_twice_is_merging_once() {
    let requirements =
        vec![requirement(1, "alpha", "1.2.3"), requirement(2, "beta", "0.9"), requirement(4, "gamma", "3")];
    let mut store = Store::new();
    merge_listing(&text("other"), &vec![requirement(1, "alpha", "0.1")], &mut store, 1);
    let first = merge_listing(&text("demo"), &requirements, &mut store, 10);
    let after_first = counts(&store);
    let second = merge_listing(&text("demo"), &requirements, &mut store, 20);
    assert_eq!(first, MergeReport { merged: 3, failure: None });
    assert_eq!(second, first);
    assert_eq!(after_first, (2, 3, 4));
    assert_eq!(counts(&store), after_first);
    for requirement in &requirements {
        assert_eq!(
            store.current_version(&text("demo"), &requirement.name),
            Some(requirement.current_version.clone())
        );
        assert_eq!(store.updated_at(&text("demo"), &requirement.name), Some(20));
    }
    assert_eq!(store.current_version(&text("other"), &text("alpha")), Some(text("0.1")));
    assert_eq!(store.updated_at(&text("other"), &text("alpha")), Some(1));
}

#[test]
fn a_later_merge_overwrites_the_version() {
    let mut store = Store::new();
    merge_listing(&text("p"), &vec![requirement(1, "foo", "1.0")], &mut store, 1);
    assert_eq!(store.current_version(&text("p"), &text("foo")), Some(text("1.0")));
    merge_listing(&text("p"), &vec![requirement(1, "foo", "2.0")], &mut store, 2);
    assert_eq!(counts(&store), (1, 1, 1));
    assert_eq!(store.current_version(&text("p"), &text("foo")), Some(text("2.0")));
    assert_eq!(store.updated_at(&text("p"), &text("foo")), Some(2));
}

#[test]
fn the_last_of_two_requirements_of_one_name_stands() {
    let mut store = Store::new();
    let requirements = vec![
        requirement(1, "foo", "1.0"),
        requirement(2, "bar", "5"),
        requirement(3, "foo", "2.0"),
    ];
    let report = merge_listing(&text("p"), &requirements, &mut store, 1);
    assert_eq!(report, MergeReport { merged: 3, failure: None });
    assert_eq!(counts(&store), (1, 2, 2));
    assert_eq!(store.current_version(&text("p"), &text("foo")), Some(text("2.0")));
    assert_eq!(store.current_version(&text("p"), &text("bar")), Some(text("5")));
}

#[test]
fn projects_share_a_requirement_but_not_its_link() {
    let mut store = Store::new();
    merge_listing(&text("a"), &vec![requirement(1, "foo", "1.0")], &mut store, 1);
    merge_listing(&text("b"), &vec![requirement(1, "foo", "2.0")], &mut store, 2);
    assert_eq!(counts(&store), (2, 1, 2));
    assert!(store.has_requirement(&text("foo")));
    assert_eq!(store.current_version(&text("a"), &text("foo")), Some(text("1.0")));
    assert_eq!(store.current_version(&text("b"), &text("foo")), Some(text("2.0")));
    assert_eq!(store.updated_at(&text("a"), &text("foo")), Some(1));
    assert_eq!(store.updated_at(&text("b"), &text("foo")), Some(2));
}

#[test]
fn the_plan_writes_the_project_and_then_each_requirement_and_its_link() {
    let project = text("demo");
    let requirements = vec![requirement(1, "alpha", "1.2.3"), requirement(2, "beta", "0.9")];
    let mut merge = Merge::new(&project, &requirements);
    let mut statements: Vec<Statement> = Vec::new();
    while let Some(statement) = merge.next_statement() {
        assert!(!merge.is_finished());
        statements.push(statement);
        merge.record_outcome(Ok(()));
    }
    assert!(merge.is_finished());
    assert_eq!(
        statements,
        vec![
            update_projects(&text("demo")),
            update_requirements(&text("alpha")),
            update_project_requirements(&text("demo"), &text("alpha"), &text("1.2.3")),
            update_requirements(&text("beta")),
            update_project_requirements(&text("demo"), &text("beta"), &text("0.9")),
        ]
    );
    assert_eq!(merge.report(), MergeReport { merged: 2, failure: None });
}

#[test]
fn a_requirement_counts_once_its_link_is_written() {
    let project = text("demo");
    let requirements = vec![requirement(1, "alpha", "1"), requirement(2, "beta", "2")];
    let mut merge = Merge::new(&project, &requirements);
    let merged_after: [usize; 5] = [0, 0, 1, 1, 2];
    assert_eq!(merge.report().merged, 0);
    for expected in merged_after {
        assert!(merge.next_statement().is_some());
        merge.record_outcome(Ok(()));
        assert_eq!(merge.report(), MergeReport { merged: expected, failure: None });
    }
    assert_eq!(merge.next_statement(), None);
}

#[test]
fn the_statement_stays_due_until_its_outcome_is_told() {
    let project = text("demo");
    let requirements = vec![requirement(1, "alpha", "1")];
    let merge = Merge::new(&project, &requirements);
    assert_eq!(merge.next_statement(), Some(update_projects(&text("demo"))));
    assert_eq!(merge.next_statement(), Some(update_projects(&text("demo"))));
    assert_eq!(merge.report(), MergeReport { merged: 0, failure: None });
}

#[test]
fn stops_at_the_first_failure() {
    let project = text("demo");
    let requirements = vec![
        requirement(1, "one", "1.0"),
        requirement(2, "two", "2.0"),
        requirement(3, "three", "3.0"),
    ];
    let mut store = Store::new();
    let mut merge = Merge::new(&project, &requirements);
    let mut attempted: Vec<Statement> = Vec::new();
    while let Some(statement) = merge.next_statement() {
        attempted.push(statement.clone());
        if statement == update_project_requirements(&text("demo"), &text("two"), &text("2.0")) {
            merge.record_outcome(Err(backend("disk full")));
        } else {
            store.execute(&statement, 7).unwrap();
            merge.record_outcome(Ok(()));
        }
    }
    let failed = update_project_requirements(&text("demo"), &text("two"), &text("2.0"));
    assert_eq!(
        merge.report(),
        MergeReport {
            merged: 1,
            failure: Some(StoreError { statement: failed.clone(), fault: backend("disk full") }),
        }
    );
    assert_eq!(attempted.len(), 5);
    assert_eq!(attempted.last(), Some(&failed));
    assert!(!attempted.contains(&update_requirements(&text("three"))));
    assert_eq!(store.current_version(&text("demo"), &text("one")), Some(text("1.0")));
    assert_eq!(store.current_version(&text("demo"), &text("two")), None);
    assert!(!store.has_requirement(&text("three")));
    assert_eq!(counts(&store), (1, 2, 1));
}

#[test]
fn a_failed_requirement_stops_the_merge_before_its_link() {
    let project = text("demo");
    let requirements = vec![
        requirement(1, "one", "1.0"),
        requirement(2, "two", "2.0"),
        requirement(3, "three", "3.0"),
    ];
    let mut merge = Merge::new(&project, &requirements);
    for _ in 0..3 {
        merge.record_outcome(Ok(()));
    }
    assert_eq!(merge.next_statement(), Some(update_requirements(&text("two"))));
    merge.record_outcome(Err(backend("locked")));
    assert!(merge.is_finished());
    assert_eq!(merge.next_statement(), None);
    assert_eq!(
        merge.report(),
        MergeReport {
            merged: 1,
            failure: Some(StoreError {
                statement: update_requirements(&text("two")),
                fault: backend("locked"),
            }),
        }
    );
}

#[test]
fn a_failed_project_stops_the_merge_at_once() {
    let project = text("demo");
    let requirements = vec![requirement(1, "one", "1.0")];
    let mut merge = Merge::new(&project, &requirements);
    merge.record_outcome(Err(backend("no such table: projects")));
    assert_eq!(merge.next_statement(), None);
    assert_eq!(
        merge.report(),
        MergeReport {
            merged: 0,
            failure: Some(StoreError {
                statement: update_projects(&text("demo")),
                fault: backend("no such table: projects"),
            }),
        }
    );
}

#[test]
fn outcomes_told_after_the_end_change_nothing() {
    let project = text("demo");
    let requirements = vec![requirement(1, "one", "1.0"), requirement(2, "two", "2.0")];
    let mut failed = Merge::new(&project, &requirements);
    failed.record_outcome(Ok(()));
    failed.record_outcome(Err(backend("first")));
    let report = failed.report();
    failed.record_outcome(Ok(()));
    failed.record_outcome(Err(backend("second")));
    assert_eq!(failed.report(), report);
    assert_eq!(failed.next_statement(), None);

    let mut done = Merge::new(&project, &requirements);
    for _ in 0..5 {
        done.record_outcome(Ok(()));
    }
    assert!(done.is_finished());
    done.record_outcome(Err(backend("late")));
    done.record_outcome(Ok(()));
    assert_eq!(done.report(), MergeReport { merged: 2, failure: None });
}

#[test]
fn a_store_that_refuses_a_link_fails_the_merge() {
    let project = text("demo");
    let requirements = vec![requirement(1, "one", "1.0")];
    let mut store = Store::new();
    let mut merge = Merge::new(&project, &requirements);
    // The project is reported as written though it never was.
    merge.record_outcome(Ok(()));
    while let Some(statement) = merge.next_statement() {
        match store.execute(&statement, 1) {
            Ok(()) => merge.record_outcome(Ok(())),
            Err(error) => merge.record_outcome(Err(error.fault)),
        }
    }
    assert_eq!(
        merge.report(),
        MergeReport {
            merged: 0,
            failure: Some(StoreError {
                statement: update_project_requirements(&text("demo"), &text("one"), &text("1.0")),
                fault: Fault::MissingProject,
            }),
        }
    );
    assert_eq!(counts(&store), (0, 1, 0));
}
