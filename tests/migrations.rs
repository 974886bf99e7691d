use shelf_migrations::bookkeeping::{AppliedRow, drifted_versions};
use shelf_migrations::catalog::{Catalog, CatalogError, Migration, MigrationKind};
use shelf_migrations::runner::{MigrationError, Outcome, Runner, Step};
use shelf_migrations::schema::{book_catalog, book_migrations};

fn mig(version: u64, description: &str, sql: &[&str]) -> Migration {
    Migration {
        version,
        description: description.to_string(),
        statements: sql.iter().map(|s| s.to_string()).collect(),
        kind: MigrationKind::Up,
    }
}

fn versions(catalog: &Catalog) -> Vec<u64> {
    (0..catalog.len()).map(|i| catalog.get(i).version).collect()
}

/// Drives a run to its end, committing every migration except `fail_at`.
/// Returns the versions applied in order and how the run ended.
fn drive(runner: &mut Runner, fail_at: Option<u64>) -> (Vec<u64>, Result<u64, MigrationError>) {
    let mut order = Vec::new();
    loop {
        match runner.next_step() {
            Step::Apply(i) => {
                let version = runner.catalog_ref().get(i).version;
                if Some(version) == fail_at {
                    if let Err(e) = runner.record(Outcome::Failed("disk full".to_string())) {
                        return (order, Err(e));
                    }
                    panic!("a failed migration must end the run");
                }
                runner.record(Outcome::Committed).unwrap();
                order.push(version);
            }
            Step::Finished(n) => return (order, Ok(n)),
            Step::Halted => panic!("halted without an error"),
        }
    }
}

fn two_tables() -> Vec<Migration> {
    vec![
        mig(1, "create_authors_table", &["CREATE TABLE authors (id INTEGER PRIMARY KEY);"]),
        mig(2, "create_categories_table", &["CREATE TABLE categories (id INTEGER PRIMARY KEY);"]),
    ]
}

fn three_tables() -> Vec<Migration> {
    let mut m = two_tables();
    m.push(mig(3, "create_locations_table", &["CREATE TABLE locations (id INTEGER PRIMARY KEY);"]));
    m
}

#[test]
fn empty_store_applies_both_tables() {
    let catalog = Catalog::load(two_tables()).unwrap();
    let mut runner = Runner::start(catalog, vec![]).unwrap();
    let (order, end) = drive(&mut runner, None);
    assert_eq!(end.unwrap(), 2);
    assert_eq!(order, vec![1, 2]);
    assert_eq!(runner.applied_versions(), &vec![1, 2]);
}

#[test]
fn store_with_first_version_applies_the_rest() {
    let catalog = Catalog::load(three_tables()).unwrap();
    let mut runner = Runner::start(catalog, vec![1]).unwrap();
    let (order, end) = drive(&mut runner, None);
    assert_eq!(end.unwrap(), 2);
    assert_eq!(order, vec![2, 3]);
    assert_eq!(runner.applied_versions(), &vec![1, 2, 3]);
}

#[test]
fn duplicate_version_rejected_at_load() {
    let mut entries = three_tables();
    entries.push(mig(3, "create_settings_table", &["CREATE TABLE settings (id INTEGER PRIMARY KEY);"]));
    assert!(matches!(Catalog::load(entries), Err(CatalogError::DuplicateVersion(3))));
}

#[test]
fn unknown_applied_version_rejected() {
    let catalog = book_catalog().unwrap();
    assert_eq!(versions(&catalog).last(), Some(&7));
    match Runner::start(catalog, vec![1, 2, 9]) {
        Err(MigrationError::UnknownAppliedVersion(v)) => assert_eq!(v, 9),
        _ => panic!("expected an unknown applied version"),
    }
}

#[test]
fn second_run_applies_nothing() {
    let mut first = Runner::start(book_catalog().unwrap(), vec![]).unwrap();
    let (_, end) = drive(&mut first, None);
    assert_eq!(end.unwrap(), 7);
    let rows = first.applied_versions().clone();
    let mut second = Runner::start(book_catalog().unwrap(), rows.clone()).unwrap();
    assert_eq!(second.next_step(), Step::Finished(0));
    let (order, end) = drive(&mut second, None);
    assert!(order.is_empty());
    assert_eq!(end.unwrap(), 0);
    assert_eq!(second.applied_versions(), &rows);
}

#[test]
fn failure_leaves_a_prefix() {
    let mut runner = Runner::start(book_catalog().unwrap(), vec![1, 2]).unwrap();
    let (order, end) = drive(&mut runner, Some(5));
    assert_eq!(order, vec![3, 4]);
    assert_eq!(runner.applied_versions(), &vec![1, 2, 3, 4]);
    match end {
        Err(MigrationError::MigrationFailed { version, cause }) => {
            assert_eq!(version, 5);
            assert_eq!(cause, "disk full");
        }
        _ => panic!("expected a failed migration"),
    }
}

#[test]
fn failed_migration_records_nothing_and_halts() {
    let catalog = Catalog::load(two_tables()).unwrap();
    let mut runner = Runner::start(catalog, vec![]).unwrap();
    assert_eq!(runner.next_step(), Step::Apply(0));
    let r = runner.record(Outcome::Failed("syntax error".to_string()));
    assert!(matches!(r, Err(MigrationError::MigrationFailed { version: 1, .. })));
    assert!(runner.applied_versions().is_empty());
    assert_eq!(runner.next_step(), Step::Halted);
}

#[test]
fn scrambled_catalog_applies_in_ascending_order() {
    let entries = vec![
        mig(4, "d", &["CREATE TABLE d (id INTEGER);"]),
        mig(1, "a", &["CREATE TABLE a (id INTEGER);"]),
        mig(3, "c", &["CREATE TABLE c (id INTEGER);"]),
        mig(2, "b", &["CREATE TABLE b (id INTEGER);"]),
    ];
    let catalog = Catalog::load(entries).unwrap();
    assert_eq!(versions(&catalog), vec![1, 2, 3, 4]);
    assert_eq!(catalog.get(0).description, "a");
    let mut runner = Runner::start(catalog, vec![]).unwrap();
    let (order, end) = drive(&mut runner, None);
    assert_eq!(order, vec![1, 2, 3, 4]);
    assert_eq!(end.unwrap(), 4);
}

#[test]
fn empty_statement_list_rejected() {
    let mut entries = two_tables();
    entries.push(mig(5, "nothing", &[]));
    assert!(matches!(Catalog::load(entries), Err(CatalogError::EmptyStatement(5))));
}

#[test]
fn duplicate_checked_before_empty_statements() {
    let entries = vec![mig(2, "x", &[]), mig(2, "y", &["SELECT 1;"])];
    assert!(matches!(Catalog::load(entries), Err(CatalogError::DuplicateVersion(2))));
}

#[test]
fn empty_catalog_loads_and_finishes_at_once() {
    let catalog = Catalog::load(vec![]).unwrap();
    assert_eq!(catalog.len(), 0);
    let runner = Runner::start(catalog, vec![]).unwrap();
    assert_eq!(runner.next_step(), Step::Finished(0));
}

#[test]
fn position_of_finds_versions() {
    let catalog = Catalog::load(three_tables()).unwrap();
    assert_eq!(catalog.position_of(2), Some(1));
    assert_eq!(catalog.position_of(8), None);
}

#[test]
fn largest_version_is_accepted() {
    let entries = vec![mig(u64::MAX, "last", &["SELECT 1;"]), mig(1, "first", &["SELECT 1;"])];
    let catalog = Catalog::load(entries).unwrap();
    assert_eq!(versions(&catalog), vec![1, u64::MAX]);
}

#[test]
fn book_migrations_are_the_schema() {
    let m = book_migrations();
    assert_eq!(m.len(), 7);
    assert_eq!(m[0].description, "create_authors_table");
    assert!(m[3].statements[0].contains("REFERENCES locations(id)"));
    assert!(m[4].statements[0].contains("CREATE TABLE IF NOT EXISTS author_book"));
    assert!(m.iter().all(|x| x.kind == MigrationKind::Up && x.statements.len() == 1));
    let catalog = book_catalog().unwrap();
    assert_eq!(versions(&catalog), vec![1, 2, 3, 4, 5, 6, 7]);
}

#[test]
fn prepare_reports_catalog_errors_first() {
    let entries = vec![mig(3, "x", &["SELECT 1;"]), mig(3, "y", &["SELECT 2;"])];
    match Runner::prepare(entries, vec![42]) {
        Err(MigrationError::Catalog(CatalogError::DuplicateVersion(3))) => {}
        _ => panic!("expected a duplicate version"),
    }
}

#[test]
fn prepare_reports_unknown_versions() {
    match Runner::prepare(three_tables(), vec![1, 4]) {
        Err(MigrationError::UnknownAppliedVersion(4)) => {}
        _ => panic!("expected an unknown applied version"),
    }
}

#[test]
fn prepare_then_run_applies_pending() {
    let mut runner = Runner::prepare(three_tables(), vec![1, 2]).unwrap();
    assert_eq!(runner.next_step(), Step::Apply(2));
    let (order, end) = drive(&mut runner, None);
    assert_eq!(order, vec![3]);
    assert_eq!(end.unwrap(), 1);
}

#[test]
fn drift_is_reported_by_version() {
    let catalog = Catalog::load(three_tables()).unwrap();
    let rows = vec![
        AppliedRow { version: 1, description: "create_authors_table".to_string() },
        AppliedRow { version: 2, description: "create_genres_table".to_string() },
        AppliedRow { version: 3, description: "create_locations_table".to_string() },
        AppliedRow { version: 9, description: "unknown".to_string() },
    ];
    assert_eq!(drifted_versions(&catalog, &rows), vec![2]);
}

#[test]
fn no_drift_on_matching_descriptions() {
    let catalog = book_catalog().unwrap();
    let rows = vec![
        AppliedRow { version: 2, description: "create_categories_table".to_string() },
        AppliedRow { version: 7, description: "create_settings_table".to_string() },
    ];
    assert!(drifted_versions(&catalog, &rows).is_empty());
    let shorter = vec![AppliedRow { version: 7, description: "create_settings".to_string() }];
    assert_eq!(drifted_versions(&catalog, &shorter), vec![7]);
}

#[test]
fn first_unknown_version_is_reported() {
    match Runner::start(book_catalog().unwrap(), vec![1, 8, 9]) {
        Err(MigrationError::UnknownAppliedVersion(v)) => assert_eq!(v, 8),
        _ => panic!("expected an unknown applied version"),
    }
}

#[test]
fn book_catalog_keeps_descriptions_in_version_order() {
    let catalog = book_catalog().unwrap();
    let names: Vec<&str> = (0..catalog.len()).map(|i| catalog.get(i).description.as_str()).collect();
    assert_eq!(
        names,
        vec![
            "create_authors_table",
            "create_categories_table",
            "create_locations_table",
            "create_books_table",
            "create_author_book_table",
            "create_category_book_table",
            "create_settings_table",
        ]
    );
}

#[test]
fn reverse_records_are_never_applied_automatically() {
    let mut entries = three_tables();
    entries.push(Migration {
        version: 4,
        description: "drop_locations_table".to_string(),
        statements: vec!["DROP TABLE locations;".to_string()],
        kind: MigrationKind::Down,
    });
    entries.push(mig(5, "create_settings_table", &["CREATE TABLE settings (id INTEGER PRIMARY KEY);"]));
    let catalog = Catalog::load(entries).unwrap();
    let mut runner = Runner::start(catalog, vec![1]).unwrap();
    let mut asked = Vec::new();
    loop {
        match runner.next_step() {
            Step::Apply(i) => {
                let m = runner.catalog_ref().get(i);
                assert_eq!(m.kind, MigrationKind::Up);
                asked.push(m.version);
                runner.record(Outcome::Committed).unwrap();
            }
            Step::Finished(n) => {
                assert_eq!(n, 3);
                break;
            }
            Step::Halted => panic!("halted without a failure"),
        }
    }
    assert_eq!(asked, vec![2, 3, 5]);
    assert_eq!(runner.applied_versions(), &vec![1, 2, 3, 5]);
}

#[test]
fn catalog_of_only_reverse_records_has_nothing_pending() {
    let entries = vec![Migration {
        version: 1,
        description: "drop_authors_table".to_string(),
        statements: vec!["DROP TABLE authors;".to_string()],
        kind: MigrationKind::Down,
    }];
    let runner = Runner::prepare(entries, vec![]).unwrap();
    assert_eq!(runner.next_step(), Step::Finished(0));
}
