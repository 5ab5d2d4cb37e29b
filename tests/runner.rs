use refinery_core::error::MigrationError;
use refinery_core::history::HistoryRecord;
use refinery_core::migration::{Catalog, Migration};
use refinery_core::runner::{RunReport, Runner};
use refinery_core::timestamp::Timestamp;

/// An in-memory backend: the history table, the statements that committed,
/// and the versions whose statements fail.
struct Backend {
    history: Vec<HistoryRecord>,
    executed: Vec<String>,
    failing: Vec<u64>,
    clock: i64,
}

impl Backend {
    fn new() -> Backend {
        Backend { history: Vec::new(), executed: Vec::new(), failing: Vec::new(), clock: 1_700_000_000 }
    }

    fn snapshot(&self) -> Vec<(u64, u64)> {
        self.history.iter().map(|r| (r.version, r.checksum)).collect()
    }
}

fn copy_record(r: &HistoryRecord) -> HistoryRecord {
    HistoryRecord { version: r.version, name: r.name.clone(), applied_on: r.applied_on, checksum: r.checksum }
}

fn run(catalog: Catalog, db: &mut Backend) -> Result<RunReport, MigrationError> {
    let history: Vec<HistoryRecord> = db.history.iter().map(copy_record).collect();
    let mut runner = Runner::start(catalog, &history)?;
    while let Some(m) = runner.next_migration() {
        if db.failing.contains(&m.version) {
            let cause = format!("syntax error in {}", m.name);
            return Err(runner.fail(cause));
        }
        db.executed.push(m.content.clone());
        db.clock += 1;
        let at = Timestamp { unix_seconds: db.clock, nanosecond: 0, offset_seconds: 0 };
        let record = runner.history_record(at);
        db.history.push(record);
        runner.mark_applied(at);
    }
    Ok(runner.finish())
}

fn m(version: u64, name: &str, content: &str) -> Migration {
    Migration::new(version, name.to_string(), content.to_string())
}

fn catalog(ms: Vec<Migration>) -> Catalog {
    Catalog::new(ms).unwrap()
}

fn foo_catalog() -> Catalog {
    catalog(vec![
        m(1, "create_foo", "create table foo(id integer)"),
        m(2, "add_bar", "alter table foo add column bar text"),
    ])
}

fn versions(report: &RunReport) -> Vec<u64> {
    report.applied.iter().map(|a| a.version).collect()
}

#[test]
fn concrete_scenario_create_then_alter() {
    let mut db = Backend::new();
    let first = run(foo_catalog(), &mut db).unwrap();
    assert_eq!(versions(&first), vec![1, 2]);
    assert_eq!(first.applied[0].name, "create_foo");
    assert_eq!(first.applied[1].name, "add_bar");
    let c1 = refinery_core::checksum::content_checksum("create table foo(id integer)");
    let c2 = refinery_core::checksum::content_checksum("alter table foo add column bar text");
    assert_eq!(db.snapshot(), vec![(1, c1), (2, c2)]);

    let second = run(foo_catalog(), &mut db).unwrap();
    assert!(second.applied.is_empty());

    db.history[0].checksum = c1.wrapping_add(1);
    let before = db.snapshot();
    let third = run(foo_catalog(), &mut db);
    assert_eq!(third.unwrap_err(), MigrationError::ChecksumMismatch(1));
    assert_eq!(db.snapshot(), before);
}

#[test]
fn second_run_applies_nothing() {
    let mut db = Backend::new();
    let ms = vec![m(3, "c", "create table c(x int)"), m(1, "a", "create table a(x int)"), m(2, "b", "create table b(x int)")];
    let first = run(catalog(ms), &mut db).unwrap();
    assert_eq!(versions(&first), vec![1, 2, 3]);
    let again = vec![m(2, "b", "create table b(x int)"), m(3, "c", "create table c(x int)"), m(1, "a", "create table a(x int)")];
    let second = run(catalog(again), &mut db).unwrap();
    assert!(second.applied.is_empty());
    assert_eq!(db.executed.len(), 3);
}

#[test]
fn shuffled_catalog_applies_in_ascending_order() {
    let orders: Vec<Vec<u64>> = vec![vec![1, 2, 3, 4], vec![4, 3, 2, 1], vec![2, 4, 1, 3], vec![3, 1, 4, 2]];
    for order in orders {
        let mut db = Backend::new();
        let ms: Vec<Migration> = order.iter().map(|v| m(*v, &format!("m{}", v), &format!("create table t{}(x int)", v))).collect();
        let report = run(catalog(ms), &mut db).unwrap();
        assert_eq!(versions(&report), vec![1, 2, 3, 4]);
        assert_eq!(
            db.executed,
            vec!["create table t1(x int)", "create table t2(x int)", "create table t3(x int)", "create table t4(x int)"]
        );
    }
}

#[test]
fn drift_is_detected_and_nothing_applied() {
    let mut db = Backend::new();
    run(catalog(vec![m(1, "a", "create table a(x int)")]), &mut db).unwrap();
    let changed = vec![m(1, "a", "create table a(x bigint)"), m(2, "b", "create table b(x int)")];
    let result = run(catalog(changed), &mut db);
    assert_eq!(result.unwrap_err(), MigrationError::ChecksumMismatch(1));
    assert_eq!(db.history.len(), 1);
    assert_eq!(db.executed.len(), 1);
}

#[test]
fn failing_migration_stops_the_run() {
    let mut db = Backend::new();
    run(catalog(vec![m(1, "v1", "create table one(x int)")]), &mut db).unwrap();
    db.failing = vec![3];
    let ms = vec![
        m(1, "v1", "create table one(x int)"),
        m(2, "v2", "create table two(x int)"),
        m(3, "v3", "create tabel three(x int)"),
        m(4, "v4", "create table four(x int)"),
    ];
    let result = run(catalog(ms), &mut db);
    match result {
        Err(MigrationError::Execution(v, cause)) => {
            assert_eq!(v, 3);
            assert_eq!(cause, "syntax error in v3");
        }
        other => panic!("unexpected outcome: {:?}", other),
    }
    let recorded: Vec<u64> = db.history.iter().map(|r| r.version).collect();
    assert_eq!(recorded, vec![1, 2]);
    assert_eq!(db.executed, vec!["create table one(x int)", "create table two(x int)"]);
}

#[test]
fn rerun_after_fix_resumes_at_failed_version() {
    let mut db = Backend::new();
    db.failing = vec![2];
    let ms = || vec![m(1, "a", "create table a(x int)"), m(2, "b", "create table b(x int)"), m(3, "c", "create table c(x int)")];
    assert_eq!(run(catalog(ms()), &mut db).unwrap_err(), MigrationError::Execution(2, "syntax error in b".to_string()));
    db.failing = vec![];
    let report = run(catalog(ms()), &mut db).unwrap();
    assert_eq!(versions(&report), vec![2, 3]);
}

#[test]
fn fully_recorded_catalog_gives_empty_report() {
    let mut db = Backend::new();
    let v1 = m(1, "a", "create table a(x int)");
    let v2 = m(2, "b", "create table b(x int)");
    let at = Timestamp { unix_seconds: 10, nanosecond: 0, offset_seconds: 0 };
    db.history.push(HistoryRecord { version: 1, name: "a".to_string(), applied_on: at, checksum: v1.checksum });
    db.history.push(HistoryRecord { version: 2, name: "b".to_string(), applied_on: at, checksum: v2.checksum });
    let report = run(catalog(vec![v1, v2]), &mut db).unwrap();
    assert!(report.applied.is_empty());
    assert!(db.executed.is_empty());
}

#[test]
fn missing_record_below_highest_applied_aborts() {
    let mut db = Backend::new();
    let v1 = m(1, "a", "create table a(x int)");
    let v2 = m(2, "b", "create table b(x int)");
    let v3 = m(3, "c", "create table c(x int)");
    let at = Timestamp { unix_seconds: 10, nanosecond: 0, offset_seconds: 0 };
    db.history.push(HistoryRecord { version: 2, name: "b".to_string(), applied_on: at, checksum: v2.checksum });
    let result = run(catalog(vec![v1, v2, v3]), &mut db);
    assert_eq!(result.unwrap_err(), MigrationError::MissingVersion(1));
    assert!(db.executed.is_empty());
}

#[test]
fn empty_catalog_on_empty_history() {
    let mut db = Backend::new();
    let report = run(catalog(vec![]), &mut db).unwrap();
    assert!(report.applied.is_empty());
}

#[test]
fn history_record_carries_the_migration() {
    let c = catalog(vec![m(7, "seven", "create table s(x int)")]);
    let runner = Runner::start(c, &vec![]).unwrap();
    let at = Timestamp { unix_seconds: 99, nanosecond: 5, offset_seconds: 3600 };
    let rec = runner.history_record(at);
    assert_eq!(rec.version, 7);
    assert_eq!(rec.name, "seven");
    assert_eq!(rec.checksum, refinery_core::checksum::content_checksum("create table s(x int)"));
    assert_eq!(rec.applied_on, at);
}
