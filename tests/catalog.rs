use refinery_core::checksum::{content_checksum, parse_checksum, FNV_OFFSET};
use refinery_core::error::MigrationError;
use refinery_core::history::{parse_history_row, record_from_parts, sort_history};
use refinery_core::identity::parse_identity;
use refinery_core::migration::{Catalog, Migration};
use refinery_core::timestamp::Timestamp;

fn m(version: u64, name: &str, content: &str) -> Migration {
    Migration::new(version, name.to_string(), content.to_string())
}

fn versions(c: &Catalog) -> Vec<u64> {
    (0..c.len()).map(|i| c.get(i).version).collect()
}

#[test]
fn checksum_of_known_texts() {
    assert_eq!(content_checksum(""), FNV_OFFSET);
    assert_eq!(content_checksum(""), 0xcbf29ce484222325);
    assert_eq!(content_checksum("a"), 0xaf63dc4c8601ec8c);
    assert_eq!(content_checksum("foobar"), 0x85944171f73967e8);
}

#[test]
fn checksum_depends_on_content() {
    let a = m(1, "a", "create table a(x int)");
    let b = m(1, "a", "create table a(x bigint)");
    assert_ne!(a.checksum, b.checksum);
    assert_eq!(a.checksum, m(9, "other", "create table a(x int)").checksum);
}

#[test]
fn checksum_text_parses() {
    assert_eq!(parse_checksum("0"), Some(0));
    assert_eq!(parse_checksum("123"), Some(123));
    assert_eq!(parse_checksum("+5"), Some(5));
    assert_eq!(parse_checksum("007"), Some(7));
    assert_eq!(parse_checksum("18446744073709551615"), Some(u64::MAX));
    assert_eq!(parse_checksum(&u64::MAX.to_string()), Some(u64::MAX));
}

#[test]
fn checksum_text_rejected() {
    assert_eq!(parse_checksum(""), None);
    assert_eq!(parse_checksum("+"), None);
    assert_eq!(parse_checksum("-1"), None);
    assert_eq!(parse_checksum("12a"), None);
    assert_eq!(parse_checksum(" 12"), None);
    assert_eq!(parse_checksum("18446744073709551616"), None);
    assert_eq!(parse_checksum("99999999999999999999"), None);
}

#[test]
fn catalog_sorts_by_version() {
    let c = Catalog::new(vec![m(5, "e", "e"), m(1, "a", "a"), m(3, "c", "c")]).unwrap();
    assert_eq!(versions(&c), vec![1, 3, 5]);
    assert_eq!(c.get(0).name, "a");
    assert_eq!(c.get(2).content, "e");
}

#[test]
fn catalog_rejects_duplicate_versions() {
    let r = Catalog::new(vec![m(4, "d", "d"), m(2, "b", "b"), m(4, "d2", "d2"), m(2, "b2", "b2"), m(1, "a", "a")]);
    assert_eq!(r.unwrap_err(), MigrationError::DuplicateVersion(2));
    let r = Catalog::new(vec![m(7, "x", "x"), m(7, "x", "x")]);
    assert_eq!(r.unwrap_err(), MigrationError::DuplicateVersion(7));
}

#[test]
fn catalog_order_does_not_matter() {
    let a = Catalog::new(vec![m(2, "b", "b"), m(1, "a", "a"), m(3, "c", "c")]).unwrap();
    let b = Catalog::new(vec![m(3, "c", "c"), m(2, "b", "b"), m(1, "a", "a")]).unwrap();
    assert_eq!(versions(&a), versions(&b));
    for i in 0..a.len() {
        assert_eq!(a.get(i).name, b.get(i).name);
        assert_eq!(a.get(i).checksum, b.get(i).checksum);
    }
    let e1 = Catalog::new(vec![m(9, "x", "x"), m(9, "y", "y"), m(1, "a", "a")]).unwrap_err();
    let e2 = Catalog::new(vec![m(1, "a", "a"), m(9, "y", "y"), m(9, "x", "x")]).unwrap_err();
    assert_eq!(e1, e2);
}

#[test]
fn history_row_reads_back() {
    let rec = parse_history_row(3, "add_bar".to_string(), "2024-01-02T03:04:05Z", "42").unwrap();
    assert_eq!(rec.version, 3);
    assert_eq!(rec.name, "add_bar");
    assert_eq!(rec.checksum, 42);
    assert_eq!(rec.applied_on, Timestamp { unix_seconds: 1704164645, nanosecond: 0, offset_seconds: 0 });
}

#[test]
fn history_row_keeps_offset_and_fraction() {
    let rec = parse_history_row(1, "a".to_string(), "2024-01-02T05:04:05.25+02:00", "7").unwrap();
    assert_eq!(rec.applied_on, Timestamp { unix_seconds: 1704164645, nanosecond: 250_000_000, offset_seconds: 7200 });
}

#[test]
fn corrupt_timestamp_is_reported() {
    let r = parse_history_row(4, "d".to_string(), "yesterday", "42");
    assert_eq!(r.unwrap_err(), MigrationError::CorruptHistory(4));
}

#[test]
fn corrupt_checksum_is_reported() {
    let r = parse_history_row(5, "e".to_string(), "2024-01-02T03:04:05Z", "4x2");
    assert_eq!(r.unwrap_err(), MigrationError::CorruptHistory(5));
    let r = record_from_parts(6, "f".to_string(), None, "42");
    assert_eq!(r.unwrap_err(), MigrationError::CorruptHistory(6));
    let t = Timestamp { unix_seconds: 0, nanosecond: 0, offset_seconds: 0 };
    let rec = record_from_parts(6, "f".to_string(), Some(t), "42").unwrap();
    assert_eq!(rec.checksum, 42);
}

#[test]
fn identity_reads_version_and_name() {
    assert_eq!(parse_identity("V1__create_foo"), Some((1, 4)));
    assert_eq!(parse_identity("V12__add_users"), Some((12, 5)));
    assert_eq!(parse_identity("V007__x"), Some((7, 6)));
    assert_eq!(parse_identity("V18446744073709551615__max"), Some((u64::MAX, 23)));
    let stem = "V42__add_index__twice";
    let (v, start) = parse_identity(stem).unwrap();
    assert_eq!(v, 42);
    assert_eq!(&stem[start..], "add_index__twice");
}

#[test]
fn identity_rejected() {
    assert_eq!(parse_identity(""), None);
    assert_eq!(parse_identity("V"), None);
    assert_eq!(parse_identity("V__name"), None);
    assert_eq!(parse_identity("V1__"), None);
    assert_eq!(parse_identity("V1_name"), None);
    assert_eq!(parse_identity("v1__name"), None);
    assert_eq!(parse_identity("U1__name"), None);
    assert_eq!(parse_identity("V1a__name"), None);
    assert_eq!(parse_identity("V18446744073709551616__big"), None);
    assert_eq!(parse_identity("V99999999999999999999999__big"), None);
}

#[test]
fn loaded_history_is_ordered_by_version() {
    let at = Timestamp { unix_seconds: 1, nanosecond: 0, offset_seconds: 0 };
    let rec = |v: u64, c: u64| refinery_core::history::HistoryRecord { version: v, name: format!("m{}", v), applied_on: at, checksum: c };
    let sorted = sort_history(vec![rec(3, 30), rec(1, 10), rec(4, 40), rec(2, 20)]);
    let got: Vec<(u64, u64)> = sorted.iter().map(|r| (r.version, r.checksum)).collect();
    assert_eq!(got, vec![(1, 10), (2, 20), (3, 30), (4, 40)]);
    assert!(sort_history(vec![]).is_empty());
}
