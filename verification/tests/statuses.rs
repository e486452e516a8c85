use sea_orm_migration::history::HistoryStore;
use sea_orm_migration::registry::Registry;
use sea_orm_migration::status::{status, StatusReport, UnitState, UnitStatus};

fn catalogue(list: &[&str]) -> Registry {
    Registry::new(list.iter().map(|s| s.to_string()).collect()).unwrap()
}

fn history(list: &[&str]) -> HistoryStore {
    let mut store = HistoryStore::new();
    for name in list.iter() {
        store.record_applied(name, 0).unwrap();
    }
    store
}

fn unit(name: &str, state: UnitState) -> UnitStatus {
    UnitStatus { name: name.to_string(), state }
}

#[test]
fn status_classifies_every_unit() {
    let report = status(&catalogue(&["0002_b", "0001_a", "0003_c"]), &history(&["0002_b"]));
    assert_eq!(
        report,
        StatusReport {
            units: vec![
                unit("0001_a", UnitState::Pending),
                unit("0002_b", UnitState::Applied),
                unit("0003_c", UnitState::Pending),
            ],
            orphans: Vec::new(),
        }
    );
    assert_eq!(report.applied_count(), 1);
    assert_eq!(report.pending_count(), 2);
    assert_eq!(report.orphan_count(), 0);
    assert_eq!(report.count(UnitState::Applied), 1);
}

#[test]
fn status_reports_orphans() {
    let report = status(
        &catalogue(&["0001_a", "0002_b"]),
        &history(&["9999_later", "0001_a", "0000_earlier"]),
    );
    assert_eq!(
        report,
        StatusReport {
            units: vec![unit("0001_a", UnitState::Applied), unit("0002_b", UnitState::Pending)],
            orphans: vec!["0000_earlier".to_string(), "9999_later".to_string()],
        }
    );
    assert_eq!(report.applied_count(), 1);
    assert_eq!(report.pending_count(), 1);
    assert_eq!(report.orphan_count(), 2);
}

#[test]
fn status_of_nothing_is_empty() {
    let report = status(&catalogue(&[]), &HistoryStore::new());
    assert_eq!(report, StatusReport { units: Vec::new(), orphans: Vec::new() });
    assert_eq!(report.applied_count(), 0);
    assert_eq!(report.pending_count(), 0);
    assert_eq!(report.orphan_count(), 0);
}

#[test]
fn status_changes_nothing() {
    let registry = catalogue(&["0001_a"]);
    let store = history(&["0001_a", "0002_orphan"]);
    let before = store.list_applied();
    let first = status(&registry, &store);
    let second = status(&registry, &store);
    assert_eq!(first, second);
    assert_eq!(store.list_applied(), before);
}
