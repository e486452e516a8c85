use sea_orm_migration::error::MigrationError;
use sea_orm_migration::history::{HistoryRecord, HistoryStore};
use sea_orm_migration::plan::{Direction, PlanStep};
use sea_orm_migration::registry::Registry;
use sea_orm_migration::runner::{
    bookkeeping, event_of, Action, Bookkeeping, FailureReport, Operation, Runner, StepEvent,
};
use sea_orm_migration::status::{StatusReport, UnitState, UnitStatus};

fn catalogue(list: &[&str]) -> Registry {
    Registry::new(list.iter().map(|s| s.to_string()).collect()).unwrap()
}

fn history(list: &[&str]) -> HistoryStore {
    let mut store = HistoryStore::new();
    for name in list.iter() {
        store.record_applied(name, 0).unwrap();
    }
    store
}

fn up(name: &str) -> PlanStep {
    PlanStep { name: name.to_string(), direction: Direction::Up }
}

fn down(name: &str) -> PlanStep {
    PlanStep { name: name.to_string(), direction: Direction::Down }
}

fn unit(name: &str, state: UnitState) -> UnitStatus {
    UnitStatus { name: name.to_string(), state }
}

fn recorded(runner: &Runner) -> Vec<String> {
    runner.history().list_applied().into_iter().map(|r| r.name).collect()
}

fn owned(list: &[&str]) -> Vec<String> {
    list.iter().map(|s| s.to_string()).collect()
}

/// How a scripted run ended.
#[derive(Debug, PartialEq)]
enum End {
    Finished(StatusReport),
    Halted(FailureReport),
}

/// Runs `operation`, committing every step but a step for `failing`, which
/// fails. Returns the steps that were handed out, in order, and the end.
fn drive(runner: &mut Runner, operation: Operation, failing: Option<&str>) -> (Vec<PlanStep>, End) {
    let mut ran = Vec::new();
    let mut clock: i64 = 1000;
    let mut action = runner.begin(operation);
    loop {
        match action {
            Action::Run(step) => {
                let fails = failing == Some(step.name.as_str());
                ran.push(step);
                clock += 1;
                action = if fails {
                    runner.advance(StepEvent::Failed(MigrationError::TransactionFailure(
                        "boom".to_string(),
                    )))
                } else {
                    runner.advance(StepEvent::Committed { applied_at: clock })
                };
            }
            Action::Finish(report) => return (ran, End::Finished(report)),
            Action::Halt(report) => return (ran, End::Halted(report)),
        }
    }
}

#[test]
fn up_from_empty_applies_every_unit_in_ascending_order() {
    let mut runner = Runner::new(catalogue(&["0003_c", "0001_a", "0002_b"]), HistoryStore::new());
    let (ran, end) = drive(&mut runner, Operation::Up(None), None);
    assert_eq!(ran, vec![up("0001_a"), up("0002_b"), up("0003_c")]);
    let expected = StatusReport {
        units: vec![
            unit("0001_a", UnitState::Applied),
            unit("0002_b", UnitState::Applied),
            unit("0003_c", UnitState::Applied),
        ],
        orphans: Vec::new(),
    };
    assert_eq!(end, End::Finished(StatusReport { units: expected.units, orphans: Vec::new() }));
    let report = runner.status();
    assert_eq!(report.applied_count(), 3);
    assert_eq!(report.pending_count(), 0);
    assert_eq!(report.orphan_count(), 0);
    assert_eq!(
        runner.history().list_applied(),
        vec![
            HistoryRecord { name: "0001_a".to_string(), applied_at: 1001 },
            HistoryRecord { name: "0002_b".to_string(), applied_at: 1002 },
            HistoryRecord { name: "0003_c".to_string(), applied_at: 1003 },
        ]
    );
}

#[test]
fn down_after_up_empties_the_history_in_reverse_order() {
    let mut runner = Runner::new(catalogue(&["0001_a", "0002_b", "0003_c"]), HistoryStore::new());
    let (applied, _) = drive(&mut runner, Operation::Up(None), None);
    let (reverted, end) = drive(&mut runner, Operation::Down(3), None);
    let mut reversed: Vec<String> = applied.into_iter().map(|s| s.name).collect();
    reversed.reverse();
    assert_eq!(reverted.iter().map(|s| s.name.clone()).collect::<Vec<String>>(), reversed);
    assert_eq!(reverted, vec![down("0003_c"), down("0002_b"), down("0001_a")]);
    assert!(matches!(end, End::Finished(_)));
    assert_eq!(runner.history().len(), 0);
    assert_eq!(runner.status().pending_count(), 3);
}

#[test]
fn down_with_too_large_a_limit_reverts_what_is_applied() {
    let mut runner =
        Runner::new(catalogue(&["0001_a", "0002_b", "0003_c"]), history(&["0001_a", "0002_b"]));
    let (ran, end) = drive(&mut runner, Operation::Down(7), None);
    assert_eq!(ran, vec![down("0002_b"), down("0001_a")]);
    assert!(matches!(end, End::Finished(_)));
    assert_eq!(runner.history().len(), 0);
}

#[test]
fn down_reverts_one_unit_at_a_time() {
    let mut runner =
        Runner::new(catalogue(&["0001_a", "0002_b", "0003_c"]), history(&["0001_a", "0002_b"]));
    let (ran, _) = drive(&mut runner, Operation::Down(1), None);
    assert_eq!(ran, vec![down("0002_b")]);
    assert_eq!(recorded(&runner), owned(&["0001_a"]));
}

#[test]
fn fresh_ends_where_reset_then_up_ends() {
    let starts: [&[&str]; 5] = [
        &[],
        &["0001_a"],
        &["0002_b", "0003_c"],
        &["0001_a", "0002_b", "0003_c"],
        &["0000_orphan", "0002_b"],
    ];
    for start in starts.iter() {
        let names = ["0001_a", "0002_b", "0003_c"];
        let mut fresh = Runner::new(catalogue(&names), history(start));
        let (_, end) = drive(&mut fresh, Operation::Fresh, None);
        assert!(matches!(end, End::Finished(_)));

        let mut two = Runner::new(catalogue(&names), history(start));
        drive(&mut two, Operation::Reset, None);
        drive(&mut two, Operation::Up(None), None);

        assert_eq!(recorded(&fresh), recorded(&two));
        assert_eq!(fresh.status(), two.status());
        assert_eq!(fresh.status().pending_count(), 0);
    }
}

#[test]
fn fresh_reverts_in_descending_and_applies_in_ascending_order() {
    let mut runner =
        Runner::new(catalogue(&["0001_a", "0002_b", "0003_c"]), history(&["0001_a", "0003_c"]));
    let (ran, _) = drive(&mut runner, Operation::Fresh, None);
    assert_eq!(
        ran,
        vec![down("0003_c"), down("0001_a"), up("0001_a"), up("0002_b"), up("0003_c")]
    );
    assert_eq!(recorded(&runner), owned(&["0001_a", "0002_b", "0003_c"]));
}

#[test]
fn refresh_does_what_fresh_does() {
    let mut runner = Runner::new(catalogue(&["0001_a", "0002_b"]), history(&["0002_b"]));
    let (ran, _) = drive(&mut runner, Operation::Refresh, None);
    assert_eq!(ran, vec![down("0002_b"), up("0001_a"), up("0002_b")]);
    assert_eq!(recorded(&runner), owned(&["0001_a", "0002_b"]));
}

#[test]
fn refresh_on_an_empty_history_only_applies() {
    let mut runner = Runner::new(catalogue(&["0001_a", "0002_b"]), HistoryStore::new());
    let (ran, _) = drive(&mut runner, Operation::Refresh, None);
    assert_eq!(ran, vec![up("0001_a"), up("0002_b")]);
}

#[test]
fn reset_reverts_everything_and_applies_nothing() {
    let mut runner =
        Runner::new(catalogue(&["0001_a", "0002_b", "0003_c"]), history(&["0001_a", "0003_c"]));
    let (ran, end) = drive(&mut runner, Operation::Reset, None);
    assert_eq!(ran, vec![down("0003_c"), down("0001_a")]);
    assert!(matches!(end, End::Finished(_)));
    assert_eq!(runner.history().len(), 0);
}

#[test]
fn a_failing_unit_stops_the_plan() {
    let mut runner = Runner::new(catalogue(&["A", "B", "C"]), HistoryStore::new());
    let (ran, end) = drive(&mut runner, Operation::Up(None), Some("B"));
    assert_eq!(ran, vec![up("A"), up("B")]);
    assert_eq!(
        end,
        End::Halted(FailureReport {
            unit: "B".to_string(),
            direction: Direction::Up,
            cause: MigrationError::TransactionFailure("boom".to_string()),
            last_committed: Some("A".to_string()),
            committed: 1,
        })
    );
    assert_eq!(recorded(&runner), owned(&["A"]));
    assert_eq!(
        runner.status(),
        StatusReport {
            units: vec![
                unit("A", UnitState::Applied),
                unit("B", UnitState::Pending),
                unit("C", UnitState::Pending),
            ],
            orphans: Vec::new(),
        }
    );
    assert_eq!(runner.current(), None);

    let (ran, end) = drive(&mut runner, Operation::Up(None), None);
    assert_eq!(ran, vec![up("B"), up("C")]);
    assert!(matches!(end, End::Finished(_)));
    assert_eq!(recorded(&runner), owned(&["A", "B", "C"]));
}

#[test]
fn a_failure_at_the_first_step_commits_nothing() {
    let mut runner = Runner::new(catalogue(&["A", "B"]), HistoryStore::new());
    let (ran, end) = drive(&mut runner, Operation::Up(None), Some("A"));
    assert_eq!(ran, vec![up("A")]);
    assert_eq!(
        end,
        End::Halted(FailureReport {
            unit: "A".to_string(),
            direction: Direction::Up,
            cause: MigrationError::TransactionFailure("boom".to_string()),
            last_committed: None,
            committed: 0,
        })
    );
    assert_eq!(runner.history().len(), 0);
}

#[test]
fn a_failing_revert_stops_the_plan() {
    let mut runner = Runner::new(catalogue(&["A", "B", "C"]), history(&["A", "B", "C"]));
    let (ran, end) = drive(&mut runner, Operation::Down(3), Some("B"));
    assert_eq!(ran, vec![down("C"), down("B")]);
    assert_eq!(
        end,
        End::Halted(FailureReport {
            unit: "B".to_string(),
            direction: Direction::Down,
            cause: MigrationError::TransactionFailure("boom".to_string()),
            last_committed: Some("C".to_string()),
            committed: 1,
        })
    );
    assert_eq!(recorded(&runner), owned(&["A", "B"]));
}

#[test]
fn refresh_never_applies_when_reverting_fails() {
    let mut runner = Runner::new(catalogue(&["A", "B", "C"]), history(&["A", "B"]));
    let (ran, end) = drive(&mut runner, Operation::Refresh, Some("A"));
    assert_eq!(ran, vec![down("B"), down("A")]);
    assert!(matches!(end, End::Halted(_)));
    assert_eq!(recorded(&runner), owned(&["A"]));
    assert_eq!(runner.current(), None);
}

#[test]
fn fresh_stops_at_a_unit_that_fails_to_apply() {
    let mut runner = Runner::new(catalogue(&["A", "B", "C"]), history(&["C"]));
    let mut action = runner.begin(Operation::Fresh);
    assert_eq!(action, Action::Run(down("C")));
    action = runner.advance(StepEvent::Committed { applied_at: 1 });
    assert_eq!(action, Action::Run(up("A")));
    action = runner.advance(StepEvent::Committed { applied_at: 2 });
    assert_eq!(action, Action::Run(up("B")));
    action = runner.advance(StepEvent::Failed(MigrationError::DuplicateApplication(
        "B".to_string(),
    )));
    assert_eq!(
        action,
        Action::Halt(FailureReport {
            unit: "B".to_string(),
            direction: Direction::Up,
            cause: MigrationError::DuplicateApplication("B".to_string()),
            last_committed: Some("A".to_string()),
            committed: 2,
        })
    );
    assert_eq!(recorded(&runner), owned(&["A"]));
}

#[test]
fn a_revert_that_finds_no_record_is_reported_as_such() {
    let mut runner = Runner::new(catalogue(&["A"]), history(&["A"]));
    assert_eq!(runner.begin(Operation::Down(1)), Action::Run(down("A")));
    let action = runner.advance(StepEvent::Failed(MigrationError::NotApplied("A".to_string())));
    assert_eq!(
        action,
        Action::Halt(FailureReport {
            unit: "A".to_string(),
            direction: Direction::Down,
            cause: MigrationError::NotApplied("A".to_string()),
            last_committed: None,
            committed: 0,
        })
    );
    assert_eq!(recorded(&runner), owned(&["A"]));
}

#[test]
fn names_alone_decide_the_order() {
    let mut runner = Runner::new(catalogue(&["0002_a", "0001_x"]), HistoryStore::new());
    let (ran, _) = drive(&mut runner, Operation::Up(None), None);
    assert_eq!(ran, vec![up("0001_x"), up("0002_a")]);

    let mut late_first = HistoryStore::new();
    late_first.record_applied("0001_x", 2_000_000).unwrap();
    late_first.record_applied("0002_a", 1).unwrap();
    let mut runner = Runner::new(catalogue(&["0001_x", "0002_a"]), late_first);
    let (ran, _) = drive(&mut runner, Operation::Down(2), None);
    assert_eq!(ran, vec![down("0002_a"), down("0001_x")]);
}

#[test]
fn up_with_limit_then_up_all() {
    let mut runner =
        Runner::new(catalogue(&["0001_create_posts", "0002_add_index"]), HistoryStore::new());

    let (ran, _) = drive(&mut runner, Operation::Up(Some(1)), None);
    assert_eq!(ran, vec![up("0001_create_posts")]);

    assert_eq!(
        runner.status(),
        StatusReport {
            units: vec![
                unit("0001_create_posts", UnitState::Applied),
                unit("0002_add_index", UnitState::Pending),
            ],
            orphans: Vec::new(),
        }
    );

    let (ran, _) = drive(&mut runner, Operation::Up(None), None);
    assert_eq!(ran, vec![up("0002_add_index")]);
    assert_eq!(runner.status().pending_count(), 0);
}

#[test]
fn status_as_an_operation_runs_nothing() {
    let mut runner = Runner::new(catalogue(&["A", "B"]), history(&["B", "Z"]));
    let action = runner.begin(Operation::Status);
    assert_eq!(
        action,
        Action::Finish(StatusReport {
            units: vec![unit("A", UnitState::Pending), unit("B", UnitState::Applied)],
            orphans: vec!["Z".to_string()],
        })
    );
    assert_eq!(recorded(&runner), owned(&["B", "Z"]));
}

#[test]
fn orphans_block_nothing_and_stay() {
    let mut runner = Runner::new(catalogue(&["A", "B"]), history(&["A", "gone"]));
    let (ran, end) = drive(&mut runner, Operation::Fresh, None);
    assert_eq!(ran, vec![down("A"), up("A"), up("B")]);
    assert_eq!(
        end,
        End::Finished(StatusReport {
            units: vec![unit("A", UnitState::Applied), unit("B", UnitState::Applied)],
            orphans: vec!["gone".to_string()],
        })
    );
    assert_eq!(recorded(&runner), owned(&["A", "B", "gone"]));
}

#[test]
fn an_event_without_a_step_changes_nothing() {
    let mut runner = Runner::new(catalogue(&["A"]), history(&["A"]));
    assert_eq!(runner.current(), None);
    let action = runner.advance(StepEvent::Committed { applied_at: 5 });
    assert!(matches!(action, Action::Finish(_)));
    let action =
        runner.advance(StepEvent::Failed(MigrationError::TransactionFailure("x".to_string())));
    assert!(matches!(action, Action::Finish(_)));
    assert_eq!(recorded(&runner), owned(&["A"]));
}

#[test]
fn the_current_step_is_the_one_handed_out() {
    let mut runner = Runner::new(catalogue(&["A", "B"]), HistoryStore::new());
    assert_eq!(runner.begin(Operation::Up(None)), Action::Run(up("A")));
    assert_eq!(runner.current(), Some(up("A")));
    assert_eq!(runner.advance(StepEvent::Committed { applied_at: 1 }), Action::Run(up("B")));
    assert_eq!(runner.current(), Some(up("B")));
}

#[test]
fn reload_replaces_the_history_and_drops_the_plan() {
    let mut runner = Runner::new(catalogue(&["A", "B"]), HistoryStore::new());
    assert_eq!(runner.begin(Operation::Up(None)), Action::Run(up("A")));
    runner.reload(history(&["A"]));
    assert_eq!(runner.current(), None);
    assert_eq!(recorded(&runner), owned(&["A"]));
    assert_eq!(runner.registry().len(), 2);
    let (ran, _) = drive(&mut runner, Operation::Up(None), None);
    assert_eq!(ran, vec![up("B")]);
    assert_eq!(runner.into_history().len(), 2);
}

#[test]
fn a_step_up_inserts_unless_the_row_is_there() {
    assert_eq!(bookkeeping(&up("A"), false), Ok(Bookkeeping::Insert));
    assert_eq!(
        bookkeeping(&up("A"), true),
        Err(MigrationError::DuplicateApplication("A".to_string()))
    );
}

#[test]
fn a_step_down_deletes_if_the_row_is_there() {
    assert_eq!(bookkeeping(&down("A"), true), Ok(Bookkeeping::Delete));
    assert_eq!(
        bookkeeping(&down("A"), false),
        Err(MigrationError::NotApplied("A".to_string()))
    );
}

#[test]
fn a_transaction_outcome_becomes_an_event() {
    assert_eq!(event_of(Ok(()), 42), StepEvent::Committed { applied_at: 42 });
    assert_eq!(
        event_of(Err("deadlock".to_string()), 42),
        StepEvent::Failed(MigrationError::TransactionFailure("deadlock".to_string()))
    );
}

#[test]
fn a_failure_report_says_which_unit_failed_and_why() {
    let report = FailureReport {
        unit: "0002_b".to_string(),
        direction: Direction::Up,
        cause: MigrationError::TransactionFailure("timeout".to_string()),
        last_committed: Some("0001_a".to_string()),
        committed: 1,
    };
    assert_eq!(report.message(), "failed to apply 0002_b: transaction failed: timeout");
    let report = FailureReport {
        unit: "0002_b".to_string(),
        direction: Direction::Down,
        cause: MigrationError::NotApplied("0002_b".to_string()),
        last_committed: None,
        committed: 0,
    };
    assert_eq!(report.message(), "failed to revert 0002_b: migration not applied: 0002_b");
}
