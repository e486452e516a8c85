use sea_orm_migration::cli::{
    handle_error, log_setup, run_cli, run_migrate, Cli, Command, LogSetup, Route, DEFAULT_DOWN,
    FAILURE_STATUS,
};
use sea_orm_migration::error::MigrationError;
use sea_orm_migration::runner::Operation;

#[test]
fn no_subcommand_applies_everything_pending() {
    assert_eq!(run_migrate(None, false).route, Route::Run(Operation::Up(None)));
}

#[test]
fn runner_commands_become_operations() {
    assert_eq!(run_migrate(Some(Command::Fresh), false).route, Route::Run(Operation::Fresh));
    assert_eq!(run_migrate(Some(Command::Refresh), false).route, Route::Run(Operation::Refresh));
    assert_eq!(run_migrate(Some(Command::Reset), false).route, Route::Run(Operation::Reset));
    assert_eq!(run_migrate(Some(Command::Status), false).route, Route::Run(Operation::Status));
    assert_eq!(
        run_migrate(Some(Command::Up { num: None }), false).route,
        Route::Run(Operation::Up(None))
    );
    assert_eq!(
        run_migrate(Some(Command::Up { num: Some(3) }), false).route,
        Route::Run(Operation::Up(Some(3)))
    );
    assert_eq!(
        run_migrate(Some(Command::Down { num: Some(4) }), false).route,
        Route::Run(Operation::Down(4))
    );
}

#[test]
fn down_reverts_one_unit_by_default() {
    assert_eq!(DEFAULT_DOWN, 1);
    assert_eq!(
        run_migrate(Some(Command::Down { num: None }), false).route,
        Route::Run(Operation::Down(1))
    );
}

#[test]
fn scaffold_commands_never_reach_the_runner() {
    assert_eq!(run_migrate(Some(Command::Init), true).route, Route::Init);
    assert_eq!(
        run_migrate(
            Some(Command::Generate {
                migration_name: "create_posts".to_string(),
                universal_time: true,
            }),
            false
        )
        .route,
        Route::Generate { migration_name: "create_posts".to_string(), universal_time: true }
    );
}

#[test]
fn verbose_logging_shows_everything() {
    let expected = LogSetup {
        filter: "debug".to_string(),
        with_target: true,
        with_level: true,
        with_time: true,
    };
    assert_eq!(log_setup(true), expected);
    assert_eq!(run_migrate(Some(Command::Status), true).log, expected);
}

#[test]
fn quiet_logging_is_bare() {
    let expected = LogSetup {
        filter: "sea_orm_migration=info".to_string(),
        with_target: false,
        with_level: false,
        with_time: false,
    };
    assert_eq!(log_setup(false), expected);
    assert_eq!(run_migrate(None, false).log, expected);
}

#[test]
fn a_command_line_is_dispatched_as_its_parts() {
    let cli = Cli { verbose: true, command: Some(Command::Down { num: Some(2) }) };
    let dispatch = run_cli(cli);
    assert_eq!(dispatch.route, Route::Run(Operation::Down(2)));
    assert_eq!(dispatch.log, log_setup(true));
    let dispatch = run_cli(Cli { verbose: false, command: None });
    assert_eq!(dispatch, run_migrate(None, false));
}

#[test]
fn a_failure_ends_the_process_with_status_one() {
    let error = MigrationError::TransactionFailure("connection lost".to_string());
    assert_eq!(
        handle_error(&error),
        ("transaction failed: connection lost".to_string(), 1)
    );
    assert_eq!(FAILURE_STATUS, 1);
}
