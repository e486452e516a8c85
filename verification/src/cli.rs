//! The command surface: what a parsed command line asks for, and where it is
//! routed.
//!
//! Parsing the arguments and acting on the route are the caller's business.
//! Here a parsed command is mapped to a runner operation or to the scaffold
//! generator, and the verbosity flag to a logging setup.

use crate::error::MigrationError;
use crate::runner::Operation;
use vstd::prelude::*;
use vstd::string::*;

verus! {

/// A parsed subcommand.
#[derive(Debug, PartialEq, Eq)]
pub enum Command {
    /// Create the migration directory.
    Init,
    /// Create a new, empty migration unit.
    Generate { migration_name: String, universal_time: bool },
    /// Revert every applied unit, then apply every unit.
    Fresh,
    /// Revert every applied unit, then apply every unit.
    Refresh,
    /// Revert every applied unit.
    Reset,
    /// Report the state of every unit.
    Status,
    /// Apply pending units, at most `num` if given.
    Up { num: Option<u32> },
    /// Revert applied units, `num` of them, one if no number is given.
    Down { num: Option<u32> },
}

/// A parsed command line.
#[derive(Debug, PartialEq, Eq)]
pub struct Cli {
    /// Whether debug messages are wanted.
    pub verbose: bool,
    /// The subcommand, if one was given.
    pub command: Option<Command>,
}

/// Where a command goes.
#[derive(Debug, PartialEq, Eq)]
pub enum Route {
    /// To the runner, as this operation.
    Run(Operation),
    /// To the scaffold generator, to create the migration directory.
    Init,
    /// To the scaffold generator, to create a unit.
    Generate { migration_name: String, universal_time: bool },
}

/// How logging is to be set up.
#[derive(Debug, PartialEq, Eq)]
pub struct LogSetup {
    /// The filter directive.
    pub filter: String,
    /// Whether a message shows the module it comes from.
    pub with_target: bool,
    /// Whether a message shows its level.
    pub with_level: bool,
    /// Whether a message shows the time.
    pub with_time: bool,
}

/// What is to be done for a command line.
#[derive(Debug, PartialEq, Eq)]
pub struct Dispatch {
    pub log: LogSetup,
    pub route: Route,
}

/// A route as contracts speak of it.
pub enum RouteView {
    Run(Operation),
    Init,
    Generate { migration_name: Seq<char>, universal_time: bool },
}

impl View for Route {
    type V = RouteView;

    open spec fn view(&self) -> RouteView {
        match self {
            Route::Run(operation) => RouteView::Run(*operation),
            Route::Init => RouteView::Init,
            Route::Generate { migration_name, universal_time } => RouteView::Generate {
                migration_name: migration_name@,
                universal_time: *universal_time,
            },
        }
    }
}

/// The number of units that `Down` reverts when no number is given.
pub const DEFAULT_DOWN: u32 = 1;

/// The route of a command. Without a subcommand every pending unit is
/// applied.
pub open spec fn route_of(command: Option<Command>) -> RouteView {
    match command {
        None => RouteView::Run(Operation::Up(None)),
        Some(Command::Init) => RouteView::Init,
        Some(Command::Generate { migration_name, universal_time }) => RouteView::Generate {
            migration_name: migration_name@,
            universal_time,
        },
        Some(Command::Fresh) => RouteView::Run(Operation::Fresh),
        Some(Command::Refresh) => RouteView::Run(Operation::Refresh),
        Some(Command::Reset) => RouteView::Run(Operation::Reset),
        Some(Command::Status) => RouteView::Run(Operation::Status),
        Some(Command::Up { num }) => RouteView::Run(Operation::Up(num)),
        Some(Command::Down { num }) => RouteView::Run(
            Operation::Down(
                match num {
                    Some(n) => n,
                    None => DEFAULT_DOWN,
                },
            ),
        ),
    }
}

/// The filter directive for a verbosity.
pub open spec fn filter_of(verbose: bool) -> Seq<char> {
    if verbose {
        "debug"@
    } else {
        "sea_orm_migration=info"@
    }
}

/// The logging setup for a verbosity: everything from debug level up with
/// full decoration when verbose, else this crate's informational messages,
/// bare.
pub fn log_setup(verbose: bool) -> (log: LogSetup)
    ensures
        log.filter@ == filter_of(verbose),
        log.with_target == verbose,
        log.with_level == verbose,
        log.with_time == verbose,
{
    let filter: &str = if verbose {
        "debug"
    } else {
        "sea_orm_migration=info"
    };
    LogSetup {
        filter: String::from_str(filter),
        with_target: verbose,
        with_level: verbose,
        with_time: verbose,
    }
}

/// Decides what is to be done for a subcommand and a verbosity: how logging
/// is set up, and where the command goes.
pub fn run_migrate(command: Option<Command>, verbose: bool) -> (dispatch: Dispatch)
    ensures
        dispatch.route@ == route_of(command),
        dispatch.log.filter@ == filter_of(verbose),
        dispatch.log.with_target == verbose,
        dispatch.log.with_level == verbose,
        dispatch.log.with_time == verbose,
{
    let route: Route = match command {
        None => Route::Run(Operation::Up(None)),
        Some(Command::Init) => Route::Init,
        Some(Command::Generate { migration_name, universal_time }) => Route::Generate {
            migration_name,
            universal_time,
        },
        Some(Command::Fresh) => Route::Run(Operation::Fresh),
        Some(Command::Refresh) => Route::Run(Operation::Refresh),
        Some(Command::Reset) => Route::Run(Operation::Reset),
        Some(Command::Status) => Route::Run(Operation::Status),
        Some(Command::Up { num }) => Route::Run(Operation::Up(num)),
        Some(Command::Down { num }) => {
            let limit: u32 = match num {
                Some(n) => n,
                None => DEFAULT_DOWN,
            };
            Route::Run(Operation::Down(limit))
        },
    };
    Dispatch { log: log_setup(verbose), route }
}

/// Decides what is to be done for a parsed command line.
pub fn run_cli(cli: Cli) -> (dispatch: Dispatch)
    ensures
        dispatch.route@ == route_of(cli.command),
        dispatch.log.filter@ == filter_of(cli.verbose),
        dispatch.log.with_target == cli.verbose,
        dispatch.log.with_level == cli.verbose,
        dispatch.log.with_time == cli.verbose,
{
    run_migrate(cli.command, cli.verbose)
}

/// The exit status of a process that ends on a failure.
pub const FAILURE_STATUS: i32 = 1;

/// What the process does with a failure that reached the top: the message
/// to print and the status to exit with.
pub fn handle_error(error: &MigrationError) -> (end: (String, i32))
    ensures
        end.0@ == error@.message(),
        end.1 == FAILURE_STATUS,
{
    (error.message(), FAILURE_STATUS)
}

} // verus!
