//! Schema-migration runner: the catalogue of migration units, the history of
//! what has been applied, and the state machine that decides which units run,
//! in which order, and what happens when one of them fails.
//!
//! The library decides; it performs nothing. A caller reads the history from
//! its database, hands it to a [`runner::Runner`], runs each step that the
//! runner hands out in a transaction of its own, and reports how it went.
//!
//! - [`name`]: the order of names, the sole ordering key.
//! - [`table`]: a table keyed by name and kept in name order.
//! - [`registry`]: the catalogue of migration units.
//! - [`history`]: the store of applied migrations.
//! - [`plan`]: which units an operation runs, and in which order.
//! - [`status`]: applied, pending and orphaned names.
//! - [`runner`]: the state machine that executes an operation step by step.
//! - [`laws`]: what holds of whole operations.
//! - [`cli`]: from a parsed command to a route.
//! - [`scaffold`]: how a new unit is named.
//! - [`error`]: what can go wrong.

pub mod cli;
pub mod error;
pub mod history;
pub mod laws;
pub mod name;
pub mod plan;
pub mod registry;
pub mod runner;
pub mod scaffold;
pub mod status;
pub mod table;
