//! The scheduling state and status-query engine of a personal task queue.
//!
//! A task queue daemon keeps a map of tasks — user-submitted shell commands
//! — each with a lifecycle status, scheduled in named groups with parallelism
//! limits and dependencies ([`state`]). Clients inspect that state through a
//! small query language (`status=queued order_by id desc first 3`): a query
//! is parsed ([`parse`]) into a [`query::QueryResult`], which is then applied
//! to a task list as a filter / order / limit pipeline.

pub mod filters;
pub mod laws;
pub mod limit;
pub mod ordering;
pub mod parse;
pub mod query;
pub mod state;
pub mod task;
