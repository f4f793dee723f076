//! A small multi-user project/task tracker: users own projects, projects own
//! tasks with start/end timestamps. The crate covers the authorization guard
//! chain (how a request resolves an acting identity, with fallthrough on
//! failure), the project/task aggregation engine (a user's projects with the
//! three most recent tasks each), and the task timing engine (stamping an end
//! time and computing elapsed seconds from stored timestamps).

pub mod aggregate;
pub mod guards;
pub mod auth;
pub mod parse;
pub mod store;
pub mod timing;
pub mod user;

