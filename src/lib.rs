//! Machine-wide registry of git repositories: discovery, a persisted cache of
//! repository roots, per-repository status queries and consolidated reports.

pub mod status;
pub mod text;
pub mod repo;
pub mod order;
pub mod report;
pub mod cache;
pub mod scan;
