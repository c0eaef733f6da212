//! Allocation of subordinate uid and gid ranges, kept in an append-only
//! database of `uid:start:count:type` lines.

pub mod types;
pub mod text;
pub mod decimal;
pub mod login_defs;
pub mod db;
pub mod allocation;
pub mod queries;
pub mod planning;
