//! Verified core of a verification service for multi-agent path finding:
//! the plan validator, the reference solver, the map and scenario parsers,
//! and the decisions taken around a sandboxed solver run.

pub mod account;
pub mod astar;
pub mod auth;
pub mod bindings;
pub mod config;
pub mod conformance;
pub mod coordinator;
pub mod error;
pub mod executor;
pub mod finite;
pub mod fixture;
pub mod joint;
pub mod leaderboard;
pub mod map;
pub mod prioritized;
pub mod scenario;
pub mod text;
pub mod validation;
