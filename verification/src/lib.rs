//! ZevInit's decisions, verified: unit files, the dependency graph, the unit
//! life cycle, the rescue shell, the process table, signals, logging,
//! mounting and going down.
pub mod state;
pub mod text;
pub mod unit;
pub mod graph;
pub mod proc;
pub mod shell;
pub mod power;
pub mod signal;
pub mod log;
pub mod mount;
pub mod console;
pub mod sys;
pub mod boot;
