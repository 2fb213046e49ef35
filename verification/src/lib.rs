//! Orchestration core of a declarative regression-test harness.

pub mod compare;
pub mod config;
pub mod discovery;
pub mod error;
pub mod laws;
pub mod path;
pub mod report;
pub mod runner;
pub mod text;
