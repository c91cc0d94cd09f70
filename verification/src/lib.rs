//! Deciding when a log file is rotated, what its generations are called, and
//! what becomes of them afterwards.

pub mod text;
pub mod values;
pub mod config;
pub mod error;
pub mod report;
pub mod naming;
pub mod stamp;
pub mod flock;
pub mod resolve;
pub mod qualify;
pub mod survey;
pub mod rotation;
pub mod safety;
pub mod prune;
pub mod tidy;
pub mod rotate;
pub mod history;
pub mod answer;
pub mod cli;
pub mod poll;
pub mod tick;
