//! The logic of an outbound-connection observer: what its kernel hooks record, how its
//! daemon attributes and judges each flow, what its clients are told, and what its
//! terminal client shows.

pub mod addr;
pub mod app;
pub mod bytes;
pub mod common;
pub mod daemon;
pub mod deny_rule;
pub mod dns;
pub mod input;
pub mod ipc;
pub mod kernel;
pub mod proto;
pub mod rule_files;
pub mod rule_text;
pub mod rules;
pub mod stats;
pub mod term;
pub mod text;
pub mod toml_text;
pub mod tui;
pub mod views;
pub mod xtask;
