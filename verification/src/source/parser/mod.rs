//! Parsers of change events.

pub mod canal;
pub mod common;
pub mod debezium;
