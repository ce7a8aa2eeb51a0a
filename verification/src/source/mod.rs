//! Sources of streams.

pub mod format;
pub mod parser;
pub mod reader;
