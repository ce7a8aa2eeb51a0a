//! Streaming operators.

pub mod top_n;
