//! The logic of a streaming engine: the window of a sorted stream, sources and their parsers, and
//! the splitting of pairs into tables.

pub mod common;
pub mod source;
pub mod storage;
pub mod stream;
