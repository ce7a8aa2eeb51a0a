//! Keeping the rows in a window of the sorted input.

pub mod cache;
pub mod chunk_laws;
pub mod executor;
pub mod insert_laws;
pub mod key_laws;
pub mod laws;
pub mod row_laws;
pub mod rows;
pub mod run_laws;
pub mod step_laws;
