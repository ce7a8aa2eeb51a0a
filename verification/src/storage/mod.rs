//! Storage of sorted tables.

pub mod multi_builder;
