//! Values, rows, orders and types that the other modules share.

pub mod order;
pub mod order_laws;
pub mod types;
pub mod value;
