//! Rows, changes, messages and keyed tables.

pub mod change;
pub mod row;
pub mod serverchange;
pub mod table;
