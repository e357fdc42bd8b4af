//! The small types of which rows, changes and configurations are made.

pub mod changetype;
pub mod datatype;
pub mod error;
pub mod operatortype;
pub mod permissiontype;
pub mod schematype;
