//! The kinds of column.

use vstd::prelude::*;

verus! {

/// The kind of value that a column of a view holds.
#[derive(Debug, Clone, Copy, PartialEq, Eq, Structural)]
pub enum SchemaType {
    Int,
    Text,
}

} // verus!
