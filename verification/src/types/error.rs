//! The reasons for which the library turns a request down.

use vstd::prelude::*;

verus! {

/// Why a request was turned down.
#[derive(Debug, Clone, Copy, PartialEq, Eq, Structural)]
pub enum Error {
    /// The description of the graph does not hold together.
    MalformedSpec,
    /// No root is registered under the name.
    UnknownRoot,
    /// An operator needs a column that a row does not have.
    RowShapeMismatch,
    /// A group's count has reached the limit of its integer type.
    CountOverflow,
}

} // verus!
