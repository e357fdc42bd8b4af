//! The kinds of operator.

use vstd::prelude::*;

verus! {

/// The kinds of operator, by their initials: aggregation, inner join, leaf,
/// projection, root, selection.
#[derive(Debug, Clone, Copy, PartialEq, Eq, Structural)]
pub enum OperatorType {
    A,
    I,
    L,
    P,
    R,
    S,
}

} // verus!
