//! The two kinds of change.

use vstd::prelude::*;

verus! {

/// Whether a change adds rows or takes them away.
#[derive(Debug, Clone, Copy, PartialEq, Eq, Structural)]
pub enum ChangeType {
    Insertion,
    Deletion,
}

} // verus!
