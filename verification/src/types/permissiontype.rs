//! What a connection may do.

use vstd::prelude::*;

verus! {

/// What a connection on a path may do.
#[derive(Debug, Clone, Copy, PartialEq, Eq, Structural)]
pub enum PermissionType {
    Read,
    Write,
}

impl View for PermissionType {
    type V = PermissionType;

    open spec fn view(&self) -> PermissionType {
        *self
    }
}

impl DeepView for PermissionType {
    type V = PermissionType;

    open spec fn deep_view(&self) -> PermissionType {
        *self
    }
}

} // verus!
