//! Messages: changes under the name of the root or view they concern.

use vstd::prelude::*;
use vstd::std_specs::cmp::PartialEqSpec;
use crate::units::change::Change;
use crate::units::change::ChangeModel;

verus! {

/// The mathematical value of a `ServerChange`.
pub struct EnvelopeModel {
    pub root_id: Seq<char>,
    pub changes: Seq<ChangeModel>,
}

/// Changes together with the name of the root or view that they concern.
#[derive(Debug, Eq)]
pub struct ServerChange {
    pub root_id: String,
    pub changes: Vec<Change>,
}

impl View for ServerChange {
    type V = EnvelopeModel;

    open spec fn view(&self) -> EnvelopeModel {
        EnvelopeModel { root_id: self.root_id@, changes: self.changes.deep_view() }
    }
}

impl DeepView for ServerChange {
    type V = EnvelopeModel;

    open spec fn deep_view(&self) -> EnvelopeModel {
        self@
    }
}

impl Clone for ServerChange {
    fn clone(&self) -> (r: Self)
        ensures
            r@ == self@,
    {
        let changes = self.changes.clone();
        assert(changes.deep_view() =~= self.changes.deep_view());
        ServerChange { root_id: self.root_id.clone(), changes }
    }
}

impl PartialEq for ServerChange {
    fn eq(&self, other: &Self) -> (r: bool) {
        let same = self.root_id == other.root_id && self.changes == other.changes;
        proof {
            let a = self.changes;
            let b = other.changes;
            assert(a.deep_view().len() == a@.len());
            assert(b.deep_view().len() == b@.len());
            if a.deep_view() == b.deep_view() {
                assert forall|i: int| 0 <= i < a@.len() implies #[trigger] a@[i].eq_spec(&b@[i]) by {
                    assert(a.deep_view()[i] == a@[i]@);
                    assert(b.deep_view()[i] == b@[i]@);
                }
            }
            if a.eq_spec(&b) {
                assert forall|i: int| 0 <= i < a@.len() implies a.deep_view()[i] == b.deep_view()[i] by {
                    assert(a@[i].eq_spec(&b@[i]));
                }
                assert(a.deep_view() =~= b.deep_view());
            }
        }
        same
    }
}

impl vstd::std_specs::cmp::PartialEqSpecImpl for ServerChange {
    open spec fn obeys_eq_spec() -> bool {
        true
    }

    open spec fn eq_spec(&self, other: &Self) -> bool {
        self@ == other@
    }
}

impl ServerChange {
    pub fn new(root_id: String, changes: Vec<Change>) -> (r: ServerChange)
        ensures
            r.root_id == root_id,
            r.changes == changes,
    {
        ServerChange { root_id, changes }
    }
}

} // verus!
