//! The operators of the graph and what all of them have in common.

pub mod aggregation;
pub mod innerjoin;
pub mod leaf;
pub mod operation;
pub mod projection;
pub mod root;
pub mod selection;

use vstd::prelude::*;
use crate::operators::leaf::Delivery;
use crate::operators::leaf::DeliveryModel;
use crate::operators::operation::OperationModel;
use crate::types::error::Error;
use crate::units::change::Change;
use crate::units::change::ChangeModel;

verus! {

/// The mathematical value of a `Propagation`.
pub struct PropagationModel {
    pub forward: Seq<ChangeModel>,
    pub deliveries: Seq<DeliveryModel>,
}

/// What an operator has to say after a change: the changes that go to each
/// of its children, and the messages that it owes to its sinks.
#[derive(Debug)]
pub struct Propagation {
    pub forward: Vec<Change>,
    pub deliveries: Vec<Delivery>,
}

impl View for Propagation {
    type V = PropagationModel;

    open spec fn view(&self) -> PropagationModel {
        PropagationModel {
            forward: self.forward.deep_view(),
            deliveries: self.deliveries.deep_view(),
        }
    }
}

/// The propagation of an operator that hands `forward` to its children and
/// owes nothing to any sink.
pub fn hand_on(forward: Vec<Change>) -> (p: Propagation)
    ensures
        p@ == (PropagationModel { forward: forward.deep_view(), deliveries: Seq::empty() }),
{
    let deliveries: Vec<Delivery> = Vec::new();
    assert(deliveries.deep_view() =~= Seq::<DeliveryModel>::empty());
    Propagation { forward, deliveries }
}

/// An answer stands for the outcome that the model foresees.
pub open spec fn answers(r: Result<Vec<Change>, Error>, outcome: Result<Seq<ChangeModel>, Error>)
    -> bool {
    match (r, outcome) {
        (Ok(out), Ok(expected)) => out.deep_view() == expected,
        (Err(e), Err(expected)) => e == expected,
        _ => false,
    }
}

/// A propagation stands for the outcome that the model foresees.
pub open spec fn propagates(r: Result<Propagation, Error>, outcome: Result<PropagationModel, Error>)
    -> bool {
    match (r, outcome) {
        (Ok(out), Ok(expected)) => out@ == expected,
        (Err(e), Err(expected)) => e == expected,
        _ => false,
    }
}

/// What every kind of operator can do.
pub trait Operator {
    /// The operator as a value of the one model that covers all kinds.
    spec fn model(&self) -> OperationModel;

    /// Takes the changes in, which may change the operator's own state, and
    /// hands back the changes that they amount to after this stage.
    fn apply(&mut self, prev_change: Vec<Change>) -> (r: Result<Vec<Change>, Error>)
        ensures
            final(self).model() == old(self).model().applied(prev_change.deep_view()).0,
            answers(r, old(self).model().applied(prev_change.deep_view()).1),
    ;

    /// Takes in the changes that vertex `parent_index` sends and tells what
    /// follows from them: what goes to each child of this operator, and what
    /// is owed to its sinks.
    fn process_change(&mut self, change: Vec<Change>, parent_index: usize) -> (r: Result<
        Propagation,
        Error,
    >)
        ensures
            final(self).model() == old(self).model().react(
                parent_index as int,
                change.deep_view(),
            ).0,
            propagates(r, old(self).model().react(parent_index as int, change.deep_view()).1),
    ;
}

} // verus!
