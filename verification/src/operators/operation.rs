//! One type for operators of every kind, and what each kind does.

use vstd::prelude::*;
use crate::operators::aggregation::count_changes;
use crate::operators::aggregation::Aggregation;
use crate::operators::aggregation::AggregationModel;
use crate::operators::innerjoin::lemma_run_keeps_join;
use crate::operators::innerjoin::same_join;
use crate::operators::innerjoin::InnerJoin;
use crate::operators::innerjoin::JoinModel;
use crate::operators::leaf::broadcast_of;
use crate::operators::leaf::Leaf;
use crate::operators::leaf::LeafModel;
use crate::operators::projection::projected;
use crate::operators::projection::projected_changes;
use crate::operators::projection::Projection;
use crate::operators::projection::ProjectionModel;
use crate::operators::root::Root;
use crate::operators::root::RootModel;
use crate::operators::selection::selected;
use crate::operators::selection::selected_changes;
use crate::operators::selection::Selection;
use crate::operators::selection::SelectionModel;
use crate::operators::answers;
use crate::operators::propagates;
use crate::operators::Operator;
use crate::operators::Propagation;
use crate::operators::PropagationModel;
use crate::types::changetype::ChangeType;
use crate::types::datatype::Value;
use crate::types::error::Error;
use crate::types::operatortype::OperatorType;
use crate::units::change::all_rows_fit;
use crate::units::change::all_rows_have;
use crate::units::change::Change;
use crate::units::change::ChangeModel;
use crate::units::serverchange::EnvelopeModel;
use crate::units::table::mirror_changes;

verus! {

/// The mathematical value of an `Operation`.
pub enum OperationModel {
    Selector(SelectionModel),
    Projector(ProjectionModel),
    Aggregator(AggregationModel),
    Rootor(RootModel),
    Leafor(LeafModel),
    InnerJoinor(JoinModel),
}

impl OperationModel {
    /// What `apply` does: the operator after the changes, and the changes it
    /// answers with or the reason why it fails.
    pub open spec fn applied(self, changes: Seq<ChangeModel>) -> (
        OperationModel,
        Result<Seq<ChangeModel>, Error>,
    ) {
        match self {
            OperationModel::Selector(m) => if all_rows_have(changes, m.col_ind) {
                (self, Ok(selected_changes(changes, m.col_ind, m.condition)))
            } else {
                (self, Err(Error::RowShapeMismatch))
            },
            OperationModel::Projector(m) => if all_rows_fit(changes, m.columns) {
                (self, Ok(projected_changes(changes, m.columns)))
            } else {
                (self, Err(Error::RowShapeMismatch))
            },
            OperationModel::Aggregator(m) => if all_rows_fit(changes, m.group_by_col) {
                match count_changes(m.state, m.group_by_col, changes) {
                    Some((state, answer)) => (
                        OperationModel::Aggregator(AggregationModel { state, ..m }),
                        Ok(answer),
                    ),
                    None => (self, Err(Error::CountOverflow)),
                }
            } else {
                (self, Err(Error::RowShapeMismatch))
            },
            OperationModel::Rootor(m) => if all_rows_have(changes, m.key_index) {
                (
                    OperationModel::Rootor(
                        RootModel { table: mirror_changes(m.table, m.key_index, changes), ..m },
                    ),
                    Ok(Seq::empty()),
                )
            } else {
                (self, Err(Error::RowShapeMismatch))
            },
            OperationModel::Leafor(m) => if all_rows_have(changes, m.key_index) {
                (
                    OperationModel::Leafor(
                        LeafModel { table: mirror_changes(m.table, m.key_index, changes), ..m },
                    ),
                    Ok(Seq::empty()),
                )
            } else {
                (self, Err(Error::RowShapeMismatch))
            },
            OperationModel::InnerJoinor(m) => (self, Ok(changes)),
        }
    }

    /// What `process_change` does with the changes that vertex `parent`
    /// sends: the operator after them, and what it hands to its children and
    /// owes to its sinks, or the reason why it fails.
    ///
    /// A selection, a projection and an aggregation hand on the answer of
    /// `apply`. A root hands on the changes as they came. A join hands on the
    /// joined rows for the side that `parent` stands for. A leaf hands
    /// nothing on and owes the changes as they came to each of its sinks.
    pub open spec fn react(self, parent: int, changes: Seq<ChangeModel>) -> (
        OperationModel,
        Result<PropagationModel, Error>,
    ) {
        match self {
            OperationModel::Rootor(m) => (
                self.applied(changes).0,
                match self.applied(changes).1 {
                    Ok(_) => Ok(PropagationModel { forward: changes, deliveries: Seq::empty() }),
                    Err(e) => Err(e),
                },
            ),
            OperationModel::Leafor(m) => (
                self.applied(changes).0,
                match self.applied(changes).1 {
                    Ok(_) => Ok(
                        PropagationModel {
                            forward: Seq::empty(),
                            deliveries: broadcast_of(
                                m.sockets,
                                EnvelopeModel { root_id: m.root_pair_id, changes },
                            ),
                        },
                    ),
                    Err(e) => Err(e),
                },
            ),
            OperationModel::InnerJoinor(m) => if all_rows_have(changes, m.col(m.side_of(parent))) {
                let (next, out) = m.run(m.side_of(parent), changes);
                (
                    OperationModel::InnerJoinor(next),
                    Ok(PropagationModel { forward: out, deliveries: Seq::empty() }),
                )
            } else {
                (self, Err(Error::RowShapeMismatch))
            },
            _ => (
                self.applied(changes).0,
                match self.applied(changes).1 {
                    Ok(out) => Ok(PropagationModel { forward: out, deliveries: Seq::empty() }),
                    Err(e) => Err(e),
                },
            ),
        }
    }
}

/// A selection and a projection answer a change without rows by one change
/// of the same kind without rows: never by no change at all.
pub proof fn lemma_empty_change_stays(op: OperationModel, typing: ChangeType)
    requires
        op is Selector || op is Projector,
    ensures
        op.applied(seq![ChangeModel { typing, batch: Seq::empty() }]) == (
            op,
            Ok::<Seq<ChangeModel>, Error>(seq![ChangeModel { typing, batch: Seq::empty() }]),
        ),
{
    let changes = seq![ChangeModel { typing, batch: Seq::<Seq<Value>>::empty() }];
    let answer = op.applied(changes).1;
    match op {
        OperationModel::Selector(m) => {
            reveal(Seq::filter);
            assert(selected(changes[0].batch, m.col_ind, m.condition) =~= Seq::empty());
            assert(selected_changes(changes, m.col_ind, m.condition) =~= changes);
        },
        OperationModel::Projector(m) => {
            assert(projected(changes[0].batch, m.columns) =~= Seq::empty());
            assert(projected_changes(changes, m.columns) =~= changes);
        },
        _ => {},
    }
}

/// A selection and a projection answer each change by one change of its
/// kind, whatever its rows, where every row has the columns they need.
pub proof fn lemma_one_answer_for_each_change(op: OperationModel, changes: Seq<ChangeModel>)
    requires
        op is Selector || op is Projector,
        op.applied(changes).1 is Ok,
    ensures
        op.applied(changes).0 == op,
        op.applied(changes).1->Ok_0.len() == changes.len(),
        forall|i: int|
            0 <= i < changes.len() ==> (#[trigger] op.applied(changes).1->Ok_0[i]).typing
                == changes[i].typing,
{
}

/// One operator of any kind.
#[derive(Debug)]
pub enum Operation {
    Selector(Selection),
    Projector(Projection),
    Aggregator(Aggregation),
    Rootor(Root),
    Leafor(Leaf),
    InnerJoinor(InnerJoin),
}

impl View for Operation {
    type V = OperationModel;

    open spec fn view(&self) -> OperationModel {
        match self {
            Operation::Selector(op) => OperationModel::Selector(op@),
            Operation::Projector(op) => OperationModel::Projector(op@),
            Operation::Aggregator(op) => OperationModel::Aggregator(op@),
            Operation::Rootor(op) => OperationModel::Rootor(op@),
            Operation::Leafor(op) => OperationModel::Leafor(op@),
            Operation::InnerJoinor(op) => OperationModel::InnerJoinor(op@),
        }
    }
}

impl Operation {
    /// The kind of the operator.
    pub fn kind(&self) -> (k: OperatorType)
        ensures
            k == kind_of(self@),
    {
        match self {
            Operation::Selector(_) => OperatorType::S,
            Operation::Projector(_) => OperatorType::P,
            Operation::Aggregator(_) => OperatorType::A,
            Operation::Rootor(_) => OperatorType::R,
            Operation::Leafor(_) => OperatorType::L,
            Operation::InnerJoinor(_) => OperatorType::I,
        }
    }
}

/// The kind of an operator.
pub open spec fn kind_of(op: OperationModel) -> OperatorType {
    match op {
        OperationModel::Selector(_) => OperatorType::S,
        OperationModel::Projector(_) => OperatorType::P,
        OperationModel::Aggregator(_) => OperatorType::A,
        OperationModel::Rootor(_) => OperatorType::R,
        OperationModel::Leafor(_) => OperatorType::L,
        OperationModel::InnerJoinor(_) => OperatorType::I,
    }
}

impl DeepView for Operation {
    type V = OperationModel;

    open spec fn deep_view(&self) -> OperationModel {
        self@
    }
}

/// The two are operators of one kind and, where they are roots or leaves,
/// of one name, where they are joins, of the same parents and columns.
pub open spec fn same_kind(a: OperationModel, b: OperationModel) -> bool {
    match (a, b) {
        (OperationModel::Selector(_), OperationModel::Selector(_)) => true,
        (OperationModel::Projector(_), OperationModel::Projector(_)) => true,
        (OperationModel::Aggregator(_), OperationModel::Aggregator(_)) => true,
        (OperationModel::Rootor(x), OperationModel::Rootor(y)) => x.root_id == y.root_id,
        (OperationModel::Leafor(x), OperationModel::Leafor(y)) => x.root_pair_id == y.root_pair_id,
        (OperationModel::InnerJoinor(x), OperationModel::InnerJoinor(y)) => same_join(x, y),
        _ => false,
    }
}

/// Whatever an operator takes in, it stays of its kind.
pub proof fn lemma_react_keeps_kind(op: OperationModel, parent: int, changes: Seq<ChangeModel>)
    ensures
        same_kind(op, op.react(parent, changes).0),
{
    match op {
        OperationModel::InnerJoinor(m) => {
            lemma_run_keeps_join(m, m.side_of(parent), changes);
        },
        _ => {},
    }
}

impl Operator for Operation {
    open spec fn model(&self) -> OperationModel {
        self@
    }

    /// Lets the operator that this is take the changes in.
    fn apply(&mut self, prev_change: Vec<Change>) -> (r: Result<Vec<Change>, Error>)
        ensures
            final(self)@ == old(self)@.applied(prev_change.deep_view()).0,
            answers(r, old(self)@.applied(prev_change.deep_view()).1),
    {
        match self {
            Operation::Selector(op) => op.apply(prev_change),
            Operation::Projector(op) => op.apply(prev_change),
            Operation::Aggregator(op) => op.apply(prev_change),
            Operation::Rootor(op) => op.apply(prev_change),
            Operation::Leafor(op) => op.apply(prev_change),
            Operation::InnerJoinor(op) => op.apply(prev_change),
        }
    }

    /// Lets the operator that this is react to the changes that vertex
    /// `parent_index` sends.
    fn process_change(&mut self, change: Vec<Change>, parent_index: usize) -> (r: Result<
        Propagation,
        Error,
    >)
        ensures
            final(self)@ == old(self)@.react(parent_index as int, change.deep_view()).0,
            propagates(r, old(self)@.react(parent_index as int, change.deep_view()).1),
    {
        match self {
            Operation::Selector(op) => op.process_change(change, parent_index),
            Operation::Projector(op) => op.process_change(change, parent_index),
            Operation::Aggregator(op) => op.process_change(change, parent_index),
            Operation::Rootor(op) => op.process_change(change, parent_index),
            Operation::Leafor(op) => op.process_change(change, parent_index),
            Operation::InnerJoinor(op) => op.process_change(change, parent_index),
        }
    }
}

} // verus!
