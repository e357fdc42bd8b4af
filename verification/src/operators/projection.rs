//! Projection: the choice and order of columns.

use vstd::prelude::*;
use crate::operators::hand_on;
use crate::operators::operation::OperationModel;
use crate::operators::Operator;
use crate::operators::Propagation;
use crate::operators::PropagationModel;
use crate::types::datatype::Value;
use crate::types::error::Error;
use crate::units::change::all_rows_fit;
use crate::units::change::rows_have_columns;
use crate::units::change::Change;
use crate::units::change::ChangeModel;
use crate::units::row::fits;
use crate::units::row::picked;
use crate::units::row::Row;

verus! {

/// The mathematical value of a `Projection`.
pub struct ProjectionModel {
    pub columns: Seq<usize>,
}

/// Each row rebuilt from its columns `cols`, in the order of `cols`. Rows
/// that come out equal stay apart.
pub open spec fn projected(rows: Seq<Seq<Value>>, cols: Seq<usize>) -> Seq<Seq<Value>> {
    Seq::new(rows.len(), |j: int| picked(rows[j], cols))
}

/// For each change one change of the same kind with the rebuilt rows of its
/// batch.
pub open spec fn projected_changes(changes: Seq<ChangeModel>, cols: Seq<usize>) -> Seq<ChangeModel> {
    Seq::new(
        changes.len(),
        |i: int| ChangeModel { typing: changes[i].typing, batch: projected(changes[i].batch, cols) },
    )
}

/// A stage that rebuilds each row from chosen columns, which may repeat and
/// stand in any order.
#[derive(Debug)]
pub struct Projection {
    columns: Vec<usize>,
}

impl View for Projection {
    type V = ProjectionModel;

    closed spec fn view(&self) -> ProjectionModel {
        ProjectionModel { columns: self.columns@ }
    }
}

impl Projection {
    /// The stage that keeps the columns `columns`, in that order.
    pub fn new(columns: Vec<usize>) -> (r: Projection)
        ensures
            r@ == (ProjectionModel { columns: columns@ }),
    {
        Projection { columns }
    }
}

impl Operator for Projection {
    open spec fn model(&self) -> OperationModel {
        OperationModel::Projector(self@)
    }

    /// Answers each change with the change of its rebuilt rows. Fails where
    /// a row lacks one of the columns.
    fn apply(&mut self, prev_change_vec: Vec<Change>) -> (r: Result<Vec<Change>, Error>)
        ensures
            final(self)@ == old(self)@,
            match r {
                Ok(out) => all_rows_fit(prev_change_vec.deep_view(), old(self)@.columns)
                    && out.deep_view() == projected_changes(
                    prev_change_vec.deep_view(),
                    old(self)@.columns,
                ),
                Err(e) => e == Error::RowShapeMismatch && !all_rows_fit(
                    prev_change_vec.deep_view(),
                    old(self)@.columns,
                ),
            },
    {
        if !rows_have_columns(&prev_change_vec, &self.columns) {
            return Err(Error::RowShapeMismatch);
        }
        let ghost changes = prev_change_vec.deep_view();
        let ghost cols = self.columns@;
        let ghost goal = projected_changes(changes, cols);
        let mut out: Vec<Change> = Vec::new();
        let mut c: usize = 0;
        while c < prev_change_vec.len()
            invariant
                c <= prev_change_vec@.len(),
                changes == prev_change_vec.deep_view(),
                cols == self.columns@,
                all_rows_fit(changes, cols),
                goal == projected_changes(changes, cols),
                out@.len() == c,
                forall|k: int| 0 <= k < c ==> out@[k]@ == goal[k],
            decreases prev_change_vec@.len() - c,
        {
            let change = &prev_change_vec[c];
            assert(changes[c as int] == change@);
            let ghost rows = change@.batch;
            let mut batch: Vec<Row> = Vec::new();
            let mut j: usize = 0;
            while j < change.batch.len()
                invariant
                    j <= change.batch@.len(),
                    c < prev_change_vec@.len(),
                    changes == prev_change_vec.deep_view(),
                    changes[c as int] == change@,
                    rows == change@.batch,
                    cols == self.columns@,
                    all_rows_fit(changes, cols),
                    batch@.len() == j,
                    forall|k: int| 0 <= k < j ==> batch@[k]@ == picked(rows[k], cols),
                decreases change.batch@.len() - j,
            {
                let row = &change.batch[j];
                assert(rows[j as int] == row@);
                assert(fits(changes[c as int].batch[j as int], cols));
                batch.push(Row { data: row.pick(&self.columns) });
                j += 1;
            }
            assert(batch.deep_view() =~= projected(rows, cols));
            out.push(Change { typing: change.typing, batch });
            c += 1;
        }
        assert(out.deep_view() =~= goal);
        Ok(out)
    }

    /// Hands on to every child what `apply` answers.
    fn process_change(&mut self, change: Vec<Change>, parent_index: usize) -> (r: Result<
        Propagation,
        Error,
    >)
        ensures
            final(self)@ == old(self)@,
            match r {
                Ok(p) => all_rows_fit(change.deep_view(), old(self)@.columns) && p@ == (
                PropagationModel {
                    forward: projected_changes(change.deep_view(), old(self)@.columns),
                    deliveries: Seq::empty(),
                }),
                Err(e) => e == Error::RowShapeMismatch && !all_rows_fit(
                    change.deep_view(),
                    old(self)@.columns,
                ),
            },
    {
        match self.apply(change) {
            Ok(forward) => Ok(hand_on(forward)),
            Err(e) => Err(e),
        }
    }
}

} // verus!
