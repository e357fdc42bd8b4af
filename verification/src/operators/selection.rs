//! Selection: a filter on one column.

use vstd::prelude::*;
use crate::operators::hand_on;
use crate::operators::operation::OperationModel;
use crate::operators::Operator;
use crate::operators::Propagation;
use crate::operators::PropagationModel;
use crate::types::datatype::DataType;
use crate::types::datatype::Value;
use crate::types::error::Error;
use crate::units::change::all_rows_have;
use crate::units::change::rows_have_column;
use crate::units::change::Change;
use crate::units::change::ChangeModel;
use crate::units::row::Row;

verus! {

/// The mathematical value of a `Selection`.
pub struct SelectionModel {
    pub col_ind: int,
    pub condition: Value,
}

/// The test that a selection puts to a row.
pub open spec fn keeps(col: int, condition: Value) -> spec_fn(Seq<Value>) -> bool {
    |row: Seq<Value>| row[col] == condition
}

/// The rows whose column `col` holds `condition`, in their order.
pub open spec fn selected(rows: Seq<Seq<Value>>, col: int, condition: Value) -> Seq<Seq<Value>> {
    rows.filter(keeps(col, condition))
}

/// For each change one change of the same kind with the selected rows of its
/// batch: a change stays a change even where none of its rows is selected.
pub open spec fn selected_changes(changes: Seq<ChangeModel>, col: int, condition: Value) -> Seq<
    ChangeModel,
> {
    Seq::new(
        changes.len(),
        |i: int|
            ChangeModel {
                typing: changes[i].typing,
                batch: selected(changes[i].batch, col, condition),
            },
    )
}

/// A filter that lets through the rows with a given value in a given column.
#[derive(Debug)]
pub struct Selection {
    col_ind: usize,
    condition: DataType,
}

impl View for Selection {
    type V = SelectionModel;

    closed spec fn view(&self) -> SelectionModel {
        SelectionModel { col_ind: self.col_ind as int, condition: self.condition@ }
    }
}

impl Selection {
    /// The filter for the rows whose column `col_ind` holds `condition`.
    pub fn new(col_ind: usize, condition: DataType) -> (r: Selection)
        ensures
            r@ == (SelectionModel { col_ind: col_ind as int, condition: condition@ }),
    {
        Selection { col_ind, condition }
    }
}

impl Operator for Selection {
    open spec fn model(&self) -> OperationModel {
        OperationModel::Selector(self@)
    }

    /// Answers each change with the change of its selected rows. Fails where
    /// a row lacks the column that is tested.
    fn apply(&mut self, prev_change_vec: Vec<Change>) -> (r: Result<Vec<Change>, Error>)
        ensures
            final(self)@ == old(self)@,
            match r {
                Ok(out) => all_rows_have(prev_change_vec.deep_view(), old(self)@.col_ind)
                    && out.deep_view() == selected_changes(
                    prev_change_vec.deep_view(),
                    old(self)@.col_ind,
                    old(self)@.condition,
                ),
                Err(e) => e == Error::RowShapeMismatch && !all_rows_have(
                    prev_change_vec.deep_view(),
                    old(self)@.col_ind,
                ),
            },
    {
        if !rows_have_column(&prev_change_vec, self.col_ind) {
            return Err(Error::RowShapeMismatch);
        }
        let ghost changes = prev_change_vec.deep_view();
        let ghost col = self.col_ind as int;
        let ghost goal = selected_changes(changes, col, self.condition@);
        let mut out: Vec<Change> = Vec::new();
        let mut c: usize = 0;
        while c < prev_change_vec.len()
            invariant
                c <= prev_change_vec@.len(),
                changes == prev_change_vec.deep_view(),
                col == self.col_ind,
                all_rows_have(changes, col),
                goal == selected_changes(changes, col, self.condition@),
                out@.len() == c,
                forall|k: int| 0 <= k < c ==> out@[k]@ == goal[k],
            decreases prev_change_vec@.len() - c,
        {
            let change = &prev_change_vec[c];
            assert(changes[c as int] == change@);
            let ghost rows = change@.batch;
            let mut batch: Vec<Row> = Vec::new();
            let mut j: usize = 0;
            proof {
                reveal(Seq::filter);
                assert(rows.take(0) =~= Seq::<Seq<Value>>::empty());
                assert(batch.deep_view() =~= Seq::<Seq<Value>>::empty());
            }
            while j < change.batch.len()
                invariant
                    j <= change.batch@.len(),
                    c < prev_change_vec@.len(),
                    changes == prev_change_vec.deep_view(),
                    changes[c as int] == change@,
                    rows == change@.batch,
                    col == self.col_ind,
                    all_rows_have(changes, col),
                    batch.deep_view() == selected(rows.take(j as int), col, self.condition@),
                decreases change.batch@.len() - j,
            {
                let row = &change.batch[j];
                assert(rows[j as int] == row@);
                assert(col < changes[c as int].batch[j as int].len());
                assert(row@[col] == row.data@[col]@);
                proof {
                    reveal(Seq::filter);
                    assert(rows.take(j + 1).drop_last() =~= rows.take(j as int));
                    assert(rows.take(j + 1).last() == rows[j as int]);
                }
                if row.data[self.col_ind] == self.condition {
                    let ghost held = batch.deep_view();
                    batch.push(row.clone());
                    assert(batch.deep_view() =~= held.push(row@));
                }
                j += 1;
            }
            assert(rows.take(j as int) =~= rows);
            out.push(Change { typing: change.typing, batch });
            c += 1;
        }
        assert(out.deep_view() =~= goal);
        Ok(out)
    }

    /// Hands on to every child what `apply` answers.
    fn process_change(&mut self, change: Vec<Change>, parent_index: usize) -> (r: Result<
        Propagation,
        Error,
    >)
        ensures
            final(self)@ == old(self)@,
            match r {
                Ok(p) => all_rows_have(change.deep_view(), old(self)@.col_ind) && p@ == (
                PropagationModel {
                    forward: selected_changes(
                        change.deep_view(),
                        old(self)@.col_ind,
                        old(self)@.condition,
                    ),
                    deliveries: Seq::empty(),
                }),
                Err(e) => e == Error::RowShapeMismatch && !all_rows_have(
                    change.deep_view(),
                    old(self)@.col_ind,
                ),
            },
    {
        match self.apply(change) {
            Ok(forward) => Ok(hand_on(forward)),
            Err(e) => Err(e),
        }
    }
}

} // verus!
