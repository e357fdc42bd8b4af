//! Root: the entry point of a base table.

use vstd::prelude::*;
use crate::operators::hand_on;
use crate::operators::operation::OperationModel;
use crate::operators::Operator;
use crate::operators::Propagation;
use crate::operators::PropagationModel;
use crate::types::datatype::DataType;
use crate::types::error::Error;
use crate::units::change::all_rows_have;
use crate::units::change::rows_have_column;
use crate::units::change::Change;
use crate::units::change::ChangeModel;
use crate::units::row::Row;
use crate::units::table::mirror;
use crate::units::table::mirror_changes;
use crate::units::table::KeyedRows;
use crate::units::table::Table;

verus! {

/// The mathematical value of a `Root`.
pub struct RootModel {
    pub root_id: Seq<char>,
    pub key_index: int,
    pub table: KeyedRows,
}

/// The entry point of one named base table. It mirrors the table by a key
/// column and hands every change on as it came.
#[derive(Debug)]
pub struct Root {
    pub(crate) root_id: String,
    key_index: usize,
    pub(crate) table: Table<DataType, Row>,
}

impl View for Root {
    type V = RootModel;

    closed spec fn view(&self) -> RootModel {
        RootModel {
            root_id: self.root_id@,
            key_index: self.key_index as int,
            table: self.table.map(),
        }
    }
}

impl Root {
    /// The root named `root_id` whose rows are known by their column
    /// `key_index`, with an empty mirror.
    pub fn new(root_id: String, key_index: usize) -> (r: Root)
        ensures
            r@ == (RootModel { root_id: root_id@, key_index: key_index as int, table: Map::empty() }),
    {
        Root { root_id, key_index, table: Table::new() }
    }

    /// The name under which changes are sent to this root.
    pub fn root_id(&self) -> (id: &String)
        ensures
            id@ == self@.root_id,
    {
        &self.root_id
    }

    /// The mirrored row whose key is `key`, if there is one.
    pub fn read(&self, key: &DataType) -> (r: Option<Row>)
        ensures
            match r {
                Some(row) => self@.table.contains_key(key@) && row@ == self@.table[key@],
                None => !self@.table.contains_key(key@),
            },
    {
        match self.table.get(key) {
            Some(row) => Some(row.clone()),
            None => None,
        }
    }
}

impl Operator for Root {
    open spec fn model(&self) -> OperationModel {
        OperationModel::Rootor(self@)
    }

    /// Brings the mirror up to date. A root has nothing of its own to hand
    /// on: the answer is empty. Fails, with the mirror as it was, where a row
    /// lacks the key column.
    fn apply(&mut self, prev_change_vec: Vec<Change>) -> (r: Result<Vec<Change>, Error>)
        ensures
            final(self)@.root_id == old(self)@.root_id,
            final(self)@.key_index == old(self)@.key_index,
            match r {
                Ok(out) => {
                    &&& all_rows_have(prev_change_vec.deep_view(), old(self)@.key_index)
                    &&& out.deep_view() == Seq::<ChangeModel>::empty()
                    &&& final(self)@.table == mirror_changes(
                        old(self)@.table,
                        old(self)@.key_index,
                        prev_change_vec.deep_view(),
                    )
                },
                Err(e) => {
                    &&& e == Error::RowShapeMismatch
                    &&& !all_rows_have(prev_change_vec.deep_view(), old(self)@.key_index)
                    &&& final(self)@ == old(self)@
                },
            },
    {
        if !rows_have_column(&prev_change_vec, self.key_index) {
            return Err(Error::RowShapeMismatch);
        }
        mirror(&mut self.table, self.key_index, &prev_change_vec);
        let out: Vec<Change> = Vec::new();
        assert(out.deep_view() =~= Seq::<ChangeModel>::empty());
        Ok(out)
    }

    /// Brings the mirror up to date and hands on to every child the changes
    /// as they came, not the answer of `apply`.
    fn process_change(&mut self, change: Vec<Change>, parent_index: usize) -> (r: Result<
        Propagation,
        Error,
    >)
        ensures
            final(self)@.root_id == old(self)@.root_id,
            final(self)@.key_index == old(self)@.key_index,
            match r {
                Ok(p) => {
                    &&& all_rows_have(change.deep_view(), old(self)@.key_index)
                    &&& p@ == (PropagationModel {
                        forward: change.deep_view(),
                        deliveries: Seq::empty(),
                    })
                    &&& final(self)@.table == mirror_changes(
                        old(self)@.table,
                        old(self)@.key_index,
                        change.deep_view(),
                    )
                },
                Err(e) => {
                    &&& e == Error::RowShapeMismatch
                    &&& !all_rows_have(change.deep_view(), old(self)@.key_index)
                    &&& final(self)@ == old(self)@
                },
            },
    {
        if !rows_have_column(&change, self.key_index) {
            return Err(Error::RowShapeMismatch);
        }
        mirror(&mut self.table, self.key_index, &change);
        Ok(hand_on(change))
    }
}

} // verus!
