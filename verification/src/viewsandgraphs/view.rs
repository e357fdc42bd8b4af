//! A named table with named columns.

use vstd::prelude::*;
use vstd::view::View as _;
use crate::types::datatype::DataType;
use crate::types::error::Error;
use crate::types::schematype::SchemaType;
use crate::units::change::all_rows_have;
use crate::units::change::rows_have_column;
use crate::units::change::Change;
use crate::units::row::Row;
use crate::types::datatype::Value;
use crate::units::table::mirror;
use crate::units::table::render_rows;
use crate::units::table::rows_text;
use crate::units::table::mirror_changes;
use crate::units::table::KeyedRows;
use crate::units::table::Table;

verus! {

/// The mathematical value of a `View`.
pub struct ViewModel {
    pub name: Seq<char>,
    pub column_names: Seq<Seq<char>>,
    pub schema: Seq<SchemaType>,
    pub key_index: int,
    pub table: KeyedRows,
}

/// A named table with named and typed columns, kept by a key column.
#[derive(Debug)]
pub struct View {
    name: String,
    column_names: Vec<String>,
    schema: Vec<SchemaType>,
    key_index: usize,
    pub(crate) table: Table<DataType, Row>,
}

impl vstd::view::View for View {
    type V = ViewModel;

    closed spec fn view(&self) -> ViewModel {
        ViewModel {
            name: self.name@,
            column_names: self.column_names.deep_view(),
            schema: self.schema@,
            key_index: self.key_index as int,
            table: self.table.map(),
        }
    }
}

impl View {
    /// The view named `name` with the given columns and no rows.
    #[allow(non_snake_case)]
    pub fn newJSON(
        name: String,
        key_index: usize,
        column_names: Vec<String>,
        schema: Vec<SchemaType>,
    ) -> (r: View)
        ensures
            r@ == (ViewModel {
                name: name@,
                column_names: column_names.deep_view(),
                schema: schema@,
                key_index: key_index as int,
                table: Map::empty(),
            }),
    {
        let table = Table::new();
        View { name, key_index, column_names, schema, table }
    }

    /// Brings the table up to date with the changes: an inserted row takes
    /// the place under its key, a deleted row empties the place under its
    /// key. Fails, with the table as it was, where a row lacks the key
    /// column.
    pub fn change_table(&mut self, change_vec: Vec<Change>) -> (r: Result<(), Error>)
        ensures
            match r {
                Ok(_) => {
                    &&& all_rows_have(change_vec.deep_view(), old(self)@.key_index)
                    &&& final(self)@ == (ViewModel {
                        table: mirror_changes(
                            old(self)@.table,
                            old(self)@.key_index,
                            change_vec.deep_view(),
                        ),
                        ..old(self)@
                    })
                },
                Err(e) => {
                    &&& e == Error::RowShapeMismatch
                    &&& !all_rows_have(change_vec.deep_view(), old(self)@.key_index)
                    &&& final(self)@ == old(self)@
                },
            },
    {
        if !rows_have_column(&change_vec, self.key_index) {
            return Err(Error::RowShapeMismatch);
        }
        mirror(&mut self.table, self.key_index, &change_vec);
        Ok(())
    }

    /// The rows of the view in the order in which it holds them: the order
    /// in which their keys first came.
    pub closed spec fn rows(&self) -> Seq<Seq<Value>> {
        self.table.values()
    }

    /// The view as a text: its name, its column names one behind the other,
    /// then its rows, each in the pretty debug format with a space and a
    /// line feed behind it.
    pub fn render(&self) -> (s: String)
        ensures
            s@ == self@.name + self@.column_names.flatten() + rows_text(self.rows()),
    {
        let mut s = self.name.clone();
        let ghost names = self.column_names.deep_view();
        let mut i: usize = 0;
        assert(names.take(0) =~= Seq::<Seq<char>>::empty());
        assert(self@.name + names.take(0).flatten() =~= self@.name);
        while i < self.column_names.len()
            invariant
                i <= self.column_names@.len(),
                names == self.column_names.deep_view(),
                s@ == self@.name + names.take(i as int).flatten(),
            decreases self.column_names@.len() - i,
        {
            proof {
                let before = names.take(i as int);
                let one = seq![names[i as int]];
                assert(names.take(i + 1) =~= before + one);
                before.lemma_flatten_and_flatten_alt_are_equivalent();
                (before + one).lemma_flatten_and_flatten_alt_are_equivalent();
                vstd::seq_lib::lemma_flatten_concat(before, one);
                assert(one.flatten() =~= names[i as int]) by {
                    assert(one.drop_first() =~= Seq::<Seq<char>>::empty());
                    assert(one.drop_first().flatten() =~= Seq::<char>::empty());
                }
                assert(names[i as int] == self.column_names@[i as int]@);
            }
            s.append(self.column_names[i].as_str());
            i += 1;
        }
        assert(names.take(i as int) =~= names);
        let rows = render_rows(&self.table);
        s.append(rows.as_str());
        s
    }

    /// The row under `key`, if there is one.
    pub fn read(&self, key: &DataType) -> (r: Option<Row>)
        ensures
            match r {
                Some(row) => self@.table.contains_key(key@) && row@ == self@.table[key@],
                None => !self@.table.contains_key(key@),
            },
    {
        match self.table.get(key) {
            Some(row) => Some(row.clone()),
            None => None,
        }
    }
}

} // verus!
