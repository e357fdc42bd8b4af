//! Leaf: a materialized view and the sinks that follow it.

use vstd::prelude::*;
use crate::operators::operation::OperationModel;
use crate::operators::Operator;
use crate::operators::Propagation;
use crate::operators::PropagationModel;
use crate::types::changetype::ChangeType;
use crate::types::datatype::DataType;
use crate::types::datatype::Value;
use crate::types::error::Error;
use crate::units::change::all_rows_have;
use crate::units::change::rows_have_column;
use crate::units::change::Change;
use crate::units::change::ChangeModel;
use crate::units::row::Row;
use crate::units::serverchange::EnvelopeModel;
use crate::units::serverchange::ServerChange;
use crate::units::table::lemma_table_map_len;
use crate::units::table::mirror;
use crate::units::table::mirror_changes;
use crate::units::table::render_rows;
use crate::units::table::rows_text;
use crate::units::table::snapshot_rows;
use crate::units::table::KeyedRows;
use crate::units::table::Table;

verus! {

/// The mathematical value of a `Leaf`.
pub struct LeafModel {
    pub table: KeyedRows,
    pub sockets: Seq<usize>,
    pub root_pair_id: Seq<char>,
    pub key_index: int,
}

/// The mathematical value of a `Delivery`.
pub struct DeliveryModel {
    pub sink: usize,
    pub message: EnvelopeModel,
}

/// A message that is owed to one attached sink.
#[derive(Debug)]
pub struct Delivery {
    pub sink: usize,
    pub message: ServerChange,
}

impl View for Delivery {
    type V = DeliveryModel;

    open spec fn view(&self) -> DeliveryModel {
        DeliveryModel { sink: self.sink, message: self.message@ }
    }
}

impl DeepView for Delivery {
    type V = DeliveryModel;

    open spec fn deep_view(&self) -> DeliveryModel {
        self@
    }
}

/// `batch` holds one row for each entry of `table`, in some order of the
/// entries.
pub open spec fn is_listing(batch: Seq<Seq<Value>>, table: KeyedRows) -> bool {
    exists|keys: Seq<Value>|
        {
            &&& keys.no_duplicates()
            &&& keys.to_set() == table.dom()
            &&& #[trigger] keys.len() == batch.len()
            &&& forall|i: int| 0 <= i < keys.len() ==> batch[i] == table[keys[i]]
        }
}

/// A listing holds exactly the rows of the table: as many rows as the table
/// has keys, and no row but those of the table.
pub proof fn lemma_listing_holds_the_rows(batch: Seq<Seq<Value>>, table: KeyedRows)
    requires
        is_listing(batch, table),
    ensures
        table.dom().finite(),
        batch.len() == table.dom().len(),
        batch.to_set() == table.values(),
{
    let keys = choose|keys: Seq<Value>|
        {
            &&& keys.no_duplicates()
            &&& keys.to_set() == table.dom()
            &&& #[trigger] keys.len() == batch.len()
            &&& forall|i: int| 0 <= i < keys.len() ==> batch[i] == table[keys[i]]
        };
    keys.unique_seq_to_set();
    assert forall|row: Seq<Value>| batch.to_set().contains(row) <==> table.values().contains(
        row,
    ) by {
        if batch.to_set().contains(row) {
            let i = batch.index_of(row);
            assert(keys.to_set().contains(keys[i]));
            assert(table.contains_key(keys[i]) && table[keys[i]] == row);
        }
        if table.values().contains(row) {
            let k = choose|k: Value| table.contains_key(k) && table[k] == row;
            assert(keys.to_set().contains(k));
            let i = keys.index_of(k);
            assert(batch[i] == row);
        }
    }
    assert(batch.to_set() =~= table.values());
}

/// The listing of a table that holds `r1` under `k1` and `r2` under `k2` is
/// the two rows in one order or the other.
pub proof fn lemma_listing_of_two_rows(
    batch: Seq<Seq<Value>>,
    k1: Value,
    r1: Seq<Value>,
    k2: Value,
    r2: Seq<Value>,
)
    requires
        k1 != k2,
        is_listing(batch, Map::<Value, Seq<Value>>::empty().insert(k1, r1).insert(k2, r2)),
    ensures
        batch == seq![r1, r2] || batch == seq![r2, r1],
{
    let table = Map::<Value, Seq<Value>>::empty().insert(k1, r1).insert(k2, r2);
    let keys = choose|keys: Seq<Value>|
        {
            &&& keys.no_duplicates()
            &&& keys.to_set() == table.dom()
            &&& #[trigger] keys.len() == batch.len()
            &&& forall|i: int| 0 <= i < keys.len() ==> batch[i] == table[keys[i]]
        };
    keys.unique_seq_to_set();
    assert(table.dom() =~= set![k1, k2]);
    assert(table.dom().len() == 2) by {
        assert(set![k1, k2] =~= Set::<Value>::empty().insert(k1).insert(k2));
    }
    assert(keys.to_set().contains(keys[0]));
    assert(keys.to_set().contains(keys[1]));
    if keys[0] == k1 {
        assert(keys[1] == k2);
        assert(batch =~= seq![r1, r2]);
    } else {
        assert(keys[0] == k2);
        assert(keys[1] == k1);
        assert(batch =~= seq![r2, r1]);
    }
}

/// The message that tells a sink all the rows of a view: one insertion.
pub open spec fn is_snapshot(message: EnvelopeModel, model: LeafModel) -> bool {
    &&& message.root_id == model.root_pair_id
    &&& message.changes.len() == 1
    &&& message.changes[0].typing == ChangeType::Insertion
    &&& is_listing(message.changes[0].batch, model.table)
}

/// One delivery of the same message to each sink, in the order of the sinks.
pub open spec fn broadcast_of(sockets: Seq<usize>, message: EnvelopeModel) -> Seq<DeliveryModel> {
    Seq::new(sockets.len(), |i: int| DeliveryModel { sink: sockets[i], message })
}

/// `sockets` without `ws`.
pub open spec fn without(sockets: Seq<usize>, ws: usize) -> Seq<usize> {
    sockets.filter(|s: usize| s != ws)
}

/// A materialized view: the rows that reach it, by a key column, and the
/// sinks that are told of every change.
#[derive(Debug)]
pub struct Leaf {
    pub(crate) table: Table<DataType, Row>,
    pub(crate) sockets: Vec<usize>,
    pub(crate) root_pair_id: String,
    key_index: usize,
}

impl View for Leaf {
    type V = LeafModel;

    closed spec fn view(&self) -> LeafModel {
        LeafModel {
            table: self.table.map(),
            sockets: self.sockets@,
            root_pair_id: self.root_pair_id@,
            key_index: self.key_index as int,
        }
    }
}

impl Leaf {
    /// An empty view named `root_pair_id` whose rows are known by their
    /// column `key_index`, with no sink attached.
    pub fn new(root_pair_id: String, key_index: usize) -> (r: Leaf)
        ensures
            r@ == (LeafModel {
                table: Map::empty(),
                sockets: Seq::empty(),
                root_pair_id: root_pair_id@,
                key_index: key_index as int,
            }),
    {
        let table = Table::new();
        let sockets = Vec::new();
        Leaf { table, sockets, root_pair_id, key_index }
    }

    /// The sink at place `index` among the attached sinks.
    pub fn get_ws(&self, index: usize) -> (ws: usize)
        requires
            index < self@.sockets.len(),
        ensures
            ws == self@.sockets[index as int],
    {
        self.sockets[index]
    }

    /// The rows of the view in the order in which it holds them: the order
    /// in which their keys first came.
    pub closed spec fn rows(&self) -> Seq<Seq<Value>> {
        self.table.values()
    }

    /// The rows of the view as a text, each row in the pretty debug format
    /// with a space and a line feed behind it.
    pub fn render(&self) -> (s: String)
        ensures
            s@ == rows_text(self.rows()),
    {
        render_rows(&self.table)
    }

    /// The number of rows in the view.
    pub fn row_count(&self) -> (n: usize)
        ensures
            n == self@.table.dom().len(),
    {
        self.table.len()
    }

    /// The row of the view whose key is `key`, if there is one.
    pub fn read(&self, key: &DataType) -> (r: Option<Row>)
        ensures
            match r {
                Some(row) => self@.table.contains_key(key@) && row@ == self@.table[key@],
                None => !self@.table.contains_key(key@),
            },
    {
        match self.table.get(key) {
            Some(row) => Some(row.clone()),
            None => None,
        }
    }

    /// All the rows of the view as one insertion, one row for each key.
    pub fn snapshot(&self) -> (r: Change)
        ensures
            r@.typing == ChangeType::Insertion,
            r@.batch == self.rows(),
            is_listing(r@.batch, self@.table),
    {
        let batch = snapshot_rows(&self.table);
        let n = self.table.len();
        proof {
            let keys = self.table.keys();
            let values = self.table.values();
            lemma_table_map_len(keys, values);
            assert(keys.to_set() =~= self.table.map().dom());
            assert forall|i: int| 0 <= i < keys.len() implies batch.deep_view()[i]
                == self.table.map()[keys[i]] by {
                assert(keys.contains(keys[i]));
                assert(keys.index_of(keys[i]) == i);
            }
            assert(keys.len() == batch.deep_view().len());
        }
        Change::new(ChangeType::Insertion, batch)
    }

    /// Attaches the sink `ws` and hands back the message that is owed to it
    /// at once: all the rows of the view as one insertion, under the name of
    /// this view. Every later change reaches the sink through
    /// `process_change`.
    pub fn initial_connect(&mut self, ws: usize) -> (message: ServerChange)
        ensures
            is_snapshot(message@, old(self)@),
            final(self)@ == (LeafModel { sockets: old(self)@.sockets.push(ws), ..old(self)@ }),
    {
        let initial_change = self.snapshot();
        let mut changes: Vec<Change> = Vec::new();
        changes.push(initial_change);
        assert(changes.deep_view()[0] == initial_change@);
        let init_sc = ServerChange::new(self.root_pair_id.clone(), changes);
        self.sockets.push(ws);
        init_sc
    }

    /// Detaches the sink `ws`: it is told of no later change.
    pub fn detach(&mut self, ws: usize)
        ensures
            final(self)@ == (LeafModel { sockets: without(old(self)@.sockets, ws), ..old(self)@ }),
    {
        let mut kept: Vec<usize> = Vec::new();
        let mut n: usize = 0;
        proof {
            reveal(Seq::filter);
            assert(self.sockets@.take(0) =~= Seq::<usize>::empty());
        }
        while n < self.sockets.len()
            invariant
                n <= self.sockets@.len(),
                kept@ == without(self.sockets@.take(n as int), ws),
            decreases self.sockets@.len() - n,
        {
            proof {
                reveal(Seq::filter);
                assert(self.sockets@.take(n + 1).drop_last() =~= self.sockets@.take(n as int));
                assert(self.sockets@.take(n + 1).last() == self.sockets@[n as int]);
            }
            if self.sockets[n] != ws {
                kept.push(self.sockets[n]);
            }
            n += 1;
        }
        assert(self.sockets@.take(n as int) =~= self.sockets@);
        self.sockets = kept;
    }
}

impl Operator for Leaf {
    open spec fn model(&self) -> OperationModel {
        OperationModel::Leafor(self@)
    }

    /// Brings the view up to date: an inserted row takes the place under its
    /// key, a deleted row empties the place under its key. A leaf hands
    /// nothing on: the answer is empty. Fails, with the view as it was, where
    /// a row lacks the key column.
    fn apply(&mut self, prev_change_vec: Vec<Change>) -> (r: Result<Vec<Change>, Error>)
        ensures
            final(self)@.sockets == old(self)@.sockets,
            final(self)@.root_pair_id == old(self)@.root_pair_id,
            final(self)@.key_index == old(self)@.key_index,
            match r {
                Ok(out) => {
                    &&& all_rows_have(prev_change_vec.deep_view(), old(self)@.key_index)
                    &&& out.deep_view() == Seq::<ChangeModel>::empty()
                    &&& final(self)@.table == mirror_changes(
                        old(self)@.table,
                        old(self)@.key_index,
                        prev_change_vec.deep_view(),
                    )
                },
                Err(e) => {
                    &&& e == Error::RowShapeMismatch
                    &&& !all_rows_have(prev_change_vec.deep_view(), old(self)@.key_index)
                    &&& final(self)@ == old(self)@
                },
            },
    {
        if !rows_have_column(&prev_change_vec, self.key_index) {
            return Err(Error::RowShapeMismatch);
        }
        mirror(&mut self.table, self.key_index, &prev_change_vec);
        let out: Vec<Change> = Vec::new();
        assert(out.deep_view() =~= Seq::<ChangeModel>::empty());
        Ok(out)
    }

    /// Brings the view up to date and tells what is owed to the sinks: to
    /// each attached sink, in the order of attachment, the changes as they
    /// came, under the name of this view. A leaf hands nothing on.
    fn process_change(&mut self, change: Vec<Change>, parent_index: usize) -> (r: Result<
        Propagation,
        Error,
    >)
        ensures
            final(self)@.sockets == old(self)@.sockets,
            final(self)@.root_pair_id == old(self)@.root_pair_id,
            final(self)@.key_index == old(self)@.key_index,
            match r {
                Ok(p) => {
                    &&& all_rows_have(change.deep_view(), old(self)@.key_index)
                    &&& final(self)@.table == mirror_changes(
                        old(self)@.table,
                        old(self)@.key_index,
                        change.deep_view(),
                    )
                    &&& p@ == (PropagationModel {
                        forward: Seq::empty(),
                        deliveries: broadcast_of(
                            old(self)@.sockets,
                            EnvelopeModel {
                                root_id: old(self)@.root_pair_id,
                                changes: change.deep_view(),
                            },
                        ),
                    })
                },
                Err(e) => {
                    &&& e == Error::RowShapeMismatch
                    &&& !all_rows_have(change.deep_view(), old(self)@.key_index)
                    &&& final(self)@ == old(self)@
                },
            },
    {
        if !rows_have_column(&change, self.key_index) {
            return Err(Error::RowShapeMismatch);
        }
        mirror(&mut self.table, self.key_index, &change);
        let ghost message = EnvelopeModel {
            root_id: self.root_pair_id@,
            changes: change.deep_view(),
        };
        let mut deliveries: Vec<Delivery> = Vec::new();
        let mut n: usize = 0;
        while n < self.sockets.len()
            invariant
                n <= self.sockets@.len(),
                message == (EnvelopeModel {
                    root_id: self.root_pair_id@,
                    changes: change.deep_view(),
                }),
                deliveries@.len() == n,
                forall|k: int|
                    0 <= k < n ==> deliveries@[k]@ == (DeliveryModel {
                        sink: self.sockets@[k],
                        message,
                    }),
            decreases self.sockets@.len() - n,
        {
            let changes = change.clone();
            assert(changes.deep_view() =~= change.deep_view());
            let server_change = ServerChange::new(self.root_pair_id.clone(), changes);
            deliveries.push(Delivery { sink: self.get_ws(n), message: server_change });
            n += 1;
        }
        assert(deliveries.deep_view() =~= broadcast_of(self.sockets@, message));
        let forward: Vec<Change> = Vec::new();
        assert(forward.deep_view() =~= Seq::<ChangeModel>::empty());
        Ok(Propagation { forward, deliveries })
    }

}

} // verus!
