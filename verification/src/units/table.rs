//! Keyed tables, and the keyed views that roots, leaves and views keep in
//! them.

use vstd::prelude::*;
use crate::types::changetype::ChangeType;
use crate::types::datatype::DataType;
use crate::types::datatype::Value;
use crate::units::change::all_rows_have;
use crate::units::change::Change;
use crate::units::change::ChangeModel;
use crate::units::row::row_debug_text;
use crate::units::row::Row;

verus! {

/// A type whose values can be compared for the value they stand for.
pub trait Key: DeepView + Sized {
    /// Whether the two keys stand for the same value.
    fn same(&self, other: &Self) -> (r: bool)
        ensures
            r == (self.deep_view() == other.deep_view()),
    ;
}

impl Key for DataType {
    fn same(&self, other: &Self) -> (r: bool) {
        *self == *other
    }
}

impl Key for String {
    fn same(&self, other: &Self) -> (r: bool) {
        *self == *other
    }
}

impl Key for Vec<DataType> {
    fn same(&self, other: &Self) -> (r: bool) {
        if self.len() != other.len() {
            assert(self.deep_view().len() != other.deep_view().len());
            return false;
        }
        let mut i: usize = 0;
        while i < self.len()
            invariant
                i <= self@.len(),
                self@.len() == other@.len(),
                forall|j: int| 0 <= j < i ==> self.deep_view()[j] == other.deep_view()[j],
            decreases self@.len() - i,
        {
            if self[i] != other[i] {
                assert(self.deep_view()[i as int] != other.deep_view()[i as int]);
                return false;
            }
            i += 1;
        }
        assert(self.deep_view() =~= other.deep_view());
        true
    }
}

/// The map that a sequence of distinct keys and the values at their places
/// stand for.
pub open spec fn table_map<A, B>(keys: Seq<A>, values: Seq<B>) -> Map<A, B> {
    Map::new(|k: A| keys.contains(k), |k: A| values[keys.index_of(k)])
}

/// Appending a new key with its value inserts the pair into the map.
pub proof fn lemma_table_map_push<A, B>(keys: Seq<A>, values: Seq<B>, k: A, v: B)
    requires
        keys.no_duplicates(),
        keys.len() == values.len(),
        !keys.contains(k),
    ensures
        keys.push(k).no_duplicates(),
        table_map(keys.push(k), values.push(v)) == table_map(keys, values).insert(k, v),
{
    let keys2 = keys.push(k);
    let values2 = values.push(v);
    assert(keys2[keys.len() as int] == k);
    assert forall|x: A| keys2.contains(x) <==> (keys.contains(x) || x == k) by {
        if keys.contains(x) {
            let i = keys.index_of(x);
            assert(keys2[i] == x);
        }
    }
    assert forall|x: A| keys2.contains(x) implies values2[keys2.index_of(x)] == (if x == k {
        v
    } else {
        values[keys.index_of(x)]
    }) by {
        let j = keys2.index_of(x);
        if x != k {
            let i = keys.index_of(x);
            assert(keys2[i] == x);
        }
    }
    assert(table_map(keys2, values2) =~= table_map(keys, values).insert(k, v));
}

/// Replacing the value at the place of a key inserts the pair into the map.
pub proof fn lemma_table_map_update<A, B>(keys: Seq<A>, values: Seq<B>, i: int, v: B)
    requires
        keys.no_duplicates(),
        keys.len() == values.len(),
        0 <= i < keys.len(),
    ensures
        table_map(keys, values.update(i, v)) == table_map(keys, values).insert(keys[i], v),
{
    let values2 = values.update(i, v);
    assert(keys.contains(keys[i]));
    assert forall|x: A| keys.contains(x) implies values2[keys.index_of(x)] == (if x == keys[i] {
        v
    } else {
        values[keys.index_of(x)]
    }) by {
        let j = keys.index_of(x);
    }
    assert(table_map(keys, values2) =~= table_map(keys, values).insert(keys[i], v));
}

/// Taking out a key and the value at its place removes the key from the map.
pub proof fn lemma_table_map_remove<A, B>(keys: Seq<A>, values: Seq<B>, i: int)
    requires
        keys.no_duplicates(),
        keys.len() == values.len(),
        0 <= i < keys.len(),
    ensures
        keys.remove(i).no_duplicates(),
        table_map(keys.remove(i), values.remove(i)) == table_map(keys, values).remove(keys[i]),
{
    let keys2 = keys.remove(i);
    let values2 = values.remove(i);
    assert forall|a: int, b: int| 0 <= a < keys2.len() && 0 <= b < keys2.len() && a != b implies keys2[a]
        != keys2[b] by {
        let a1 = if a < i { a } else { a + 1 };
        let b1 = if b < i { b } else { b + 1 };
        assert(keys2[a] == keys[a1]);
        assert(keys2[b] == keys[b1]);
    }
    assert forall|x: A| keys2.contains(x) <==> (keys.contains(x) && x != keys[i]) by {
        if keys2.contains(x) {
            let a = keys2.index_of(x);
            let a1 = if a < i { a } else { a + 1 };
            assert(keys[a1] == x);
        }
        if keys.contains(x) && x != keys[i] {
            let j = keys.index_of(x);
            let j2 = if j < i { j } else { j - 1 };
            assert(keys2[j2] == x);
        }
    }
    assert forall|x: A| keys2.contains(x) implies values2[keys2.index_of(x)] == values[keys.index_of(
        x,
    )] by {
        let a = keys2.index_of(x);
        let a1 = if a < i { a } else { a + 1 };
        assert(keys[a1] == x);
        assert(keys.index_of(x) == a1);
    }
    assert(table_map(keys2, values2) =~= table_map(keys, values).remove(keys[i]));
}

/// A map of distinct keys has as many entries as there are keys.
pub proof fn lemma_table_map_len<A, B>(keys: Seq<A>, values: Seq<B>)
    requires
        keys.no_duplicates(),
    ensures
        table_map(keys, values).dom().finite(),
        table_map(keys, values).dom().len() == keys.len(),
{
    keys.unique_seq_to_set();
    assert(table_map(keys, values).dom() =~= keys.to_set());
}

/// A keyed table that keeps its entries in the order in which their keys
/// first came.
#[derive(Debug)]
pub struct Table<K: Key, V: DeepView> {
    entries: Vec<(K, V)>,
}

impl<K: Key, V: DeepView> Table<K, V> {
    /// The keys, in the order in which they first came.
    pub closed spec fn keys(&self) -> Seq<K::V> {
        Seq::new(self.entries@.len(), |i: int| self.entries@[i].0.deep_view())
    }

    /// The values, each at the place of its key.
    pub closed spec fn values(&self) -> Seq<V::V> {
        Seq::new(self.entries@.len(), |i: int| self.entries@[i].1.deep_view())
    }

    /// The map from each key to its value.
    pub open spec fn map(&self) -> Map<K::V, V::V> {
        table_map(self.keys(), self.values())
    }

    #[verifier::type_invariant]
    closed spec fn distinct_keys(&self) -> bool {
        self.keys().no_duplicates()
    }

    pub fn new() -> (t: Self)
        ensures
            t.keys() == Seq::<K::V>::empty(),
            t.values() == Seq::<V::V>::empty(),
            t.map() == Map::<K::V, V::V>::empty(),
    {
        let t = Table { entries: Vec::new() };
        assert(t.keys() =~= Seq::<K::V>::empty());
        assert(t.values() =~= Seq::<V::V>::empty());
        assert(t.map() =~= Map::<K::V, V::V>::empty());
        t
    }

    /// The number of entries.
    pub fn len(&self) -> (n: usize)
        ensures
            n == self.keys().len(),
            n == self.values().len(),
            n == self.map().dom().len(),
            self.keys().no_duplicates(),
    {
        proof {
            use_type_invariant(self);
            lemma_table_map_len(self.keys(), self.values());
        }
        self.entries.len()
    }

    /// The key at place `i`.
    pub fn key_at(&self, i: usize) -> (k: &K)
        requires
            i < self.keys().len(),
        ensures
            k.deep_view() == self.keys()[i as int],
    {
        &self.entries[i].0
    }

    /// The value at place `i`.
    pub fn value_at(&self, i: usize) -> (v: &V)
        requires
            i < self.values().len(),
        ensures
            v.deep_view() == self.values()[i as int],
    {
        &self.entries[i].1
    }

    /// Where `key` stands among the keys, if it does.
    pub fn position(&self, key: &K) -> (r: Option<usize>)
        ensures
            self.keys().no_duplicates(),
            self.keys().len() == self.values().len(),
            match r {
                Some(i) => i < self.keys().len() && self.keys()[i as int] == key.deep_view()
                    && self.keys().contains(key.deep_view()) && self.keys().index_of(
                    key.deep_view(),
                ) == i,
                None => !self.keys().contains(key.deep_view()),
            },
    {
        proof {
            use_type_invariant(self);
        }
        let mut i: usize = 0;
        while i < self.entries.len()
            invariant
                i <= self.entries@.len(),
                self.keys().no_duplicates(),
                forall|j: int| 0 <= j < i ==> self.keys()[j] != key.deep_view(),
            decreases self.entries@.len() - i,
        {
            if self.entries[i].0.same(key) {
                assert(self.keys()[i as int] == key.deep_view());
                return Some(i);
            }
            i += 1;
        }
        None
    }

    /// The value under `key`, if there is one.
    pub fn get(&self, key: &K) -> (r: Option<&V>)
        ensures
            match r {
                Some(v) => self.map().contains_key(key.deep_view()) && v.deep_view()
                    == self.map()[key.deep_view()],
                None => !self.map().contains_key(key.deep_view()),
            },
    {
        match self.position(key) {
            Some(i) => Some(&self.entries[i].1),
            None => None,
        }
    }

    fn take_entries(&mut self) -> (e: Vec<(K, V)>)
        ensures
            e == old(self).entries,
    {
        let mut e: Vec<(K, V)> = Vec::new();
        assert(Seq::new(e@.len(), |i: int| e@[i].0.deep_view()).no_duplicates());
        core::mem::swap(&mut e, &mut self.entries);
        e
    }

    /// Puts `value` under `key`: in the place of the old value where the key
    /// is there already, at the end where it is new.
    pub fn insert(&mut self, key: K, value: V)
        ensures
            final(self).map() == old(self).map().insert(key.deep_view(), value.deep_view()),
            old(self).keys().contains(key.deep_view()) ==> final(self).keys() == old(self).keys()
                && final(self).values() == old(self).values().update(
                old(self).keys().index_of(key.deep_view()),
                value.deep_view(),
            ),
            !old(self).keys().contains(key.deep_view()) ==> final(self).keys() == old(
                self,
            ).keys().push(key.deep_view()) && final(self).values() == old(self).values().push(
                value.deep_view(),
            ),
    {
        let ghost k = key.deep_view();
        let ghost v = value.deep_view();
        let found = self.position(&key);
        let mut entries = self.take_entries();
        match found {
            Some(i) => {
                entries.set(i, (key, value));
                assert(Seq::new(entries@.len(), |j: int| entries@[j].0.deep_view()) =~= old(
                    self,
                ).keys());
                self.entries = entries;
                assert(self.keys() =~= old(self).keys());
                assert(self.values() =~= old(self).values().update(i as int, v));
                proof {
                    lemma_table_map_update(old(self).keys(), old(self).values(), i as int, v);
                }
            },
            None => {
                entries.push((key, value));
                proof {
                    lemma_table_map_push(old(self).keys(), old(self).values(), k, v);
                    assert(Seq::new(entries@.len(), |i: int| entries@[i].0.deep_view()) =~= old(
                        self,
                    ).keys().push(k));
                }
                self.entries = entries;
                assert(self.keys() =~= old(self).keys().push(k));
                assert(self.values() =~= old(self).values().push(v));
            },
        }
    }

    /// Takes `key` and its value out, and hands the value back. The entries
    /// that stay keep their order.
    pub fn remove(&mut self, key: &K) -> (r: Option<V>)
        ensures
            final(self).map() == old(self).map().remove(key.deep_view()),
            match r {
                Some(v) => {
                    &&& old(self).map().contains_key(key.deep_view())
                    &&& v.deep_view() == old(self).map()[key.deep_view()]
                    &&& final(self).keys() == old(self).keys().remove(
                        old(self).keys().index_of(key.deep_view()),
                    )
                    &&& final(self).values() == old(self).values().remove(
                        old(self).keys().index_of(key.deep_view()),
                    )
                },
                None => {
                    &&& !old(self).map().contains_key(key.deep_view())
                    &&& final(self).keys() == old(self).keys()
                    &&& final(self).values() == old(self).values()
                },
            },
    {
        let ghost k = key.deep_view();
        match self.position(key) {
            Some(i) => {
                let mut entries = self.take_entries();
                let gone = entries.remove(i);
                proof {
                    lemma_table_map_remove(old(self).keys(), old(self).values(), i as int);
                    assert(Seq::new(entries@.len(), |j: int| entries@[j].0.deep_view()) =~= old(
                        self,
                    ).keys().remove(i as int));
                }
                self.entries = entries;
                assert(self.keys() =~= old(self).keys().remove(i as int));
                assert(self.values() =~= old(self).values().remove(i as int));
                Some(gone.1)
            },
            None => {
                assert(old(self).map().remove(k) =~= old(self).map());
                None
            },
        }
    }
}

/// The rows of a keyed view, each under the value of its key column.
pub type KeyedRows = Map<Value, Seq<Value>>;

/// What one row does to a keyed view: an inserted row takes the place under
/// its key, whatever was there; a deleted row empties the place under its
/// key, whatever was there.
pub open spec fn mirror_step(table: KeyedRows, key_index: int, typing: ChangeType, row: Seq<Value>)
    -> KeyedRows {
    match typing {
        ChangeType::Insertion => table.insert(row[key_index], row),
        ChangeType::Deletion => table.remove(row[key_index]),
    }
}

/// What the rows of one batch do to a keyed view, one after the other.
pub open spec fn mirror_rows(
    table: KeyedRows,
    key_index: int,
    typing: ChangeType,
    rows: Seq<Seq<Value>>,
) -> KeyedRows
    decreases rows.len(),
{
    if rows.len() == 0 {
        table
    } else {
        mirror_step(
            mirror_rows(table, key_index, typing, rows.drop_last()),
            key_index,
            typing,
            rows.last(),
        )
    }
}

/// What a sequence of changes does to a keyed view, one change after the
/// other.
pub open spec fn mirror_changes(table: KeyedRows, key_index: int, changes: Seq<ChangeModel>)
    -> KeyedRows
    decreases changes.len(),
{
    if changes.len() == 0 {
        table
    } else {
        mirror_rows(
            mirror_changes(table, key_index, changes.drop_last()),
            key_index,
            changes.last().typing,
            changes.last().batch,
        )
    }
}

/// Every row of the view stands under the value of its own key column.
pub open spec fn rows_keyed(table: KeyedRows, key_index: int) -> bool {
    forall|k: Value| #[trigger]
        table.contains_key(k) ==> key_index < table[k].len() && table[k][key_index] == k
}

/// The rows of a batch that have the key column keep every row of the view
/// under its own key.
pub proof fn lemma_mirror_rows_keep_keyed(
    table: KeyedRows,
    key_index: int,
    typing: ChangeType,
    rows: Seq<Seq<Value>>,
)
    requires
        rows_keyed(table, key_index),
        forall|j: int| 0 <= j < rows.len() ==> key_index < (#[trigger] rows[j]).len(),
    ensures
        rows_keyed(mirror_rows(table, key_index, typing, rows), key_index),
    decreases rows.len(),
{
    if rows.len() > 0 {
        let front = rows.drop_last();
        assert forall|j: int| 0 <= j < front.len() implies key_index < (#[trigger] front[j]).len() by {
            assert(front[j] == rows[j]);
        }
        lemma_mirror_rows_keep_keyed(table, key_index, typing, front);
        assert(key_index < rows[rows.len() - 1].len());
    }
}

/// Changes whose rows have the key column keep every row of the view under
/// its own key: the view holds at most one row for each key, and that row
/// bears the key.
pub proof fn lemma_mirror_changes_keep_keyed(
    table: KeyedRows,
    key_index: int,
    changes: Seq<ChangeModel>,
)
    requires
        rows_keyed(table, key_index),
        all_rows_have(changes, key_index),
    ensures
        rows_keyed(mirror_changes(table, key_index, changes), key_index),
    decreases changes.len(),
{
    if changes.len() > 0 {
        let front = changes.drop_last();
        assert(all_rows_have(front, key_index)) by {
            assert forall|i: int, j: int|
                0 <= i < front.len() && 0 <= j < front[i].batch.len() implies key_index < (
            #[trigger] front[i].batch[j]).len() by {
                assert(front[i] == changes[i]);
                assert(key_index < changes[i].batch[j].len());
            }
        }
        lemma_mirror_changes_keep_keyed(table, key_index, front);
        let last = changes.last();
        assert forall|j: int| 0 <= j < last.batch.len() implies key_index < (
        #[trigger] last.batch[j]).len() by {
            assert(key_index < changes[changes.len() - 1].batch[j].len());
        }
        lemma_mirror_rows_keep_keyed(
            mirror_changes(table, key_index, front),
            key_index,
            last.typing,
            last.batch,
        );
    }
}

/// Brings a keyed view up to date with the changes.
pub fn mirror(table: &mut Table<DataType, Row>, key_index: usize, changes: &Vec<Change>)
    requires
        all_rows_have(changes.deep_view(), key_index as int),
    ensures
        final(table).map() == mirror_changes(
            old(table).map(),
            key_index as int,
            changes.deep_view(),
        ),
{
    let ghost all = changes.deep_view();
    let mut c: usize = 0;
    assert(all.take(0) =~= Seq::<ChangeModel>::empty());
    while c < changes.len()
        invariant
            c <= changes@.len(),
            all == changes.deep_view(),
            all_rows_have(all, key_index as int),
            table.map() == mirror_changes(old(table).map(), key_index as int, all.take(c as int)),
        decreases changes@.len() - c,
    {
        let change = &changes[c];
        assert(all[c as int] == change@);
        let ghost rows = change@.batch;
        let ghost entered = table.map();
        let mut j: usize = 0;
        assert(rows.take(0) =~= Seq::<Seq<Value>>::empty());
        while j < change.batch.len()
            invariant
                j <= change.batch@.len(),
                c < changes@.len(),
                all == changes.deep_view(),
                all[c as int] == change@,
                rows == change@.batch,
                all_rows_have(all, key_index as int),
                table.map() == mirror_rows(entered, key_index as int, change.typing, rows.take(j as int)),
            decreases change.batch@.len() - j,
        {
            let row = &change.batch[j];
            assert(rows[j as int] == row@);
            assert(key_index < all[c as int].batch[j as int].len());
            assert(row@[key_index as int] == row.data@[key_index as int]@);
            let key = row.data[key_index].clone();
            match change.typing {
                ChangeType::Insertion => {
                    table.insert(key, row.clone());
                },
                ChangeType::Deletion => {
                    table.remove(&key);
                },
            }
            assert(rows.take(j + 1).drop_last() =~= rows.take(j as int));
            assert(rows.take(j + 1).last() == rows[j as int]);
            j += 1;
        }
        assert(rows.take(j as int) =~= rows);
        assert(all.take(c + 1).drop_last() =~= all.take(c as int));
        assert(all.take(c + 1).last() == all[c as int]);
        c += 1;
    }
    assert(all.take(c as int) =~= all);
}

/// Copies of the rows of a keyed view, in the order of their keys.
pub fn snapshot_rows(table: &Table<DataType, Row>) -> (rows: Vec<Row>)
    ensures
        rows.deep_view() == table.values(),
{
    let mut rows: Vec<Row> = Vec::new();
    let n = table.len();
    let mut i: usize = 0;
    while i < n
        invariant
            i <= n,
            n == table.values().len(),
            rows@.len() == i,
            forall|k: int| 0 <= k < i ==> rows@[k]@ == table.values()[k],
        decreases n - i,
    {
        rows.push(table.value_at(i).clone());
        i += 1;
    }
    assert(rows.deep_view() =~= table.values());
    rows
}

/// The text of a list of rows: each row in the pretty debug format, then a
/// space and a line feed.
pub open spec fn rows_text(rows: Seq<Seq<Value>>) -> Seq<char>
    decreases rows.len(),
{
    if rows.len() == 0 {
        Seq::empty()
    } else {
        rows_text(rows.drop_last()) + row_debug_text(rows.last()) + seq![' ', '\n']
    }
}

/// The text of the rows of a keyed view, in the order of their keys.
pub fn render_rows(table: &Table<DataType, Row>) -> (s: String)
    ensures
        s@ == rows_text(table.values()),
{
    let mut s = String::new();
    let n = table.len();
    let ghost rows = table.values();
    let mut i: usize = 0;
    assert(rows.take(0) =~= Seq::<Seq<Value>>::empty());
    while i < n
        invariant
            i <= n,
            n == rows.len(),
            rows == table.values(),
            s@ == rows_text(rows.take(i as int)),
        decreases n - i,
    {
        let text = table.value_at(i).to_text();
        proof {
            reveal_strlit(" \n");
            assert(" \n"@ =~= seq![' ', '\n']);
            assert(rows.take(i + 1).drop_last() =~= rows.take(i as int));
            assert(rows.take(i + 1).last() == rows[i as int]);
        }
        s.append(text.as_str());
        s.append(" \n");
        i += 1;
    }
    assert(rows.take(i as int) =~= rows);
    s
}

} // verus!
