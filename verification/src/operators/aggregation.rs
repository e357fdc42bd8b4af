//! Aggregation: a count for each group of rows.

use vstd::prelude::*;
use crate::operators::hand_on;
use crate::operators::operation::OperationModel;
use crate::operators::Operator;
use crate::operators::leaf::DeliveryModel;
use crate::operators::Propagation;
use crate::types::changetype::ChangeType;
use crate::types::datatype::DataType;
use crate::types::datatype::Value;
use crate::types::error::Error;
use crate::units::change::all_rows_fit;
use crate::units::change::rows_have_columns;
use crate::units::change::Change;
use crate::units::change::ChangeModel;
use crate::units::row::fits;
use crate::units::row::picked;
use crate::units::row::Row;
use crate::units::table::Table;

verus! {

/// The count of each group, by the group's key.
pub type Counts = Map<Seq<Value>, i32>;

/// The mathematical value of an `Aggregation`.
pub struct AggregationModel {
    pub group_by_col: Seq<usize>,
    pub state: Counts,
}

/// The row that stands for a group: its key, then its count.
pub open spec fn accumulator(key: Seq<Value>, count: int) -> Seq<Value> {
    key.push(Value::Int(count as i32))
}

/// A change of kind `typing` that holds the one row `row`.
pub open spec fn single(typing: ChangeType, row: Seq<Value>) -> ChangeModel {
    ChangeModel { typing, batch: seq![row] }
}

/// What one row does to the counts, and the changes that it yields. `None`
/// where the count of the row's group would leave the range of its type.
///
/// An inserted row of a new group sets the count to one and yields the
/// insertion of the group's row. An inserted row of a known group yields the
/// deletion of the group's old row and the insertion of the new one. A
/// deleted row of a known group yields the deletion of the old row and, where
/// the new count is above zero, the insertion of the new one; the group stays
/// known whatever its count. A deleted row of an unknown group does nothing.
pub open spec fn count_step(state: Counts, cols: Seq<usize>, typing: ChangeType, row: Seq<Value>)
    -> Option<(Counts, Seq<ChangeModel>)> {
    let key = picked(row, cols);
    match typing {
        ChangeType::Insertion => if !state.contains_key(key) {
            Some((state.insert(key, 1i32), seq![single(ChangeType::Insertion, accumulator(key, 1))]))
        } else if state[key] == i32::MAX {
            None
        } else {
            Some(
                (
                    state.insert(key, (state[key] + 1) as i32),
                    seq![
                        single(ChangeType::Deletion, accumulator(key, state[key] as int)),
                        single(ChangeType::Insertion, accumulator(key, state[key] + 1)),
                    ],
                ),
            )
        },
        ChangeType::Deletion => if !state.contains_key(key) {
            Some((state, Seq::empty()))
        } else if state[key] == i32::MIN {
            None
        } else {
            Some(
                (
                    state.insert(key, (state[key] - 1) as i32),
                    if state[key] - 1 > 0 {
                        seq![
                            single(ChangeType::Deletion, accumulator(key, state[key] as int)),
                            single(ChangeType::Insertion, accumulator(key, state[key] - 1)),
                        ]
                    } else {
                        seq![single(ChangeType::Deletion, accumulator(key, state[key] as int))]
                    },
                ),
            )
        },
    }
}

/// `run` with `out` put before the changes that it yields.
pub open spec fn after_output(out: Seq<ChangeModel>, run: Option<(Counts, Seq<ChangeModel>)>)
    -> Option<(Counts, Seq<ChangeModel>)> {
    match run {
        Some((state, more)) => Some((state, out + more)),
        None => None,
    }
}

/// What the rows of one batch do, one after the other: the counts after
/// them and the changes they yield. `None` where the count of one of the
/// rows would leave its range.
pub open spec fn count_rows(
    state: Counts,
    cols: Seq<usize>,
    typing: ChangeType,
    rows: Seq<Seq<Value>>,
) -> Option<(Counts, Seq<ChangeModel>)>
    decreases rows.len(),
{
    if rows.len() == 0 {
        Some((state, Seq::empty()))
    } else {
        match count_step(state, cols, typing, rows.first()) {
            None => None,
            Some((next, out)) => after_output(
                out,
                count_rows(next, cols, typing, rows.drop_first()),
            ),
        }
    }
}

/// What a sequence of changes does, one change after the other: the counts
/// after them and the changes they yield. `None` where a count would leave
/// its range on the way.
pub open spec fn count_changes(state: Counts, cols: Seq<usize>, changes: Seq<ChangeModel>)
    -> Option<(Counts, Seq<ChangeModel>)>
    decreases changes.len(),
{
    if changes.len() == 0 {
        Some((state, Seq::empty()))
    } else {
        match count_rows(state, cols, changes.first().typing, changes.first().batch) {
            None => None,
            Some((next, out)) => after_output(
                out,
                count_changes(next, cols, changes.drop_first()),
            ),
        }
    }
}

/// The counts as they were before the key `key` got its present count:
/// with the count `prior` that it had, or without the key where it had none.
pub open spec fn undo_one(state: Counts, key: Seq<Value>, prior: Option<i32>) -> Counts {
    match prior {
        Some(count) => state.insert(key, count),
        None => state.remove(key),
    }
}

/// The counts as they were before the entries of `journal` were written,
/// each entry the key of one change of a count and what the key had before.
pub open spec fn undone(state: Counts, journal: Seq<(Seq<Value>, Option<i32>)>) -> Counts
    decreases journal.len(),
{
    if journal.len() == 0 {
        state
    } else {
        undone(undo_one(state, journal.last().0, journal.last().1), journal.drop_last())
    }
}

/// The number of rows of `live` that belong to the group `key`.
pub open spec fn group_size(live: Seq<Seq<Value>>, cols: Seq<usize>, key: Seq<Value>) -> int
    decreases live.len(),
{
    if live.len() == 0 {
        0
    } else {
        group_size(live.drop_last(), cols, key) + if picked(live.last(), cols) == key {
            1int
        } else {
            0int
        }
    }
}

/// The live rows after one more row: an inserted row is live, a deleted row
/// is live once less.
pub open spec fn live_after(live: Seq<Seq<Value>>, typing: ChangeType, row: Seq<Value>) -> Seq<
    Seq<Value>,
> {
    match typing {
        ChangeType::Insertion => live.push(row),
        ChangeType::Deletion => live.remove_value(row),
    }
}

/// The live rows after the rows of one batch.
pub open spec fn live_after_rows(live: Seq<Seq<Value>>, typing: ChangeType, rows: Seq<Seq<Value>>)
    -> Seq<Seq<Value>>
    decreases rows.len(),
{
    if rows.len() == 0 {
        live
    } else {
        live_after_rows(live_after(live, typing, rows.first()), typing, rows.drop_first())
    }
}

/// The live rows after a sequence of changes.
pub open spec fn live_after_changes(live: Seq<Seq<Value>>, changes: Seq<ChangeModel>) -> Seq<
    Seq<Value>,
>
    decreases changes.len(),
{
    if changes.len() == 0 {
        live
    } else {
        live_after_changes(
            live_after_rows(live, changes.first().typing, changes.first().batch),
            changes.drop_first(),
        )
    }
}

/// A deleted row of a known group is live. (A deleted row of an unknown
/// group changes nothing, live or not.)
pub open spec fn deletion_is_live(
    state: Counts,
    live: Seq<Seq<Value>>,
    cols: Seq<usize>,
    typing: ChangeType,
    row: Seq<Value>,
) -> bool {
    typing == ChangeType::Deletion && state.contains_key(picked(row, cols)) ==> live.contains(row)
}

/// Every row of a known group that the batch deletes is live when its turn
/// comes.
pub open spec fn rows_delete_live(
    state: Counts,
    live: Seq<Seq<Value>>,
    cols: Seq<usize>,
    typing: ChangeType,
    rows: Seq<Seq<Value>>,
) -> bool
    decreases rows.len(),
{
    if rows.len() == 0 {
        true
    } else {
        &&& deletion_is_live(state, live, cols, typing, rows.first())
        &&& match count_step(state, cols, typing, rows.first()) {
            Some((next, _)) => rows_delete_live(
                next,
                live_after(live, typing, rows.first()),
                cols,
                typing,
                rows.drop_first(),
            ),
            None => true,
        }
    }
}

/// Every row of a known group that the changes delete is live when its turn
/// comes.
pub open spec fn changes_delete_live(
    state: Counts,
    live: Seq<Seq<Value>>,
    cols: Seq<usize>,
    changes: Seq<ChangeModel>,
) -> bool
    decreases changes.len(),
{
    if changes.len() == 0 {
        true
    } else {
        &&& rows_delete_live(state, live, cols, changes.first().typing, changes.first().batch)
        &&& match count_rows(state, cols, changes.first().typing, changes.first().batch) {
            Some((next, _)) => changes_delete_live(
                next,
                live_after_rows(live, changes.first().typing, changes.first().batch),
                cols,
                changes.drop_first(),
            ),
            None => true,
        }
    }
}

/// The count of every known group is the number of live rows of the group,
/// and an unknown group has no live row.
pub open spec fn counts_live(state: Counts, live: Seq<Seq<Value>>, cols: Seq<usize>) -> bool {
    forall|key: Seq<Value>|
        if state.contains_key(key) {
            state[key] == #[trigger] group_size(live, cols, key)
        } else {
            group_size(live, cols, key) == 0
        }
}

/// Taking a row out makes its group one smaller and leaves the others.
pub proof fn lemma_group_size_remove(
    live: Seq<Seq<Value>>,
    cols: Seq<usize>,
    key: Seq<Value>,
    i: int,
)
    requires
        0 <= i < live.len(),
    ensures
        group_size(live.remove(i), cols, key) == group_size(live, cols, key) - if picked(
            live[i],
            cols,
        ) == key {
            1int
        } else {
            0int
        },
        group_size(live.remove(i), cols, key) >= 0,
    decreases live.len(),
{
    lemma_group_size_is_no_less_than_zero(live.remove(i), cols, key);
    if i == live.len() - 1 {
        assert(live.remove(i) =~= live.drop_last());
    } else {
        lemma_group_size_remove(live.drop_last(), cols, key, i);
        assert(live.remove(i).drop_last() =~= live.drop_last().remove(i));
        assert(live.remove(i).last() == live.last());
    }
}

/// No group has fewer than no rows.
pub proof fn lemma_group_size_is_no_less_than_zero(
    live: Seq<Seq<Value>>,
    cols: Seq<usize>,
    key: Seq<Value>,
)
    ensures
        group_size(live, cols, key) >= 0,
    decreases live.len(),
{
    if live.len() > 0 {
        lemma_group_size_is_no_less_than_zero(live.drop_last(), cols, key);
    }
}

/// A row that is live counts in its group.
pub proof fn lemma_live_row_counts(live: Seq<Seq<Value>>, cols: Seq<usize>, row: Seq<Value>)
    requires
        live.contains(row),
    ensures
        group_size(live, cols, picked(row, cols)) >= 1,
{
    let i = live.index_of(row);
    lemma_group_size_remove(live, cols, picked(row, cols), i);
}

/// One row keeps the counts in step with the live rows, where the row, if
/// it is deleted from a known group, is live.
pub proof fn lemma_count_step_counts_live(
    state: Counts,
    live: Seq<Seq<Value>>,
    cols: Seq<usize>,
    typing: ChangeType,
    row: Seq<Value>,
)
    requires
        counts_live(state, live, cols),
        deletion_is_live(state, live, cols, typing, row),
        count_step(state, cols, typing, row) is Some,
    ensures
        counts_live(
            count_step(state, cols, typing, row).unwrap().0,
            live_after(live, typing, row),
            cols,
        ),
{
    let next = count_step(state, cols, typing, row).unwrap().0;
    let after = live_after(live, typing, row);
    let own = picked(row, cols);
    match typing {
        ChangeType::Insertion => {
            assert(after.drop_last() =~= live);
            assert forall|key: Seq<Value>|
                if next.contains_key(key) {
                    next[key] == #[trigger] group_size(after, cols, key)
                } else {
                    group_size(after, cols, key) == 0
                } by {
                assert(group_size(live, cols, key) == if state.contains_key(key) {
                    state[key] as int
                } else {
                    0
                });
            }
        },
        ChangeType::Deletion => {
            live.index_of_first_ensures(row);
            if state.contains_key(own) {
                let i = live.index_of_first(row).unwrap();
                assert(after == live.remove(i));
                lemma_group_size_remove(live, cols, own, i);
                assert forall|key: Seq<Value>|
                    if next.contains_key(key) {
                        next[key] == #[trigger] group_size(after, cols, key)
                    } else {
                        group_size(after, cols, key) == 0
                    } by {
                    lemma_group_size_remove(live, cols, key, i);
                    assert(group_size(live, cols, key) == if state.contains_key(key) {
                        state[key] as int
                    } else {
                        0
                    });
                }
            } else {
                assert(group_size(live, cols, own) == 0);
                if live.contains(row) {
                    lemma_live_row_counts(live, cols, row);
                }
                assert(after == live);
            }
        },
    }
}

/// The rows of one batch keep the counts in step with the live rows, where
/// no count leaves its range and every row that is deleted from a known
/// group is live.
pub proof fn lemma_count_rows_counts_live(
    state: Counts,
    live: Seq<Seq<Value>>,
    cols: Seq<usize>,
    typing: ChangeType,
    rows: Seq<Seq<Value>>,
)
    requires
        counts_live(state, live, cols),
        rows_delete_live(state, live, cols, typing, rows),
        count_rows(state, cols, typing, rows) is Some,
    ensures
        counts_live(
            count_rows(state, cols, typing, rows).unwrap().0,
            live_after_rows(live, typing, rows),
            cols,
        ),
    decreases rows.len(),
{
    if rows.len() > 0 {
        lemma_count_step_counts_live(state, live, cols, typing, rows.first());
        let next = count_step(state, cols, typing, rows.first()).unwrap().0;
        lemma_count_rows_counts_live(
            next,
            live_after(live, typing, rows.first()),
            cols,
            typing,
            rows.drop_first(),
        );
    }
}

/// After any sequence of changes that deletes from known groups only live
/// rows and drives no count out of its range, the count of every known
/// group is the number of live rows of the group.
pub proof fn lemma_count_changes_counts_live(
    state: Counts,
    live: Seq<Seq<Value>>,
    cols: Seq<usize>,
    changes: Seq<ChangeModel>,
)
    requires
        counts_live(state, live, cols),
        changes_delete_live(state, live, cols, changes),
        count_changes(state, cols, changes) is Some,
    ensures
        counts_live(
            count_changes(state, cols, changes).unwrap().0,
            live_after_changes(live, changes),
            cols,
        ),
    decreases changes.len(),
{
    if changes.len() > 0 {
        let first = changes.first();
        lemma_count_rows_counts_live(state, live, cols, first.typing, first.batch);
        lemma_count_changes_counts_live(
            count_rows(state, cols, first.typing, first.batch).unwrap().0,
            live_after_rows(live, first.typing, first.batch),
            cols,
            changes.drop_first(),
        );
    }
}

/// What one row adds to the tally of the group `key`: one for an inserted
/// row of the group, one less for a deleted row of the group, nothing for a
/// row of another group.
pub open spec fn tally_of_row(cols: Seq<usize>, typing: ChangeType, row: Seq<Value>, key: Seq<Value>)
    -> int {
    if picked(row, cols) == key {
        match typing {
            ChangeType::Insertion => 1,
            ChangeType::Deletion => -1,
        }
    } else {
        0
    }
}

/// The rows of the group `key` that a batch inserts, less those it deletes.
pub open spec fn tally_of_rows(
    cols: Seq<usize>,
    typing: ChangeType,
    rows: Seq<Seq<Value>>,
    key: Seq<Value>,
) -> int
    decreases rows.len(),
{
    if rows.len() == 0 {
        0
    } else {
        tally_of_row(cols, typing, rows.first(), key) + tally_of_rows(
            cols,
            typing,
            rows.drop_first(),
            key,
        )
    }
}

/// The rows of the group `key` that the changes insert, less those they
/// delete.
pub open spec fn tally_of_changes(cols: Seq<usize>, changes: Seq<ChangeModel>, key: Seq<Value>)
    -> int
    decreases changes.len(),
{
    if changes.len() == 0 {
        0
    } else {
        tally_of_rows(cols, changes.first().typing, changes.first().batch, key)
            + tally_of_changes(cols, changes.drop_first(), key)
    }
}

/// The batch never deletes more rows of the group `key` than there are: at
/// each deleted row of the group the tally, which starts at `balance`, is
/// above zero.
pub open spec fn rows_covered(
    cols: Seq<usize>,
    typing: ChangeType,
    rows: Seq<Seq<Value>>,
    key: Seq<Value>,
    balance: int,
) -> bool
    decreases rows.len(),
{
    if rows.len() == 0 {
        true
    } else {
        &&& typing == ChangeType::Deletion && picked(rows.first(), cols) == key ==> balance >= 1
        &&& rows_covered(
            cols,
            typing,
            rows.drop_first(),
            key,
            balance + tally_of_row(cols, typing, rows.first(), key),
        )
    }
}

/// The changes never delete more rows of the group `key` than were inserted
/// before, the tally starting at `balance`.
pub open spec fn changes_covered(
    cols: Seq<usize>,
    changes: Seq<ChangeModel>,
    key: Seq<Value>,
    balance: int,
) -> bool
    decreases changes.len(),
{
    if changes.len() == 0 {
        true
    } else {
        &&& rows_covered(cols, changes.first().typing, changes.first().batch, key, balance)
        &&& changes_covered(
            cols,
            changes.drop_first(),
            key,
            balance + tally_of_rows(cols, changes.first().typing, changes.first().batch, key),
        )
    }
}

/// The count that the counts hold for a group: nothing for an unknown group.
pub open spec fn count_of(state: Counts, key: Seq<Value>) -> int {
    if state.contains_key(key) {
        state[key] as int
    } else {
        0
    }
}

/// One row moves the count of a group by what it adds to the group's tally,
/// where the row, if it is deleted from the group, finds a count above zero.
pub proof fn lemma_count_step_tallies(
    state: Counts,
    cols: Seq<usize>,
    typing: ChangeType,
    row: Seq<Value>,
    key: Seq<Value>,
)
    requires
        count_step(state, cols, typing, row) is Some,
        typing == ChangeType::Deletion && picked(row, cols) == key ==> count_of(state, key) >= 1,
    ensures
        count_of(count_step(state, cols, typing, row).unwrap().0, key) == count_of(state, key)
            + tally_of_row(cols, typing, row, key),
{
}

/// The rows of a batch move the count of a group by their tally, and not
/// below zero, where the batch never deletes more rows of the group than
/// there are.
pub proof fn lemma_count_rows_tallies(
    state: Counts,
    cols: Seq<usize>,
    typing: ChangeType,
    rows: Seq<Seq<Value>>,
    key: Seq<Value>,
)
    requires
        count_rows(state, cols, typing, rows) is Some,
        count_of(state, key) >= 0,
        rows_covered(cols, typing, rows, key, count_of(state, key)),
    ensures
        count_of(count_rows(state, cols, typing, rows).unwrap().0, key) == count_of(state, key)
            + tally_of_rows(cols, typing, rows, key),
        count_of(count_rows(state, cols, typing, rows).unwrap().0, key) >= 0,
    decreases rows.len(),
{
    if rows.len() > 0 {
        lemma_count_step_tallies(state, cols, typing, rows.first(), key);
        let next = count_step(state, cols, typing, rows.first()).unwrap().0;
        lemma_count_rows_tallies(next, cols, typing, rows.drop_first(), key);
    }
}

/// Changes move the count of a group by their tally, and not below zero,
/// where they never delete more rows of the group than were inserted
/// before.
pub proof fn lemma_count_changes_tallies(
    state: Counts,
    cols: Seq<usize>,
    changes: Seq<ChangeModel>,
    key: Seq<Value>,
)
    requires
        count_changes(state, cols, changes) is Some,
        count_of(state, key) >= 0,
        changes_covered(cols, changes, key, count_of(state, key)),
    ensures
        count_of(count_changes(state, cols, changes).unwrap().0, key) == count_of(state, key)
            + tally_of_changes(cols, changes, key),
        count_of(count_changes(state, cols, changes).unwrap().0, key) >= 0,
    decreases changes.len(),
{
    if changes.len() > 0 {
        let first = changes.first();
        lemma_count_rows_tallies(state, cols, first.typing, first.batch, key);
        let next = count_rows(state, cols, first.typing, first.batch).unwrap().0;
        lemma_count_changes_tallies(next, cols, changes.drop_first(), key);
    }
}

/// The count invariant: after any changes that started with no group known
/// and never deleted more rows of a group than were inserted before, the
/// count of the group is the number of its rows that were inserted less the
/// number of its rows that were deleted, and is not below zero. The row that
/// stands for the group holds that count behind the key.
pub proof fn lemma_counts_are_insertions_less_deletions(
    cols: Seq<usize>,
    changes: Seq<ChangeModel>,
    key: Seq<Value>,
)
    requires
        count_changes(Map::empty(), cols, changes) is Some,
        changes_covered(cols, changes, key, 0),
    ensures
        ({
            let state = count_changes(Map::empty(), cols, changes).unwrap().0;
            &&& tally_of_changes(cols, changes, key) >= 0
            &&& state.contains_key(key) ==> state[key] == tally_of_changes(cols, changes, key)
            &&& !state.contains_key(key) ==> tally_of_changes(cols, changes, key) == 0
        }),
{
    lemma_count_changes_tallies(Map::empty(), cols, changes, key);
}

/// A count that starts with no group and no live row is in step.
pub proof fn lemma_no_counts_no_live_rows(cols: Seq<usize>)
    ensures
        counts_live(Map::empty(), Seq::empty(), cols),
{
}

/// The counts that a list of groups with their counts stands for: the last
/// count of each key.
pub open spec fn counts_of(groups: Seq<(Seq<Value>, i32)>) -> Counts
    decreases groups.len(),
{
    if groups.len() == 0 {
        Map::empty()
    } else {
        counts_of(groups.drop_last()).insert(groups.last().0, groups.last().1)
    }
}

/// A grouped count: for each group of rows with the same values in the
/// group-by columns, the number of rows inserted and not deleted again.
#[derive(Debug)]
pub struct Aggregation {
    group_by_col: Vec<usize>,
    state: Table<Vec<DataType>, i32>,
}

impl View for Aggregation {
    type V = AggregationModel;

    closed spec fn view(&self) -> AggregationModel {
        AggregationModel { group_by_col: self.group_by_col@, state: self.state.map() }
    }
}

/// The row of a group, from its key and its count.
fn accumulator_row(key: &Vec<DataType>, count: i32) -> (r: Row)
    ensures
        r@ == accumulator(key.deep_view(), count as int),
{
    let mut data = key.clone();
    assert(data.deep_view() =~= key.deep_view());
    let ghost held = data.deep_view();
    data.push(DataType::Int(count));
    let r = Row { data };
    assert(r@ =~= held.push(Value::Int(count)));
    r
}

/// Appends to `out` a change of kind `typing` that holds the one row `row`.
fn emit(out: &mut Vec<Change>, typing: ChangeType, row: Row)
    ensures
        final(out).deep_view() == old(out).deep_view().push(single(typing, row@)),
{
    let ghost held = out.deep_view();
    let mut batch: Vec<Row> = Vec::new();
    batch.push(row);
    assert(batch.deep_view() =~= seq![row@]);
    let change = Change { typing, batch };
    out.push(change);
    assert(out.deep_view() =~= held.push(single(typing, row@)));
}

impl Aggregation {
    /// A count over the groups that the columns `group_by_col` define, with
    /// no group known yet.
    pub fn new(group_by_col: Vec<usize>) -> (r: Aggregation)
        ensures
            r@ == (AggregationModel { group_by_col: group_by_col@, state: Map::empty() }),
    {
        Aggregation { group_by_col, state: Table::new() }
    }

    /// A count over the groups that the columns `group_by_col` define, which
    /// knows the groups of `groups` already, each with its count. Where a key
    /// stands twice, its last count holds.
    pub fn with_counts(group_by_col: Vec<usize>, groups: Vec<(Vec<DataType>, i32)>) -> (r:
        Aggregation)
        ensures
            r@ == (AggregationModel {
                group_by_col: group_by_col@,
                state: counts_of(groups.deep_view()),
            }),
    {
        let mut state: Table<Vec<DataType>, i32> = Table::new();
        let ghost all = groups.deep_view();
        let mut i: usize = 0;
        assert(all.take(0) =~= Seq::<(Seq<Value>, i32)>::empty());
        while i < groups.len()
            invariant
                i <= groups@.len(),
                all == groups.deep_view(),
                state.map() == counts_of(all.take(i as int)),
            decreases groups@.len() - i,
        {
            let key = groups[i].0.clone();
            assert(key.deep_view() =~= groups@[i as int].0.deep_view());
            assert(all[i as int] == (groups@[i as int].0.deep_view(), groups@[i as int].1));
            state.insert(key, groups[i].1);
            assert(all.take(i + 1).drop_last() =~= all.take(i as int));
            assert(all.take(i + 1).last() == all[i as int]);
            i += 1;
        }
        assert(all.take(i as int) =~= all);
        Aggregation { group_by_col, state }
    }

    /// The count of the group with the key `key`, where the group is known.
    pub fn count(&self, key: &Vec<DataType>) -> (r: Option<i32>)
        ensures
            match r {
                Some(n) => self@.state.contains_key(key.deep_view()) && n
                    == self@.state[key.deep_view()],
                None => !self@.state.contains_key(key.deep_view()),
            },
    {
        match self.state.get(key) {
            Some(n) => Some(*n),
            None => None,
        }
    }

    /// Lets one row act on the counts and appends the changes that it yields
    /// to `out`. Where the row changes a count, the key and what it had
    /// before are noted in `journal`. Fails, with nothing changed, where the
    /// count would leave its range.
    fn step(
        &mut self,
        typing: ChangeType,
        row: &Row,
        out: &mut Vec<Change>,
        journal: &mut Vec<(Vec<DataType>, Option<i32>)>,
    ) -> (ok: bool)
        requires
            fits(row@, old(self)@.group_by_col),
        ensures
            final(self)@.group_by_col == old(self)@.group_by_col,
            undone(final(self)@.state, final(journal).deep_view()) == undone(
                old(self)@.state,
                old(journal).deep_view(),
            ),
            match count_step(old(self)@.state, old(self)@.group_by_col, typing, row@) {
                Some((next, more)) => ok && final(self)@.state == next && final(out).deep_view()
                    == old(out).deep_view() + more,
                None => !ok && final(self)@.state == old(self)@.state,
            },
    {
        let key = row.pick(&self.group_by_col);
        let ghost k = key.deep_view();
        let ghost held = out.deep_view();
        let ghost noted = journal.deep_view();
        let ghost before = self@.state;
        let prior = self.count(&key);
        let next = match prior {
            None => {
                match typing {
                    ChangeType::Insertion => {
                        emit(out, ChangeType::Insertion, accumulator_row(&key, 1));
                        assert(out.deep_view() =~= held + seq![
                            single(ChangeType::Insertion, accumulator(k, 1)),
                        ]);
                        1
                    },
                    ChangeType::Deletion => {
                        assert(out.deep_view() =~= held + Seq::<ChangeModel>::empty());
                        return true;
                    },
                }
            },
            Some(n) => {
                match typing {
                    ChangeType::Insertion => {
                        if n == i32::MAX {
                            return false;
                        }
                        emit(out, ChangeType::Deletion, accumulator_row(&key, n));
                        emit(out, ChangeType::Insertion, accumulator_row(&key, n + 1));
                        assert(out.deep_view() =~= held + seq![
                            single(ChangeType::Deletion, accumulator(k, n as int)),
                            single(ChangeType::Insertion, accumulator(k, n + 1)),
                        ]);
                        n + 1
                    },
                    ChangeType::Deletion => {
                        if n == i32::MIN {
                            return false;
                        }
                        emit(out, ChangeType::Deletion, accumulator_row(&key, n));
                        if n - 1 > 0 {
                            emit(out, ChangeType::Insertion, accumulator_row(&key, n - 1));
                            assert(out.deep_view() =~= held + seq![
                                single(ChangeType::Deletion, accumulator(k, n as int)),
                                single(ChangeType::Insertion, accumulator(k, n - 1)),
                            ]);
                        } else {
                            assert(out.deep_view() =~= held + seq![
                                single(ChangeType::Deletion, accumulator(k, n as int)),
                            ]);
                        }
                        n - 1
                    },
                }
            },
        };
        let copy = key.clone();
        assert(copy.deep_view() =~= k);
        journal.push((copy, prior));
        self.state.insert(key, next);
        proof {
            let entry = (k, prior);
            assert(journal.deep_view() =~= noted.push(entry));
            assert(noted.push(entry).drop_last() =~= noted);
            assert(undo_one(self@.state, k, prior) =~= before);
        }
        true
    }

    /// Takes back the changes of counts that `journal` notes, the last
    /// first.
    fn restore(&mut self, journal: Vec<(Vec<DataType>, Option<i32>)>)
        ensures
            final(self)@.group_by_col == old(self)@.group_by_col,
            final(self)@.state == undone(old(self)@.state, journal.deep_view()),
    {
        let mut journal = journal;
        let ghost goal = undone(self@.state, journal.deep_view());
        while journal.len() > 0
            invariant
                self@.group_by_col == old(self)@.group_by_col,
                undone(self@.state, journal.deep_view()) == goal,
            decreases journal@.len(),
        {
            let ghost noted = journal.deep_view();
            let ghost before = self@.state;
            match journal.pop() {
                Some((key, prior)) => {
                    assert(journal.deep_view() =~= noted.drop_last());
                    assert(noted.last() == (key.deep_view(), prior));
                    match prior {
                        Some(count) => {
                            self.state.insert(key, count);
                        },
                        None => {
                            self.state.remove(&key);
                        },
                    }
                    assert(self@.state == undo_one(before, noted.last().0, noted.last().1));
                },
                None => {},
            }
        }
    }
}

impl Operator for Aggregation {
    open spec fn model(&self) -> OperationModel {
        OperationModel::Aggregator(self@)
    }

    /// Applies the changes row by row, in their order, and hands back the
    /// changes that the rows yield, each row's as changes of their own.
    ///
    /// Where a row lacks one of the group-by columns, the call fails with
    /// `RowShapeMismatch`. Where a count would leave the range of its type,
    /// the call fails with `CountOverflow`. A call that fails leaves the
    /// counts as they were.
    fn apply(&mut self, prev_change_vec: Vec<Change>) -> (r: Result<Vec<Change>, Error>)
        ensures
            final(self)@.group_by_col == old(self)@.group_by_col,
            ({
                let changes = prev_change_vec.deep_view();
                let cols = old(self)@.group_by_col;
                let run = count_changes(old(self)@.state, cols, changes);
                match r {
                    Ok(out) => all_rows_fit(changes, cols) && run == Some(
                        (final(self)@.state, out.deep_view()),
                    ),
                    Err(e) => final(self)@ == old(self)@ && if all_rows_fit(changes, cols) {
                        e == Error::CountOverflow && run is None
                    } else {
                        e == Error::RowShapeMismatch
                    },
                }
            }),
    {
        if !rows_have_columns(&prev_change_vec, &self.group_by_col) {
            return Err(Error::RowShapeMismatch);
        }
        let ghost changes = prev_change_vec.deep_view();
        let ghost cols = self@.group_by_col;
        let ghost goal = count_changes(self@.state, cols, changes);
        let mut out: Vec<Change> = Vec::new();
        let mut journal: Vec<(Vec<DataType>, Option<i32>)> = Vec::new();
        let mut c: usize = 0;
        assert(changes.skip(0) =~= changes);
        assert(out.deep_view() =~= Seq::<ChangeModel>::empty());
        assert(journal.deep_view() =~= Seq::<(Seq<Value>, Option<i32>)>::empty());
        assert(after_output(out.deep_view(), goal) == goal) by {
            if goal is Some {
                assert(out.deep_view() + goal.unwrap().1 =~= goal.unwrap().1);
            }
        }
        while c < prev_change_vec.len()
            invariant
                c <= prev_change_vec@.len(),
                changes == prev_change_vec.deep_view(),
                cols == self@.group_by_col,
                cols == old(self)@.group_by_col,
                goal == count_changes(old(self)@.state, cols, changes),
                all_rows_fit(changes, cols),
                undone(self@.state, journal.deep_view()) == old(self)@.state,
                goal == after_output(
                    out.deep_view(),
                    count_changes(self@.state, cols, changes.skip(c as int)),
                ),
            decreases prev_change_vec@.len() - c,
        {
            let change = &prev_change_vec[c];
            assert(changes[c as int] == change@);
            let ghost rest = changes.skip(c as int);
            assert(rest.first() == change@);
            assert(rest.drop_first() =~= changes.skip(c + 1));
            let ghost rows = change@.batch;
            let ghost entered = self@.state;
            let ghost before = out.deep_view();
            let ghost inner_goal = count_rows(entered, cols, change.typing, rows);
            let mut j: usize = 0;
            assert(rows.skip(0) =~= rows);
            assert(after_output(Seq::<ChangeModel>::empty(), inner_goal) == inner_goal) by {
                if inner_goal is Some {
                    assert(Seq::<ChangeModel>::empty() + inner_goal.unwrap().1
                        =~= inner_goal.unwrap().1);
                }
            }
            assert(before + Seq::<ChangeModel>::empty() =~= before);
            let ghost mut yielded = Seq::<ChangeModel>::empty();
            while j < change.batch.len()
                invariant
                    j <= change.batch@.len(),
                    c < prev_change_vec@.len(),
                    changes == prev_change_vec.deep_view(),
                    changes[c as int] == change@,
                    rows == change@.batch,
                    cols == self@.group_by_col,
                    cols == old(self)@.group_by_col,
                    goal == count_changes(old(self)@.state, cols, changes),
                    all_rows_fit(changes, cols),
                    undone(self@.state, journal.deep_view()) == old(self)@.state,
                    inner_goal == count_rows(entered, cols, change.typing, rows),
                    goal == after_output(
                        before,
                        count_changes(entered, cols, changes.skip(c as int)),
                    ),
                    changes.skip(c as int).first() == change@,
                    out.deep_view() == before + yielded,
                    inner_goal == after_output(
                        yielded,
                        count_rows(self@.state, cols, change.typing, rows.skip(j as int)),
                    ),
                decreases change.batch@.len() - j,
            {
                let row = &change.batch[j];
                assert(rows[j as int] == row@);
                assert(fits(changes[c as int].batch[j as int], cols));
                let ghost tail = rows.skip(j as int);
                assert(tail.first() == row@);
                assert(tail.drop_first() =~= rows.skip(j + 1));
                let ghost stepped = count_step(self@.state, cols, change.typing, row@);
                let ok = self.step(change.typing, row, &mut out, &mut journal);
                if !ok {
                    assert(inner_goal is None);
                    assert(goal is None);
                    self.restore(journal);
                    return Err(Error::CountOverflow);
                }
                proof {
                    let more = stepped.unwrap().1;
                    let run = count_rows(self@.state, cols, change.typing, rows.skip(j + 1));
                    if run is Some {
                        assert(yielded + (more + run.unwrap().1) =~= (yielded + more)
                            + run.unwrap().1);
                    }
                    assert(before + (yielded + more) =~= (before + yielded) + more);
                    yielded = yielded + more;
                }
                j += 1;
            }
            proof {
                assert(rows.skip(j as int) =~= Seq::<Seq<Value>>::empty());
                assert(yielded + Seq::<ChangeModel>::empty() =~= yielded);
                assert(inner_goal == Some((self@.state, yielded)));
                let run = count_changes(self@.state, cols, changes.skip(c + 1));
                if run is Some {
                    assert(before + (yielded + run.unwrap().1) =~= (before + yielded)
                        + run.unwrap().1);
                }
            }
            c += 1;
        }
        proof {
            assert(changes.skip(c as int) =~= Seq::<ChangeModel>::empty());
            assert(out.deep_view() + Seq::<ChangeModel>::empty() =~= out.deep_view());
        }
        Ok(out)
    }

    /// Hands on to every child what `apply` answers.
    fn process_change(&mut self, change: Vec<Change>, parent_index: usize) -> (r: Result<
        Propagation,
        Error,
    >)
        ensures
            final(self)@.group_by_col == old(self)@.group_by_col,
            ({
                let changes = change.deep_view();
                let cols = old(self)@.group_by_col;
                let run = count_changes(old(self)@.state, cols, changes);
                match r {
                    Ok(p) => all_rows_fit(changes, cols) && run == Some(
                        (final(self)@.state, p@.forward),
                    ) && p@.deliveries == Seq::<DeliveryModel>::empty(),
                    Err(e) => final(self)@ == old(self)@ && if all_rows_fit(changes, cols) {
                        e == Error::CountOverflow && run is None
                    } else {
                        e == Error::RowShapeMismatch
                    },
                }
            }),
    {
        match self.apply(change) {
            Ok(forward) => Ok(hand_on(forward)),
            Err(e) => Err(e),
        }
    }
}

} // verus!
