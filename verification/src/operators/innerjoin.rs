//! Inner join: the pairs of rows of two parents that agree on a column,
//! kept up to date change by change.

use vstd::prelude::*;
use vstd::multiset::Multiset;
use crate::operators::hand_on;
use crate::operators::operation::OperationModel;
use crate::operators::Operator;
use crate::operators::Propagation;
use crate::operators::PropagationModel;
use crate::types::changetype::ChangeType;
use crate::types::datatype::DataType;
use crate::types::datatype::Value;
use crate::types::error::Error;
use crate::units::change::Change;
use crate::units::change::ChangeModel;
use crate::units::change::all_rows_have;
use crate::units::change::rows_have_column;
use crate::units::row::Row;
use crate::units::table::Table;

verus! {

/// The side of a join that a change comes from.
#[derive(Debug, Clone, Copy, PartialEq, Eq, Structural)]
pub enum Side {
    Left,
    Right,
}

/// The rows of one side that are still live, by their join value.
pub type JoinIndex = Map<Value, Seq<Seq<Value>>>;

/// The mathematical value of an `InnerJoin`.
pub struct JoinModel {
    pub left_parent: int,
    pub right_parent: int,
    pub left_col: int,
    pub right_col: int,
    pub left: JoinIndex,
    pub right: JoinIndex,
}

/// A joined row: the left row without its join column, then the whole right
/// row. The same rule holds whichever side brought the change.
pub open spec fn merge(left: Seq<Value>, right: Seq<Value>, left_col: int) -> Seq<Value> {
    left.remove(left_col) + right
}

/// The rows that an index holds under `v`: none where `v` is no key.
pub open spec fn live_rows(index: JoinIndex, v: Value) -> Seq<Seq<Value>> {
    if index.contains_key(v) {
        index[v]
    } else {
        Seq::empty()
    }
}

/// Every row of the index stands under its own join value.
pub open spec fn index_keyed(index: JoinIndex, col: int) -> bool {
    forall|v: Value, i: int|
        index.contains_key(v) && 0 <= i < index[v].len() ==> col < (#[trigger] index[v][i]).len()
            && index[v][i][col] == v
}

impl JoinModel {
    /// The column by which rows of `side` are joined.
    pub open spec fn col(self, side: Side) -> int {
        match side {
            Side::Left => self.left_col,
            Side::Right => self.right_col,
        }
    }

    /// The index that holds the rows of `side`.
    pub open spec fn own(self, side: Side) -> JoinIndex {
        match side {
            Side::Left => self.left,
            Side::Right => self.right,
        }
    }

    /// The same join with `index` as the index of `side`.
    pub open spec fn with_own(self, side: Side, index: JoinIndex) -> JoinModel {
        match side {
            Side::Left => JoinModel { left: index, ..self },
            Side::Right => JoinModel { right: index, ..self },
        }
    }

    /// The side that a change from vertex `parent` belongs to: the left side
    /// for the left parent, the right side for every other vertex.
    pub open spec fn side_of(self, parent: int) -> Side {
        if parent == self.left_parent {
            Side::Left
        } else {
            Side::Right
        }
    }

    /// Both columns are real columns and both indices are keyed by them.
    pub open spec fn valid(self) -> bool {
        &&& 0 <= self.left_col
        &&& 0 <= self.right_col
        &&& index_keyed(self.left, self.left_col)
        &&& index_keyed(self.right, self.right_col)
    }

    /// The joined rows that a row arriving on `side` pairs up to: one for
    /// each live row of the other side with the same join value, in the
    /// order in which the other side holds them.
    pub open spec fn pairs(self, side: Side, row: Seq<Value>) -> Seq<Seq<Value>> {
        match side {
            Side::Left => {
                let others = live_rows(self.right, row[self.left_col]);
                Seq::new(others.len(), |i: int| merge(row, others[i], self.left_col))
            },
            Side::Right => {
                let others = live_rows(self.left, row[self.right_col]);
                Seq::new(others.len(), |i: int| merge(others[i], row, self.left_col))
            },
        }
    }

    /// What one row does: the join after it and the joined rows it yields.
    /// An inserted row joins the live rows of its side and is paired up with
    /// the live rows of the other side. A deleted row that is live on its
    /// side leaves it, its first equal occurrence going, and is paired up
    /// like an inserted one. A deleted row that is not live on its side,
    /// because the side holds nothing under its join value or no row equal to
    /// it, changes nothing and yields nothing.
    pub open spec fn step(self, side: Side, typing: ChangeType, row: Seq<Value>) -> (
        JoinModel,
        Seq<Seq<Value>>,
    ) {
        let v = row[self.col(side)];
        let own = self.own(side);
        match typing {
            ChangeType::Insertion => (
                self.with_own(side, own.insert(v, live_rows(own, v).push(row))),
                self.pairs(side, row),
            ),
            ChangeType::Deletion => if live_rows(own, v).contains(row) {
                (self.with_own(side, own.insert(v, own[v].remove_value(row))), self.pairs(side, row))
            } else {
                (self, Seq::empty())
            },
        }
    }

    /// What the rows of one batch do, one after the other.
    pub open spec fn run_rows(self, side: Side, typing: ChangeType, rows: Seq<Seq<Value>>) -> (
        JoinModel,
        Seq<Seq<Value>>,
    )
        decreases rows.len(),
    {
        if rows.len() == 0 {
            (self, Seq::empty())
        } else {
            let (before, out) = self.run_rows(side, typing, rows.drop_last());
            let (after, more) = before.step(side, typing, rows.last());
            (after, out + more)
        }
    }

    /// What a sequence of changes does: each change yields one change of its
    /// own kind, which holds the joined rows of its batch.
    pub open spec fn run(self, side: Side, changes: Seq<ChangeModel>) -> (JoinModel, Seq<ChangeModel>)
        decreases changes.len(),
    {
        if changes.len() == 0 {
            (self, Seq::empty())
        } else {
            let (before, out) = self.run(side, changes.drop_last());
            let last = changes.last();
            let (after, batch) = before.run_rows(side, last.typing, last.batch);
            (after, out.push(ChangeModel { typing: last.typing, batch }))
        }
    }
}

/// The row that joins `left` and `right`.
pub fn merge_rows(left: &Row, right: &Row, left_col: usize) -> (r: Row)
    requires
        left_col < left@.len(),
    ensures
        r@ == merge(left@, right@, left_col as int),
{
    let mut data: Vec<DataType> = Vec::new();
    let ghost goal = merge(left@, right@, left_col as int);
    let mut i: usize = 0;
    while i < left.data.len()
        invariant
            i <= left.data@.len(),
            left@.len() == left.data@.len(),
            left_col < left@.len(),
            goal == merge(left@, right@, left_col as int),
            data@.len() == (if i <= left_col { i as int } else { i - 1 }),
            forall|k: int| 0 <= k < data@.len() ==> data@[k]@ == goal[k],
        decreases left.data@.len() - i,
    {
        if i != left_col {
            let item = left.data[i].clone();
            assert(left@[i as int] == left.data@[i as int]@);
            data.push(item);
        }
        i += 1;
    }
    let mut j: usize = 0;
    while j < right.data.len()
        invariant
            j <= right.data@.len(),
            right@.len() == right.data@.len(),
            left_col < left@.len(),
            goal == merge(left@, right@, left_col as int),
            data@.len() == left@.len() - 1 + j,
            forall|k: int| 0 <= k < data@.len() ==> data@[k]@ == goal[k],
        decreases right.data@.len() - j,
    {
        let item = right.data[j].clone();
        assert(right@[j as int] == right.data@[j as int]@);
        data.push(item);
        j += 1;
    }
    let r = Row { data };
    assert(r@ =~= goal);
    r
}

/// Where `row` first stands in `rows`, if it does.
pub fn first_occurrence(rows: &Vec<Row>, row: &Row) -> (r: Option<usize>)
    ensures
        match r {
            Some(i) => rows.deep_view().index_of_first(row@) == Some(i as int) && i < rows@.len(),
            None => rows.deep_view().index_of_first(row@) is None,
        },
{
    let mut i: usize = 0;
    while i < rows.len()
        invariant
            i <= rows@.len(),
            forall|j: int| 0 <= j < i ==> rows.deep_view()[j] != row@,
        decreases rows@.len() - i,
    {
        assert(rows.deep_view()[i as int] == rows@[i as int]@);
        if rows[i] == *row {
            proof {
                rows.deep_view().index_of_first_ensures(row@);
            }
            return Some(i);
        }
        i += 1;
    }
    proof {
        rows.deep_view().index_of_first_ensures(row@);
    }
    None
}

/// The two have the same parents and the same join columns.
pub open spec fn same_join(a: JoinModel, b: JoinModel) -> bool {
    &&& a.left_parent == b.left_parent
    &&& a.right_parent == b.right_parent
    &&& a.left_col == b.left_col
    &&& a.right_col == b.right_col
}

/// The rows of a batch leave the parents and the join columns alone.
pub proof fn lemma_run_rows_keeps_join(
    m: JoinModel,
    side: Side,
    typing: ChangeType,
    rows: Seq<Seq<Value>>,
)
    ensures
        same_join(m, m.run_rows(side, typing, rows).0),
    decreases rows.len(),
{
    if rows.len() > 0 {
        lemma_run_rows_keeps_join(m, side, typing, rows.drop_last());
    }
}

/// Changes leave the parents and the join columns alone.
pub proof fn lemma_run_keeps_join(m: JoinModel, side: Side, changes: Seq<ChangeModel>)
    ensures
        same_join(m, m.run(side, changes).0),
    decreases changes.len(),
{
    if changes.len() > 0 {
        lemma_run_keeps_join(m, side, changes.drop_last());
        lemma_run_rows_keeps_join(
            m.run(side, changes.drop_last()).0,
            side,
            changes.last().typing,
            changes.last().batch,
        );
    }
}

/// The joined rows of one left row with each of the right rows.
pub open spec fn pairs_of_left(left: Seq<Value>, right: Seq<Seq<Value>>, left_col: int) -> Seq<
    Seq<Value>,
> {
    Seq::new(right.len(), |j: int| merge(left, right[j], left_col))
}

/// The joined rows of each of the left rows with one right row.
pub open spec fn pairs_of_right(left: Seq<Seq<Value>>, right: Seq<Value>, left_col: int) -> Seq<
    Seq<Value>,
> {
    Seq::new(left.len(), |i: int| merge(left[i], right, left_col))
}

/// The cross product: the joined row of every left row with every right
/// row, each pair once.
pub open spec fn cross(left: Seq<Seq<Value>>, right: Seq<Seq<Value>>, left_col: int) -> Multiset<
    Seq<Value>,
>
    decreases left.len(),
{
    if left.len() == 0 {
        Multiset::empty()
    } else {
        cross(left.drop_last(), right, left_col).add(
            pairs_of_left(left.last(), right, left_col).to_multiset(),
        )
    }
}

/// One more left row adds its pairs to the cross product.
pub proof fn lemma_cross_left_push(
    left: Seq<Seq<Value>>,
    right: Seq<Seq<Value>>,
    left_col: int,
    row: Seq<Value>,
)
    ensures
        cross(left.push(row), right, left_col) == cross(left, right, left_col).add(
            pairs_of_left(row, right, left_col).to_multiset(),
        ),
{
    assert(left.push(row).drop_last() =~= left);
}

/// One left row less takes its pairs out of the cross product.
pub proof fn lemma_cross_left_remove(
    left: Seq<Seq<Value>>,
    right: Seq<Seq<Value>>,
    left_col: int,
    i: int,
)
    requires
        0 <= i < left.len(),
    ensures
        pairs_of_left(left[i], right, left_col).to_multiset().subset_of(
            cross(left, right, left_col),
        ),
        cross(left.remove(i), right, left_col) == cross(left, right, left_col).sub(
            pairs_of_left(left[i], right, left_col).to_multiset(),
        ),
    decreases left.len(),
{
    let gone = pairs_of_left(left[i], right, left_col).to_multiset();
    let last = pairs_of_left(left.last(), right, left_col).to_multiset();
    let rest = cross(left.drop_last(), right, left_col);
    if i == left.len() - 1 {
        assert(left.remove(i) =~= left.drop_last());
        assert(rest.add(last).sub(last) =~= rest);
        assert(gone.subset_of(rest.add(last)));
    } else {
        lemma_cross_left_remove(left.drop_last(), right, left_col, i);
        assert(left.remove(i).drop_last() =~= left.drop_last().remove(i));
        assert(left.remove(i).last() == left.last());
        assert(left.drop_last()[i] == left[i]);
        assert(gone.subset_of(rest));
        assert(gone.subset_of(rest.add(last)));
        assert(rest.sub(gone).add(last) =~= rest.add(last).sub(gone));
    }
}

/// One more right row adds its pairs to the cross product.
pub proof fn lemma_cross_right_push(
    left: Seq<Seq<Value>>,
    right: Seq<Seq<Value>>,
    left_col: int,
    row: Seq<Value>,
)
    ensures
        cross(left, right.push(row), left_col) == cross(left, right, left_col).add(
            pairs_of_right(left, row, left_col).to_multiset(),
        ),
    decreases left.len(),
{
    if left.len() == 0 {
        assert(pairs_of_right(left, row, left_col) =~= Seq::<Seq<Value>>::empty());
        assert(pairs_of_right(left, row, left_col).to_multiset() =~= Multiset::<
            Seq<Value>,
        >::empty()) by {
            pairs_of_right(left, row, left_col).to_multiset_ensures();
        }
        assert(cross(left, right, left_col).add(Multiset::<Seq<Value>>::empty()) =~= cross(
            left,
            right,
            left_col,
        ));
    } else {
        let front = left.drop_last();
        let l = left.last();
        lemma_cross_right_push(front, right, left_col, row);
        let old_pairs = pairs_of_left(l, right, left_col);
        let new_pairs = pairs_of_left(l, right.push(row), left_col);
        assert(new_pairs =~= old_pairs.push(merge(l, row, left_col)));
        old_pairs.to_multiset_ensures();
        let front_col = pairs_of_right(front, row, left_col);
        let col = pairs_of_right(left, row, left_col);
        assert(col =~= front_col.push(merge(l, row, left_col)));
        front_col.to_multiset_ensures();
        let a = cross(front, right, left_col);
        let x = merge(l, row, left_col);
        assert(a.add(front_col.to_multiset()).add(old_pairs.to_multiset().insert(x)) =~= a.add(
            old_pairs.to_multiset(),
        ).add(front_col.to_multiset().insert(x)));
    }
}

/// One right row less takes its pairs out of the cross product.
pub proof fn lemma_cross_right_remove(
    left: Seq<Seq<Value>>,
    right: Seq<Seq<Value>>,
    left_col: int,
    j: int,
)
    requires
        0 <= j < right.len(),
    ensures
        pairs_of_right(left, right[j], left_col).to_multiset().subset_of(
            cross(left, right, left_col),
        ),
        cross(left, right.remove(j), left_col) == cross(left, right, left_col).sub(
            pairs_of_right(left, right[j], left_col).to_multiset(),
        ),
    decreases left.len(),
{
    let row = right[j];
    if left.len() == 0 {
        assert(pairs_of_right(left, row, left_col) =~= Seq::<Seq<Value>>::empty());
        pairs_of_right(left, row, left_col).to_multiset_ensures();
        assert(pairs_of_right(left, row, left_col).to_multiset() =~= Multiset::<
            Seq<Value>,
        >::empty());
        assert(cross(left, right, left_col).sub(Multiset::<Seq<Value>>::empty()) =~= cross(
            left,
            right,
            left_col,
        ));
    } else {
        let front = left.drop_last();
        let l = left.last();
        lemma_cross_right_remove(front, right, left_col, j);
        let old_pairs = pairs_of_left(l, right, left_col);
        let new_pairs = pairs_of_left(l, right.remove(j), left_col);
        assert(new_pairs =~= old_pairs.remove(j));
        old_pairs.to_multiset_ensures();
        let x = merge(l, row, left_col);
        assert(old_pairs[j] == x);
        let front_col = pairs_of_right(front, row, left_col);
        let col = pairs_of_right(left, row, left_col);
        assert(col =~= front_col.push(x));
        front_col.to_multiset_ensures();
        let a = cross(front, right, left_col);
        let b = old_pairs.to_multiset();
        let c = front_col.to_multiset();
        assert(b.count(x) > 0);
        assert(c.insert(x).subset_of(a.add(b)));
        assert(a.sub(c).add(b.remove(x)) =~= a.add(b).sub(c.insert(x)));
    }
}

/// The joined rows that are live for the join value `v`: the cross product
/// of the live left rows and the live right rows under `v`.
pub open spec fn live_joined(m: JoinModel, v: Value) -> Multiset<Seq<Value>> {
    cross(live_rows(m.left, v), live_rows(m.right, v), m.left_col)
}

/// What stays of `joined` after a change of kind `typing` that holds `out`.
pub open spec fn net_of(joined: Multiset<Seq<Value>>, typing: ChangeType, out: Seq<Seq<Value>>)
    -> Multiset<Seq<Value>> {
    match typing {
        ChangeType::Insertion => joined.add(out.to_multiset()),
        ChangeType::Deletion => joined.sub(out.to_multiset()),
    }
}

/// The other side of a join.
pub open spec fn other_side(side: Side) -> Side {
    match side {
        Side::Left => Side::Right,
        Side::Right => Side::Left,
    }
}

/// One row keeps both indices keyed by their join columns.
pub proof fn lemma_step_keeps_valid(m: JoinModel, side: Side, typing: ChangeType, row: Seq<Value>)
    requires
        m.valid(),
        m.col(side) < row.len(),
    ensures
        m.step(side, typing, row).0.valid(),
        same_join(m, m.step(side, typing, row).0),
{
    let next = m.step(side, typing, row).0;
    let v = row[m.col(side)];
    let own = m.own(side);
    let changed = next.own(side);
    let col = m.col(side);
    assert(next.own(other_side(side)) == m.own(other_side(side)));
    match typing {
        ChangeType::Insertion => {
            assert forall|w: Value, k: int|
                changed.contains_key(w) && 0 <= k < changed[w].len() implies col < (
            #[trigger] changed[w][k]).len() && changed[w][k][col] == w by {
                if w != v {
                    assert(own.contains_key(w));
                    assert(changed[w][k] == own[w][k]);
                } else if k < live_rows(own, v).len() {
                    assert(changed[w][k] == own[v][k]);
                }
            }
        },
        ChangeType::Deletion => {
            if live_rows(own, v).contains(row) {
                own[v].index_of_first_ensures(row);
                let i = own[v].index_of_first(row).unwrap();
                assert forall|w: Value, k: int|
                    changed.contains_key(w) && 0 <= k < changed[w].len() implies col < (
                #[trigger] changed[w][k]).len() && changed[w][k][col] == w by {
                    if w != v {
                        assert(changed[w][k] == own[w][k]);
                    } else {
                        let k1 = if k < i {
                            k
                        } else {
                            k + 1
                        };
                        assert(changed[w][k] == own[v][k1]);
                    }
                }
            }
        },
    }
    assert(index_keyed(changed, col));
}

/// The rows of a batch that have the join column keep both indices keyed.
pub proof fn lemma_run_rows_keeps_valid(
    m: JoinModel,
    side: Side,
    typing: ChangeType,
    rows: Seq<Seq<Value>>,
)
    requires
        m.valid(),
        forall|j: int| 0 <= j < rows.len() ==> m.col(side) < (#[trigger] rows[j]).len(),
    ensures
        m.run_rows(side, typing, rows).0.valid(),
        same_join(m, m.run_rows(side, typing, rows).0),
    decreases rows.len(),
{
    if rows.len() > 0 {
        let front = rows.drop_last();
        assert forall|j: int| 0 <= j < front.len() implies m.col(side) < (#[trigger] front[j]).len() by {
            assert(front[j] == rows[j]);
        }
        lemma_run_rows_keeps_valid(m, side, typing, front);
        assert(m.col(side) < rows[rows.len() - 1].len());
        lemma_step_keeps_valid(m.run_rows(side, typing, front).0, side, typing, rows.last());
    }
}

/// `o` is a joined row: some left row without its join column, then some
/// right row in full, the two agreeing on their join columns.
pub open spec fn is_joined_row(o: Seq<Value>, left_col: int, right_col: int) -> bool {
    exists|l: Seq<Value>, r: Seq<Value>|
        {
            &&& #[trigger] merge(l, r, left_col) == o
            &&& 0 <= left_col < l.len()
            &&& 0 <= right_col < r.len()
            &&& l[left_col] == r[right_col]
            &&& o.len() == l.len() - 1 + r.len()
        }
}

/// Every row that one row yields is a joined row, whichever side the row
/// comes from and whether it is inserted or deleted.
pub proof fn lemma_step_yields_joined_rows(
    m: JoinModel,
    side: Side,
    typing: ChangeType,
    row: Seq<Value>,
)
    requires
        m.valid(),
        m.col(side) < row.len(),
    ensures
        forall|i: int|
            0 <= i < m.step(side, typing, row).1.len() ==> is_joined_row(
                #[trigger] m.step(side, typing, row).1[i],
                m.left_col,
                m.right_col,
            ),
{
    let out = m.step(side, typing, row).1;
    let v = row[m.col(side)];
    assert forall|i: int| 0 <= i < out.len() implies is_joined_row(
        #[trigger] out[i],
        m.left_col,
        m.right_col,
    ) by {
        match side {
            Side::Left => {
                let r = live_rows(m.right, v)[i];
                assert(m.right[v][i] == r);
                assert(merge(row, r, m.left_col) == out[i]);
            },
            Side::Right => {
                let l = live_rows(m.left, v)[i];
                assert(m.left[v][i] == l);
                assert(merge(l, row, m.left_col) == out[i]);
            },
        }
    }
}

/// Every row that a batch yields is a joined row.
pub proof fn lemma_run_rows_yields_joined_rows(
    m: JoinModel,
    side: Side,
    typing: ChangeType,
    rows: Seq<Seq<Value>>,
)
    requires
        m.valid(),
        forall|j: int| 0 <= j < rows.len() ==> m.col(side) < (#[trigger] rows[j]).len(),
    ensures
        forall|i: int|
            0 <= i < m.run_rows(side, typing, rows).1.len() ==> is_joined_row(
                #[trigger] m.run_rows(side, typing, rows).1[i],
                m.left_col,
                m.right_col,
            ),
    decreases rows.len(),
{
    if rows.len() > 0 {
        let front = rows.drop_last();
        assert forall|j: int| 0 <= j < front.len() implies m.col(side) < (#[trigger] front[j]).len() by {
            assert(front[j] == rows[j]);
        }
        lemma_run_rows_yields_joined_rows(m, side, typing, front);
        lemma_run_rows_keeps_valid(m, side, typing, front);
        let (before, out) = m.run_rows(side, typing, front);
        assert(m.col(side) < rows[rows.len() - 1].len());
        lemma_step_yields_joined_rows(before, side, typing, rows.last());
        let more = before.step(side, typing, rows.last()).1;
        let all = m.run_rows(side, typing, rows).1;
        assert forall|i: int| 0 <= i < all.len() implies is_joined_row(
            #[trigger] all[i],
            m.left_col,
            m.right_col,
        ) by {
            if i < out.len() {
                assert(all[i] == out[i]);
            } else {
                assert(all[i] == more[i - out.len()]);
            }
        }
    }
}

/// The merge rule: every row of every change that a join answers with is a
/// joined row. The left row has lost its join column and the right row
/// stands in full behind it, whichever side brought the change.
pub proof fn lemma_run_yields_joined_rows(m: JoinModel, side: Side, changes: Seq<ChangeModel>)
    requires
        m.valid(),
        all_rows_have(changes, m.col(side)),
    ensures
        m.run(side, changes).0.valid(),
        same_join(m, m.run(side, changes).0),
        m.run(side, changes).1.len() == changes.len(),
        forall|c: int, i: int|
            0 <= c < changes.len() && 0 <= i < m.run(side, changes).1[c].batch.len()
                ==> is_joined_row(
                #[trigger] m.run(side, changes).1[c].batch[i],
                m.left_col,
                m.right_col,
            ),
    decreases changes.len(),
{
    if changes.len() > 0 {
        let front = changes.drop_last();
        let last = changes.last();
        assert(all_rows_have(front, m.col(side))) by {
            assert forall|i: int, j: int|
                0 <= i < front.len() && 0 <= j < front[i].batch.len() implies m.col(side) < (
            #[trigger] front[i].batch[j]).len() by {
                assert(front[i] == changes[i]);
                assert(m.col(side) < changes[i].batch[j].len());
            }
        }
        lemma_run_yields_joined_rows(m, side, front);
        let (before, out) = m.run(side, front);
        assert forall|j: int| 0 <= j < last.batch.len() implies before.col(side) < (
        #[trigger] last.batch[j]).len() by {
            assert(m.col(side) < changes[changes.len() - 1].batch[j].len());
        }
        lemma_run_rows_keeps_valid(before, side, last.typing, last.batch);
        lemma_run_rows_yields_joined_rows(before, side, last.typing, last.batch);
        let all = m.run(side, changes).1;
        assert forall|c: int, i: int|
            0 <= c < changes.len() && 0 <= i < all[c].batch.len() implies is_joined_row(
            #[trigger] all[c].batch[i],
            m.left_col,
            m.right_col,
        ) by {
            if c < front.len() {
                assert(all[c] == out[c]);
            }
        }
    }
}

/// What a row yields for the join value `v`: all that it yields where it
/// holds `v` in the join column of its side, nothing where it holds another
/// value.
pub open spec fn yield_for(
    m: JoinModel,
    side: Side,
    typing: ChangeType,
    row: Seq<Value>,
    v: Value,
) -> Seq<Seq<Value>> {
    if row[m.col(side)] == v {
        m.step(side, typing, row).1
    } else {
        Seq::empty()
    }
}

/// An inserted row adds what it yields to the cross product of the live
/// rows of both sides.
pub proof fn lemma_insertion_keeps_cross_product(m: JoinModel, side: Side, row: Seq<Value>)
    requires
        m.valid(),
        m.col(side) < row.len(),
    ensures
        live_joined(m.step(side, ChangeType::Insertion, row).0, row[m.col(side)]) == live_joined(
            m,
            row[m.col(side)],
        ).add(m.step(side, ChangeType::Insertion, row).1.to_multiset()),
{
    let v = row[m.col(side)];
    let (next, out) = m.step(side, ChangeType::Insertion, row);
    let left = live_rows(m.left, v);
    let right = live_rows(m.right, v);
    let lc = m.left_col;
    match side {
        Side::Left => {
            assert(live_rows(next.left, v) == left.push(row));
            assert(live_rows(next.right, v) == right);
            lemma_cross_left_push(left, right, lc, row);
            assert(out =~= pairs_of_left(row, right, lc));
        },
        Side::Right => {
            assert(live_rows(next.right, v) == right.push(row));
            assert(live_rows(next.left, v) == left);
            lemma_cross_right_push(left, right, lc, row);
            assert(out =~= pairs_of_right(left, row, lc));
        },
    }
}

/// A deleted row takes what it yields out of the cross product of the live
/// rows of both sides, and what it yields was in it.
pub proof fn lemma_deletion_keeps_cross_product(m: JoinModel, side: Side, row: Seq<Value>)
    requires
        m.valid(),
        m.col(side) < row.len(),
    ensures
        m.step(side, ChangeType::Deletion, row).1.to_multiset().subset_of(
            live_joined(m, row[m.col(side)]),
        ),
        live_joined(m.step(side, ChangeType::Deletion, row).0, row[m.col(side)]) == live_joined(
            m,
            row[m.col(side)],
        ).sub(m.step(side, ChangeType::Deletion, row).1.to_multiset()),
{
    let v = row[m.col(side)];
    let (next, out) = m.step(side, ChangeType::Deletion, row);
    let left = live_rows(m.left, v);
    let right = live_rows(m.right, v);
    let lc = m.left_col;
    let own = m.own(side);
    let joined = live_joined(m, v);
    if live_rows(own, v).contains(row) {
        own[v].index_of_first_ensures(row);
        let i = own[v].index_of_first(row).unwrap();
        assert(own[v].remove_value(row) == own[v].remove(i));
        match side {
            Side::Left => {
                assert(live_rows(next.left, v) == left.remove(i));
                assert(live_rows(next.right, v) == right);
                lemma_cross_left_remove(left, right, lc, i);
                assert(out =~= pairs_of_left(left[i], right, lc));
            },
            Side::Right => {
                assert(live_rows(next.right, v) == right.remove(i));
                assert(live_rows(next.left, v) == left);
                lemma_cross_right_remove(left, right, lc, i);
                assert(out =~= pairs_of_right(left, right[i], lc));
            },
        }
    } else {
        lemma_nothing_changes_nothing(joined);
        out.to_multiset_ensures();
        assert(out.to_multiset() =~= Multiset::<Seq<Value>>::empty());
    }
}

/// Nothing added and nothing taken away leaves a multiset as it is.
pub proof fn lemma_nothing_changes_nothing(joined: Multiset<Seq<Value>>)
    ensures
        joined.add(Multiset::<Seq<Value>>::empty()) == joined,
        joined.sub(Multiset::<Seq<Value>>::empty()) == joined,
        Seq::<Seq<Value>>::empty().to_multiset() == Multiset::<Seq<Value>>::empty(),
        Multiset::<Seq<Value>>::empty().subset_of(joined),
{
    Seq::<Seq<Value>>::empty().to_multiset_ensures();
    assert(Seq::<Seq<Value>>::empty().to_multiset() =~= Multiset::<Seq<Value>>::empty());
    assert(joined.add(Multiset::<Seq<Value>>::empty()) =~= joined);
    assert(joined.sub(Multiset::<Seq<Value>>::empty()) =~= joined);
}

/// One row of either side, of either kind and of any join value keeps the
/// live joined rows of every join value `v` equal to the cross product of
/// the live rows of both sides under `v`: what the row yields for `v` is
/// what that cross product gains or loses.
pub proof fn lemma_step_keeps_cross_product(
    m: JoinModel,
    side: Side,
    typing: ChangeType,
    row: Seq<Value>,
    v: Value,
)
    requires
        m.valid(),
        m.col(side) < row.len(),
    ensures
        m.step(side, typing, row).0.valid(),
        same_join(m, m.step(side, typing, row).0),
        live_joined(m.step(side, typing, row).0, v) == net_of(
            live_joined(m, v),
            typing,
            yield_for(m, side, typing, row, v),
        ),
        typing == ChangeType::Deletion ==> yield_for(m, side, typing, row, v).to_multiset().subset_of(
            live_joined(m, v),
        ),
{
    lemma_step_keeps_valid(m, side, typing, row);
    if row[m.col(side)] == v {
        match typing {
            ChangeType::Insertion => lemma_insertion_keeps_cross_product(m, side, row),
            ChangeType::Deletion => lemma_deletion_keeps_cross_product(m, side, row),
        }
    } else {
        let next = m.step(side, typing, row).0;
        assert(live_rows(next.left, v) == live_rows(m.left, v));
        assert(live_rows(next.right, v) == live_rows(m.right, v));
        lemma_nothing_changes_nothing(live_joined(m, v));
    }
}

/// What the rows of a batch yield for the join value `v`, one after the
/// other.
pub open spec fn yield_of_rows(
    m: JoinModel,
    side: Side,
    typing: ChangeType,
    rows: Seq<Seq<Value>>,
    v: Value,
) -> Seq<Seq<Value>>
    decreases rows.len(),
{
    if rows.len() == 0 {
        Seq::empty()
    } else {
        yield_of_rows(m, side, typing, rows.drop_last(), v) + yield_for(
            m.run_rows(side, typing, rows.drop_last()).0,
            side,
            typing,
            rows.last(),
            v,
        )
    }
}

/// Where every row of a batch holds `v` in its join column, what the batch
/// yields for `v` is all that it yields.
pub proof fn lemma_yield_of_rows_of_one_value(
    m: JoinModel,
    side: Side,
    typing: ChangeType,
    rows: Seq<Seq<Value>>,
    v: Value,
)
    requires
        forall|j: int| 0 <= j < rows.len() ==> (#[trigger] rows[j])[m.col(side)] == v,
    ensures
        yield_of_rows(m, side, typing, rows, v) == m.run_rows(side, typing, rows).1,
    decreases rows.len(),
{
    if rows.len() > 0 {
        let front = rows.drop_last();
        assert forall|j: int| 0 <= j < front.len() implies (#[trigger] front[j])[m.col(side)] == v by {
            assert(front[j] == rows[j]);
        }
        lemma_yield_of_rows_of_one_value(m, side, typing, front, v);
        lemma_run_rows_keeps_join(m, side, typing, front);
        assert(rows[rows.len() - 1][m.col(side)] == v);
    }
}

/// A batch of rows of any join values keeps the live joined rows of every
/// join value equal to the cross product of the live rows of both sides.
pub proof fn lemma_rows_keep_cross_product(
    m: JoinModel,
    side: Side,
    typing: ChangeType,
    rows: Seq<Seq<Value>>,
    v: Value,
)
    requires
        m.valid(),
        forall|j: int| 0 <= j < rows.len() ==> m.col(side) < (#[trigger] rows[j]).len(),
    ensures
        m.run_rows(side, typing, rows).0.valid(),
        same_join(m, m.run_rows(side, typing, rows).0),
        live_joined(m.run_rows(side, typing, rows).0, v) == net_of(
            live_joined(m, v),
            typing,
            yield_of_rows(m, side, typing, rows, v),
        ),
        typing == ChangeType::Deletion ==> yield_of_rows(
            m,
            side,
            typing,
            rows,
            v,
        ).to_multiset().subset_of(live_joined(m, v)),
    decreases rows.len(),
{
    let joined = live_joined(m, v);
    if rows.len() == 0 {
        lemma_nothing_changes_nothing(joined);
    } else {
        let front = rows.drop_last();
        assert forall|j: int| 0 <= j < front.len() implies m.col(side) < (#[trigger] front[j]).len() by {
            assert(front[j] == rows[j]);
        }
        lemma_rows_keep_cross_product(m, side, typing, front, v);
        let before = m.run_rows(side, typing, front).0;
        let out = yield_of_rows(m, side, typing, front, v);
        assert(m.col(side) < rows[rows.len() - 1].len());
        lemma_step_keeps_cross_product(before, side, typing, rows.last(), v);
        let more = yield_for(before, side, typing, rows.last(), v);
        vstd::seq_lib::lemma_multiset_commutative(out, more);
        let a = out.to_multiset();
        let b = more.to_multiset();
        match typing {
            ChangeType::Insertion => {
                assert(joined.add(a).add(b) =~= joined.add(a.add(b)));
            },
            ChangeType::Deletion => {
                assert(b.subset_of(joined.sub(a)));
                assert(a.add(b).subset_of(joined));
                assert(joined.sub(a).sub(b) =~= joined.sub(a.add(b)));
            },
        }
    }
}

/// One change as it reaches a join: the side it is for and what it holds.
pub struct JoinEvent {
    pub side: Side,
    pub change: ChangeModel,
}

/// The join after the changes of `events`, each applied to its side, in
/// their order.
pub open spec fn join_after(m: JoinModel, events: Seq<JoinEvent>) -> JoinModel
    decreases events.len(),
{
    if events.len() == 0 {
        m
    } else {
        join_after(m, events.drop_last()).run_rows(
            events.last().side,
            events.last().change.typing,
            events.last().change.batch,
        ).0
    }
}

/// What stays of `joined` after the answers to `events`, as far as they
/// concern the join value `v`: the rows that inserted rows yield for `v`
/// added, the rows that deleted rows yield for `v` taken away.
pub open spec fn joined_after(
    m: JoinModel,
    joined: Multiset<Seq<Value>>,
    events: Seq<JoinEvent>,
    v: Value,
) -> Multiset<Seq<Value>>
    decreases events.len(),
{
    if events.len() == 0 {
        joined
    } else {
        net_of(
            joined_after(m, joined, events.drop_last(), v),
            events.last().change.typing,
            yield_of_rows(
                join_after(m, events.drop_last()),
                events.last().side,
                events.last().change.typing,
                events.last().change.batch,
                v,
            ),
        )
    }
}

/// Every row of every event has the join column of its side.
pub open spec fn events_fit(m: JoinModel, events: Seq<JoinEvent>) -> bool {
    forall|e: int, j: int|
        0 <= e < events.len() && 0 <= j < events[e].change.batch.len() ==> m.col(events[e].side) < (
        #[trigger] events[e].change.batch[j]).len()
}

/// Join correctness: whatever the order in which insertions and deletions
/// reach the two sides, and whatever join values their rows hold, the
/// joined rows of each join value that have been inserted and not deleted
/// again are at every point the cross product of the live left rows and the
/// live right rows under that value.
pub proof fn lemma_interleaving_keeps_cross_product(m: JoinModel, events: Seq<JoinEvent>, v: Value)
    requires
        m.valid(),
        events_fit(m, events),
    ensures
        join_after(m, events).valid(),
        same_join(m, join_after(m, events)),
        live_joined(join_after(m, events), v) == joined_after(m, live_joined(m, v), events, v),
    decreases events.len(),
{
    if events.len() > 0 {
        let front = events.drop_last();
        let last = events.last();
        assert(events_fit(m, front)) by {
            assert forall|e: int, j: int|
                0 <= e < front.len() && 0 <= j < front[e].change.batch.len() implies m.col(
                front[e].side,
            ) < (#[trigger] front[e].change.batch[j]).len() by {
                assert(front[e] == events[e]);
                assert(m.col(events[e].side) < events[e].change.batch[j].len());
            }
        }
        lemma_interleaving_keeps_cross_product(m, front, v);
        let before = join_after(m, front);
        assert forall|j: int| 0 <= j < last.change.batch.len() implies before.col(last.side) < (
        #[trigger] last.change.batch[j]).len() by {
            assert(m.col(events[events.len() - 1].side) < events[events.len()
                - 1].change.batch[j].len());
        }
        lemma_rows_keep_cross_product(before, last.side, last.change.typing, last.change.batch, v);
    }
}

/// A join that holds no rows has no live joined rows: from there on, the
/// joined rows of a join value that were inserted and not deleted again are
/// the cross product of the live rows under it.
pub proof fn lemma_interleaving_from_nothing(m: JoinModel, events: Seq<JoinEvent>, v: Value)
    requires
        0 <= m.left_col,
        0 <= m.right_col,
        m.left == Map::<Value, Seq<Seq<Value>>>::empty(),
        m.right == Map::<Value, Seq<Seq<Value>>>::empty(),
        events_fit(m, events),
    ensures
        live_joined(join_after(m, events), v) == joined_after(
            m,
            Multiset::<Seq<Value>>::empty(),
            events,
            v,
        ),
{
    lemma_interleaving_keeps_cross_product(m, events, v);
}

/// The join whose parents and columns are given and whose side `side` holds
/// `own`, the other side `other`.
pub open spec fn join_of(
    config: JoinModel,
    side: Side,
    own: JoinIndex,
    other: JoinIndex,
) -> JoinModel {
    match side {
        Side::Left => JoinModel { left: own, right: other, ..config },
        Side::Right => JoinModel { left: other, right: own, ..config },
    }
}

/// Lets one row of a change act on the index of its side and appends the
/// joined rows that it yields to `batch`.
fn step_row(
    own: &mut Table<DataType, Vec<Row>>,
    other: &Table<DataType, Vec<Row>>,
    config: Ghost<JoinModel>,
    side: Side,
    typing: ChangeType,
    row: &Row,
    col: usize,
    left_col: usize,
    batch: &mut Vec<Row>,
)
    requires
        join_of(config@, side, old(own).map(), other.map()).valid(),
        config@.left_col == left_col,
        config@.col(side) == col,
        col < row@.len(),
    ensures
        ({
            let before = join_of(config@, side, old(own).map(), other.map());
            let (after, more) = before.step(side, typing, row@);
            &&& after == join_of(config@, side, final(own).map(), other.map())
            &&& after.valid()
            &&& final(batch).deep_view() == old(batch).deep_view() + more
        }),
{
    let ghost before = join_of(config@, side, old(own).map(), other.map());
    let ghost v = row@[col as int];
    assert(before.own(side) == old(own).map());
    assert(row@[col as int] == row.data@[col as int]@);
    let key = row.data[col].clone();
    let key_again = row.data[col].clone();
    match typing {
        ChangeType::Insertion => {
            let mut bucket = match own.remove(&key) {
                Some(b) => b,
                None => Vec::new(),
            };
            assert(bucket.deep_view() =~= live_rows(old(own).map(), v));
            let ghost held = bucket.deep_view();
            bucket.push(row.clone());
            assert(bucket.deep_view() =~= held.push(row@));
            own.insert(key, bucket);
            assert(own.map() =~= old(own).map().insert(v, held.push(row@)));
        },
        ChangeType::Deletion => {
            let found = match own.get(&key) {
                Some(bucket) => first_occurrence(bucket, row),
                None => None,
            };
            proof {
                live_rows(old(own).map(), v).index_of_first_ensures(row@);
            }
            let at = match found {
                Some(i) => i,
                None => {
                    assert(!live_rows(old(own).map(), v).contains(row@));
                    assert(batch.deep_view() + Seq::<Seq<Value>>::empty() =~= batch.deep_view());
                    return ;
                },
            };
            match own.remove(&key) {
                Some(b) => {
                    let mut bucket = b;
                    let ghost held = bucket.deep_view();
                    bucket.remove(at);
                    assert(bucket.deep_view() =~= held.remove(at as int));
                    assert forall|k: int| 0 <= k < bucket.deep_view().len() implies col < (
                    #[trigger] bucket.deep_view()[k]).len() && bucket.deep_view()[k][col as int]
                        == v by {
                        let k1 = if k < at {
                            k
                        } else {
                            k + 1
                        };
                        assert(bucket.deep_view()[k] == held[k1]);
                        assert(held[k1] == old(own).map()[v][k1]);
                    }
                    assert(bucket.deep_view() == held.remove_value(row@));
                    own.insert(key, bucket);
                    assert(own.map() =~= old(own).map().insert(v, held.remove_value(row@)));
                },
                None => {
                    return ;
                },
            }
        },
    }
    let ghost (after, more) = before.step(side, typing, row@);
    assert(after == join_of(config@, side, own.map(), other.map()));
    assert(index_keyed(own.map(), col as int)) by {
        assert forall|w: Value, k: int|
            own.map().contains_key(w) && 0 <= k < own.map()[w].len() implies col < (
        #[trigger] own.map()[w][k]).len() && own.map()[w][k][col as int] == w by {
            if w != v {
                assert(old(own).map().contains_key(w));
                assert(own.map()[w][k] == old(own).map()[w][k]);
            } else if typing == ChangeType::Insertion {
                let held = live_rows(old(own).map(), v);
                if k < held.len() {
                    assert(own.map()[w][k] == old(own).map()[v][k]);
                }
            }
        }
    }
    match other.get(&key_again) {
        None => {
            assert(more =~= Seq::<Seq<Value>>::empty());
            assert(batch.deep_view() + more =~= batch.deep_view());
        },
        Some(others) => {
            let ghost start = batch.deep_view();
            assert(others.deep_view() == live_rows(other.map(), v));
            let mut i: usize = 0;
            while i < others.len()
                invariant
                    i <= others@.len(),
                    col < row@.len(),
                    config@.left_col == left_col,
                    config@.col(side) == col,
                    others.deep_view() == live_rows(other.map(), v),
                    v == row@[col as int],
                    other.map().contains_key(v),
                    join_of(config@, side, old(own).map(), other.map()).valid(),
                    before == join_of(config@, side, old(own).map(), other.map()),
                    more == before.pairs(side, row@),
                    batch.deep_view() == start + more.subrange(0, i as int),
                decreases others@.len() - i,
            {
                let s = &others[i];
                assert(others.deep_view()[i as int] == s@);
                let joined = match side {
                    Side::Left => merge_rows(row, s, left_col),
                    Side::Right => {
                        assert(before.left == other.map());
                        assert(other.map()[v][i as int] == s@);
                        merge_rows(s, row, left_col)
                    },
                };
                assert(joined@ == more[i as int]);
                let ghost held = batch.deep_view();
                batch.push(joined);
                assert(batch.deep_view() =~= held.push(joined@));
                assert(more.subrange(0, i + 1) =~= more.subrange(0, i as int).push(more[i as int]));
                assert(batch.deep_view() =~= start + more.subrange(0, i + 1));
                i += 1;
            }
            assert(more.subrange(0, i as int) =~= more);
        },
    }
}

/// An incremental join of two parents on one column of each. It keeps the
/// live rows of both sides and answers each change with the joined rows that
/// the change adds or takes away.
#[derive(Debug)]
pub struct InnerJoin {
    parent_ids: Vec<usize>,
    left_state: Table<DataType, Vec<Row>>,
    right_state: Table<DataType, Vec<Row>>,
    join_cols: Vec<usize>,
}

impl View for InnerJoin {
    type V = JoinModel;

    closed spec fn view(&self) -> JoinModel {
        JoinModel {
            left_parent: self.parent_ids@[0] as int,
            right_parent: self.parent_ids@[1] as int,
            left_col: self.join_cols@[0] as int,
            right_col: self.join_cols@[1] as int,
            left: self.left_state.map(),
            right: self.right_state.map(),
        }
    }
}

impl InnerJoin {
    #[verifier::type_invariant]
    closed spec fn inv(&self) -> bool {
        &&& self.parent_ids@.len() == 2
        &&& self.join_cols@.len() == 2
        &&& self@.valid()
    }

    /// A join of the parents `parent_ids[0]` (left) and `parent_ids[1]`
    /// (right) on the columns `join_cols[0]` and `join_cols[1]`, with nothing
    /// live on either side. The two parents must differ.
    pub fn new(parent_ids: Vec<usize>, join_cols: Vec<usize>) -> (r: Result<InnerJoin, Error>)
        ensures
            match r {
                Ok(join) => {
                    &&& parent_ids@.len() == 2
                    &&& join_cols@.len() == 2
                    &&& parent_ids@[0] != parent_ids@[1]
                    &&& join@ == (JoinModel {
                        left_parent: parent_ids@[0] as int,
                        right_parent: parent_ids@[1] as int,
                        left_col: join_cols@[0] as int,
                        right_col: join_cols@[1] as int,
                        left: Map::empty(),
                        right: Map::empty(),
                    })
                },
                Err(e) => e == Error::MalformedSpec && !(parent_ids@.len() == 2 && join_cols@.len()
                    == 2 && parent_ids@[0] != parent_ids@[1]),
            },
    {
        if parent_ids.len() != 2 || join_cols.len() != 2 {
            return Err(Error::MalformedSpec);
        }
        if parent_ids[0] == parent_ids[1] {
            return Err(Error::MalformedSpec);
        }
        Ok(
            InnerJoin {
                parent_ids,
                left_state: Table::new(),
                right_state: Table::new(),
                join_cols,
            },
        )
    }

    /// The vertex whose changes are the left side.
    pub fn left_parent(&self) -> (p: usize)
        ensures
            p == self@.left_parent,
    {
        proof {
            use_type_invariant(self);
        }
        self.parent_ids[0]
    }

    /// The vertex whose changes are the right side.
    pub fn right_parent(&self) -> (p: usize)
        ensures
            p == self@.right_parent,
    {
        proof {
            use_type_invariant(self);
        }
        self.parent_ids[1]
    }

    /// The live rows of `side` whose join value is `key`, oldest first.
    pub fn live(&self, side: Side, key: &DataType) -> (rows: Vec<Row>)
        ensures
            rows.deep_view() == live_rows(self@.own(side), key@),
    {
        let own = match side {
            Side::Left => &self.left_state,
            Side::Right => &self.right_state,
        };
        match own.get(key) {
            Some(held) => {
                let rows = held.clone();
                assert(rows.deep_view() =~= held.deep_view());
                rows
            },
            None => {
                let rows: Vec<Row> = Vec::new();
                assert(rows.deep_view() =~= Seq::<Seq<Value>>::empty());
                rows
            },
        }
    }

    fn take_left(&mut self) -> (t: Table<DataType, Vec<Row>>)
        ensures
            t.map() == old(self)@.left,
            final(self)@ == (JoinModel { left: Map::empty(), ..old(self)@ }),
    {
        proof {
            use_type_invariant(&*self);
        }
        let mut t: Table<DataType, Vec<Row>> = Table::new();
        core::mem::swap(&mut t, &mut self.left_state);
        t
    }

    fn take_right(&mut self) -> (t: Table<DataType, Vec<Row>>)
        ensures
            t.map() == old(self)@.right,
            final(self)@ == (JoinModel { right: Map::empty(), ..old(self)@ }),
    {
        proof {
            use_type_invariant(&*self);
        }
        let mut t: Table<DataType, Vec<Row>> = Table::new();
        core::mem::swap(&mut t, &mut self.right_state);
        t
    }

    /// Applies the changes that vertex `p_id` sends: as the left side where
    /// `p_id` is the left parent, as the right side otherwise. Each change is
    /// answered by one change of the same kind with the joined rows of its
    /// batch. Where a row lacks the join column of its side, nothing is
    /// changed and the call fails.
    pub fn apply_join(&mut self, prev_change_vec: Vec<Change>, p_id: usize) -> (r: Result<
        Vec<Change>,
        Error,
    >)
        ensures
            old(self)@.valid(),
            final(self)@.valid(),
            ({
                let side = old(self)@.side_of(p_id as int);
                let acceptable = all_rows_have(prev_change_vec.deep_view(), old(self)@.col(side));
                match r {
                    Ok(out) => acceptable && (final(self)@, out.deep_view()) == old(self)@.run(
                        side,
                        prev_change_vec.deep_view(),
                    ),
                    Err(e) => e == Error::RowShapeMismatch && !acceptable && final(self)@ == old(
                        self,
                    )@,
                }
            }),
    {
        proof {
            use_type_invariant(&*self);
        }
        let side = if p_id == self.parent_ids[0] {
            Side::Left
        } else {
            Side::Right
        };
        let left_col = self.join_cols[0];
        let col = match side {
            Side::Left => self.join_cols[0],
            Side::Right => self.join_cols[1],
        };
        if !rows_have_column(&prev_change_vec, col) {
            return Err(Error::RowShapeMismatch);
        }
        let ghost start = self@;
        let ghost changes = prev_change_vec.deep_view();
        let mut left = self.take_left();
        let mut right = self.take_right();
        let mut out: Vec<Change> = Vec::new();
        let mut c: usize = 0;
        assert(changes.take(0) =~= Seq::<ChangeModel>::empty());
        assert(out.deep_view() =~= Seq::<ChangeModel>::empty());
        while c < prev_change_vec.len()
            invariant
                c <= prev_change_vec@.len(),
                changes == prev_change_vec.deep_view(),
                start.valid(),
                start.col(side) == col,
                start.left_col == left_col,
                all_rows_have(changes, col as int),
                (JoinModel { left: left.map(), right: right.map(), ..start }).valid(),
                (JoinModel { left: left.map(), right: right.map(), ..start }, out.deep_view())
                    == start.run(side, changes.take(c as int)),
            decreases prev_change_vec@.len() - c,
        {
            let change = &prev_change_vec[c];
            assert(changes[c as int] == change@);
            let ghost rows = change@.batch;
            let ghost entered = JoinModel { left: left.map(), right: right.map(), ..start };
            let mut batch: Vec<Row> = Vec::new();
            let mut j: usize = 0;
            assert(rows.take(0) =~= Seq::<Seq<Value>>::empty());
            assert(batch.deep_view() =~= Seq::<Seq<Value>>::empty());
            while j < change.batch.len()
                invariant
                    j <= change.batch@.len(),
                    c < prev_change_vec@.len(),
                    changes == prev_change_vec.deep_view(),
                    changes[c as int] == change@,
                    rows == change@.batch,
                    start.col(side) == col,
                    start.left_col == left_col,
                    entered.left_col == start.left_col,
                    entered.right_col == start.right_col,
                    entered.left_parent == start.left_parent,
                    entered.right_parent == start.right_parent,
                    all_rows_have(changes, col as int),
                    (JoinModel { left: left.map(), right: right.map(), ..start }).valid(),
                    (JoinModel { left: left.map(), right: right.map(), ..start }, batch.deep_view())
                        == entered.run_rows(side, change.typing, rows.take(j as int)),
                decreases change.batch@.len() - j,
            {
                let row = &change.batch[j];
                assert(rows[j as int] == row@);
                assert(col < changes[c as int].batch[j as int].len());
                let ghost held = JoinModel { left: left.map(), right: right.map(), ..start };
                match side {
                    Side::Left => {
                        assert(join_of(start, side, left.map(), right.map()) == held);
                        step_row(
                            &mut left,
                            &right,
                            Ghost(start),
                            side,
                            change.typing,
                            row,
                            col,
                            left_col,
                            &mut batch,
                        );
                        assert(join_of(start, side, left.map(), right.map()) == (JoinModel {
                            left: left.map(),
                            right: right.map(),
                            ..start
                        }));
                    },
                    Side::Right => {
                        assert(join_of(start, side, right.map(), left.map()) == held);
                        step_row(
                            &mut right,
                            &left,
                            Ghost(start),
                            side,
                            change.typing,
                            row,
                            col,
                            left_col,
                            &mut batch,
                        );
                        assert(join_of(start, side, right.map(), left.map()) == (JoinModel {
                            left: left.map(),
                            right: right.map(),
                            ..start
                        }));
                    },
                }
                assert(rows.take(j + 1).drop_last() =~= rows.take(j as int));
                assert(rows.take(j + 1).last() == rows[j as int]);
                j += 1;
            }
            assert(rows.take(j as int) =~= rows);
            let ghost held = out.deep_view();
            let answer = Change { typing: change.typing, batch };
            let ghost answered = answer@;
            out.push(answer);
            assert(out.deep_view() =~= held.push(answered));
            assert(changes.take(c + 1).drop_last() =~= changes.take(c as int));
            assert(changes.take(c + 1).last() == changes[c as int]);
            c += 1;
        }
        assert(changes.take(c as int) =~= changes);
        proof {
            use_type_invariant(&*self);
            assert(self@ == (JoinModel { left: Map::empty(), right: Map::empty(), ..start }));
        }
        self.left_state = left;
        self.right_state = right;
        Ok(out)
    }
}

impl Operator for InnerJoin {
    open spec fn model(&self) -> OperationModel {
        OperationModel::InnerJoinor(self@)
    }

    /// A join does not know from `apply` alone which side a change is for:
    /// it hands the changes back as they came and leaves its state alone.
    fn apply(&mut self, prev_change_vec: Vec<Change>) -> (r: Result<Vec<Change>, Error>)
        ensures
            r == Ok::<Vec<Change>, Error>(prev_change_vec),
            final(self)@ == old(self)@,
    {
        Ok(prev_change_vec)
    }

    /// Applies the changes as those of the side that `parent_index` stands
    /// for and hands on the joined rows.
    fn process_change(&mut self, change: Vec<Change>, parent_index: usize) -> (r: Result<
        Propagation,
        Error,
    >)
        ensures
            ({
                let side = old(self)@.side_of(parent_index as int);
                let acceptable = all_rows_have(change.deep_view(), old(self)@.col(side));
                match r {
                    Ok(p) => acceptable && final(self)@ == old(self)@.run(side, change.deep_view()).0
                        && p@ == (PropagationModel {
                        forward: old(self)@.run(side, change.deep_view()).1,
                        deliveries: Seq::empty(),
                    }),
                    Err(e) => e == Error::RowShapeMismatch && !acceptable && final(self)@ == old(
                        self,
                    )@,
                }
            }),
    {
        match self.apply_join(change, parent_index) {
            Ok(forward) => Ok(hand_on(forward)),
            Err(e) => Err(e),
        }
    }
}

} // verus!
