//! Changes: batches of rows that are inserted or deleted together.

use vstd::prelude::*;
use vstd::std_specs::cmp::PartialEqSpec;
use crate::types::changetype::ChangeType;
use crate::types::datatype::Value;
use crate::units::row::Row;
use crate::units::row::fits;

verus! {

/// The mathematical value of a `Change`: its kind and its rows, in order.
pub struct ChangeModel {
    pub typing: ChangeType,
    pub batch: Seq<Seq<Value>>,
}

/// A batch of rows that are all inserted or all deleted. The batch is a
/// multiset written down in some order: a row that stands twice counts twice.
#[derive(Debug, Eq)]
pub struct Change {
    pub typing: ChangeType,
    pub batch: Vec<Row>,
}

impl View for Change {
    type V = ChangeModel;

    open spec fn view(&self) -> ChangeModel {
        ChangeModel { typing: self.typing, batch: self.batch.deep_view() }
    }
}

impl DeepView for Change {
    type V = ChangeModel;

    open spec fn deep_view(&self) -> ChangeModel {
        self@
    }
}

impl Clone for Change {
    fn clone(&self) -> (r: Self)
        ensures
            r@ == self@,
    {
        let batch = self.batch.clone();
        assert(batch.deep_view() =~= self.batch.deep_view());
        Change { typing: self.typing, batch }
    }
}

impl PartialEq for Change {
    fn eq(&self, other: &Self) -> (r: bool) {
        let same = self.typing == other.typing && self.batch == other.batch;
        proof {
            let a = self.batch;
            let b = other.batch;
            assert(a.deep_view().len() == a@.len());
            assert(b.deep_view().len() == b@.len());
            if a.deep_view() == b.deep_view() {
                assert forall|i: int| 0 <= i < a@.len() implies #[trigger] a@[i].eq_spec(&b@[i]) by {
                    assert(a.deep_view()[i] == a@[i]@);
                    assert(b.deep_view()[i] == b@[i]@);
                }
            }
            if a.eq_spec(&b) {
                assert forall|i: int| 0 <= i < a@.len() implies a.deep_view()[i] == b.deep_view()[i] by {
                    assert(a@[i].eq_spec(&b@[i]));
                }
                assert(a.deep_view() =~= b.deep_view());
            }
        }
        same
    }
}

impl vstd::std_specs::cmp::PartialEqSpecImpl for Change {
    open spec fn obeys_eq_spec() -> bool {
        true
    }

    open spec fn eq_spec(&self, other: &Self) -> bool {
        self@ == other@
    }
}

impl Change {
    pub fn new(typing: ChangeType, batch: Vec<Row>) -> (r: Change)
        ensures
            r.typing == typing,
            r.batch == batch,
    {
        Change { typing, batch }
    }
}

/// Every row of every change has the column `col`.
pub open spec fn all_rows_have(changes: Seq<ChangeModel>, col: int) -> bool {
    forall|i: int, j: int|
        0 <= i < changes.len() && 0 <= j < changes[i].batch.len() ==> col < (
        #[trigger] changes[i].batch[j]).len()
}

/// Whether every row of every change has the column `col`.
pub fn rows_have_column(changes: &Vec<Change>, col: usize) -> (b: bool)
    ensures
        b == all_rows_have(changes.deep_view(), col as int),
{
    let mut i: usize = 0;
    while i < changes.len()
        invariant
            i <= changes@.len(),
            forall|a: int, j: int|
                0 <= a < i && 0 <= j < changes.deep_view()[a].batch.len() ==> col < (
                #[trigger] changes.deep_view()[a].batch[j]).len(),
        decreases changes@.len() - i,
    {
        let change = &changes[i];
        assert(changes.deep_view()[i as int] == change@);
        let mut j: usize = 0;
        while j < change.batch.len()
            invariant
                j <= change.batch@.len(),
                i < changes@.len(),
                changes.deep_view()[i as int] == change@,
                forall|b: int| 0 <= b < j ==> col < (#[trigger] change@.batch[b]).len(),
            decreases change.batch@.len() - j,
        {
            assert(change@.batch[j as int] == change.batch@[j as int]@);
            assert(change.batch@[j as int]@.len() == change.batch@[j as int].data@.len());
            if change.batch[j].data.len() <= col {
                assert(!(col < changes.deep_view()[i as int].batch[j as int].len()));
                return false;
            }
            j += 1;
        }
        i += 1;
    }
    true
}

/// Every row of every change has all the columns `cols`.
pub open spec fn all_rows_fit(changes: Seq<ChangeModel>, cols: Seq<usize>) -> bool {
    forall|i: int, j: int|
        0 <= i < changes.len() && 0 <= j < changes[i].batch.len() ==> fits(
            #[trigger] changes[i].batch[j],
            cols,
        )
}

/// Whether every row of every change has all the columns `cols`.
pub fn rows_have_columns(changes: &Vec<Change>, cols: &Vec<usize>) -> (b: bool)
    ensures
        b == all_rows_fit(changes.deep_view(), cols@),
{
    let mut k: usize = 0;
    while k < cols.len()
        invariant
            k <= cols@.len(),
            forall|c: int| 0 <= c < k ==> all_rows_have(changes.deep_view(), #[trigger] cols@[c] as int),
        decreases cols@.len() - k,
    {
        if !rows_have_column(changes, cols[k]) {
            proof {
                let m = changes.deep_view();
                let (i, j) = choose|i: int, j: int|
                    0 <= i < m.len() && 0 <= j < m[i].batch.len() && !(cols@[k as int] < (
                    #[trigger] m[i].batch[j]).len());
                assert(!fits(m[i].batch[j], cols@));
            }
            return false;
        }
        k += 1;
    }
    proof {
        let m = changes.deep_view();
        assert forall|i: int, j: int| 0 <= i < m.len() && 0 <= j < m[i].batch.len() implies fits(
            #[trigger] m[i].batch[j],
            cols@,
        ) by {
            assert forall|c: int| 0 <= c < cols@.len() implies (#[trigger] cols@[c]) < m[i].batch[j].len() by {
                assert(all_rows_have(m, cols@[c] as int));
            }
        }
    }
    true
}

} // verus!
