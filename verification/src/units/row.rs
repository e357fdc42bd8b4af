//! Rows and the picking of columns.

use vstd::prelude::*;
use vstd::std_specs::cmp::PartialEqSpec;
use crate::types::datatype::DataType;
use crate::types::datatype::Value;

verus! {

/// A fixed-width sequence of values.
#[derive(Debug, Eq, Hash)]
pub struct Row {
    pub data: Vec<DataType>,
}

impl View for Row {
    type V = Seq<Value>;

    open spec fn view(&self) -> Seq<Value> {
        self.data.deep_view()
    }
}

impl DeepView for Row {
    type V = Seq<Value>;

    open spec fn deep_view(&self) -> Seq<Value> {
        self@
    }
}

impl Clone for Row {
    fn clone(&self) -> (r: Self)
        ensures
            r@ == self@,
    {
        let data = self.data.clone();
        assert(data.deep_view() =~= self.data.deep_view());
        Row { data }
    }
}

impl PartialEq for Row {
    fn eq(&self, other: &Self) -> (r: bool) {
        let same = self.data == other.data;
        proof {
            assert(self@.len() == self.data@.len());
            assert(other@.len() == other.data@.len());
            if self@ == other@ {
                assert forall|i: int| 0 <= i < self.data@.len() implies #[trigger] self.data@[i].eq_spec(
                    &other.data@[i],
                ) by {
                    assert(self@[i] == self.data@[i]@);
                    assert(other@[i] == other.data@[i]@);
                }
            }
            if same {
                assert forall|i: int| 0 <= i < self@.len() implies self@[i] == other@[i] by {
                    assert(self.data@[i].eq_spec(&other.data@[i]));
                }
                assert(self@ =~= other@);
            }
        }
        same
    }
}

impl vstd::std_specs::cmp::PartialEqSpecImpl for Row {
    open spec fn obeys_eq_spec() -> bool {
        true
    }

    open spec fn eq_spec(&self, other: &Self) -> bool {
        self@ == other@
    }
}

impl Row {
    pub fn new(data: Vec<DataType>) -> (r: Row)
        ensures
            r.data == data,
    {
        Row { data }
    }

    /// Replaces the value at `index`.
    pub fn update_index(&mut self, index: usize, update: DataType)
        requires
            index < old(self)@.len(),
        ensures
            final(self)@ == old(self)@.update(index as int, update@),
    {
        self.data[index] = update;
        assert(self@ =~= old(self)@.update(index as int, update@));
    }
}

/// The row has all the columns `cols`.
pub open spec fn fits(row: Seq<Value>, cols: Seq<usize>) -> bool {
    forall|c: int| 0 <= c < cols.len() ==> (#[trigger] cols[c]) < row.len()
}

/// The values of the columns `cols` of `row`, in the order of `cols`.
pub open spec fn picked(row: Seq<Value>, cols: Seq<usize>) -> Seq<Value> {
    Seq::new(cols.len(), |c: int| row[cols[c] as int])
}

impl Row {
    /// Copies of the values of the columns `cols`, in the order of `cols`.
    pub fn pick(&self, cols: &Vec<usize>) -> (r: Vec<DataType>)
        requires
            fits(self@, cols@),
        ensures
            r.deep_view() == picked(self@, cols@),
    {
        let mut r: Vec<DataType> = Vec::new();
        let mut c: usize = 0;
        while c < cols.len()
            invariant
                c <= cols@.len(),
                fits(self@, cols@),
                self@.len() == self.data@.len(),
                r@.len() == c,
                forall|k: int| 0 <= k < c ==> r@[k]@ == self@[cols@[k] as int],
            decreases cols@.len() - c,
        {
            let col = cols[c];
            assert(cols@[c as int] < self@.len());
            assert(self@[col as int] == self.data@[col as int]@);
            r.push(self.data[col].clone());
            c += 1;
        }
        assert(r.deep_view() =~= picked(self@, cols@));
        r
    }
}

/// The text that the pretty debug format prints for a row.
pub uninterp spec fn row_debug_text(row: Seq<Value>) -> Seq<char>;

/// `format!` with the pretty debug format `{:#?}`, which for a row prints
/// what the derived `Debug` of `Row` and `DataType` writes: a text that the
/// values of the row determine.
#[verifier::external_body]
fn debug_text(row: &Row) -> (s: String)
    ensures
        s@ == row_debug_text(row@),
{
    format!("{:#?}", row)
}

impl Row {
    /// The row in the pretty debug format.
    pub fn to_text(&self) -> (s: String)
        ensures
            s@ == row_debug_text(self@),
    {
        debug_text(self)
    }
}

} // verus!
