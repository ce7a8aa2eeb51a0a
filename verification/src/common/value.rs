//! Scalar values, rows and stream chunks.

use vstd::prelude::*;

verus! {

/// A non-null value of a column.
///
/// Types without a variant of their own are held as the bytes by which they are ordered: text by
/// its UTF-8 encoding, decimals and floating-point numbers by their memory-comparable encoding.
#[derive(Debug, PartialEq, Eq)]
pub enum ScalarImpl {
    Bool(bool),
    Int16(i16),
    Int32(i32),
    Int64(i64),
    Bytes(Vec<u8>),
}

/// What a [`ScalarImpl`] stands for.
pub enum ScalarValue {
    Bool(bool),
    Int16(i16),
    Int32(i32),
    Int64(i64),
    Bytes(Seq<u8>),
}

impl View for ScalarImpl {
    type V = ScalarValue;

    open spec fn view(&self) -> ScalarValue {
        match *self {
            ScalarImpl::Bool(b) => ScalarValue::Bool(b),
            ScalarImpl::Int16(i) => ScalarValue::Int16(i),
            ScalarImpl::Int32(i) => ScalarValue::Int32(i),
            ScalarImpl::Int64(i) => ScalarValue::Int64(i),
            ScalarImpl::Bytes(bytes) => ScalarValue::Bytes(bytes@),
        }
    }
}

impl Clone for ScalarImpl {
    fn clone(&self) -> (result: Self)
        ensures
            result@ == self@,
    {
        match self {
            ScalarImpl::Bool(b) => ScalarImpl::Bool(*b),
            ScalarImpl::Int16(i) => ScalarImpl::Int16(*i),
            ScalarImpl::Int32(i) => ScalarImpl::Int32(*i),
            ScalarImpl::Int64(i) => ScalarImpl::Int64(*i),
            ScalarImpl::Bytes(bytes) => {
                let copy = vstd::slice::slice_to_vec(bytes.as_slice());
                ScalarImpl::Bytes(copy)
            },
        }
    }
}

/// A value of a column, or null.
pub type Datum = Option<ScalarImpl>;

/// What a [`Datum`] stands for.
pub type DatumValue = Option<ScalarValue>;

pub open spec fn datum_value(datum: Datum) -> DatumValue {
    match datum {
        Some(scalar) => Some(scalar@),
        None => None,
    }
}

pub fn clone_datum(datum: &Datum) -> (result: Datum)
    ensures
        datum_value(result) == datum_value(*datum),
{
    match datum {
        Some(scalar) => Some(scalar.clone()),
        None => None,
    }
}

/// A row: one datum for each column.
#[derive(Debug, PartialEq, Eq)]
pub struct Row(pub Vec<Datum>);

impl View for Row {
    type V = Seq<DatumValue>;

    open spec fn view(&self) -> Seq<DatumValue> {
        self.0@.map_values(|datum: Datum| datum_value(datum))
    }
}

impl Clone for Row {
    fn clone(&self) -> (result: Self)
        ensures
            result@ == self@,
    {
        let mut data: Vec<Datum> = Vec::with_capacity(self.0.len());
        let mut i: usize = 0;
        while i < self.0.len()
            invariant
                i <= self.0.len(),
                data.len() == i,
                forall|j: int| 0 <= j < i ==> datum_value(#[trigger] data@[j]) == datum_value(self.0@[j]),
            decreases self.0.len() - i,
        {
            data.push(clone_datum(&self.0[i]));
            i = i + 1;
        }
        let result = Row(data);
        assert(result@ =~= self@);
        result
    }
}

impl Row {
    /// The data of the columns `indices`, in that order.
    pub open spec fn selected(row: Seq<DatumValue>, indices: Seq<usize>) -> Seq<DatumValue> {
        indices.map_values(|index: usize| row[index as int])
    }

    /// Whether every one of `indices` names a column of a row with `width` columns.
    pub open spec fn within(indices: Seq<usize>, width: nat) -> bool {
        forall|i: int| 0 <= i < indices.len() ==> #[trigger] indices[i] < width
    }

    /// Whether every one of `indices` names a column of this row.
    pub fn has_columns(&self, indices: &Vec<usize>) -> (result: bool)
        ensures
            result == Row::within(indices@, self@.len()),
    {
        let mut i: usize = 0;
        while i < indices.len()
            invariant
                i <= indices.len(),
                forall|j: int| 0 <= j < i ==> #[trigger] indices@[j] < self@.len(),
            decreases indices.len() - i,
        {
            if indices[i] >= self.0.len() {
                return false;
            }
            i = i + 1;
        }
        true
    }

    /// The data of the columns `indices`, in that order.
    pub fn row_by_indices(&self, indices: &Vec<usize>) -> (result: Row)
        requires
            Row::within(indices@, self@.len()),
        ensures
            result@ == Row::selected(self@, indices@),
    {
        let mut data: Vec<Datum> = Vec::with_capacity(indices.len());
        let mut i: usize = 0;
        while i < indices.len()
            invariant
                i <= indices.len(),
                Row::within(indices@, self@.len()),
                data.len() == i,
                forall|j: int| 0 <= j < i ==> datum_value(#[trigger] data@[j]) == self@[indices@[j] as int],
            decreases indices.len() - i,
        {
            data.push(clone_datum(&self.0[indices[i]]));
            i = i + 1;
        }
        let result = Row(data);
        assert(result@ =~= Row::selected(self@, indices@));
        result
    }
}

/// What happens to a row of a stream.
#[derive(Debug, Clone, Copy, PartialEq, Eq, Structural)]
pub enum Op {
    Insert,
    Delete,
    UpdateDelete,
    UpdateInsert,
}

/// A batch of changes, in the order in which they happen.
#[derive(Debug, PartialEq, Eq)]
pub struct StreamChunk {
    pub rows: Vec<(Op, Row)>,
}

/// A change: what happens, and the row that it happens to.
pub type Change = (Op, Seq<DatumValue>);

pub open spec fn change_of(entry: (Op, Row)) -> Change {
    (entry.0, entry.1@)
}

impl View for StreamChunk {
    type V = Seq<Change>;

    open spec fn view(&self) -> Seq<Change> {
        self.rows@.map_values(|entry: (Op, Row)| change_of(entry))
    }
}

impl Clone for StreamChunk {
    fn clone(&self) -> (result: Self)
        ensures
            result@ == self@,
    {
        let mut rows: Vec<(Op, Row)> = Vec::with_capacity(self.rows.len());
        let mut i: usize = 0;
        while i < self.rows.len()
            invariant
                i <= self.rows.len(),
                rows.len() == i,
                forall|j: int| 0 <= j < i ==> change_of(#[trigger] rows@[j]) == change_of(self.rows@[j]),
            decreases self.rows.len() - i,
        {
            rows.push((self.rows[i].0, self.rows[i].1.clone()));
            i = i + 1;
        }
        let result = StreamChunk { rows };
        assert(result@ =~= self@);
        result
    }
}

}
