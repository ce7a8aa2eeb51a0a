//! What the order of sort keys means for the values that they hold.

use vstd::prelude::*;

use crate::common::order::{
    compare_bytes, compare_data, compare_keys, compare_ordered, compare_scalars, key_less, key_of,
    lemma_compare_equal, lemma_ordered_equal, Comparison, Key, OrderType, OrderedDatum, OrderedRow,
    OrderedValue,
};
use crate::common::value::{
    datum_value, Datum, DatumValue, Row, ScalarImpl, ScalarValue, StreamChunk,
};

verus! {

/// A scalar stands for the value that it holds, and for no other.
pub proof fn law_scalars_stand_for_their_values(
    b: bool,
    small: i16,
    middle: i32,
    large: i64,
    bytes: Vec<u8>,
)
    ensures
        ScalarImpl::Bool(b)@ == ScalarValue::Bool(b),
        ScalarImpl::Int16(small)@ == ScalarValue::Int16(small),
        ScalarImpl::Int32(middle)@ == ScalarValue::Int32(middle),
        ScalarImpl::Int64(large)@ == ScalarValue::Int64(large),
        ScalarImpl::Bytes(bytes)@ == ScalarValue::Bytes(bytes@),
{
}

/// A row stands for what its columns hold, in their order, with nothing for null.
pub proof fn law_rows_stand_for_their_columns(row: Row, i: int)
    requires
        0 <= i < row.0@.len(),
    ensures
        row@.len() == row.0@.len(),
        row@[i] == match row.0@[i] {
            Some(scalar) => Some(scalar@),
            None => None,
        },
{
}

/// A chunk stands for its changes, in their order.
pub proof fn law_chunks_stand_for_their_changes(chunk: StreamChunk, i: int)
    requires
        0 <= i < chunk.rows@.len(),
    ensures
        chunk@.len() == chunk.rows@.len(),
        chunk@[i] == (chunk.rows@[i].0, chunk.rows@[i].1@),
{
}

/// A sort key stands for the data of its columns, in their order, each with its direction.
pub proof fn law_keys_stand_for_their_columns(key: OrderedRow, datum: Datum, i: int)
    requires
        0 <= i < key.0@.len(),
    ensures
        key@.len() == key.0@.len(),
        key.0@[i] == OrderedDatum::NormalOrder(datum) ==> key@[i] == OrderedValue::Normal(
            datum_value(datum),
        ),
        key.0@[i] == OrderedDatum::ReversedOrder(datum) ==> key@[i] == OrderedValue::Reversed(
            datum_value(datum),
        ),
        datum is None ==> datum_value(datum) is None,
        datum is Some ==> datum_value(datum) == Some(datum->0@),
{
}

/// Integers of one type are in their order as numbers.
pub proof fn law_integers_are_ordered_as_numbers(
    x16: i16,
    y16: i16,
    x32: i32,
    y32: i32,
    x64: i64,
    y64: i64,
)
    ensures
        compare_scalars(ScalarValue::Int16(x16), ScalarValue::Int16(y16)) == Comparison::Less
            <==> x16 < y16,
        compare_scalars(ScalarValue::Int16(x16), ScalarValue::Int16(y16)) == Comparison::Equal
            <==> x16 == y16,
        compare_scalars(ScalarValue::Int32(x32), ScalarValue::Int32(y32)) == Comparison::Less
            <==> x32 < y32,
        compare_scalars(ScalarValue::Int32(x32), ScalarValue::Int32(y32)) == Comparison::Equal
            <==> x32 == y32,
        compare_scalars(ScalarValue::Int64(x64), ScalarValue::Int64(y64)) == Comparison::Less
            <==> x64 < y64,
        compare_scalars(ScalarValue::Int64(x64), ScalarValue::Int64(y64)) == Comparison::Equal
            <==> x64 == y64,
{
}

/// False comes before true.
pub proof fn law_false_comes_before_true(x: bool, y: bool)
    ensures
        compare_scalars(ScalarValue::Bool(x), ScalarValue::Bool(y)) == Comparison::Less <==> !x && y,
        compare_scalars(ScalarValue::Bool(x), ScalarValue::Bool(y)) == Comparison::Equal <==> x
            == y,
{
}

/// Whether `a` and `b` have the first `k` bytes in common, and `a` then ends or goes on with a
/// smaller byte.
pub open spec fn smaller_from(a: Seq<u8>, b: Seq<u8>, k: int) -> bool {
    &&& 0 <= k < b.len()
    &&& k <= a.len()
    &&& forall|i: int| 0 <= i < k ==> a[i] == b[i]
    &&& k < a.len() ==> a[k] < b[k]
}

proof fn lemma_bytes_smaller(a: Seq<u8>, b: Seq<u8>) -> (k: int)
    ensures
        compare_bytes(a, b) == Comparison::Less ==> smaller_from(a, b, k),
    decreases a.len(),
{
    if a.len() == 0 || b.len() == 0 || a[0] != b[0] {
        0
    } else {
        let k = lemma_bytes_smaller(a.drop_first(), b.drop_first());
        if smaller_from(a.drop_first(), b.drop_first(), k) {
            assert forall|i: int| 0 <= i < k + 1 implies a[i] == b[i] by {
                if i > 0 {
                    assert(a.drop_first()[i - 1] == b.drop_first()[i - 1]);
                }
            }
        }
        k + 1
    }
}

proof fn lemma_smaller_bytes(a: Seq<u8>, b: Seq<u8>, k: int)
    requires
        smaller_from(a, b, k),
    ensures
        compare_bytes(a, b) == Comparison::Less,
    decreases k,
{
    if k > 0 {
        assert(a[0] == b[0]);
        lemma_smaller_bytes(a.drop_first(), b.drop_first(), k - 1);
    }
}

/// Bytes are in the order of a dictionary: the first bytes that differ decide, and what ends first
/// comes first.
pub proof fn law_bytes_are_ordered_as_in_a_dictionary(a: Seq<u8>, b: Seq<u8>)
    ensures
        compare_scalars(ScalarValue::Bytes(a), ScalarValue::Bytes(b)) == Comparison::Less
            <==> exists|k: int| smaller_from(a, b, k),
{
    if compare_bytes(a, b) == Comparison::Less {
        let k = lemma_bytes_smaller(a, b);
        assert(smaller_from(a, b, k));
    }
    if exists|k: int| smaller_from(a, b, k) {
        let k = choose|k: int| smaller_from(a, b, k);
        lemma_smaller_bytes(a, b, k);
    }
}

/// Null comes before every value, and values are compared as such.
pub proof fn law_null_comes_first(x: ScalarValue, y: ScalarValue)
    ensures
        compare_data(None, Some(x)) == Comparison::Less,
        compare_data(Some(x), None) == Comparison::Greater,
        compare_data(None, None) == Comparison::Equal,
        compare_data(Some(x), Some(y)) == compare_scalars(x, y),
{
}

/// The first column in which two keys differ decides which comes first.
pub proof fn law_first_difference_decides(a: Key, b: Key, i: int)
    requires
        0 <= i < a.len(),
        i < b.len(),
        forall|j: int| 0 <= j < i ==> a[j] == b[j],
        a[i] != b[i],
    ensures
        compare_keys(a, b) == compare_ordered(a[i], b[i]),
    decreases i,
{
    reveal(compare_keys);
    lemma_ordered_equal(a[0], b[0]);
    if i > 0 {
        assert(a[0] == b[0]);
        let c = a.drop_first();
        let d = b.drop_first();
        assert(c[i - 1] == a[i] && d[i - 1] == b[i]);
        assert forall|j: int| 0 <= j < i - 1 implies c[j] == d[j] by {
            assert(a[j + 1] == b[j + 1]);
        }
        law_first_difference_decides(c, d, i - 1);
    }
}

/// A key that ends where another goes on comes first.
pub proof fn law_shorter_key_comes_first(a: Key, b: Key)
    requires
        a.len() < b.len(),
        a == b.take(a.len() as int),
    ensures
        key_less(a, b),
    decreases a.len(),
{
    reveal(compare_keys);
    if a.len() > 0 {
        assert(a[0] == b[0]);
        lemma_ordered_equal(a[0], b[0]);
        assert(a.drop_first() =~= b.drop_first().take(a.len() - 1));
        law_shorter_key_comes_first(a.drop_first(), b.drop_first());
    }
}

/// Whether a datum comes before another one in a column that is sorted in the direction
/// `order_type`.
pub open spec fn sorts_before(order_type: OrderType, x: DatumValue, y: DatumValue) -> bool {
    if order_type == OrderType::Ascending {
        compare_data(x, y) == Comparison::Less
    } else {
        compare_data(y, x) == Comparison::Less
    }
}

/// Of two rows, the first column in which they differ decides which comes first: the row with the
/// smaller datum there where the column is ascending, and that with the larger one where it is
/// descending.
pub proof fn law_rows_are_ordered_by_first_difference(
    a: Seq<DatumValue>,
    b: Seq<DatumValue>,
    order_types: Seq<OrderType>,
    i: int,
)
    requires
        0 <= i < a.len(),
        i < b.len(),
        forall|j: int| 0 <= j < i ==> a[j] == b[j],
        a[i] != b[i],
    ensures
        key_less(key_of(a, order_types), key_of(b, order_types)) <==> sorts_before(
            order_types[i],
            a[i],
            b[i],
        ),
        key_less(key_of(b, order_types), key_of(a, order_types)) <==> sorts_before(
            order_types[i],
            b[i],
            a[i],
        ),
{
    let x = key_of(a, order_types);
    let y = key_of(b, order_types);
    assert(x[i] != y[i]);
    law_first_difference_decides(x, y, i);
    law_first_difference_decides(y, x, i);
}

/// A key holds all of its row: rows with the same key are the same.
pub proof fn law_key_tells_rows_apart(
    a: Seq<DatumValue>,
    b: Seq<DatumValue>,
    order_types: Seq<OrderType>,
)
    requires
        a.len() == order_types.len(),
        b.len() == order_types.len(),
    ensures
        key_of(a, order_types).len() == a.len(),
        key_of(a, order_types) == key_of(b, order_types) <==> a == b,
        compare_keys(key_of(a, order_types), key_of(b, order_types)) == Comparison::Equal <==> a
            == b,
{
    let x = key_of(a, order_types);
    let y = key_of(b, order_types);
    if x == y {
        assert forall|i: int| 0 <= i < a.len() implies a[i] == b[i] by {
            assert(x[i] == y[i]);
        }
        assert(a =~= b);
    }
    lemma_compare_equal(x, y);
}

/// Of two keys of one ascending integer column, that with the smaller integer comes first; of two
/// descending ones, that with the larger.
pub proof fn law_integer_keys_are_ordered_as_numbers(
    x16: i16,
    y16: i16,
    x32: i32,
    y32: i32,
    x64: i64,
    y64: i64,
)
    ensures
        key_less(
            key_of(seq![Some(ScalarValue::Int16(x16))], seq![OrderType::Ascending]),
            key_of(seq![Some(ScalarValue::Int16(y16))], seq![OrderType::Ascending]),
        ) <==> x16 < y16,
        key_less(
            key_of(seq![Some(ScalarValue::Int16(x16))], seq![OrderType::Descending]),
            key_of(seq![Some(ScalarValue::Int16(y16))], seq![OrderType::Descending]),
        ) <==> x16 > y16,
        key_less(
            key_of(seq![Some(ScalarValue::Int32(x32))], seq![OrderType::Ascending]),
            key_of(seq![Some(ScalarValue::Int32(y32))], seq![OrderType::Ascending]),
        ) <==> x32 < y32,
        key_less(
            key_of(seq![Some(ScalarValue::Int32(x32))], seq![OrderType::Descending]),
            key_of(seq![Some(ScalarValue::Int32(y32))], seq![OrderType::Descending]),
        ) <==> x32 > y32,
        key_less(
            key_of(seq![Some(ScalarValue::Int64(x64))], seq![OrderType::Ascending]),
            key_of(seq![Some(ScalarValue::Int64(y64))], seq![OrderType::Ascending]),
        ) <==> x64 < y64,
        key_less(
            key_of(seq![Some(ScalarValue::Int64(x64))], seq![OrderType::Descending]),
            key_of(seq![Some(ScalarValue::Int64(y64))], seq![OrderType::Descending]),
        ) <==> x64 > y64,
{
    lemma_one_column(Some(ScalarValue::Int16(x16)), Some(ScalarValue::Int16(y16)));
    lemma_one_column(Some(ScalarValue::Int32(x32)), Some(ScalarValue::Int32(y32)));
    lemma_one_column(Some(ScalarValue::Int64(x64)), Some(ScalarValue::Int64(y64)));
}

proof fn lemma_one_column(x: DatumValue, y: DatumValue)
    ensures
        key_less(
            key_of(seq![x], seq![OrderType::Ascending]),
            key_of(seq![y], seq![OrderType::Ascending]),
        ) <==> x != y && compare_data(x, y) == Comparison::Less,
        key_less(
            key_of(seq![x], seq![OrderType::Descending]),
            key_of(seq![y], seq![OrderType::Descending]),
        ) <==> x != y && compare_data(y, x) == Comparison::Less,
{
    let up = seq![OrderType::Ascending];
    let down = seq![OrderType::Descending];
    if x == y {
        lemma_compare_equal(key_of(seq![x], up), key_of(seq![y], up));
        lemma_compare_equal(key_of(seq![x], down), key_of(seq![y], down));
    } else {
        law_rows_are_ordered_by_first_difference(seq![x], seq![y], up, 0);
        law_rows_are_ordered_by_first_difference(seq![x], seq![y], down, 0);
    }
}

/// The columns `indices` of a row are those columns, in that order, and a row has them exactly where
/// every index is below its width.
pub proof fn law_selected_columns(row: Seq<DatumValue>, indices: Seq<usize>, i: int)
    requires
        0 <= i < indices.len(),
    ensures
        Row::selected(row, indices).len() == indices.len(),
        Row::selected(row, indices)[i] == row[indices[i] as int],
        Row::within(indices, row.len()) ==> indices[i] < row.len(),
        (forall|j: int| 0 <= j < indices.len() ==> #[trigger] indices[j] < row.len())
            ==> Row::within(indices, row.len()),
{
}

}
