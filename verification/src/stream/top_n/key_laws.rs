//! How rows are keyed, and what executors are called.

use vstd::prelude::*;

use crate::common::order::{key_less, Key, OrderPair, OrderType};
use crate::common::order_laws::{law_rows_are_ordered_by_first_difference, sorts_before};
use crate::common::value::{Change, DatumValue, Op, Row, ScalarValue};
use crate::stream::top_n::executor::{
    hex_digit, is_insert, key_columns, key_order_types, upper_hex, with_columns, KeyInfo,
};

verus! {

/// Whether `column` first stands at the place `q` of `columns`.
pub open spec fn first_at(columns: Seq<usize>, column: usize, q: int) -> bool {
    &&& 0 <= q < columns.len()
    &&& columns[q] == column
    &&& forall|r: int| 0 <= r < q ==> columns[r] != column
}

/// Whether the column at `i` does not stand before `i`, and first stands at the place `q` of `more`.
spec fn follows(columns: Seq<usize>, more: Seq<usize>, i: int, q: int) -> bool {
    &&& first_at(more, columns[i], q)
    &&& forall|j: int| 0 <= j < i ==> columns[j] != columns[i]
}

/// Whether the column at `i` does not stand before `i`, and stands in `more`.
spec fn in_place(columns: Seq<usize>, more: Seq<usize>, i: int) -> bool {
    exists|q: int| follows(columns, more, i, q)
}

proof fn lemma_with_columns(columns: Seq<usize>, more: Seq<usize>)
    ensures
        ({
            let all = with_columns(columns, more);
            &&& columns.len() <= all.len()
            &&& forall|i: int| 0 <= i < columns.len() ==> #[trigger] all[i] == columns[i]
            &&& forall|q: int| 0 <= q < more.len() ==> all.contains(#[trigger] more[q])
            &&& forall|i: int|
                columns.len() <= i < all.len() ==> #[trigger] in_place(all, more, i)
            &&& forall|i: int, j: int, p: int, q: int|
                columns.len() <= i < j < all.len() && #[trigger] first_at(more, all[i], p)
                    && #[trigger] first_at(more, all[j], q) ==> p < q
        }),
    decreases more.len(),
{
    if more.len() > 0 {
        let prior = more.drop_last();
        let last = more.last();
        let n = prior.len() as int;
        lemma_with_columns(columns, prior);
        let before = with_columns(columns, prior);
        let all = with_columns(columns, more);
        assert forall|q: int| 0 <= q < more.len() implies all.contains(#[trigger] more[q]) by {
            if q < n {
                assert(before.contains(prior[q]));
                let k = choose|k: int| 0 <= k < before.len() && before[k] == prior[q];
                assert(all[k] == more[q]);
            } else if before.contains(last) {
                let k = choose|k: int| 0 <= k < before.len() && before[k] == last;
                assert(all[k] == more[q]);
            } else {
                assert(all[before.len() as int] == last);
            }
        }
        assert forall|i: int| columns.len() <= i < all.len() implies #[trigger] in_place(
            all,
            more,
            i,
        ) by {
            if i < before.len() {
                assert(in_place(before, prior, i));
                let q = choose|q: int| follows(before, prior, i, q);
                assert(follows(before, prior, i, q));
                assert(first_at(prior, before[i], q));
                assert(more[q] == prior[q]);
                assert forall|r: int| 0 <= r < q implies more[r] != all[i] by {
                    assert(prior[r] != before[i]);
                }
                assert(follows(all, more, i, q));
            } else {
                assert(!before.contains(last));
                assert forall|r: int| 0 <= r < n implies more[r] != last by {
                    assert(before.contains(prior[r]));
                }
                assert(follows(all, more, i, n));
            }
        }
        assert forall|i: int, j: int, p: int, q: int|
            columns.len() <= i < j < all.len() && #[trigger] first_at(more, all[i], p)
                && #[trigger] first_at(more, all[j], q) implies p < q by {
            // An earlier column stands in the list without its last element already.
            assert(in_place(before, prior, i));
            let pi = choose|k: int| follows(before, prior, i, k);
            assert(follows(before, prior, i, pi));
            assert(more[pi] == prior[pi]);
            assert(p <= pi);
            assert(p < n);
            assert(first_at(prior, before[i], p)) by {
                assert(prior[p] == more[p]);
                assert forall|r: int| 0 <= r < p implies prior[r] != before[i] by {
                    assert(more[r] != all[i]);
                }
            }
            if j < before.len() {
                    assert(in_place(before, prior, j));
                let qj = choose|k: int| follows(before, prior, j, k);
                assert(follows(before, prior, j, qj));
                assert(more[qj] == prior[qj]);
                assert(q <= qj);
                assert(first_at(prior, before[j], q)) by {
                    assert(prior[q] == more[q]);
                    assert forall|r: int| 0 <= r < q implies prior[r] != before[j] by {
                        assert(more[r] != all[j]);
                    }
                }
            } else {
                if q < n {
                    assert(before.contains(prior[q]));
                }
            }
        }
    }
}

/// The sort key has the columns that the order names, in its order. Behind them come the columns of
/// the primary key that are not there yet, each once, in the order in which the primary key first
/// names them; none of its columns is missing.
pub proof fn law_key_columns(order_pairs: Seq<OrderPair>, pk_indices: Seq<usize>)
    ensures
        ({
            let columns = key_columns(order_pairs, pk_indices);
            &&& order_pairs.len() <= columns.len()
            &&& forall|i: int|
                0 <= i < order_pairs.len() ==> #[trigger] columns[i] == order_pairs[i].column_idx
            &&& forall|q: int|
                0 <= q < pk_indices.len() ==> columns.contains(#[trigger] pk_indices[q])
            &&& forall|i: int|
                order_pairs.len() <= i < columns.len() ==> pk_indices.contains(
                    #[trigger] columns[i],
                )
            &&& forall|i: int, j: int|
                order_pairs.len() <= j < columns.len() && 0 <= i < j ==> #[trigger] columns[i]
                    != #[trigger] columns[j]
            &&& forall|i: int, j: int, p: int, q: int|
                order_pairs.len() <= i < j < columns.len() && #[trigger] first_at(
                    pk_indices,
                    columns[i],
                    p,
                ) && #[trigger] first_at(pk_indices, columns[j], q) ==> p < q
        }),
{
    let named = order_pairs.map_values(|pair: OrderPair| pair.column_idx);
    let columns = key_columns(order_pairs, pk_indices);
    lemma_with_columns(named, pk_indices);
    assert forall|i: int|
        0 <= i < order_pairs.len() implies #[trigger] columns[i] == order_pairs[i].column_idx by {
        assert(columns[i] == named[i]);
    }
    assert forall|i: int| order_pairs.len() <= i < columns.len() implies pk_indices.contains(
        #[trigger] columns[i],
    ) by {
        assert(in_place(columns, pk_indices, i));
        let q = choose|q: int| follows(columns, pk_indices, i, q);
        assert(follows(columns, pk_indices, i, q));
        assert(pk_indices[q] == columns[i]);
    }
    assert forall|i: int, j: int|
        order_pairs.len() <= j < columns.len() && 0 <= i < j implies #[trigger] columns[i]
        != #[trigger] columns[j] by {
        assert(in_place(columns, pk_indices, j));
        let q = choose|q: int| follows(columns, pk_indices, j, q);
        assert(follows(columns, pk_indices, j, q));
    }
}

/// Each column of the sort key that the order names has the direction that the order gives it, and
/// every column behind them is ascending.
pub proof fn law_key_directions(order_pairs: Seq<OrderPair>, pk_indices: Seq<usize>, i: int)
    requires
        0 <= i < key_columns(order_pairs, pk_indices).len(),
    ensures
        key_order_types(order_pairs, pk_indices).len() == key_columns(order_pairs, pk_indices).len(),
        i < order_pairs.len() ==> key_order_types(order_pairs, pk_indices)[i]
            == order_pairs[i].order_type,
        i >= order_pairs.len() ==> key_order_types(order_pairs, pk_indices)[i]
            == OrderType::Ascending,
{
}

/// The sort key of a row under an order.
pub open spec fn key_under(
    order_pairs: Seq<OrderPair>,
    pk_indices: Seq<usize>,
    row: Seq<DatumValue>,
) -> Key {
    (KeyInfo {
        columns: key_columns(order_pairs, pk_indices),
        order_types: key_order_types(order_pairs, pk_indices),
    }).key(row)
}

proof fn lemma_first_key_difference(
    order_pairs: Seq<OrderPair>,
    pk_indices: Seq<usize>,
    a: Seq<DatumValue>,
    b: Seq<DatumValue>,
    i: int,
)
    requires
        ({
            let columns = key_columns(order_pairs, pk_indices);
            &&& 0 <= i < columns.len()
            &&& forall|j: int|
                0 <= j < i ==> a[(#[trigger] columns[j]) as int] == b[columns[j] as int]
            &&& a[columns[i] as int] != b[columns[i] as int]
        }),
    ensures
        key_less(key_under(order_pairs, pk_indices, a), key_under(order_pairs, pk_indices, b))
            <==> sorts_before(
            key_order_types(order_pairs, pk_indices)[i],
            a[key_columns(order_pairs, pk_indices)[i] as int],
            b[key_columns(order_pairs, pk_indices)[i] as int],
        ),
{
    let columns = key_columns(order_pairs, pk_indices);
    law_rows_are_ordered_by_first_difference(
        Row::selected(a, columns),
        Row::selected(b, columns),
        key_order_types(order_pairs, pk_indices),
        i,
    );
}

/// Whether a row with the integer `x` in a column that is sorted in the direction `order_type` comes
/// before one with the integer `y` there.
pub open spec fn number_before(order_type: OrderType, x: int, y: int) -> bool {
    if order_type == OrderType::Ascending {
        x < y
    } else {
        x > y
    }
}

/// Of two rows that agree in the columns of the order before the `i`th and differ in that one, the
/// row with the smaller value there comes first if the order has it ascending, and second if
/// descending. Integers are compared as numbers.
pub proof fn law_rows_are_ordered_by_pairs(
    order_pairs: Seq<OrderPair>,
    pk_indices: Seq<usize>,
    a: Seq<DatumValue>,
    b: Seq<DatumValue>,
    i: int,
)
    requires
        0 <= i < order_pairs.len(),
        forall|j: int|
            0 <= j < i ==> a[(#[trigger] order_pairs[j]).column_idx as int]
                == b[order_pairs[j].column_idx as int],
        a[order_pairs[i].column_idx as int] != b[order_pairs[i].column_idx as int],
    ensures
        ({
            let first = key_less(
                key_under(order_pairs, pk_indices, a),
                key_under(order_pairs, pk_indices, b),
            );
            let direction = order_pairs[i].order_type;
            let x = a[order_pairs[i].column_idx as int];
            let y = b[order_pairs[i].column_idx as int];
            &&& first <==> sorts_before(direction, x, y)
            &&& match (x, y) {
                (Some(ScalarValue::Int16(m)), Some(ScalarValue::Int16(n))) => first
                    == number_before(direction, m as int, n as int),
                (Some(ScalarValue::Int32(m)), Some(ScalarValue::Int32(n))) => first
                    == number_before(direction, m as int, n as int),
                (Some(ScalarValue::Int64(m)), Some(ScalarValue::Int64(n))) => first
                    == number_before(direction, m as int, n as int),
                (None, Some(_)) => first == (direction == OrderType::Ascending),
                (Some(_), None) => first == (direction == OrderType::Descending),
                _ => true,
            }
        }),
{
    let columns = key_columns(order_pairs, pk_indices);
    law_key_columns(order_pairs, pk_indices);
    law_key_directions(order_pairs, pk_indices, i);
    assert(columns[i] == order_pairs[i].column_idx);
    assert forall|j: int| 0 <= j < i implies a[(#[trigger] columns[j]) as int]
        == b[columns[j] as int] by {
        assert(columns[j] == order_pairs[j].column_idx);
    }
    lemma_first_key_difference(order_pairs, pk_indices, a, b, i);
}

/// Rows that the order does not tell apart are in ascending order of the rest of the primary key:
/// the first of its columns in which they differ decides.
pub proof fn law_ties_are_ordered_by_primary_key(
    order_pairs: Seq<OrderPair>,
    pk_indices: Seq<usize>,
    a: Seq<DatumValue>,
    b: Seq<DatumValue>,
    i: int,
)
    requires
        order_pairs.len() <= i < key_columns(order_pairs, pk_indices).len(),
        forall|j: int|
            0 <= j < i ==> a[(#[trigger] key_columns(order_pairs, pk_indices)[j]) as int]
                == b[key_columns(order_pairs, pk_indices)[j] as int],
        a[key_columns(order_pairs, pk_indices)[i] as int] != b[key_columns(
            order_pairs,
            pk_indices,
        )[i] as int],
    ensures
        key_less(key_under(order_pairs, pk_indices, a), key_under(order_pairs, pk_indices, b))
            <==> sorts_before(
            OrderType::Ascending,
            a[key_columns(order_pairs, pk_indices)[i] as int],
            b[key_columns(order_pairs, pk_indices)[i] as int],
        ),
{
    law_key_directions(order_pairs, pk_indices, i);
    lemma_first_key_difference(order_pairs, pk_indices, a, b, i);
}

/// A change that is keyed is the change, with the key of its row.
pub proof fn law_keyed_change_is_the_change(info: KeyInfo, change: Change)
    ensures
        info.keyed(change).0 == change.0,
        info.keyed(change).1.0 == info.key(change.1),
        info.keyed(change).1.1 == change.1,
        is_insert(change.0) <==> change.0 == Op::Insert || change.0 == Op::UpdateInsert,
{
}

/// The value of a hexadecimal digit.
pub open spec fn digit_value(c: char) -> int {
    if '0' <= c <= '9' {
        c as int - '0' as int
    } else if 'A' <= c <= 'F' {
        c as int - 'A' as int + 10
    } else {
        -1
    }
}

/// The number that a text of hexadecimal digits is read as.
pub open spec fn hex_value(text: Seq<char>) -> int
    decreases text.len(),
{
    if text.len() == 0 {
        0
    } else {
        16 * hex_value(text.drop_last()) + digit_value(text.last())
    }
}

/// A number in the hexadecimal system reads back as that number. It is made of the digits `0` to `9`
/// and `A` to `F` alone, and begins with zero only where it is zero.
pub proof fn law_hex_reads_back(n: nat)
    ensures
        hex_value(upper_hex(n)) == n,
        upper_hex(n).len() > 0,
        forall|i: int|
            0 <= i < upper_hex(n).len() ==> 0 <= digit_value(#[trigger] upper_hex(n)[i]) < 16,
        upper_hex(n)[0] == '0' ==> n == 0 && upper_hex(n).len() == 1,
    decreases n,
{
    let d = n % 16;
    assert(digit_value(hex_digit(d)) == d);
    if n < 16 {
        let text = upper_hex(n);
        assert(text =~= seq![hex_digit(n)]);
        assert(text.drop_last() =~= Seq::<char>::empty());
        assert(hex_value(text.drop_last()) == 0);
    } else {
        law_hex_reads_back(n / 16);
        let text = upper_hex(n);
        assert(text.drop_last() =~= upper_hex(n / 16));
        assert(text.last() == hex_digit(d));
    }
}

}
