//! The cache, its ranges and what it records.

use stream_core::common::order::{Comparison, OrderType, OrderedDatum, OrderedRow};
use stream_core::common::value::{Op, Row, ScalarImpl};
use stream_core::stream::top_n::cache::{
    DeleteStep, FillRequest, PendingDelete, TopNCache, TOPN_CACHE_HIGH_CAPACITY_FACTOR,
};
use stream_core::stream::top_n::rows::OrderedRows;

fn row(value: i64) -> Row {
    Row(vec![Some(ScalarImpl::Int64(value))])
}

fn key(value: i64) -> OrderedRow {
    OrderedRow::new(&row(value), &vec![OrderType::Ascending])
}

fn values(rows: &OrderedRows) -> Vec<i64> {
    (0..rows.len())
        .map(|i| match &rows.row_at(i).0[0] {
            Some(ScalarImpl::Int64(value)) => *value,
            _ => unreachable!(),
        })
        .collect()
}

fn rows_with(values: &[i64]) -> OrderedRows {
    OrderedRows::from_rows(values.iter().map(|v| (key(*v), row(*v))).collect())
}

/// The three ranges of a cache.
fn ranges(cache: &TopNCache) -> (Vec<i64>, Vec<i64>, Vec<i64>) {
    (
        values(&cache.low),
        values(&cache.middle),
        values(&cache.high),
    )
}

fn insert(cache: &mut TopNCache, value: i64) -> Vec<(Op, i64)> {
    assert!(cache.accepts_insert(&key(value)));
    let mut ops = Vec::new();
    let mut rows = Vec::new();
    cache.insert(key(value), row(value), &mut ops, &mut rows);
    recorded(ops, rows)
}

fn recorded(ops: Vec<Op>, rows: Vec<Row>) -> Vec<(Op, i64)> {
    assert_eq!(ops.len(), rows.len());
    ops.into_iter()
        .zip(rows.iter().map(|row| match &row.0[0] {
            Some(ScalarImpl::Int64(value)) => *value,
            _ => unreachable!(),
        }))
        .collect()
}

/// Deletes a row, with the rows of `table` to fill the high range from.
fn delete(cache: &mut TopNCache, value: i64, table: &[i64]) -> Vec<(Op, i64)> {
    assert!(cache.accepts_delete(&key(value)));
    let mut ops = Vec::new();
    let mut rows = Vec::new();
    match cache.delete(key(value), row(value), &mut ops, &mut rows) {
        DeleteStep::Done => {}
        DeleteStep::Fill(request) => {
            let limit = request.limit;
            let all_found = cache.delete_filled(request, rows_with(table), &mut ops, &mut rows);
            assert!(!all_found || table.len() >= limit);
        }
    }
    recorded(ops, rows)
}

#[test]
fn new_cache_is_empty() {
    let cache = TopNCache::new(3, 4);
    assert_eq!(cache.offset, 3);
    assert_eq!(cache.limit, 4);
    assert_eq!(cache.high_capacity, 14);
    assert_eq!(
        cache.high_capacity,
        (3 + 4) * TOPN_CACHE_HIGH_CAPACITY_FACTOR
    );
    assert_eq!(ranges(&cache), (vec![], vec![], vec![]));
    assert!(!cache.is_low_cache_full());
    assert!(!cache.is_middle_cache_full());
    assert!(!cache.is_high_cache_full());
    assert!(TopNCache::new(0, 1).is_low_cache_full());
}

#[test]
fn init_fills_the_ranges_in_order() {
    let mut cache = TopNCache::new(2, 1);
    cache.init(rows_with(&[9, 1, 8, 2, 7, 3, 6, 4, 5, 10, 11]));
    assert_eq!(
        ranges(&cache),
        (vec![1, 2], vec![3], vec![4, 5, 6, 7, 8, 9])
    );
    assert!(cache.is_low_cache_full());
    assert!(cache.is_middle_cache_full());
    assert!(cache.is_high_cache_full());
    cache.init(rows_with(&[5]));
    assert_eq!(ranges(&cache), (vec![5], vec![], vec![]));
}

#[test]
fn insert_fills_low_then_middle_then_high() {
    let mut cache = TopNCache::new(1, 1);
    assert_eq!(insert(&mut cache, 5), vec![]);
    assert_eq!(insert(&mut cache, 7), vec![(Op::Insert, 7)]);
    assert_eq!(insert(&mut cache, 9), vec![]);
    assert_eq!(ranges(&cache), (vec![5], vec![7], vec![9]));
    // Each range passes its last row on.
    assert_eq!(
        insert(&mut cache, 1),
        vec![(Op::Delete, 7), (Op::Insert, 5)]
    );
    assert_eq!(ranges(&cache), (vec![1], vec![5], vec![7, 9]));
    assert_eq!(
        insert(&mut cache, 3),
        vec![(Op::Delete, 5), (Op::Insert, 3)]
    );
    assert_eq!(ranges(&cache), (vec![1], vec![3], vec![5, 7, 9]));
}

#[test]
fn full_high_range_drops_its_last_row() {
    let mut cache = TopNCache::new(0, 1);
    for value in [1, 2, 4] {
        insert(&mut cache, value);
    }
    assert!(cache.is_high_cache_full());
    assert_eq!(insert(&mut cache, 5), vec![]);
    assert_eq!(ranges(&cache), (vec![], vec![1], vec![2, 4]));
    assert_eq!(insert(&mut cache, 3), vec![]);
    assert_eq!(ranges(&cache), (vec![], vec![1], vec![2, 3]));
}

#[test]
fn delete_from_each_range() {
    let mut cache = TopNCache::new(1, 2);
    for value in [1, 2, 3, 4, 5] {
        insert(&mut cache, value);
    }
    assert_eq!(ranges(&cache), (vec![1], vec![2, 3], vec![4, 5]));
    assert_eq!(delete(&mut cache, 5, &[1, 2, 3, 4]), vec![]);
    assert_eq!(ranges(&cache), (vec![1], vec![2, 3], vec![4]));
    assert_eq!(
        delete(&mut cache, 2, &[1, 3, 4]),
        vec![(Op::Delete, 2), (Op::Insert, 4)]
    );
    assert_eq!(ranges(&cache), (vec![1], vec![3, 4], vec![]));
    // Behind an empty high range the rows of the table come.
    assert_eq!(
        delete(&mut cache, 1, &[3, 4, 6, 7]),
        vec![(Op::Delete, 3), (Op::Insert, 6)]
    );
    assert_eq!(ranges(&cache), (vec![3], vec![4, 6], vec![7]));
}

#[test]
fn delete_without_rows_to_follow() {
    let mut cache = TopNCache::new(1, 2);
    for value in [1, 2, 3] {
        insert(&mut cache, value);
    }
    assert_eq!(delete(&mut cache, 3, &[1, 2]), vec![(Op::Delete, 3)]);
    assert_eq!(ranges(&cache), (vec![1], vec![2], vec![]));
    assert_eq!(delete(&mut cache, 2, &[1]), vec![(Op::Delete, 2)]);
    assert_eq!(ranges(&cache), (vec![1], vec![], vec![]));
    assert_eq!(delete(&mut cache, 1, &[]), vec![]);
    assert_eq!(ranges(&cache), (vec![], vec![], vec![]));
}

#[test]
fn delete_asks_for_the_rows_after_the_middle_range() {
    let mut cache = TopNCache::new(1, 2);
    for value in [1, 2, 3] {
        insert(&mut cache, value);
    }
    let mut ops = Vec::new();
    let mut rows = Vec::new();
    match cache.delete(key(2), row(2), &mut ops, &mut rows) {
        DeleteStep::Fill(FillRequest {
            start_key,
            limit,
            pending: PendingDelete::Middle {
                key: pending_key,
                row: pending_row,
            },
        }) => {
            assert_eq!(start_key, key(3));
            assert_eq!(limit, 6);
            assert_eq!(pending_key, key(2));
            assert_eq!(pending_row, row(2));
        }
        _ => panic!("rows are needed"),
    }
    assert!(ops.is_empty());
    // Until they come, nothing has changed.
    assert_eq!(ranges(&cache), (vec![1], vec![2, 3], vec![]));

    match cache.delete(key(1), row(1), &mut ops, &mut rows) {
        DeleteStep::Fill(FillRequest {
            start_key,
            limit,
            pending: PendingDelete::Low,
        }) => {
            assert_eq!(start_key, key(3));
            assert_eq!(limit, 6);
        }
        _ => panic!("rows are needed"),
    }
    assert_eq!(recorded(ops, rows), vec![(Op::Delete, 2)]);
    assert_eq!(ranges(&cache), (vec![2], vec![3], vec![]));
}

#[test]
fn fill_takes_no_more_than_the_high_range_holds() {
    let mut cache = TopNCache::new(0, 1);
    insert(&mut cache, 1);
    assert_eq!(
        delete(&mut cache, 1, &[6, 5, 4, 3, 2]),
        vec![(Op::Delete, 1), (Op::Insert, 2)]
    );
    assert_eq!(ranges(&cache), (vec![], vec![2], vec![3]));
}

#[test]
fn what_a_cache_does_not_accept() {
    let cache = TopNCache::new(0, 1);
    assert!(!cache.accepts_delete(&key(1)));

    // A key that is cached already would leave the low range one row short.
    let mut cache = TopNCache::new(2, 1);
    for value in [1, 2, 3] {
        insert(&mut cache, value);
    }
    assert!(!cache.accepts_insert(&key(1)));
    assert!(cache.accepts_insert(&key(2)));
    assert!(cache.accepts_insert(&key(0)));
}

/// A row of the low range is deleted while a single row follows: that row moves to the low range,
/// and reading goes on behind it.
#[test]
fn delete_from_low_that_empties_middle() {
    let mut cache = TopNCache::new(1, 1);
    assert_eq!(insert(&mut cache, 2), vec![]);
    assert_eq!(insert(&mut cache, 1), vec![(Op::Insert, 2)]);
    let mut ops = Vec::new();
    let mut rows = Vec::new();
    match cache.delete(key(1), row(1), &mut ops, &mut rows) {
        DeleteStep::Fill(request) => {
            assert_eq!(request.start_key, key(2));
            assert_eq!(request.limit, 4);
            assert!(!cache.delete_filled(request, rows_with(&[2]), &mut ops, &mut rows));
        }
        DeleteStep::Done => panic!("rows are needed"),
    }
    assert_eq!(recorded(ops, rows), vec![(Op::Delete, 2)]);
    assert_eq!(ranges(&cache), (vec![2], vec![], vec![]));

    let mut cache = TopNCache::new(1, 1);
    insert(&mut cache, 1);
    insert(&mut cache, 2);
    assert_eq!(
        delete(&mut cache, 1, &[2, 3, 4, 5, 6, 7]),
        vec![(Op::Delete, 2), (Op::Insert, 3)]
    );
    assert_eq!(ranges(&cache), (vec![2], vec![3], vec![4, 5, 6]));
}

#[test]
fn fill_tells_whether_all_rows_were_found() {
    for (found, expected) in [(3, false), (4, true), (5, true)] {
        let mut cache = TopNCache::new(0, 2);
        insert(&mut cache, 0);
        let mut ops = Vec::new();
        let mut rows = Vec::new();
        let table: Vec<i64> = (1..=found).collect();
        match cache.delete(key(0), row(0), &mut ops, &mut rows) {
            DeleteStep::Fill(request) => {
                let all_found =
                    cache.delete_filled(request, rows_with(&table), &mut ops, &mut rows);
                assert_eq!(all_found, expected);
            }
            DeleteStep::Done => panic!("rows are needed"),
        }
    }
}

#[test]
fn rows_behind_and_full_ranges() {
    let mut cache = TopNCache::new(0, 1);
    assert!(!cache.is_behind(&key(9)));
    assert!(!cache.is_full());
    insert(&mut cache, 1);
    assert!(cache.is_behind(&key(9)));
    assert!(!cache.is_behind(&key(0)));
    insert(&mut cache, 2);
    assert!(!cache.is_behind(&key(2)));
    assert!(cache.is_behind(&key(3)));
    insert(&mut cache, 3);
    assert!(cache.is_full());
}

/// Whatever the order of insertions, the ranges and the rows that are shown are the same.
#[test]
fn insertion_order_is_irrelevant() {
    let forward: Vec<i64> = (0..20).collect();
    let orders: Vec<Vec<i64>> = vec![
        forward.clone(),
        forward.iter().rev().copied().collect(),
        forward.iter().map(|v| v * 7 % 20).collect(),
        forward.iter().map(|v| v * 13 % 20).collect(),
    ];
    let run = |order: &[i64]| {
        let mut cache = TopNCache::new(2, 3);
        let mut shown: Vec<i64> = Vec::new();
        for value in order {
            for (op, changed) in insert(&mut cache, *value) {
                match op {
                    Op::Insert => shown.push(changed),
                    _ => shown.retain(|v| *v != changed),
                }
            }
        }
        shown.sort_unstable();
        (ranges(&cache), shown)
    };
    for order in &orders {
        assert_eq!(run(order), run(&forward));
    }
}

/// After every step the ranges are the first rows of the sorted table.
#[test]
fn ranges_stay_in_step_with_the_table() {
    let (offset, limit) = (2, 3);
    let mut cache = TopNCache::new(offset, limit);
    let mut table: Vec<i64> = Vec::new();
    let mut middle: Vec<i64> = Vec::new();
    let mut apply = |changes: Vec<(Op, i64)>| {
        for (op, value) in changes {
            match op {
                Op::Insert => middle.push(value),
                _ => middle.retain(|v| *v != value),
            }
        }
        let mut sorted = middle.clone();
        sorted.sort_unstable();
        sorted
    };
    for i in 0..40i64 {
        let value = i * 17 % 41;
        table.push(value);
        table.sort_unstable();
        let shown = apply(insert(&mut cache, value));
        assert_eq!(shown, values(&cache.middle));
        assert_in_step(&cache, &table);
    }
    while table.len() > offset + limit {
        let value = table.remove(3);
        let shown = apply(delete(&mut cache, value, &table));
        assert_eq!(shown, values(&cache.middle));
        assert_in_step(&cache, &table);
    }
}

fn assert_in_step(cache: &TopNCache, table: &[i64]) {
    let (low, middle, high) = ranges(cache);
    let cached: Vec<i64> = low
        .iter()
        .chain(middle.iter())
        .chain(high.iter())
        .copied()
        .collect();
    assert_eq!(cached, table[..cached.len()]);
    let window = &table[table.len().min(cache.offset)..table.len().min(cache.offset + cache.limit)];
    assert_eq!(middle, window);
}

#[test]
fn rows_are_kept_in_order() {
    let mut rows = OrderedRows::new();
    assert!(rows.is_empty());
    assert_eq!(rows.last_key(), None);
    assert_eq!(rows.pop_first(), None);
    assert_eq!(rows.pop_last(), None);
    for value in [3, 1, 2] {
        rows.insert(key(value), row(value));
    }
    assert_eq!(values(&rows), vec![1, 2, 3]);
    assert!(rows.contains_key(&key(2)));
    assert!(!rows.contains_key(&key(4)));
    assert_eq!(*rows.key_at(0), key(1));
    assert_eq!(rows.last_key(), Some(&key(3)));
    // A key that is there gets the new row.
    rows.insert(key(2), row(20));
    assert_eq!(values(&rows), vec![1, 20, 3]);
    rows.remove(&key(2));
    rows.remove(&key(5));
    assert_eq!(values(&rows), vec![1, 3]);
    assert_eq!(rows.pop_last(), Some((key(3), row(3))));
    assert_eq!(rows.pop_first(), Some((key(1), row(1))));
    assert!(rows.is_empty());
}

#[test]
fn rows_split_and_follow() {
    let mut rows = rows_with(&[1, 2, 3, 4, 5]);
    let rest = rows.split_off(2);
    assert_eq!(values(&rows), vec![1, 2]);
    assert_eq!(values(&rest), vec![3, 4, 5]);
    assert_eq!(values(&rows.split_off(9)), Vec::<i64>::new());
    assert_eq!(values(&rest.rows_after(&key(3), 1)), vec![4]);
    assert_eq!(
        values(&rows_with(&[1, 2, 3]).rows_after(&key(0), 9)),
        vec![1, 2, 3]
    );
    assert_eq!(
        values(&rows_with(&[1, 2, 3]).rows_after(&key(3), 9)),
        Vec::<i64>::new()
    );
}

/// What a scan gives in any order, or only as far as it is needed, fills the cache alike.
#[test]
fn limited_scans_suffice() {
    let table: Vec<i64> = (0..30).collect();
    let mut shuffled: Vec<i64> = (0..30).map(|i| i * 7 % 30).collect();
    let mut whole = TopNCache::new(1, 2);
    whole.init(rows_with(&table));
    let mut part = TopNCache::new(1, 2);
    part.init(rows_with(&table[..1 + 2 + 6]));
    assert_eq!(ranges(&part), ranges(&whole));
    whole.init(rows_with(&shuffled));
    assert_eq!(ranges(&part), ranges(&whole));

    let after = rows_with(&table).rows_after(&key(4), 3);
    assert_eq!(values(&after), vec![5, 6, 7]);
    assert_eq!(values(&after.rows_after(&key(4), 3)), vec![5, 6, 7]);
    shuffled.reverse();
    assert_eq!(rows_with(&shuffled), rows_with(&table));
}

fn datum_key(data: Vec<Option<ScalarImpl>>, order_types: Vec<OrderType>) -> OrderedRow {
    OrderedRow::new(&Row(data), &order_types)
}

#[test]
fn keys_are_compared_column_by_column() {
    let both = || vec![OrderType::Ascending, OrderType::Descending];
    let pair = |a: i64, b: i64| {
        datum_key(
            vec![Some(ScalarImpl::Int64(a)), Some(ScalarImpl::Int64(b))],
            both(),
        )
    };
    assert_eq!(pair(1, 5).compare(&pair(2, 9)), Comparison::Less);
    assert_eq!(pair(1, 5).compare(&pair(1, 9)), Comparison::Greater);
    assert_eq!(pair(1, 5).compare(&pair(1, 5)), Comparison::Equal);
    assert_eq!(key(1).compare(&pair(1, 5)), Comparison::Less);
    assert_eq!(pair(1, 5).compare(&key(1)), Comparison::Greater);
    assert_eq!(
        pair(1, 5).0[1],
        OrderedDatum::ReversedOrder(Some(ScalarImpl::Int64(5)))
    );
}

#[test]
fn nulls_come_before_values_in_ascending_order() {
    let one = |order_type: OrderType, datum: Option<ScalarImpl>| {
        datum_key(vec![datum], vec![order_type])
    };
    let value = || Some(ScalarImpl::Int32(7));
    assert_eq!(
        one(OrderType::Ascending, value()).compare(&one(OrderType::Ascending, None)),
        Comparison::Greater
    );
    assert_eq!(
        one(OrderType::Descending, value()).compare(&one(OrderType::Descending, None)),
        Comparison::Less
    );
    assert_eq!(
        one(OrderType::Ascending, None).compare(&one(OrderType::Ascending, None)),
        Comparison::Equal
    );
}

#[test]
fn scalars_are_compared_by_value() {
    let bytes = |text: &str| ScalarImpl::Bytes(text.as_bytes().to_vec());
    assert_eq!(
        ScalarImpl::Bool(false).compare(&ScalarImpl::Bool(true)),
        Comparison::Less
    );
    assert_eq!(
        ScalarImpl::Int16(-1).compare(&ScalarImpl::Int16(1)),
        Comparison::Less
    );
    assert_eq!(
        ScalarImpl::Int32(3).compare(&ScalarImpl::Int32(3)),
        Comparison::Equal
    );
    assert_eq!(bytes("ab").compare(&bytes("abc")), Comparison::Less);
    assert_eq!(bytes("b").compare(&bytes("abc")), Comparison::Greater);
    assert_eq!(bytes("").compare(&bytes("")), Comparison::Equal);
}

#[test]
fn comparison_is_a_total_order() {
    let keys: Vec<OrderedRow> = [3, 1, 2, 2].iter().map(|v| key(*v)).collect();
    for a in &keys {
        for b in &keys {
            let flipped = match b.compare(a) {
                Comparison::Less => Comparison::Greater,
                Comparison::Equal => Comparison::Equal,
                Comparison::Greater => Comparison::Less,
            };
            assert_eq!(a.compare(b), flipped);
            assert_eq!(a.compare(b) == Comparison::Equal, a == b);
            for c in &keys {
                if a.compare(b) == Comparison::Less && b.compare(c) == Comparison::Less {
                    assert_eq!(a.compare(c), Comparison::Less);
                }
            }
        }
    }
}

#[test]
fn rows_select_columns() {
    let row = Row(vec![
        Some(ScalarImpl::Int64(1)),
        None,
        Some(ScalarImpl::Bool(true)),
    ]);
    assert!(row.has_columns(&vec![0, 2]));
    assert!(!row.has_columns(&vec![0, 3]));
    assert_eq!(
        row.row_by_indices(&vec![2, 1, 2]),
        Row(vec![
            Some(ScalarImpl::Bool(true)),
            None,
            Some(ScalarImpl::Bool(true))
        ])
    );
}
