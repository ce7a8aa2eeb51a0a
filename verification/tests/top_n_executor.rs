//! The executor, driven with a table in memory.

use stream_core::common::order::{OrderPair, OrderType, OrderedRow};
use stream_core::common::types::{DataType, Field, Schema};
use stream_core::common::value::{Op, Row, ScalarImpl, StreamChunk};
use stream_core::stream::top_n::executor::{
    generate_executor_pk_indices_info, generate_output, ChunkRun, ChunkStep, ExecutorInfo,
    TableChange, TopNExecutor,
};

/// The chunk that a picture shows: a line of column types, then a line for each row.
fn from_pretty(picture: &str) -> StreamChunk {
    let mut rows = Vec::new();
    for line in picture.lines().skip(1) {
        let mut words = line.split_whitespace();
        let op = match words.next() {
            Some("+") => Op::Insert,
            Some("-") => Op::Delete,
            Some("U+") => Op::UpdateInsert,
            Some("U-") => Op::UpdateDelete,
            _ => continue,
        };
        let data = words
            .map(|word| match word {
                "." => None,
                _ => Some(ScalarImpl::Int64(word.parse().unwrap())),
            })
            .collect();
        rows.push((op, Row(data)));
    }
    StreamChunk { rows }
}

fn schema_of(columns: usize) -> Schema {
    Schema {
        fields: (0..columns)
            .map(|_| Field::unnamed(DataType::Int64))
            .collect(),
    }
}

/// The rows of a state table, in any order.
type Table = Vec<(OrderedRow, Row)>;

fn copy_of(table: &Table) -> Table {
    table
        .iter()
        .map(|(key, row)| (key.clone(), row.clone()))
        .collect()
}

fn make(table: &mut Table, changes: &[TableChange]) {
    for change in changes {
        match change {
            TableChange::Insert { key, row } => table.push((key.clone(), row.clone())),
            TableChange::Delete { key, row } => {
                let place = table.iter().position(|(k, _)| k == key).unwrap();
                assert_eq!(table[place].1, *row);
                table.swap_remove(place);
            }
        }
    }
}

/// An executor with its table, and how often it has asked for rows.
struct Driver {
    executor: TopNExecutor<()>,
    table: Table,
    fills: usize,
}

impl Driver {
    fn new(
        columns: usize,
        order_pairs: Vec<OrderPair>,
        offset_and_limit: (usize, usize),
        pk_indices: Vec<usize>,
        table: Table,
    ) -> Driver {
        let info = ExecutorInfo {
            schema: schema_of(columns),
            pk_indices: vec![],
            identity: "MockSource".to_string(),
        };
        let mut executor = TopNExecutor::new(
            (),
            info,
            schema_of(columns),
            order_pairs,
            offset_and_limit,
            pk_indices,
            1,
            vec![],
        )
        .unwrap();
        executor.inner.init(copy_of(&table));
        Driver {
            executor,
            table,
            fills: 0,
        }
    }

    fn apply(&mut self, chunk: &StreamChunk) -> StreamChunk {
        let mut run = ChunkRun::new();
        let mut made = 0;
        loop {
            let step = self.executor.inner.apply_chunk(chunk, &mut run);
            make(&mut self.table, &run.table_changes[made..]);
            made = run.table_changes.len();
            match step {
                ChunkStep::Done => break,
                ChunkStep::Fill(request) => {
                    self.fills += 1;
                    let scanned = copy_of(&self.table);
                    self.executor
                        .inner
                        .resume_chunk(&mut run, request, scanned);
                }
                ChunkStep::Refused => panic!("row {} of the chunk is refused", run.next),
            }
        }
        assert_eq!(run.next, chunk.rows.len());
        generate_output(run.res_rows, run.res_ops)
    }
}

fn create_stream_chunks() -> Vec<StreamChunk> {
    let chunk1 = from_pretty(
        "  I I
        +  1 0
        +  2 1
        +  3 2
        + 10 3
        +  9 4
        +  8 5",
    );
    let chunk2 = from_pretty(
        "  I I
        +  7 6
        - 3 2
        - 1 0
        +  5 7
        - 2 1
        + 11 8",
    );
    let chunk3 = from_pretty(
        "  I  I
        +  6  9
        + 12 10
        + 13 11
        + 14 12",
    );
    let chunk4 = from_pretty(
        "  I  I
        - 5  7
        - 6  9
        - 11  8",
    );
    vec![chunk1, chunk2, chunk3, chunk4]
}

fn create_order_pairs() -> Vec<OrderPair> {
    vec![
        OrderPair::new(0, OrderType::Ascending),
        OrderPair::new(1, OrderType::Ascending),
    ]
}

fn create_driver(offset_and_limit: (usize, usize)) -> Driver {
    Driver::new(
        2,
        create_order_pairs(),
        offset_and_limit,
        vec![0, 1],
        vec![],
    )
}

#[test]
fn test_top_n_executor_with_offset() {
    let chunks = create_stream_chunks();
    let mut driver = create_driver((3, 1000));

    let res = driver.apply(&chunks[0]);
    assert_eq!(
        res,
        from_pretty(
            "  I I
            + 10 3
            +  9 4
            +  8 5"
        )
    );
    let res = driver.apply(&chunks[1]);
    assert_eq!(
        res,
        from_pretty(
            "  I I
            +  7 6
            - 7 6
            - 8 5
            +  8 5
            - 8 5
            + 11 8"
        )
    );
    let res = driver.apply(&chunks[2]);
    // (8, 9, 10, 11, 12, 13, 14)
    assert_eq!(
        res,
        from_pretty(
            "  I  I
            +  8  5
            + 12 10
            + 13 11
            + 14 12"
        )
    );
    // (10, 12, 13, 14)
    let res = driver.apply(&chunks[3]);
    assert_eq!(
        res,
        from_pretty(
            "  I I
            - 8 5
            - 9 4
            - 11 8"
        )
    );
}

#[test]
fn test_top_n_executor_with_limit() {
    let chunks = create_stream_chunks();
    let mut driver = create_driver((0, 4));

    let res = driver.apply(&chunks[0]);
    assert_eq!(
        res,
        from_pretty(
            "  I I
            +  1 0
            +  2 1
            +  3 2
            + 10 3
            - 10 3
            +  9 4
            - 9 4
            +  8 5"
        )
    );
    // now () -> (1, 2, 3, 8)
    let res = driver.apply(&chunks[1]);
    assert_eq!(
        res,
        from_pretty(
            "  I I
            - 8 5
            +  7 6
            - 3 2
            +  8 5
            - 1 0
            +  9 4
            - 9 4
            +  5 7
            - 2 1
            +  9 4"
        )
    );
    // (5, 7, 8, 9)
    let res = driver.apply(&chunks[2]);
    assert_eq!(
        res,
        from_pretty(
            "  I I
            - 9 4
            +  6 9"
        )
    );
    // (5, 6, 7, 8)
    let res = driver.apply(&chunks[3]);
    assert_eq!(
        res,
        from_pretty(
            "  I I
            - 5 7
            +  9 4
            - 6 9
            + 10 3"
        )
    );
    // (7, 8, 9, 10)
}

#[test]
fn test_top_n_executor_with_offset_and_limit() {
    let chunks = create_stream_chunks();
    let mut driver = create_driver((3, 4));

    let res = driver.apply(&chunks[0]);
    assert_eq!(
        res,
        from_pretty(
            "  I I
            + 10 3
            +  9 4
            +  8 5"
        )
    );
    let res = driver.apply(&chunks[1]);
    assert_eq!(
        res,
        from_pretty(
            "  I I
            +  7 6
            - 7 6
            - 8 5
            +  8 5
            - 8 5
            + 11 8"
        )
    );
    let res = driver.apply(&chunks[2]);
    assert_eq!(
        res,
        from_pretty(
            "  I I
            +  8 5"
        )
    );
    let res = driver.apply(&chunks[3]);
    assert_eq!(
        res,
        from_pretty(
            "  I  I
            - 8  5
            + 12 10
            - 9  4
            + 13 11
            - 11  8
            + 14 12"
        )
    );
}

#[test]
fn test_top_n_executor_with_offset_and_limit_new() {
    let mut driver = Driver::new(
        4,
        vec![OrderPair::new(0, OrderType::Ascending)],
        (1, 3),
        vec![0, 3],
        vec![],
    );

    let res = driver.apply(&from_pretty(
        " I I I I
        +  1 1 4 1001",
    ));
    // should be empty
    assert_eq!(res, from_pretty("  I I I I"));

    let res = driver.apply(&from_pretty(
        " I I I I
        +  5 1 4 1002 ",
    ));
    assert_eq!(
        res,
        from_pretty(
            "  I I I I
            +  5 1 4 1002
            "
        )
    );

    let res = driver.apply(&from_pretty(
        " I I I I
        +  1 9 1 1003
        +  9 8 1 1004
        +  0 2 3 1005",
    ));
    assert_eq!(
        res,
        from_pretty(
            "  I I I I
            +  1 9 1 1003
            +  9 8 1 1004
            - 9 8 1 1004
            +  1 1 4 1001",
        ),
    );

    let res = driver.apply(&from_pretty(
        " I I I I
        +  1 0 2 1006",
    ));
    assert_eq!(
        res,
        from_pretty(
            "  I I I I
            - 5 1 4 1002
            +  1 0 2 1006",
        )
    );
}

#[test]
fn test_top_n_executor_with_offset_and_limit_new_after_recovery() {
    let order_types = vec![OrderPair::new(0, OrderType::Ascending)];
    let mut driver = Driver::new(4, order_types.clone(), (1, 3), vec![0, 3], vec![]);

    let res = driver.apply(&from_pretty(
        " I I I I
        +  1 1 4 1001",
    ));
    // should be empty
    assert_eq!(res, from_pretty("  I I I I"));

    let res = driver.apply(&from_pretty(
        " I I I I
        +  5 1 4 1002 ",
    ));
    assert_eq!(
        res,
        from_pretty(
            "  I I I I
            +  5 1 4 1002
            "
        )
    );

    // recovery
    let mut driver = Driver::new(4, order_types, (1, 3), vec![3], driver.table);

    let res = driver.apply(&from_pretty(
        " I I I I
        +  1 9 1 1003
        +  9 8 1 1004
        +  0 2 3 1005",
    ));
    assert_eq!(
        res,
        from_pretty(
            "  I I I I
            +  1 9 1 1003
            +  9 8 1 1004
            - 9 8 1 1004
            +  1 1 4 1001",
        ),
    );

    let res = driver.apply(&from_pretty(
        " I I I I
        +  1 0 2 1006",
    ));
    assert_eq!(
        res,
        from_pretty(
            "  I I I I
            - 5 1 4 1002
            +  1 0 2 1006",
        )
    );
}

#[test]
fn executor_tells_of_itself() {
    let info = ExecutorInfo {
        schema: schema_of(3),
        pk_indices: vec![2],
        identity: "source".to_string(),
    };
    let executor = TopNExecutor::new(
        "input",
        info,
        schema_of(2),
        create_order_pairs(),
        (0, 1),
        vec![1],
        0xC0FFEE,
        vec![],
    )
    .unwrap();
    assert_eq!(executor.input, "input");
    assert_eq!(executor.inner.identity(), "TopNExecutorNew C0FFEE");
    assert_eq!(executor.inner.info().identity, "TopNExecutorNew C0FFEE");
    assert_eq!(executor.inner.info().schema, schema_of(3));
    assert_eq!(executor.inner.info().pk_indices, vec![2]);
    assert_eq!(*executor.inner.schema(), schema_of(2));
    assert_eq!(*executor.inner.pk_indices(), vec![1]);
}

#[test]
fn identity_is_in_upper_hex() {
    for id in [0u64, 1, 9, 10, 15, 16, 255, 256, 0xDEAD_BEEF, u64::MAX] {
        let info = ExecutorInfo {
            schema: schema_of(1),
            pk_indices: vec![],
            identity: String::new(),
        };
        let executor =
            TopNExecutor::new((), info, schema_of(1), vec![], (0, 1), vec![0], id, vec![]).unwrap();
        assert_eq!(
            *executor.inner.identity(),
            format!("TopNExecutorNew {:X}", id)
        );
    }
}

#[test]
fn key_is_order_then_rest_of_primary_key() {
    let schema = Schema {
        fields: vec![
            Field::unnamed(DataType::Int64),
            Field::unnamed(DataType::Varchar),
            Field::unnamed(DataType::Boolean),
        ],
    };
    let order_pairs = vec![
        OrderPair::new(2, OrderType::Descending),
        OrderPair::new(0, OrderType::Ascending),
    ];
    let (columns, data_types, order_types) =
        generate_executor_pk_indices_info(&order_pairs, &vec![0, 1, 1], &schema);
    assert_eq!(columns, vec![2, 0, 1]);
    assert_eq!(
        data_types,
        vec![&DataType::Boolean, &DataType::Int64, &DataType::Varchar]
    );
    assert_eq!(
        order_types,
        vec![
            OrderType::Descending,
            OrderType::Ascending,
            OrderType::Ascending
        ]
    );
}

#[test]
fn updates_act_as_deletes_and_inserts() {
    let mut driver = create_driver((0, 2));
    let res = driver.apply(&from_pretty(
        "  I I
        +  1 1
        +  2 2
        +  4 4
        U-  2 2
        U+  3 3",
    ));
    assert_eq!(
        res,
        from_pretty(
            "  I I
            +  1 1
            +  2 2
            -  2 2
            +  4 4
            -  4 4
            +  3 3"
        )
    );
}

#[test]
fn descending_order_keeps_the_largest() {
    let mut driver = Driver::new(
        2,
        vec![OrderPair::new(0, OrderType::Descending)],
        (0, 1),
        vec![1],
        vec![],
    );
    let res = driver.apply(&from_pretty(
        "  I I
        +  1 1
        +  3 2
        +  2 3
        +  3 0",
    ));
    assert_eq!(
        res,
        from_pretty(
            "  I I
            +  1 1
            -  1 1
            +  3 2
            -  3 2
            +  3 0"
        )
    );
}

#[test]
fn row_without_a_key_column_is_refused() {
    let mut driver = create_driver((0, 2));
    let chunk = from_pretty(
        "  I I
        +  1 1
        +  2",
    );
    let mut run = ChunkRun::new();
    let step = driver.executor.inner.apply_chunk(&chunk, &mut run);
    assert!(matches!(step, ChunkStep::Refused));
    assert_eq!(run.next, 1);
    assert_eq!(run.res_ops, vec![Op::Insert]);
    assert_eq!(run.table_changes.len(), 1);
}

#[test]
fn deleting_from_an_empty_cache_is_refused() {
    let mut driver = create_driver((0, 2));
    let chunk = from_pretty(
        "  I I
        -  1 1",
    );
    let mut run = ChunkRun::new();
    let step = driver.executor.inner.apply_chunk(&chunk, &mut run);
    assert!(matches!(step, ChunkStep::Refused));
    assert_eq!(run.next, 0);
    assert!(run.res_ops.is_empty());
}

#[test]
fn request_names_the_rows_after_the_window() {
    let mut driver = create_driver((1, 2));
    driver.apply(&from_pretty(
        "  I I
        +  1 1
        +  2 2
        +  3 3",
    ));
    let chunk = from_pretty(
        "  I I
        -  2 2",
    );
    let mut run = ChunkRun::new();
    match driver.executor.inner.apply_chunk(&chunk, &mut run) {
        ChunkStep::Fill(request) => {
            assert_eq!(request.limit, 6);
            let row = from_pretty("I I\n+ 3 3").rows.remove(0).1;
            assert_eq!(request.start_key, driver.executor.inner.ordered_key(&row));
        }
        _ => panic!("rows are needed"),
    }
}

/// Changes the rows of a window as a chunk says.
fn change_rows(rows: &mut Vec<Row>, chunk: &StreamChunk) {
    for (op, row) in &chunk.rows {
        match op {
            Op::Insert | Op::UpdateInsert => rows.push(row.clone()),
            Op::Delete | Op::UpdateDelete => {
                let place = rows.iter().position(|r| r == row).unwrap();
                rows.swap_remove(place);
            }
        }
    }
}

fn int_of(row: &Row, column: usize) -> i64 {
    match &row.0[column] {
        Some(ScalarImpl::Int64(i)) => *i,
        _ => unreachable!(),
    }
}

/// What is put out turns the rows of the window before into those after, also where the rows of
/// the table are more than the cache holds and have to be read again.
#[test]
fn output_follows_the_window() {
    for (offset, limit) in [(0, 1), (0, 3), (1, 1), (1, 2), (2, 2), (3, 1), (3, 4)] {
        let mut driver = create_driver((offset, limit));
        let mut rows: Vec<Row> = Vec::new();
        let mut all: Vec<i64> = (0..60).map(|i| i * 37 % 61).collect();
        for value in &all {
            let chunk = StreamChunk {
                rows: vec![(
                    Op::Insert,
                    Row(vec![
                        Some(ScalarImpl::Int64(*value)),
                        Some(ScalarImpl::Int64(0)),
                    ]),
                )],
            };
            change_rows(&mut rows, &driver.apply(&chunk));
        }
        let mut turn = 0usize;
        while all.len() > offset + limit + 2 {
            all.sort_unstable();
            let mut window: Vec<i64> = rows.iter().map(|row| int_of(row, 0)).collect();
            window.sort_unstable();
            assert_eq!(window, all[offset..offset + limit]);
            let value = all.remove(turn * 7 % all.len().min(offset + limit + 1));
            turn += 1;
            let chunk = StreamChunk {
                rows: vec![(
                    Op::Delete,
                    Row(vec![
                        Some(ScalarImpl::Int64(value)),
                        Some(ScalarImpl::Int64(0)),
                    ]),
                )],
            };
            change_rows(&mut rows, &driver.apply(&chunk));
        }
        assert!(driver.fills > 0);
    }
}

/// A chunk with many deletions waits for rows several times; in the end it has done what its rows
/// do one at a time.
#[test]
fn waiting_changes_nothing() {
    let start = StreamChunk {
        rows: (0..30)
            .map(|i| {
                let row = Row(vec![
                    Some(ScalarImpl::Int64(i)),
                    Some(ScalarImpl::Int64(-i)),
                ]);
                (Op::Insert, row)
            })
            .collect(),
    };
    let end = StreamChunk {
        rows: (0..25)
            .map(|i| {
                let row = Row(vec![
                    Some(ScalarImpl::Int64(i)),
                    Some(ScalarImpl::Int64(-i)),
                ]);
                (Op::Delete, row)
            })
            .collect(),
    };
    let mut at_once = create_driver((1, 2));
    at_once.apply(&start);
    let whole = at_once.apply(&end);
    assert!(at_once.fills > 1);

    let mut one_by_one = create_driver((1, 2));
    one_by_one.apply(&start);
    let mut rows = Vec::new();
    for change in end.rows {
        let part = one_by_one.apply(&StreamChunk { rows: vec![change] });
        rows.extend(part.rows);
    }
    assert_eq!(whole.rows, rows);
}

/// Deleting a row that has just been inserted brings the window back.
#[test]
fn delete_undoes_insert() {
    let mut driver = create_driver((1, 2));
    let mut rows: Vec<Row> = Vec::new();
    let start = from_pretty(
        "  I I
        +  1 0
        +  3 0
        +  5 0
        +  7 0",
    );
    change_rows(&mut rows, &driver.apply(&start));
    let window = |rows: &[Row]| {
        let mut values: Vec<i64> = rows.iter().map(|row| int_of(row, 0)).collect();
        values.sort_unstable();
        values
    };
    assert_eq!(window(&rows), vec![3, 5]);
    for value in [0, 2, 4, 6, 8] {
        let row = Row(vec![
            Some(ScalarImpl::Int64(value)),
            Some(ScalarImpl::Int64(0)),
        ]);
        let both = StreamChunk {
            rows: vec![(Op::Insert, row.clone()), (Op::Delete, row)],
        };
        change_rows(&mut rows, &driver.apply(&both));
        assert_eq!(window(&rows), vec![3, 5]);
        assert_eq!(driver.table.len(), 4);
    }
}

#[test]
fn uncached_rows_come_before_later_ones() {
    let mut driver = create_driver((0, 1));
    driver.apply(&from_pretty(
        "  I I
        +  1 0
        +  2 1
        +  3 2
        +  4 3",
    ));
    let res = driver.apply(&from_pretty(
        "  I I
        -  3 2
        +  5 4",
    ));
    assert_eq!(res, from_pretty("  I I"));
    let res = driver.apply(&from_pretty(
        "  I I
        -  1 0
        -  2 1",
    ));
    assert_eq!(
        res,
        from_pretty(
            "  I I
            -  1 0
            +  2 1
            -  2 1
            +  4 3"
        )
    );
}

#[test]
fn rows_that_left_the_cache_come_back_in_order() {
    let mut driver = create_driver((0, 1));
    let res = driver.apply(&from_pretty(
        "  I I
        +  1 0
        +  2 0
        +  3 0
        +  4 0
        -  1 0
        +  5 0
        -  2 0
        -  3 0",
    ));
    assert_eq!(
        res,
        from_pretty(
            "  I I
            +  1 0
            -  1 0
            +  2 0
            -  2 0
            +  3 0
            -  3 0
            +  4 0"
        )
    );
}

#[test]
fn low_row_is_deleted_while_one_row_follows() {
    let mut driver = create_driver((1, 1));
    let res = driver.apply(&from_pretty(
        "  I I
        +  2 0
        +  1 0
        -  1 0",
    ));
    assert_eq!(
        res,
        from_pretty(
            "  I I
            +  2 0
            -  2 0"
        )
    );
}

/// Insertions and deletions in any order: what is put out always shows the window of the live rows,
/// also after the executor has started again from its table.
#[test]
fn output_follows_the_window_of_any_changes() {
    for (offset, limit) in [(0, 1), (0, 2), (1, 1), (1, 2), (2, 1), (2, 3)] {
        for seed in 1..20u64 {
            let mut state = seed;
            let mut random = |n: u64| {
                state = state
                    .wrapping_mul(6364136223846793005)
                    .wrapping_add(1442695040888963407);
                (state >> 33) % n
            };
            let mut driver = create_driver((offset, limit));
            let mut live: Vec<i64> = Vec::new();
            let mut rows: Vec<Row> = Vec::new();
            for turn in 0..200 {
                let growing = turn % 60 < 30;
                let insert = live.is_empty() || random(10) < if growing { 7 } else { 3 };
                let (op, value) = if insert {
                    let mut value = random(1000) as i64;
                    while live.contains(&value) {
                        value += 1;
                    }
                    live.push(value);
                    (Op::Insert, value)
                } else {
                    let place = random(live.len() as u64) as usize;
                    (Op::Delete, live.swap_remove(place))
                };
                live.sort_unstable();
                let chunk = StreamChunk {
                    rows: vec![(
                        op,
                        Row(vec![
                            Some(ScalarImpl::Int64(value)),
                            Some(ScalarImpl::Int64(0)),
                        ]),
                    )],
                };
                change_rows(&mut rows, &driver.apply(&chunk));
                let mut shown: Vec<i64> = rows.iter().map(|row| int_of(row, 0)).collect();
                shown.sort_unstable();
                let from = live.len().min(offset);
                let to = live.len().min(offset + limit);
                assert_eq!(shown, live[from..to]);
                if turn == 100 {
                    driver = Driver::new(
                        2,
                        create_order_pairs(),
                        (offset, limit),
                        vec![0, 1],
                        driver.table,
                    );
                }
            }
        }
    }
}

/// Two chunks do what both do as one.
#[test]
fn chunks_concatenate() {
    let chunks = create_stream_chunks();
    let mut apart = create_driver((1, 1));
    let mut rows = Vec::new();
    for chunk in &chunks {
        rows.extend(apart.apply(chunk).rows);
    }
    let mut together = create_driver((1, 1));
    let whole = StreamChunk {
        rows: chunks.iter().flat_map(|chunk| chunk.clone().rows).collect(),
    };
    assert_eq!(together.apply(&whole).rows, rows);
    assert_eq!(together.table.len(), apart.table.len());
    assert!(together.apply(&StreamChunk { rows: vec![] }).rows.is_empty());
}
