//! The executor that turns changes of its input into changes of the window.

use vstd::prelude::*;

use crate::common::order::{key_of, Key, OrderPair, OrderType, OrderedRow};
use crate::common::types::{DataType, Schema};
use crate::common::value::{change_of, Change, DatumValue, Op, Row, StreamChunk};
use crate::stream::top_n::cache::{
    ops_of, row_values, rows_of, CacheRange, CacheView, DeleteStep, FillRequest, TopNCache,
    TOPN_CACHE_HIGH_CAPACITY_FACTOR,
};
use crate::stream::top_n::rows::{entries_of, rows_from, Entry, OrderedRows};

verus! {

/// The digits of the hexadecimal system, in upper case.
pub open spec fn hex_digit(n: nat) -> char {
    if n < 10 {
        (n + '0' as nat) as char
    } else {
        (n - 10 + 'A' as nat) as char
    }
}

/// `n` in the hexadecimal system, in upper case and without leading zeros.
pub open spec fn upper_hex(n: nat) -> Seq<char>
    decreases n,
{
    if n < 16 {
        seq![hex_digit(n)]
    } else {
        upper_hex(n / 16).push(hex_digit(n % 16))
    }
}

fn hex_digit_text(n: u64) -> (result: &'static str)
    requires
        n < 16,
    ensures
        result@ == seq![hex_digit(n as nat)],
{
    proof {
        reveal_strlit("0");
        reveal_strlit("1");
        reveal_strlit("2");
        reveal_strlit("3");
        reveal_strlit("4");
        reveal_strlit("5");
        reveal_strlit("6");
        reveal_strlit("7");
        reveal_strlit("8");
        reveal_strlit("9");
        reveal_strlit("A");
        reveal_strlit("B");
        reveal_strlit("C");
        reveal_strlit("D");
        reveal_strlit("E");
        reveal_strlit("F");
    }
    let result = match n {
        0 => "0",
        1 => "1",
        2 => "2",
        3 => "3",
        4 => "4",
        5 => "5",
        6 => "6",
        7 => "7",
        8 => "8",
        9 => "9",
        10 => "A",
        11 => "B",
        12 => "C",
        13 => "D",
        14 => "E",
        _ => "F",
    };
    assert(result@ =~= seq![hex_digit(n as nat)]);
    result
}

fn upper_hex_text(n: u64) -> (result: String)
    ensures
        result@ == upper_hex(n as nat),
    decreases n,
{
    if n < 16 {
        hex_digit_text(n).to_string()
    } else {
        let mut result = upper_hex_text(n / 16);
        result.append(hex_digit_text(n % 16));
        assert(result@ =~= upper_hex(n as nat / 16).push(hex_digit(n as nat % 16)));
        result
    }
}

/// The columns `columns`, followed by those of `more` that are not among them.
pub open spec fn with_columns(columns: Seq<usize>, more: Seq<usize>) -> Seq<usize>
    decreases more.len(),
{
    if more.len() == 0 {
        columns
    } else {
        let before = with_columns(columns, more.drop_last());
        if before.contains(more.last()) {
            before
        } else {
            before.push(more.last())
        }
    }
}

/// The columns of the sort key: those that the order names, followed by the rest of the primary key.
pub open spec fn key_columns(order_pairs: Seq<OrderPair>, pk_indices: Seq<usize>) -> Seq<usize> {
    with_columns(order_pairs.map_values(|pair: OrderPair| pair.column_idx), pk_indices)
}

/// The directions of the columns of the sort key: those that the order does not name are ascending.
pub open spec fn key_order_types(
    order_pairs: Seq<OrderPair>,
    pk_indices: Seq<usize>,
) -> Seq<OrderType> {
    Seq::new(
        key_columns(order_pairs, pk_indices).len(),
        |i: int|
            if i < order_pairs.len() {
                order_pairs[i].order_type
            } else {
                OrderType::Ascending
            },
    )
}

fn contains_column(columns: &Vec<usize>, column: usize) -> (result: bool)
    ensures
        result == columns@.contains(column),
{
    let mut i: usize = 0;
    while i < columns.len()
        invariant
            i <= columns.len(),
            forall|j: int| 0 <= j < i ==> columns@[j] != column,
        decreases columns.len() - i,
    {
        if columns[i] == column {
            return true;
        }
        i = i + 1;
    }
    false
}

/// The columns of the sort key, their types and their directions.
pub fn generate_executor_pk_indices_info<'a>(
    order_pairs: &Vec<OrderPair>,
    pk_indices: &Vec<usize>,
    schema: &'a Schema,
) -> (result: (Vec<usize>, Vec<&'a DataType>, Vec<OrderType>))
    requires
        Row::within(key_columns(order_pairs@, pk_indices@), schema.fields@.len()),
    ensures
        result.0@ == key_columns(order_pairs@, pk_indices@),
        result.1@.len() == result.0@.len(),
        forall|i: int|
            0 <= i < result.1@.len() ==> *(#[trigger] result.1@[i])
                == schema.fields@[result.0@[i] as int].data_type,
        result.2@ == key_order_types(order_pairs@, pk_indices@),
        result.2@.len() == result.0@.len(),
        order_pairs@.len() <= result.0@.len(),
        forall|i: int|
            0 <= i < order_pairs@.len() ==> (#[trigger] result.0@[i]) == order_pairs@[i].column_idx,
        forall|i: int|
            0 <= i < result.2@.len() ==> #[trigger] result.2@[i] == if i < order_pairs@.len() {
                order_pairs@[i].order_type
            } else {
                OrderType::Ascending
            },
{
    let mut columns: Vec<usize> = Vec::new();
    let mut order_types: Vec<OrderType> = Vec::new();
    let mut i: usize = 0;
    let ghost ordered = order_pairs@.map_values(|pair: OrderPair| pair.column_idx);
    while i < order_pairs.len()
        invariant
            i <= order_pairs.len(),
            columns@.len() == i,
            order_types@.len() == i,
            forall|j: int| 0 <= j < i ==> columns@[j] == order_pairs@[j].column_idx,
            forall|j: int| 0 <= j < i ==> order_types@[j] == order_pairs@[j].order_type,
        decreases order_pairs.len() - i,
    {
        columns.push(order_pairs[i].column_idx);
        order_types.push(order_pairs[i].order_type);
        i = i + 1;
    }
    assert(columns@ =~= ordered);
    let mut k: usize = 0;
    assert(forall|j: int|
        0 <= j < order_pairs@.len() ==> #[trigger] columns@[j] == order_pairs@[j].column_idx);
    assert(pk_indices@.take(0) =~= Seq::<usize>::empty());
    while k < pk_indices.len()
        invariant
            k <= pk_indices.len(),
            ordered.len() == order_pairs@.len(),
            columns@ == with_columns(ordered, pk_indices@.take(k as int)),
            order_types@.len() == columns@.len(),
            order_pairs@.len() <= columns@.len(),
            forall|j: int|
                0 <= j < order_pairs@.len() ==> #[trigger] columns@[j]
                    == order_pairs@[j].column_idx,
            forall|j: int|
                0 <= j < order_types@.len() ==> order_types@[j] == if j < order_pairs@.len() {
                    order_pairs@[j].order_type
                } else {
                    OrderType::Ascending
                },
        decreases pk_indices.len() - k,
    {
        assert(pk_indices@.take(k + 1).drop_last() =~= pk_indices@.take(k as int));
        if !contains_column(&columns, pk_indices[k]) {
            columns.push(pk_indices[k]);
            order_types.push(OrderType::Ascending);
        }
        k = k + 1;
    }
    assert(pk_indices@.take(pk_indices@.len() as int) =~= pk_indices@);
    assert(order_types@ =~= key_order_types(order_pairs@, pk_indices@));
    let mut data_types: Vec<&DataType> = Vec::new();
    let mut n: usize = 0;
    while n < columns.len()
        invariant
            n <= columns.len(),
            Row::within(columns@, schema.fields@.len()),
            data_types@.len() == n,
            forall|j: int|
                0 <= j < n ==> *(#[trigger] data_types@[j])
                    == schema.fields@[columns@[j] as int].data_type,
        decreases columns.len() - n,
    {
        data_types.push(&schema.fields[columns[n]].data_type);
        n = n + 1;
    }
    (columns, data_types, order_types)
}

/// What an executor tells of itself.
#[derive(Debug)]
pub struct ExecutorInfo {
    /// The columns of its output.
    pub schema: Schema,
    /// The primary key of its output.
    pub pk_indices: Vec<usize>,
    pub identity: String,
}

/// Why an executor stopped.
#[derive(Debug)]
pub enum StreamExecutorError {
    /// The state table could not be read or written.
    Storage(String),
}

pub type StreamExecutorResult<T> = Result<T, StreamExecutorError>;

/// A change of the state table, which holds every row that has been seen and not been deleted.
#[derive(Debug)]
pub enum TableChange {
    Insert { key: OrderedRow, row: Row },
    Delete { key: OrderedRow, row: Row },
}

/// What happens to the row of a key.
pub type KeyedChange = (Op, Entry);

impl View for TableChange {
    type V = KeyedChange;

    open spec fn view(&self) -> KeyedChange {
        match *self {
            TableChange::Insert { key, row } => (Op::Insert, (key@, row@)),
            TableChange::Delete { key, row } => (Op::Delete, (key@, row@)),
        }
    }
}

/// How far a chunk has been applied.
#[derive(Debug)]
pub struct ChunkRun {
    /// How many rows of the chunk have been applied.
    pub next: usize,
    /// The changes of the state table that the applied rows ask for, in order.
    pub table_changes: Vec<TableChange>,
    /// What happens to the rows of the window.
    pub res_ops: Vec<Op>,
    /// The rows of the window that `res_ops` happen to.
    pub res_rows: Vec<Row>,
}

/// What a [`ChunkRun`] stands for, together with the cache.
#[verifier::ext_equal]
pub struct RunView {
    pub cache: CacheView,
    /// Whether the state table may hold rows behind the last cached one.
    pub rows_beyond: bool,
    pub next: int,
    pub table_changes: Seq<KeyedChange>,
    pub output: Seq<Change>,
}

/// The changes of which `ops` say what happens and `rows` to which rows.
pub open spec fn zip_changes(ops: Seq<Op>, rows: Seq<Seq<DatumValue>>) -> Seq<Change> {
    Seq::new(ops.len(), |i: int| (ops[i], rows[i]))
}

impl ChunkRun {
    pub open spec fn wf(self) -> bool {
        self.res_ops@.len() == self.res_rows@.len()
    }

    pub open spec fn with_cache(self, cache: CacheView, rows_beyond: bool) -> RunView {
        RunView {
            cache,
            rows_beyond,
            next: self.next as int,
            table_changes: self.table_changes@.map_values(|change: TableChange| change@),
            output: zip_changes(self.res_ops@, row_values(self.res_rows@)),
        }
    }

    /// Nothing has been applied.
    pub fn new() -> (result: ChunkRun)
        ensures
            result.wf(),
            forall|cache: CacheView, rows_beyond: bool| #[trigger]
                result.with_cache(cache, rows_beyond) == RunView::begun(cache, rows_beyond),
    {
        let result = ChunkRun {
            next: 0,
            table_changes: Vec::new(),
            res_ops: Vec::new(),
            res_rows: Vec::new(),
        };
        assert forall|cache: CacheView, rows_beyond: bool| #[trigger]
            result.with_cache(cache, rows_beyond) == RunView::begun(cache, rows_beyond) by {
            assert(result.with_cache(cache, rows_beyond) =~= RunView::begun(cache, rows_beyond));
        }
        result
    }
}

/// Rows of the state table that are asked for: the first `limit` after `start_key`.
#[verifier::ext_equal]
pub struct FillView {
    pub start_key: Key,
    pub limit: int,
    /// The range of the row whose deletion waits for them, its key and the row itself.
    pub target: (CacheRange, Key, Seq<DatumValue>),
}

impl View for FillRequest {
    type V = FillView;

    open spec fn view(&self) -> FillView {
        FillView {
            start_key: self.start_key@,
            limit: self.limit as int,
            target: self.pending.target(),
        }
    }
}

/// How far [`InnerTopNExecutorNew::apply_chunk`] has come.
#[derive(Debug)]
pub enum ChunkStep {
    /// All rows have been applied.
    Done,
    /// A deletion needs rows of the state table, with the changes so far made to it, to go on by
    /// [`InnerTopNExecutorNew::resume_chunk`].
    Fill(FillRequest),
    /// The next row cannot be applied: it lacks a column of the sort key, or the cache does not
    /// accept it.
    Refused,
}

/// What a [`ChunkStep`] stands for.
pub enum StepView {
    Done,
    Fill(FillView),
    Refused,
}

impl View for ChunkStep {
    type V = StepView;

    open spec fn view(&self) -> StepView {
        match *self {
            ChunkStep::Done => StepView::Done,
            ChunkStep::Fill(request) => StepView::Fill(request@),
            ChunkStep::Refused => StepView::Refused,
        }
    }
}

/// How rows are keyed: the columns of the key, and their directions.
#[verifier::ext_equal]
pub struct KeyInfo {
    pub columns: Seq<usize>,
    pub order_types: Seq<OrderType>,
}

impl KeyInfo {
    /// The sort key of `row`.
    pub open spec fn key(self, row: Seq<DatumValue>) -> Key {
        key_of(Row::selected(row, self.columns), self.order_types)
    }

    /// `change` with the sort key of its row.
    pub open spec fn keyed(self, change: Change) -> KeyedChange {
        (change.0, (self.key(change.1), change.1))
    }
}

pub open spec fn is_insert(op: Op) -> bool {
    op == Op::Insert || op == Op::UpdateInsert
}

impl CacheView {
    /// Whether `change` can be applied to the cache.
    pub open spec fn accepts(self, change: KeyedChange) -> bool {
        if is_insert(change.0) {
            self.accepts_insert(change.1)
        } else {
            self.accepts_delete(change.1.0)
        }
    }

    /// The rows of the state table that `change` asks for, if it does.
    pub open spec fn fill_for(self, change: KeyedChange) -> Option<FillView> {
        if !is_insert(change.0) && self.needs_fill(change.1.0) {
            let range = self.range_of(change.1.0);
            Some(
                FillView {
                    start_key: self.before_fill(change.1.0).fill_start(),
                    limit: self.high_capacity,
                    target: if range == CacheRange::Middle {
                        (range, change.1.0, change.1.1)
                    } else {
                        (range, seq![], seq![])
                    },
                },
            )
        } else {
            None
        }
    }
}

impl RunView {
    /// The run of a chunk of which nothing has been applied.
    pub open spec fn begun(cache: CacheView, rows_beyond: bool) -> RunView {
        RunView { cache, rows_beyond, next: 0, table_changes: seq![], output: seq![] }
    }

    /// Whether `change` inserts a row that is for the state table alone: it comes behind the last
    /// cached row, where the table may hold rows that come before it.
    pub open spec fn bypasses(self, change: KeyedChange) -> bool {
        is_insert(change.0) && self.rows_beyond && self.cache.is_behind(change.1.0)
    }

    /// The run with one more row applied, up to the point where rows of the state table are needed.
    pub open spec fn with_row(self, change: KeyedChange) -> RunView {
        let (key, row) = change.1;
        if self.bypasses(change) {
            RunView {
                next: self.next + 1,
                table_changes: self.table_changes.push((Op::Insert, change.1)),
                ..self
            }
        } else if is_insert(change.0) {
            RunView {
                cache: self.cache.after_insert(change.1),
                rows_beyond: self.rows_beyond || self.cache.is_full(),
                next: self.next + 1,
                table_changes: self.table_changes.push((Op::Insert, change.1)),
                output: self.output + self.cache.insert_changes(change.1),
            }
        } else {
            let filling = self.cache.needs_fill(key);
            RunView {
                cache: if filling {
                    self.cache.before_fill(key)
                } else {
                    self.cache.after_delete(key)
                },
                rows_beyond: self.rows_beyond,
                next: self.next + 1,
                table_changes: self.table_changes.push((Op::Delete, change.1)),
                output: self.output + if filling {
                    self.cache.changes_before_fill(key)
                } else {
                    self.cache.delete_changes(key, row)
                },
            }
        }
    }

    /// Whether the next of the rows `input` can be applied.
    pub open spec fn next_accepted(self, input: Seq<Change>, info: KeyInfo) -> bool {
        let change = info.keyed(input[self.next]);
        &&& Row::within(info.columns, input[self.next].1.len())
        &&& self.bypasses(change) || self.cache.accepts(change)
    }

    /// The run with the rows `input` applied, as far as that goes without rows of the state table.
    pub open spec fn advanced(self, input: Seq<Change>, info: KeyInfo) -> (RunView, StepView)
        decreases input.len() - self.next,
    {
        if self.next < 0 || self.next >= input.len() {
            (self, StepView::Done)
        } else if !self.next_accepted(input, info) {
            (self, StepView::Refused)
        } else {
            let change = info.keyed(input[self.next]);
            match self.cache.fill_for(change) {
                Some(fill) => (self.with_row(change), StepView::Fill(fill)),
                None => self.with_row(change).advanced(input, info),
            }
        }
    }

    /// The run with the rows that a deletion waited for.
    pub open spec fn resumed(self, fill: FillView, scanned: Seq<Entry>) -> RunView {
        let filled = self.cache.filled(scanned, fill.start_key, fill.limit);
        RunView {
            cache: filled.after_fill(fill.target.0, fill.target.1),
            rows_beyond: filled.high.len() == fill.limit,
            output: self.output + filled.changes_after_fill(fill.target.0, fill.target.2),
            ..self
        }
    }
}

proof fn lemma_zip_append(ops: Seq<Op>, rows: Seq<Seq<DatumValue>>, changes: Seq<Change>)
    requires
        ops.len() == rows.len(),
    ensures
        zip_changes(ops + ops_of(changes), rows + rows_of(changes)) == zip_changes(ops, rows)
            + changes,
{
    assert(zip_changes(ops + ops_of(changes), rows + rows_of(changes)) =~= zip_changes(ops, rows)
        + changes);
}

/// The chunk of the changes of which `new_ops` say what happens and `new_rows` to which rows.
pub fn generate_output(new_rows: Vec<Row>, new_ops: Vec<Op>) -> (result: StreamChunk)
    requires
        new_rows@.len() == new_ops@.len(),
    ensures
        result@ == zip_changes(new_ops@, row_values(new_rows@)),
        result.rows@.len() == new_ops@.len(),
        forall|i: int|
            0 <= i < new_ops@.len() ==> (#[trigger] result.rows@[i]).0 == new_ops@[i]
                && result.rows@[i].1@ == new_rows@[i]@,
{
    let mut rows: Vec<(Op, Row)> = Vec::with_capacity(new_rows.len());
    let mut i: usize = 0;
    while i < new_rows.len()
        invariant
            i <= new_rows.len(),
            new_rows@.len() == new_ops@.len(),
            rows@.len() == i,
            forall|j: int|
                0 <= j < i ==> change_of(#[trigger] rows@[j]) == (new_ops@[j], new_rows@[j]@),
        decreases new_rows.len() - i,
    {
        rows.push((new_ops[i], new_rows[i].clone()));
        i = i + 1;
    }
    let result = StreamChunk { rows };
    assert(result@ =~= zip_changes(new_ops@, row_values(new_rows@)));
    result
}

/// Keeps the rows in the range `[offset, offset+limit)` of its sorted input.
#[derive(Debug)]
pub struct InnerTopNExecutorNew {
    info: ExecutorInfo,
    /// Schema of the executor.
    schema: Schema,
    /// The primary key indices of the `TopNExecutor`
    pk_indices: Vec<usize>,
    /// The internal key indices of the `TopNExecutor`
    internal_key_indices: Vec<usize>,
    /// The order of internal keys of the `TopNExecutor`
    internal_key_order_types: Vec<OrderType>,
    /// In-memory cache of top (N + N * `TOPN_CACHE_HIGH_CAPACITY_FACTOR`) rows
    cache: TopNCache,
    /// Whether the state table may hold rows behind the last cached one.
    rows_beyond: bool,
    /// Indices of the columns on which key distribution depends.
    key_indices: Vec<usize>,
}

impl InnerTopNExecutorNew {
    pub closed spec fn wf(self) -> bool {
        &&& self.cache.ordered()
        &&& self.internal_key_indices@.len() == self.internal_key_order_types@.len()
    }

    pub closed spec fn cache_view(self) -> CacheView {
        self.cache@
    }

    pub closed spec fn rows_beyond_view(self) -> bool {
        self.rows_beyond
    }

    pub closed spec fn key_info(self) -> KeyInfo {
        KeyInfo {
            columns: self.internal_key_indices@,
            order_types: self.internal_key_order_types@,
        }
    }

    pub closed spec fn info_view(self) -> ExecutorInfo {
        self.info
    }

    pub closed spec fn schema_view(self) -> Schema {
        self.schema
    }

    pub closed spec fn pk_indices_view(self) -> Seq<usize> {
        self.pk_indices@
    }

    pub closed spec fn key_indices_view(self) -> Seq<usize> {
        self.key_indices@
    }

    /// Whether the two executors differ at most in what they have cached and know of the state
    /// table.
    pub open spec fn same_but_cache(self, other: InnerTopNExecutorNew) -> bool {
        &&& self.key_info() == other.key_info()
        &&& self.info_view() == other.info_view()
        &&& self.schema_view() == other.schema_view()
        &&& self.pk_indices_view() == other.pk_indices_view()
        &&& self.key_indices_view() == other.key_indices_view()
    }

    pub fn new(
        input_info: ExecutorInfo,
        schema: Schema,
        order_pairs: Vec<OrderPair>,
        offset_and_limit: (usize, usize),
        pk_indices: Vec<usize>,
        executor_id: u64,
        key_indices: Vec<usize>,
    ) -> (result: StreamExecutorResult<InnerTopNExecutorNew>)
        requires
            Row::within(key_columns(order_pairs@, pk_indices@), schema.fields@.len()),
            offset_and_limit.1 != 0,
            (offset_and_limit.0 + offset_and_limit.1) * TOPN_CACHE_HIGH_CAPACITY_FACTOR
                <= usize::MAX,
        ensures
            result is Ok,
            result matches Ok(executor) ==> {
                &&& executor.wf()
                &&& executor.key_info() == (KeyInfo {
                    columns: key_columns(order_pairs@, pk_indices@),
                    order_types: key_order_types(order_pairs@, pk_indices@),
                })
                &&& executor.info_view().schema == input_info.schema
                &&& executor.info_view().pk_indices == input_info.pk_indices
                &&& executor.info_view().identity@ == "TopNExecutorNew "@ + upper_hex(
                    executor_id as nat,
                )
                &&& executor.schema_view() == schema
                &&& executor.pk_indices_view() == pk_indices@
                &&& executor.key_indices_view() == key_indices@
                &&& executor.cache_view() == (CacheView {
                    low: seq![],
                    middle: seq![],
                    high: seq![],
                    high_capacity: (offset_and_limit.0 + offset_and_limit.1)
                        * TOPN_CACHE_HIGH_CAPACITY_FACTOR,
                    offset: offset_and_limit.0 as int,
                    limit: offset_and_limit.1 as int,
                })
                &&& !executor.rows_beyond_view()
            },
    {
        let (internal_key_indices, _internal_key_data_types, internal_key_order_types) =
            generate_executor_pk_indices_info(&order_pairs, &pk_indices, &schema);
        let mut identity = "TopNExecutorNew ".to_string();
        identity.append(upper_hex_text(executor_id).as_str());
        Ok(
            InnerTopNExecutorNew {
                info: ExecutorInfo {
                    schema: input_info.schema,
                    pk_indices: input_info.pk_indices,
                    identity,
                },
                schema,
                pk_indices,
                internal_key_indices,
                internal_key_order_types,
                cache: TopNCache::new(offset_and_limit.0, offset_and_limit.1),
                rows_beyond: false,
                key_indices,
            },
        )
    }

    pub fn schema(&self) -> (result: &Schema)
        ensures
            *result == self.schema_view(),
    {
        &self.schema
    }

    pub fn pk_indices(&self) -> (result: &Vec<usize>)
        ensures
            result@ == self.pk_indices_view(),
    {
        &self.pk_indices
    }

    pub fn identity(&self) -> (result: &String)
        ensures
            *result == self.info_view().identity,
    {
        &self.info.identity
    }

    pub fn info(&self) -> (result: &ExecutorInfo)
        ensures
            *result == self.info_view(),
    {
        &self.info
    }

    /// The columns of the sort key.
    pub fn internal_key_indices(&self) -> (result: &Vec<usize>)
        ensures
            result@ == self.key_info().columns,
    {
        &self.internal_key_indices
    }

    /// The rows that are cached.
    pub fn cache(&self) -> (result: &TopNCache)
        ensures
            result@ == self.cache_view(),
            self.wf() ==> result.ordered(),
    {
        &self.cache
    }

    /// The sort key of `row`.
    pub fn ordered_key(&self, row: &Row) -> (result: OrderedRow)
        requires
            self.wf(),
            Row::within(self.key_info().columns, row@.len()),
        ensures
            result@ == self.key_info().key(row@),
    {
        let pk_row = row.row_by_indices(&self.internal_key_indices);
        OrderedRow::new(&pk_row, &self.internal_key_order_types)
    }

    /// Fills the cache from a scan of the state table. Where the scan gives as many rows as the
    /// cache holds, the table may hold more.
    pub fn init(&mut self, scanned: Vec<(OrderedRow, Row)>)
        requires
            old(self).wf(),
        ensures
            final(self).wf(),
            final(self).same_but_cache(*old(self)),
            final(self).cache_view() == old(self).cache_view().initialized(
                rows_from(entries_of(scanned@)),
            ),
            final(self).rows_beyond_view() == (final(self).cache_view().high.len()
                == final(self).cache_view().high_capacity),
    {
        self.cache.init(OrderedRows::from_rows(scanned));
        self.rows_beyond = self.cache.high.len() == self.cache.high_capacity;
    }

    /// Applies the rows of `chunk` that `run` has not applied yet, as far as that goes without rows
    /// of the state table.
    pub fn apply_chunk(&mut self, chunk: &StreamChunk, run: &mut ChunkRun) -> (result: ChunkStep)
        requires
            old(self).wf(),
            old(run).wf(),
        ensures
            final(self).wf(),
            final(self).same_but_cache(*old(self)),
            final(run).wf(),
            (final(run).with_cache(
                final(self).cache_view(),
                final(self).rows_beyond_view(),
            ), result@) == old(run).with_cache(
                old(self).cache_view(),
                old(self).rows_beyond_view(),
            ).advanced(chunk@, old(self).key_info()),
    {
        let ghost info = self.key_info();
        let ghost goal = run.with_cache(self.cache_view(), self.rows_beyond).advanced(chunk@, info);
        while run.next < chunk.rows.len()
            invariant
                self.wf(),
                self.same_but_cache(*old(self)),
                old(self).key_info() == info,
                goal == old(run).with_cache(
                    old(self).cache_view(),
                    old(self).rows_beyond_view(),
                ).advanced(chunk@, info),
                run.wf(),
                run.with_cache(self.cache_view(), self.rows_beyond).advanced(chunk@, info) == goal,
            decreases chunk.rows.len() - run.next,
        {
            let ghost before = run.with_cache(self.cache_view(), self.rows_beyond);
            let n: usize = run.next;
            let op = chunk.rows[n].0;
            assert(chunk@[n as int] == (op, chunk.rows@[n as int].1@));
            if !chunk.rows[n].1.has_columns(&self.internal_key_indices) {
                return ChunkStep::Refused;
            }
            let row = chunk.rows[n].1.clone();
            let ordered_pk_row = self.ordered_key(&row);
            let ghost change = info.keyed(chunk@[n as int]);
            assert(change == (op, (ordered_pk_row@, row@)));
            match op {
                Op::Insert | Op::UpdateInsert => {
                    if self.rows_beyond && self.cache.is_behind(&ordered_pk_row) {
                        // Rows of the state table may come before this one, so it is not cached.
                        run.table_changes.push(TableChange::Insert { key: ordered_pk_row, row });
                        run.next = n + 1;
                        assert(run.with_cache(self.cache_view(), self.rows_beyond)
                            =~= before.with_row(change));
                    } else {
                        if !self.cache.accepts_insert(&ordered_pk_row) {
                            assert(!before.cache.accepts_insert(change.1));
                            return ChunkStep::Refused;
                        }
                        assert(before.cache.accepts_insert(change.1));
                        run.table_changes.push(
                            TableChange::Insert { key: ordered_pk_row.clone(), row: row.clone() },
                        );
                        proof {
                            lemma_zip_append(
                                run.res_ops@,
                                row_values(run.res_rows@),
                                before.cache.insert_changes(change.1),
                            );
                        }
                        self.rows_beyond = self.rows_beyond || self.cache.is_full();
                        self.cache.insert(ordered_pk_row, row, &mut run.res_ops, &mut run.res_rows);
                        run.next = n + 1;
                        assert(row_values(run.res_rows@).len() == run.res_rows@.len());
                        assert(run.with_cache(self.cache_view(), self.rows_beyond)
                            =~= before.with_row(change));
                    }
                },
                Op::Delete | Op::UpdateDelete => {
                    if !self.cache.accepts_delete(&ordered_pk_row) {
                        return ChunkStep::Refused;
                    }
                    run.table_changes.push(
                        TableChange::Delete { key: ordered_pk_row.clone(), row: row.clone() },
                    );
                    proof {
                        lemma_zip_append(
                            run.res_ops@,
                            row_values(run.res_rows@),
                            before.cache.delete_changes(change.1.0, change.1.1),
                        );
                        lemma_zip_append(
                            run.res_ops@,
                            row_values(run.res_rows@),
                            before.cache.changes_before_fill(change.1.0),
                        );
                    }
                    let step = self.cache.delete(
                        ordered_pk_row,
                        row,
                        &mut run.res_ops,
                        &mut run.res_rows,
                    );
                    run.next = n + 1;
                    assert(row_values(run.res_rows@).len() == run.res_rows@.len());
                    assert(run.with_cache(self.cache_view(), self.rows_beyond) =~= before.with_row(change));
                    match step {
                        DeleteStep::Done => {},
                        DeleteStep::Fill(request) => {
                            assert(Some(request@) == before.cache.fill_for(change));
                            return ChunkStep::Fill(request);
                        },
                    }
                },
            }
        }
        ChunkStep::Done
    }

    /// Goes on with a chunk, given the rows that a scan of the state table found.
    pub fn resume_chunk(
        &mut self,
        run: &mut ChunkRun,
        request: FillRequest,
        scanned: Vec<(OrderedRow, Row)>,
    )
        requires
            old(self).wf(),
            old(run).wf(),
        ensures
            final(self).wf(),
            final(self).same_but_cache(*old(self)),
            final(run).wf(),
            final(run).with_cache(
                final(self).cache_view(),
                final(self).rows_beyond_view(),
            ) == old(run).with_cache(
                old(self).cache_view(),
                old(self).rows_beyond_view(),
            ).resumed(request@, rows_from(entries_of(scanned@))),
    {
        let ghost before = run.with_cache(self.cache_view(), self.rows_beyond);
        let rows = OrderedRows::from_rows(scanned);
        proof {
            let filled = before.cache.filled(rows@, request@.start_key, request@.limit);
            lemma_zip_append(
                run.res_ops@,
                row_values(run.res_rows@),
                filled.changes_after_fill(request@.target.0, request@.target.2),
            );
        }
        self.rows_beyond = self.cache.delete_filled(
            request,
            rows,
            &mut run.res_ops,
            &mut run.res_rows,
        );
        assert(row_values(run.res_rows@).len() == run.res_rows@.len());
        assert(run.with_cache(self.cache_view(), self.rows_beyond) =~= before.resumed(request@, rows@));
    }
}

/// An executor together with the executor that it reads from.
#[derive(Debug)]
pub struct TopNExecutorWrapper<I, E> {
    pub input: I,
    pub inner: E,
}

/// `TopNExecutor` works with input with modification, it keeps all the data
/// records/rows that have been seen, and returns topN records overall.
pub type TopNExecutor<I> = TopNExecutorWrapper<I, InnerTopNExecutorNew>;

impl<I> TopNExecutor<I> {
    /// An executor that reads from `input`, which tells `info` of itself and has the columns
    /// `schema`.
    pub fn new(
        input: I,
        info: ExecutorInfo,
        schema: Schema,
        order_pairs: Vec<OrderPair>,
        offset_and_limit: (usize, usize),
        pk_indices: Vec<usize>,
        executor_id: u64,
        key_indices: Vec<usize>,
    ) -> (result: StreamExecutorResult<TopNExecutor<I>>)
        requires
            Row::within(key_columns(order_pairs@, pk_indices@), schema.fields@.len()),
            offset_and_limit.1 != 0,
            (offset_and_limit.0 + offset_and_limit.1) * TOPN_CACHE_HIGH_CAPACITY_FACTOR
                <= usize::MAX,
        ensures
            result is Ok,
            result matches Ok(executor) ==> {
                &&& executor.input == input
                &&& executor.inner.wf()
                &&& executor.inner.key_info() == (KeyInfo {
                    columns: key_columns(order_pairs@, pk_indices@),
                    order_types: key_order_types(order_pairs@, pk_indices@),
                })
                &&& executor.inner.info_view().schema == info.schema
                &&& executor.inner.info_view().pk_indices == info.pk_indices
                &&& executor.inner.info_view().identity@ == "TopNExecutorNew "@ + upper_hex(
                    executor_id as nat,
                )
                &&& executor.inner.schema_view() == schema
                &&& executor.inner.pk_indices_view() == pk_indices@
                &&& executor.inner.key_indices_view() == key_indices@
                &&& executor.inner.cache_view() == (CacheView {
                    low: seq![],
                    middle: seq![],
                    high: seq![],
                    high_capacity: (offset_and_limit.0 + offset_and_limit.1)
                        * TOPN_CACHE_HIGH_CAPACITY_FACTOR,
                    offset: offset_and_limit.0 as int,
                    limit: offset_and_limit.1 as int,
                })
                &&& !executor.inner.rows_beyond_view()
            },
    {
        let created = InnerTopNExecutorNew::new(
            info,
            schema,
            order_pairs,
            offset_and_limit,
            pk_indices,
            executor_id,
            key_indices,
        );
        match created {
            Ok(inner) => Ok(TopNExecutorWrapper { input, inner }),
            Err(error) => Err(error),
        }
    }
}

}
