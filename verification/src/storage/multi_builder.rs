//! Splitting key-value pairs into tables of limited size.
//!
//! Tables are opened, filled and finished outside: the builder here says what is to be done next,
//! is told what came of it, and keeps the account.

use vstd::prelude::*;

verus! {

/// How blocks of a table are compressed.
#[derive(Debug, Clone, Copy, PartialEq, Eq, Structural)]
pub enum CompressionAlgorithm {
    Uncompressed,
    Lz4,
    Zstd,
}

/// How a table is built.
#[derive(Debug, Clone, Copy, PartialEq, Eq, Structural)]
pub struct SstableBuilderOptions {
    /// Approximate sstable capacity.
    pub capacity: usize,
    /// Approximate block capacity.
    pub block_capacity: usize,
    /// Restart point interval.
    pub restart_interval: usize,
    /// False positive probability of bloom filter, as the bits of a double-precision number.
    pub bloom_false_positive: u64,
    /// Compression algorithm.
    pub compression_algorithm: CompressionAlgorithm,
}

/// What is kept in memory of a table that is written.
#[derive(Debug, Clone, Copy, PartialEq, Eq, Structural)]
pub enum CachePolicy {
    Disable,
    Fill,
    NotFill,
}

/// How a table is written.
#[derive(Debug, Clone, Copy, PartialEq, Eq)]
pub struct SstableWriterOptions {
    pub capacity_hint: Option<usize>,
    pub policy: CachePolicy,
}

/// What is needed to open a table.
#[derive(Debug, Clone, Copy, PartialEq, Eq)]
pub struct TableRequest {
    /// The id of the table.
    pub id: u64,
    /// How much memory is required before the table is opened.
    pub required_memory: u64,
    pub writer_options: SstableWriterOptions,
    pub builder_options: SstableBuilderOptions,
}

/// Says how tables are to be opened.
pub trait TableBuilderFactory: Sized {
    /// What is needed to open a table.
    type Request;

    /// How the next table is to be opened.
    spec fn next_table(self) -> Self::Request;

    /// The factory once the next table has been asked for.
    spec fn after_open(self) -> Self;

    /// How the next table is to be opened.
    fn open_builder(&mut self) -> (result: Self::Request)
        ensures
            result == old(self).next_table(),
            *final(self) == old(self).after_open(),
    ;
}

/// The memory that all tables of a [`LocalTableBuilderFactory`] may take together.
pub const LOCAL_MEMORY_QUOTA: u64 = 1000000;

/// Used for unit tests and benchmarks.
#[derive(Debug)]
pub struct LocalTableBuilderFactory<S> {
    next_id: u64,
    sstable_store: S,
    options: SstableBuilderOptions,
    policy: CachePolicy,
    memory_quota: u64,
}

impl<S> LocalTableBuilderFactory<S> {
    pub closed spec fn next_id_view(self) -> u64 {
        self.next_id
    }

    pub closed spec fn store_view(self) -> S {
        self.sstable_store
    }

    pub closed spec fn options_view(self) -> SstableBuilderOptions {
        self.options
    }

    pub closed spec fn policy_view(self) -> CachePolicy {
        self.policy
    }

    pub closed spec fn quota_view(self) -> u64 {
        self.memory_quota
    }

    pub fn new(next_id: u64, sstable_store: S, options: SstableBuilderOptions) -> (result: Self)
        ensures
            result.next_id_view() == next_id,
            result.store_view() == sstable_store,
            result.options_view() == options,
            result.policy_view() == CachePolicy::NotFill,
            result.quota_view() == LOCAL_MEMORY_QUOTA,
    {
        LocalTableBuilderFactory {
            next_id,
            sstable_store,
            options,
            policy: CachePolicy::NotFill,
            memory_quota: LOCAL_MEMORY_QUOTA,
        }
    }

    /// Where the tables are stored.
    pub fn sstable_store(&self) -> (result: &S)
        ensures
            *result == self.store_view(),
    {
        &self.sstable_store
    }

    /// The memory that all tables may take together.
    pub fn memory_quota(&self) -> (result: u64)
        ensures
            result == self.quota_view(),
    {
        self.memory_quota
    }
}

/// The id after `id`. The ids start again from zero once they have all been used.
pub open spec fn following_id(id: u64) -> u64 {
    if id == u64::MAX {
        0
    } else {
        (id + 1) as u64
    }
}

impl<S> TableBuilderFactory for LocalTableBuilderFactory<S> {
    type Request = TableRequest;

    open spec fn next_table(self) -> TableRequest {
        TableRequest {
            id: self.next_id_view(),
            required_memory: 1,
            writer_options: SstableWriterOptions {
                capacity_hint: Some(self.options_view().capacity),
                policy: self.policy_view(),
            },
            builder_options: self.options_view(),
        }
    }

    closed spec fn after_open(self) -> Self {
        LocalTableBuilderFactory { next_id: following_id(self.next_id), ..self }
    }

    fn open_builder(&mut self) -> (result: TableRequest) {
        let id = self.next_id;
        self.next_id = if id == u64::MAX {
            0
        } else {
            id + 1
        };
        let writer_options = SstableWriterOptions {
            capacity_hint: Some(self.options.capacity),
            policy: self.policy,
        };
        TableRequest { id, required_memory: 1, writer_options, builder_options: self.options }
    }
}

/// Opening a table uses up its id and changes nothing else.
pub proof fn law_open_uses_one_id<S>(factory: LocalTableBuilderFactory<S>)
    ensures
        factory.after_open().next_id_view() == following_id(factory.next_id_view()),
        factory.after_open().store_view() == factory.store_view(),
        factory.after_open().options_view() == factory.options_view(),
        factory.after_open().policy_view() == factory.policy_view(),
        factory.after_open().quota_view() == factory.quota_view(),
        factory.after_open().next_table().id != factory.next_table().id,
{
}

/// `factory` once `n` tables have been asked for.
pub open spec fn after_opens<F: TableBuilderFactory>(factory: F, n: nat) -> F
    decreases n,
{
    if n == 0 {
        factory
    } else {
        after_opens(factory, (n - 1) as nat).after_open()
    }
}

/// Tables are numbered one after the other, from the id that the factory was made with.
pub proof fn law_ids_are_consecutive<S>(factory: LocalTableBuilderFactory<S>, n: nat)
    requires
        factory.next_id_view() + n <= u64::MAX,
    ensures
        after_opens(factory, n).next_table().id == factory.next_id_view() + n,
    decreases n,
{
    if n > 0 {
        law_ids_are_consecutive(factory, (n - 1) as nat);
    }
}

/// A finished table: what is known of it, and the upload to wait for.
#[derive(Debug)]
pub struct SplitTableOutput<I, H> {
    pub sst_info: I,
    pub upload_join_handle: H,
}

/// What finishing a table gives.
#[derive(Debug)]
pub struct SstableBuilderOutput<I, H> {
    pub sst_info: I,
    /// The size of the table, as `sst_info` has it.
    pub file_size: u64,
    pub bloom_filter_size: usize,
    pub writer_output: H,
    pub avg_key_size: usize,
    pub avg_value_size: usize,
}

/// Sizes of tables that have been observed and not been reported yet, oldest first.
#[derive(Debug)]
pub struct StateStoreMetrics {
    pub sstable_bloom_filter_size: Vec<usize>,
    pub sstable_file_size: Vec<u64>,
    pub sstable_avg_key_size: Vec<usize>,
    pub sstable_avg_value_size: Vec<usize>,
}

/// What [`StateStoreMetrics`] stand for.
#[verifier::ext_equal]
pub struct MetricsView {
    pub sstable_bloom_filter_size: Seq<usize>,
    pub sstable_file_size: Seq<u64>,
    pub sstable_avg_key_size: Seq<usize>,
    pub sstable_avg_value_size: Seq<usize>,
}

impl View for StateStoreMetrics {
    type V = MetricsView;

    open spec fn view(&self) -> MetricsView {
        MetricsView {
            sstable_bloom_filter_size: self.sstable_bloom_filter_size@,
            sstable_file_size: self.sstable_file_size@,
            sstable_avg_key_size: self.sstable_avg_key_size@,
            sstable_avg_value_size: self.sstable_avg_value_size@,
        }
    }
}

/// `observed` with one more observation, unless it is zero.
pub open spec fn observe_usize(observed: Seq<usize>, size: usize) -> Seq<usize> {
    if size != 0 {
        observed.push(size)
    } else {
        observed
    }
}

/// `observed` with one more observation, unless it is zero.
pub open spec fn observe_u64(observed: Seq<u64>, size: u64) -> Seq<u64> {
    if size != 0 {
        observed.push(size)
    } else {
        observed
    }
}

impl StateStoreMetrics {
    /// Metrics of which nothing has been observed.
    pub fn unused() -> (result: StateStoreMetrics)
        ensures
            result@ == (MetricsView {
                sstable_bloom_filter_size: seq![],
                sstable_file_size: seq![],
                sstable_avg_key_size: seq![],
                sstable_avg_value_size: seq![],
            }),
    {
        StateStoreMetrics {
            sstable_bloom_filter_size: Vec::new(),
            sstable_file_size: Vec::new(),
            sstable_avg_key_size: Vec::new(),
            sstable_avg_value_size: Vec::new(),
        }
    }
}

/// How far a task has come.
#[derive(Debug, Clone, Copy, PartialEq, Eq, Structural)]
pub struct TaskProgressTracker {
    pub ssts_sealed: u64,
}

/// A wrapper for builders of tables which automatically split key-value pairs into multiple tables,
/// based on their target capacity set in options.
///
/// When building is finished, one may call `finish` to get the results of zero, one or more tables.
#[derive(Debug)]
pub struct CapacitySplitTableBuilder<F, B, I, H> {
    /// When a new table is opened, this factory says how.
    builder_factory: F,
    sst_outputs: Vec<SplitTableOutput<I, H>>,
    current_builder: Option<B>,
    /// Statistics.
    pub stats: StateStoreMetrics,
    task_progress_tracker: Option<TaskProgressTracker>,
}

/// What a [`CapacitySplitTableBuilder`] stands for.
#[verifier::ext_equal]
pub struct SplitView<F, B, I, H> {
    pub factory: F,
    /// The tables that are sealed, oldest first.
    pub outputs: Seq<SplitTableOutput<I, H>>,
    /// The table that takes the next pair.
    pub current: Option<B>,
    pub stats: MetricsView,
    pub sealed_count: Option<u64>,
}

/// What comes next when a pair is added.
#[derive(Debug)]
pub enum AddStep<B, R> {
    /// The current table has reached its capacity. It is to be finished, what comes of it goes to
    /// [`CapacitySplitTableBuilder::sealed`], and [`CapacitySplitTableBuilder::open_next`] follows.
    Seal(B),
    /// A table is to be opened and to be given to [`CapacitySplitTableBuilder::opened`]; then the
    /// pair is added to it.
    Open(R),
    /// The pair is to be added to the current table.
    Add,
}

/// What comes next when the tables are finished.
#[derive(Debug)]
pub enum FinishStep<F, B, I, H> {
    /// The current table is to be finished and what comes of it goes to
    /// [`CapacitySplitTableBuilder::sealed`]; then the rest is to be finished.
    Seal(B, CapacitySplitTableBuilder<F, B, I, H>),
    /// All tables are sealed.
    Done(Vec<SplitTableOutput<I, H>>),
}

/// What is kept of a finished table.
pub open spec fn table_of<I, H>(output: SstableBuilderOutput<I, H>) -> SplitTableOutput<I, H> {
    SplitTableOutput { sst_info: output.sst_info, upload_join_handle: output.writer_output }
}

impl<F: TableBuilderFactory, B, I, H> SplitView<F, B, I, H> {
    /// How many tables there are.
    pub open spec fn len(self) -> nat {
        self.outputs.len() + if self.current is Some {
            1nat
        } else {
            0nat
        }
    }

    /// Without a current table.
    pub open spec fn without_current(self) -> Self {
        SplitView { current: None, ..self }
    }

    /// With the current table finished as `output`.
    pub open spec fn with_sealed(self, output: SstableBuilderOutput<I, H>) -> Self {
        SplitView {
            outputs: self.outputs.push(table_of(output)),
            stats: MetricsView {
                sstable_bloom_filter_size: observe_usize(
                    self.stats.sstable_bloom_filter_size,
                    output.bloom_filter_size,
                ),
                sstable_file_size: observe_u64(self.stats.sstable_file_size, output.file_size),
                sstable_avg_key_size: observe_usize(
                    self.stats.sstable_avg_key_size,
                    output.avg_key_size,
                ),
                sstable_avg_value_size: observe_usize(
                    self.stats.sstable_avg_value_size,
                    output.avg_value_size,
                ),
            },
            sealed_count: match self.sealed_count {
                Some(n) => Some(
                    if n == u64::MAX {
                        0
                    } else {
                        (n + 1) as u64
                    },
                ),
                None => None,
            },
            ..self
        }
    }

    /// With `builder` as the current table.
    pub open spec fn with_opened(self, builder: B) -> Self {
        SplitView { current: Some(builder), ..self }
    }

    /// Once the next table has been asked for.
    pub open spec fn after_request(self) -> Self {
        SplitView { factory: self.factory.after_open(), ..self }
    }

    /// What comes next when a pair is added, and what is left.
    pub open spec fn add_step(self, is_new_user_key: bool, reach_capacity: bool) -> (
        AddStep<B, F::Request>,
        Self,
    ) {
        match self.current {
            Some(builder) => if is_new_user_key && reach_capacity {
                (AddStep::Seal(builder), self.without_current())
            } else {
                (AddStep::Add, self)
            },
            None => (AddStep::Open(self.factory.next_table()), self.after_request()),
        }
    }

    /// Whether adding a pair needs a new table.
    pub open spec fn opens(self, is_new_user_key: bool, reach_capacity: bool) -> bool {
        self.current is None || (is_new_user_key && reach_capacity)
    }

    /// Once a table for a pair is there: `output` is what finishing the current table gives, and
    /// `builder` is the table that is opened, where these are needed.
    pub open spec fn ready(
        self,
        is_new_user_key: bool,
        reach_capacity: bool,
        output: SstableBuilderOutput<I, H>,
        builder: B,
    ) -> Self {
        let (step, rest) = self.add_step(is_new_user_key, reach_capacity);
        match step {
            AddStep::Seal(_) => rest.with_sealed(output).after_request().with_opened(builder),
            AddStep::Open(_) => rest.with_opened(builder),
            AddStep::Add => rest,
        }
    }

    /// The tables that come of finishing, where `output` is what finishing the current table gives.
    pub open spec fn finished(self, output: SstableBuilderOutput<I, H>) -> Seq<
        SplitTableOutput<I, H>,
    > {
        if self.current is Some {
            self.without_current().with_sealed(output).outputs
        } else {
            self.outputs
        }
    }
}

/// A table is opened with the id that comes next, with room for one unit of memory, and with the
/// capacity that the options give as a hint.
pub proof fn law_tables_are_opened_by_options<S>(factory: LocalTableBuilderFactory<S>)
    ensures
        factory.next_table().id == factory.next_id_view(),
        factory.next_table().required_memory == 1,
        factory.next_table().writer_options.capacity_hint == Some(factory.options_view().capacity),
        factory.next_table().writer_options.policy == factory.policy_view(),
        factory.next_table().builder_options == factory.options_view(),
{
}

/// A full table is sealed before a pair of a new user key is added, and no other table is: the pair
/// of a user key that is not new, and a pair that comes when there is room, go to the current table.
pub proof fn law_full_table_is_sealed<F: TableBuilderFactory, B, I, H>(
    builder: SplitView<F, B, I, H>,
    current: B,
    is_new_user_key: bool,
    reach_capacity: bool,
)
    requires
        builder.current == Some(current),
    ensures
        ({
            let (step, rest) = builder.add_step(is_new_user_key, reach_capacity);
            &&& rest.outputs == builder.outputs
            &&& rest.stats == builder.stats
            &&& rest.sealed_count == builder.sealed_count
            &&& rest.factory == builder.factory
            &&& is_new_user_key && reach_capacity ==> step == AddStep::<B, F::Request>::Seal(
                current,
            ) && rest.current is None
            &&& !(is_new_user_key && reach_capacity) ==> step == AddStep::<B, F::Request>::Add
                && rest.current == Some(current)
        }),
{
}

/// Asking for a table uses up the request, opening one makes it the current one, and neither
/// changes anything else.
pub proof fn law_opening_a_table<F: TableBuilderFactory, B, I, H>(
    builder: SplitView<F, B, I, H>,
    opened: B,
)
    ensures
        ({
            let asked = builder.after_request();
            let ready = builder.with_opened(opened);
            &&& asked.factory == builder.factory.after_open()
            &&& asked.current == builder.current
            &&& asked.outputs == builder.outputs
            &&& asked.stats == builder.stats
            &&& asked.sealed_count == builder.sealed_count
            &&& ready.current == Some(opened)
            &&& ready.factory == builder.factory
            &&& ready.outputs == builder.outputs
            &&& ready.stats == builder.stats
            &&& ready.sealed_count == builder.sealed_count
        }),
{
}

/// A finished table comes behind the others, with its own information and upload. Each of its sizes
/// that is not zero is observed once, after those before it, one more table is counted where
/// progress is tracked, and nothing else changes.
pub proof fn law_sealing_reports_the_table<F: TableBuilderFactory, B, I, H>(
    builder: SplitView<F, B, I, H>,
    output: SstableBuilderOutput<I, H>,
)
    ensures
        ({
            let after = builder.with_sealed(output);
            let sizes = after.stats;
            &&& after.outputs.len() == builder.outputs.len() + 1
            &&& after.outputs.drop_last() == builder.outputs
            &&& after.outputs.last().sst_info == output.sst_info
            &&& after.outputs.last().upload_join_handle == output.writer_output
            &&& after.current == builder.current
            &&& after.factory == builder.factory
            &&& sizes.sstable_bloom_filter_size == builder.stats.sstable_bloom_filter_size
                + if output.bloom_filter_size == 0 {
                seq![]
            } else {
                seq![output.bloom_filter_size]
            }
            &&& sizes.sstable_file_size == builder.stats.sstable_file_size
                + if output.file_size == 0 {
                seq![]
            } else {
                seq![output.file_size]
            }
            &&& sizes.sstable_avg_key_size == builder.stats.sstable_avg_key_size
                + if output.avg_key_size == 0 {
                seq![]
            } else {
                seq![output.avg_key_size]
            }
            &&& sizes.sstable_avg_value_size == builder.stats.sstable_avg_value_size
                + if output.avg_value_size == 0 {
                seq![]
            } else {
                seq![output.avg_value_size]
            }
            &&& builder.sealed_count is None ==> after.sealed_count is None
            &&& builder.sealed_count matches Some(n) ==> {
                &&& n < u64::MAX ==> after.sealed_count == Some((n + 1) as u64)
                &&& n == u64::MAX ==> after.sealed_count == Some(0u64)
            }
        }),
{
    let after = builder.with_sealed(output);
    assert(after.outputs.drop_last() =~= builder.outputs);
    assert(after.stats.sstable_bloom_filter_size =~= builder.stats.sstable_bloom_filter_size
        + if output.bloom_filter_size == 0 {
        seq![]
    } else {
        seq![output.bloom_filter_size]
    });
    assert(after.stats.sstable_file_size =~= builder.stats.sstable_file_size + if output.file_size
        == 0 {
        seq![]
    } else {
        seq![output.file_size]
    });
    assert(after.stats.sstable_avg_key_size =~= builder.stats.sstable_avg_key_size
        + if output.avg_key_size == 0 {
        seq![]
    } else {
        seq![output.avg_key_size]
    });
    assert(after.stats.sstable_avg_value_size =~= builder.stats.sstable_avg_value_size
        + if output.avg_value_size == 0 {
        seq![]
    } else {
        seq![output.avg_value_size]
    });
}

/// The tables are the sealed ones and the current one, if there is one.
pub proof fn law_tables_are_counted<F: TableBuilderFactory, B, I, H>(
    builder: SplitView<F, B, I, H>,
)
    ensures
        builder.current is Some ==> builder.len() == builder.outputs.len() + 1,
        builder.current is None ==> builder.len() == builder.outputs.len(),
        builder.len() == 0 <==> builder.outputs.len() == 0 && builder.current is None,
        builder.without_current().outputs == builder.outputs,
        builder.without_current().stats == builder.stats,
        builder.without_current().sealed_count == builder.sealed_count,
        builder.without_current().factory == builder.factory,
{
}

/// Metrics stand for the sizes that they hold.
pub proof fn law_metrics_stand_for_their_sizes(stats: StateStoreMetrics)
    ensures
        stats@.sstable_bloom_filter_size == stats.sstable_bloom_filter_size@,
        stats@.sstable_file_size == stats.sstable_file_size@,
        stats@.sstable_avg_key_size == stats.sstable_avg_key_size@,
        stats@.sstable_avg_value_size == stats.sstable_avg_value_size@,
{
}

/// Sealing marks the current table as sealed: sealing again is a no-op, and adding a pair then
/// always opens a new table, whether or not splitting is allowed.
pub proof fn law_seal_current<F: TableBuilderFactory, B, I, H>(
    builder: SplitView<F, B, I, H>,
    is_new_user_key: bool,
    reach_capacity: bool,
)
    ensures
        builder.without_current().current is None,
        builder.without_current().without_current() == builder.without_current(),
        builder.without_current().add_step(is_new_user_key, reach_capacity) == (
            AddStep::<B, F::Request>::Open(builder.factory.next_table()),
            builder.without_current().after_request(),
        ),
{
}

/// A pair of the same user key never leaves the table of the pair before it, however full that is.
pub proof fn law_same_user_key_stays<F: TableBuilderFactory, B, I, H>(
    builder: SplitView<F, B, I, H>,
    reach_capacity: bool,
)
    requires
        builder.current is Some,
    ensures
        builder.add_step(false, reach_capacity) == (AddStep::<B, F::Request>::Add, builder),
{
}

/// Adding a pair leaves a current table behind. The tables that were sealed before stay as they
/// are, and there is one table more if and only if a table was opened.
pub proof fn law_add_opens_at_most_one<F: TableBuilderFactory, B, I, H>(
    builder: SplitView<F, B, I, H>,
    is_new_user_key: bool,
    reach_capacity: bool,
    output: SstableBuilderOutput<I, H>,
    opened: B,
)
    ensures
        ({
            let ready = builder.ready(is_new_user_key, reach_capacity, output, opened);
            let opens = builder.opens(is_new_user_key, reach_capacity);
            &&& ready.current == if opens {
                Some(opened)
            } else {
                builder.current
            }
            &&& ready.len() == builder.len() + if opens {
                1nat
            } else {
                0nat
            }
            &&& builder.outputs.is_prefix_of(ready.outputs)
            &&& ready.factory == if opens {
                builder.factory.after_open()
            } else {
                builder.factory
            }
        }),
{
}

/// The addition of one pair, with what comes of it outside.
pub struct Addition<B, I, H, P> {
    pub pair: P,
    pub is_new_user_key: bool,
    pub reach_capacity: bool,
    /// What finishing the current table gives, if it is sealed.
    pub output: SstableBuilderOutput<I, H>,
    /// The table that is opened, if one is.
    pub opened: B,
    /// The current table with the pair in it.
    pub filled: B,
}

/// What is done to a builder, with what comes of it outside.
pub enum Action<B, I, H, P> {
    /// A pair is added.
    Add(Addition<B, I, H, P>),
    /// The current table, if there is one, is sealed, and finishing it gives the output.
    Seal(SstableBuilderOutput<I, H>),
}

impl<B, I, H, P> Action<B, I, H, P> {
    /// Whether a pair is added that may begin a new table, and the table before it is full.
    pub open spec fn splits(self) -> bool {
        match self {
            Action::Add(a) => a.is_new_user_key && a.reach_capacity,
            Action::Seal(_) => false,
        }
    }
}

/// How many of `actions` begin a new table behind a full one.
pub open spec fn count_splits<B, I, H, P>(actions: Seq<Action<B, I, H, P>>) -> nat
    decreases actions.len(),
{
    if actions.len() == 0 {
        0
    } else {
        count_splits(actions.drop_last()) + if actions.last().splits() {
            1nat
        } else {
            0nat
        }
    }
}

impl<F: TableBuilderFactory, B, I, H> SplitView<F, B, I, H> {
    /// Once `action` is done.
    pub open spec fn after_action<P>(self, action: Action<B, I, H, P>) -> Self {
        match action {
            Action::Add(a) => self.ready(
                a.is_new_user_key,
                a.reach_capacity,
                a.output,
                a.opened,
            ).with_opened(a.filled),
            Action::Seal(output) => if self.current is Some {
                self.without_current().with_sealed(output)
            } else {
                self
            },
        }
    }
}

/// `builder` once all `actions` are done, one after the other.
pub open spec fn with_all<F: TableBuilderFactory, B, I, H, P>(
    builder: SplitView<F, B, I, H>,
    actions: Seq<Action<B, I, H, P>>,
) -> SplitView<F, B, I, H>
    decreases actions.len(),
{
    if actions.len() == 0 {
        builder
    } else {
        with_all(builder, actions.drop_last()).after_action(actions.last())
    }
}

/// Pairs that are added after all tables have been sealed fill one table, and one more for each
/// pair of a new user key that comes when the table is full.
pub proof fn law_tables_split_at_capacity<F: TableBuilderFactory, B, I, H, P>(
    builder: SplitView<F, B, I, H>,
    actions: Seq<Action<B, I, H, P>>,
)
    requires
        builder.current is None,
        actions.len() > 0,
        forall|i: int| 0 <= i < actions.len() ==> #[trigger] actions[i] is Add,
    ensures
        with_all(builder, actions).len() == builder.len() + 1 + count_splits(actions.drop_first()),
        with_all(builder, actions).current == Some(actions.last()->Add_0.filled),
    decreases actions.len(),
{
    let before = actions.drop_last();
    assert(actions.last() is Add);
    if before.len() == 0 {
        assert(with_all(builder, before) == builder);
        assert(actions.drop_first().len() == 0);
    } else {
        law_tables_split_at_capacity(builder, before);
        assert(actions.drop_first().drop_last() =~= before.drop_first());
        assert(actions.drop_first().last() == actions.last());
    }
}

/// The pairs that `actions` add, in their order.
pub open spec fn added_pairs<B, I, H, P>(actions: Seq<Action<B, I, H, P>>) -> Seq<P>
    decreases actions.len(),
{
    if actions.len() == 0 {
        seq![]
    } else {
        match actions.last() {
            Action::Add(a) => added_pairs(actions.drop_last()).push(a.pair),
            Action::Seal(_) => added_pairs(actions.drop_last()),
        }
    }
}

/// The pairs of `tables`, read one table after the other, where `sealed_pairs` gives those of a
/// table.
pub open spec fn pairs_of_all<I, H, P>(
    tables: Seq<SplitTableOutput<I, H>>,
    sealed_pairs: spec_fn(SplitTableOutput<I, H>) -> Seq<P>,
) -> Seq<P>
    decreases tables.len(),
{
    if tables.len() == 0 {
        seq![]
    } else {
        pairs_of_all(tables.drop_last(), sealed_pairs) + sealed_pairs(tables.last())
    }
}

/// Whether what is done outside keeps the pairs of tables, where `pairs` gives those of a table that
/// is being built and `sealed_pairs` those of a finished one: a table that is opened is empty, a
/// pair that is added to a table comes behind its pairs, and a finished table has the pairs of the
/// table that was built.
pub open spec fn keeps_pairs<F: TableBuilderFactory, B, I, H, P>(
    builder: SplitView<F, B, I, H>,
    action: Action<B, I, H, P>,
    pairs: spec_fn(B) -> Seq<P>,
    sealed_pairs: spec_fn(SplitTableOutput<I, H>) -> Seq<P>,
) -> bool {
    match action {
        Action::Add(a) => {
            let ready = builder.ready(a.is_new_user_key, a.reach_capacity, a.output, a.opened);
            &&& builder.current is Some && builder.opens(a.is_new_user_key, a.reach_capacity)
                ==> sealed_pairs(table_of(a.output)) == pairs(builder.current->0)
            &&& builder.opens(a.is_new_user_key, a.reach_capacity) ==> pairs(a.opened).len() == 0
            &&& pairs(a.filled) == pairs(ready.current->0).push(a.pair)
        },
        Action::Seal(output) => builder.current is Some ==> sealed_pairs(table_of(output)) == pairs(
            builder.current->0,
        ),
    }
}

/// Whether what is done outside for each of `actions` keeps the pairs of tables.
pub open spec fn all_keep_pairs<F: TableBuilderFactory, B, I, H, P>(
    builder: SplitView<F, B, I, H>,
    actions: Seq<Action<B, I, H, P>>,
    pairs: spec_fn(B) -> Seq<P>,
    sealed_pairs: spec_fn(SplitTableOutput<I, H>) -> Seq<P>,
) -> bool
    decreases actions.len(),
{
    actions.len() > 0 ==> {
        &&& all_keep_pairs(builder, actions.drop_last(), pairs, sealed_pairs)
        &&& keeps_pairs(
            with_all(builder, actions.drop_last()),
            actions.last(),
            pairs,
            sealed_pairs,
        )
    }
}

proof fn lemma_pairs_push<I, H, P>(
    tables: Seq<SplitTableOutput<I, H>>,
    table: SplitTableOutput<I, H>,
    sealed_pairs: spec_fn(SplitTableOutput<I, H>) -> Seq<P>,
)
    ensures
        pairs_of_all(tables.push(table), sealed_pairs) == pairs_of_all(tables, sealed_pairs)
            + sealed_pairs(table),
{
    assert(tables.push(table).drop_last() =~= tables);
}

/// The pairs of the sealed tables and of the current one are those that were added, and no table is
/// without one.
proof fn lemma_pairs_are_kept<F: TableBuilderFactory, B, I, H, P>(
    builder: SplitView<F, B, I, H>,
    actions: Seq<Action<B, I, H, P>>,
    pairs: spec_fn(B) -> Seq<P>,
    sealed_pairs: spec_fn(SplitTableOutput<I, H>) -> Seq<P>,
)
    requires
        builder.current is None,
        builder.outputs.len() == 0,
        all_keep_pairs(builder, actions, pairs, sealed_pairs),
    ensures
        ({
            let after = with_all(builder, actions);
            let sealed = pairs_of_all(after.outputs, sealed_pairs);
            &&& added_pairs(actions) == match after.current {
                Some(current) => sealed + pairs(current),
                None => sealed,
            }
            &&& after.current is Some ==> pairs(after.current->0).len() > 0
            &&& forall|i: int|
                0 <= i < after.outputs.len() ==> sealed_pairs(#[trigger] after.outputs[i]).len() > 0
        }),
    decreases actions.len(),
{
    if actions.len() > 0 {
        let prior = actions.drop_last();
        lemma_pairs_are_kept(builder, prior, pairs, sealed_pairs);
        let before = with_all(builder, prior);
        let after = with_all(builder, actions);
        match actions.last() {
            Action::Add(a) => {
                lemma_pairs_push(before.outputs, table_of(a.output), sealed_pairs);
                let now = pairs_of_all(after.outputs, sealed_pairs);
                assert(added_pairs(actions) =~= now + pairs(a.filled));
            },
            Action::Seal(output) => {
                lemma_pairs_push(before.outputs, table_of(output), sealed_pairs);
            },
        }
    }
}

/// The pairs of the finished tables, read one table after the other, are those that were added to a
/// new builder, in the order in which they were added: none is lost, repeated or moved. Every table
/// holds at least one.
pub proof fn law_finished_tables_hold_the_pairs<F: TableBuilderFactory, B, I, H, P>(
    builder: SplitView<F, B, I, H>,
    actions: Seq<Action<B, I, H, P>>,
    output: SstableBuilderOutput<I, H>,
    pairs: spec_fn(B) -> Seq<P>,
    sealed_pairs: spec_fn(SplitTableOutput<I, H>) -> Seq<P>,
)
    requires
        builder.current is None,
        builder.outputs.len() == 0,
        all_keep_pairs(builder, actions, pairs, sealed_pairs),
        with_all(builder, actions).current is Some ==> sealed_pairs(table_of(output)) == pairs(
            with_all(builder, actions).current->0,
        ),
    ensures
        ({
            let tables = with_all(builder, actions).finished(output);
            &&& tables.len() == with_all(builder, actions).len()
            &&& pairs_of_all(tables, sealed_pairs) == added_pairs(actions)
            &&& forall|i: int|
                0 <= i < tables.len() ==> sealed_pairs(#[trigger] tables[i]).len() > 0
        }),
{
    let after = with_all(builder, actions);
    lemma_pairs_are_kept(builder, actions, pairs, sealed_pairs);
    lemma_pairs_push(after.outputs, table_of(output), sealed_pairs);
}

/// Finishing gives as many tables as there are, the sealed ones first and in their order, and the
/// current one last.
pub proof fn law_finish_gives_all_tables<F: TableBuilderFactory, B, I, H>(
    builder: SplitView<F, B, I, H>,
    output: SstableBuilderOutput<I, H>,
)
    ensures
        builder.finished(output).len() == builder.len(),
        builder.outputs.is_prefix_of(builder.finished(output)),
        builder.current is Some ==> builder.finished(output).last() == table_of(output),
{
}

impl<F, B, I, H> View for CapacitySplitTableBuilder<F, B, I, H> {
    type V = SplitView<F, B, I, H>;

    closed spec fn view(&self) -> SplitView<F, B, I, H> {
        SplitView {
            factory: self.builder_factory,
            outputs: self.sst_outputs@,
            current: self.current_builder,
            stats: self.stats@,
            sealed_count: match self.task_progress_tracker {
                Some(tracker) => Some(tracker.ssts_sealed),
                None => None,
            },
        }
    }
}

impl<F: TableBuilderFactory, B, I, H> CapacitySplitTableBuilder<F, B, I, H> {
    /// Creates a new [`CapacitySplitTableBuilder`] using given configuration generator.
    pub fn new(
        builder_factory: F,
        stats: StateStoreMetrics,
        task_progress_tracker: Option<TaskProgressTracker>,
    ) -> (result: Self)
        ensures
            result@ == (SplitView::<F, B, I, H> {
                factory: builder_factory,
                outputs: seq![],
                current: None,
                stats: stats@,
                sealed_count: match task_progress_tracker {
                    Some(tracker) => Some(tracker.ssts_sealed),
                    None => None,
                },
            }),
    {
        CapacitySplitTableBuilder {
            builder_factory,
            sst_outputs: Vec::new(),
            current_builder: None,
            stats,
            task_progress_tracker,
        }
    }

    pub fn for_test(builder_factory: F) -> (result: Self)
        ensures
            result@ == (SplitView::<F, B, I, H> {
                factory: builder_factory,
                outputs: seq![],
                current: None,
                stats: MetricsView {
                    sstable_bloom_filter_size: seq![],
                    sstable_file_size: seq![],
                    sstable_avg_key_size: seq![],
                    sstable_avg_value_size: seq![],
                },
                sealed_count: None,
            }),
    {
        CapacitySplitTableBuilder {
            builder_factory,
            sst_outputs: Vec::new(),
            current_builder: None,
            stats: StateStoreMetrics::unused(),
            task_progress_tracker: None,
        }
    }

    /// Returns the number of tables.
    pub fn len(&self) -> (result: usize)
        requires
            self@.len() <= usize::MAX,
        ensures
            result == self@.len(),
    {
        let current: usize = if self.current_builder.is_some() {
            1
        } else {
            0
        };
        self.sst_outputs.len() + current
    }

    /// Returns true if no builder is created.
    pub fn is_empty(&self) -> (result: bool)
        ensures
            result == (self@.len() == 0),
    {
        self.sst_outputs.len() == 0 && self.current_builder.is_none()
    }

    /// The factory that says how tables are opened.
    pub fn builder_factory(&self) -> (result: &F)
        ensures
            *result == self@.factory,
    {
        &self.builder_factory
    }

    /// The progress of the task, if it is tracked.
    pub fn task_progress(&self) -> (result: Option<u64>)
        ensures
            result == self@.sealed_count,
    {
        match &self.task_progress_tracker {
            Some(tracker) => Some(tracker.ssts_sealed),
            None => None,
        }
    }

    /// The current table.
    pub fn current_builder(&self) -> (result: Option<&B>)
        ensures
            match result {
                Some(builder) => self@.current == Some(*builder),
                None => self@.current is None,
            },
    {
        match &self.current_builder {
            Some(builder) => Some(builder),
            None => None,
        }
    }

    /// The current table, to add a pair to it.
    pub fn current_builder_mut(&mut self) -> (result: Option<&mut B>)
        ensures
            match result {
                Some(builder) => {
                    &&& old(self)@.current == Some(*builder)
                    &&& final(self)@ == old(self)@.with_opened(*final(builder))
                },
                None => old(self)@.current is None && final(self)@ == old(self)@,
            },
    {
        match &mut self.current_builder {
            Some(builder) => Some(builder),
            None => None,
        }
    }

    /// Begins to add a user key-value pair, where `reach_capacity` says whether the current table,
    /// if there is one, has reached its capacity.
    ///
    /// If the current table reaches its capacity, a new one follows. The pair goes to a table under
    /// the full key of `user_key`.
    pub fn add_user_key(&mut self, user_key: &Vec<u8>, reach_capacity: bool) -> (result: AddStep<
        B,
        F::Request,
    >)
        requires
            user_key@.len() > 0,
        ensures
            (result, final(self)@) == old(self)@.add_step(true, reach_capacity),
    {
        self.add_full_key(true, reach_capacity)
    }

    /// Begins to add a key-value pair, where `reach_capacity` says whether the current table, if
    /// there is one, has reached its capacity.
    ///
    /// If `is_new_user_key` and the current table reaches its capacity, a new one follows.
    ///
    /// Note that in some cases like compaction of the same user key, automatic splitting is not
    /// allowed, where `is_new_user_key` should be `false`.
    pub fn add_full_key(&mut self, is_new_user_key: bool, reach_capacity: bool) -> (result: AddStep<
        B,
        F::Request,
    >)
        ensures
            (result, final(self)@) == old(self)@.add_step(is_new_user_key, reach_capacity),
    {
        if is_new_user_key && reach_capacity {
            match self.seal_current() {
                Some(builder) => {
                    return AddStep::Seal(builder);
                },
                None => {},
            }
        }
        match self.open_next() {
            Some(request) => AddStep::Open(request),
            None => AddStep::Add,
        }
    }

    /// Asks for a new table, if there is no current one.
    pub fn open_next(&mut self) -> (result: Option<F::Request>)
        ensures
            match result {
                Some(request) => {
                    &&& old(self)@.current is None
                    &&& request == old(self)@.factory.next_table()
                    &&& final(self)@ == old(self)@.after_request()
                },
                None => old(self)@.current is Some && final(self)@ == old(self)@,
            },
    {
        if self.current_builder.is_none() {
            let request = self.builder_factory.open_builder();
            Some(request)
        } else {
            None
        }
    }

    /// Takes a table that has been opened as the current one.
    pub fn opened(&mut self, builder: B)
        ensures
            final(self)@ == old(self)@.with_opened(builder),
    {
        self.current_builder = Some(builder);
    }

    /// Marks the current builder as sealed. Next call of `add` will always create a new table.
    /// The table is to be finished, and what comes of it goes to
    /// [`sealed`](CapacitySplitTableBuilder::sealed).
    ///
    /// If there's no builder created, or current one is already sealed before, then this function
    /// will be no-op.
    pub fn seal_current(&mut self) -> (result: Option<B>)
        ensures
            result == old(self)@.current,
            final(self)@ == old(self)@.without_current(),
    {
        self.current_builder.take()
    }

    /// Takes in what finishing a table gave, and reports it.
    pub fn sealed(&mut self, builder_output: SstableBuilderOutput<I, H>)
        ensures
            final(self)@ == old(self)@.with_sealed(builder_output),
    {
        match self.task_progress_tracker {
            Some(tracker) => {
                self.task_progress_tracker = Some(
                    TaskProgressTracker {
                        ssts_sealed: if tracker.ssts_sealed == u64::MAX {
                            0
                        } else {
                            tracker.ssts_sealed + 1
                        },
                    },
                );
            },
            None => {},
        }
        if builder_output.bloom_filter_size != 0 {
            self.stats.sstable_bloom_filter_size.push(builder_output.bloom_filter_size);
        }
        if builder_output.file_size != 0 {
            self.stats.sstable_file_size.push(builder_output.file_size);
        }
        if builder_output.avg_key_size != 0 {
            self.stats.sstable_avg_key_size.push(builder_output.avg_key_size);
        }
        if builder_output.avg_value_size != 0 {
            self.stats.sstable_avg_value_size.push(builder_output.avg_value_size);
        }
        self.sst_outputs.push(
            SplitTableOutput {
                upload_join_handle: builder_output.writer_output,
                sst_info: builder_output.sst_info,
            },
        );
    }

    /// Finalizes all the tables: the current one, if there is one, has to be finished first.
    pub fn finish(self) -> (result: FinishStep<F, B, I, H>)
        ensures
            match result {
                FinishStep::Seal(builder, rest) => {
                    &&& self@.current == Some(builder)
                    &&& rest@ == self@.without_current()
                },
                FinishStep::Done(outputs) => self@.current is None && outputs@ == self@.outputs,
            },
    {
        let mut rest = self;
        match rest.seal_current() {
            Some(builder) => FinishStep::Seal(builder, rest),
            None => FinishStep::Done(rest.sst_outputs),
        }
    }
}

}
