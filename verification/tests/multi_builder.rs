//! Splitting pairs into tables, with tables in memory.

use stream_core::storage::multi_builder::{
    AddStep, CachePolicy, CapacitySplitTableBuilder, CompressionAlgorithm, FinishStep,
    LocalTableBuilderFactory, SplitTableOutput, SstableBuilderOptions, SstableBuilderOutput,
    SstableWriterOptions, StateStoreMetrics, TableBuilderFactory, TableRequest,
    TaskProgressTracker,
};

/// A table in memory: what it was opened with, and its pairs.
#[derive(Debug)]
struct Table {
    request: TableRequest,
    pairs: Vec<(Vec<u8>, u64, Vec<u8>)>,
}

impl Table {
    fn open(request: TableRequest) -> Table {
        Table {
            request,
            pairs: Vec::new(),
        }
    }

    fn size(&self) -> usize {
        self.pairs
            .iter()
            .map(|(key, _, value)| key.len() + 8 + value.len())
            .sum()
    }

    fn reach_capacity(&self) -> bool {
        self.size() >= self.request.builder_options.capacity
    }

    fn finish(self) -> SstableBuilderOutput<u64, usize> {
        SstableBuilderOutput {
            sst_info: self.request.id,
            file_size: self.size() as u64,
            bloom_filter_size: 0,
            writer_output: self.pairs.len(),
            avg_key_size: self.pairs[0].0.len(),
            avg_value_size: self.pairs[0].2.len(),
        }
    }
}

type Builder = CapacitySplitTableBuilder<LocalTableBuilderFactory<&'static str>, Table, u64, usize>;

fn options(capacity: usize, block_capacity: usize) -> SstableBuilderOptions {
    SstableBuilderOptions {
        capacity,
        block_capacity,
        restart_interval: 16,
        bloom_false_positive: 0.1f64.to_bits(),
        compression_algorithm: CompressionAlgorithm::Uncompressed,
    }
}

fn default_builder_opt_for_test() -> SstableBuilderOptions {
    options(256 * (1 << 20), 4096)
}

fn builder_of(options: SstableBuilderOptions) -> Builder {
    CapacitySplitTableBuilder::for_test(LocalTableBuilderFactory::new(1001, "store", options))
}

fn reach_capacity(builder: &Builder) -> bool {
    match builder.current_builder() {
        Some(table) => table.reach_capacity(),
        None => false,
    }
}

/// Does what is left of an addition once it has begun.
fn go_on(
    builder: &mut Builder,
    step: AddStep<Table, TableRequest>,
    pair: (Vec<u8>, u64, Vec<u8>),
) {
    match step {
        AddStep::Seal(table) => {
            builder.sealed(table.finish());
            let request = builder.open_next().unwrap();
            builder.opened(Table::open(request));
        }
        AddStep::Open(request) => builder.opened(Table::open(request)),
        AddStep::Add => {}
    }
    builder.current_builder_mut().unwrap().pairs.push(pair);
}

fn add_user_key(builder: &mut Builder, user_key: &[u8], value: &[u8], epoch: u64) {
    let user_key = user_key.to_vec();
    let full = reach_capacity(builder);
    let step = builder.add_user_key(&user_key, full);
    go_on(builder, step, (user_key, epoch, value.to_vec()));
}

fn add_full_key(
    builder: &mut Builder,
    user_key: &[u8],
    epoch: u64,
    value: &[u8],
    is_new_user_key: bool,
) {
    let full = reach_capacity(builder);
    let step = builder.add_full_key(is_new_user_key, full);
    go_on(builder, step, (user_key.to_vec(), epoch, value.to_vec()));
}

fn seal_current(builder: &mut Builder) {
    if let Some(table) = builder.seal_current() {
        builder.sealed(table.finish());
    }
}

fn finish(builder: Builder) -> Vec<SplitTableOutput<u64, usize>> {
    match builder.finish() {
        FinishStep::Done(outputs) => outputs,
        FinishStep::Seal(table, mut rest) => {
            rest.sealed(table.finish());
            match rest.finish() {
                FinishStep::Done(outputs) => outputs,
                FinishStep::Seal(..) => unreachable!(),
            }
        }
    }
}

#[test]
fn test_empty() {
    let block_size = 1 << 10;
    let table_capacity = 4 * block_size;
    let builder = builder_of(options(table_capacity, block_size));
    assert!(builder.is_empty());
    let results = finish(builder);
    assert!(results.is_empty());
}

#[test]
fn test_lots_of_tables() {
    let block_size = 1 << 10;
    let table_capacity = 4 * block_size;
    let mut builder = builder_of(options(table_capacity, block_size));

    for i in 0..table_capacity {
        add_user_key(
            &mut builder,
            b"key",
            b"value",
            (table_capacity - i) as u64,
        );
    }

    let results = finish(builder);
    assert!(results.len() > 1);
    // 256 pairs of 16 bytes fill a table.
    assert_eq!(results.len(), table_capacity / 256);
    for (i, result) in results.iter().enumerate() {
        assert_eq!(result.sst_info, 1001 + i as u64);
        assert_eq!(result.upload_join_handle, 256);
    }
}

#[test]
fn test_table_seal() {
    let mut builder = builder_of(default_builder_opt_for_test());
    let mut epoch = 100;
    let mut add = |builder: &mut Builder| {
        epoch -= 1;
        add_user_key(builder, b"k", b"v", epoch);
    };

    assert_eq!(builder.len(), 0);
    seal_current(&mut builder);
    assert_eq!(builder.len(), 0);
    add(&mut builder);
    assert_eq!(builder.len(), 1);
    add(&mut builder);
    assert_eq!(builder.len(), 1);
    seal_current(&mut builder);
    assert_eq!(builder.len(), 1);
    add(&mut builder);
    assert_eq!(builder.len(), 2);
    seal_current(&mut builder);
    assert_eq!(builder.len(), 2);
    seal_current(&mut builder);
    assert_eq!(builder.len(), 2);

    let results = finish(builder);
    assert_eq!(results.len(), 2);
}

#[test]
fn test_initial_not_allowed_split() {
    let mut builder = builder_of(default_builder_opt_for_test());
    add_full_key(&mut builder, b"k", 233, b"v", false);
    assert_eq!(builder.len(), 1);
    assert_eq!(
        builder.current_builder().unwrap().pairs,
        vec![(b"k".to_vec(), 233, b"v".to_vec())]
    );
}

#[test]
fn same_user_key_is_not_split() {
    let mut builder = builder_of(options(1, 1));
    for epoch in 0..10 {
        add_full_key(&mut builder, b"k", epoch, b"v", epoch == 0);
    }
    assert_eq!(builder.len(), 1);
    add_full_key(&mut builder, b"l", 10, b"v", true);
    assert_eq!(builder.len(), 2);
    let results = finish(builder);
    assert_eq!(results[0].upload_join_handle, 10);
    assert_eq!(results[1].upload_join_handle, 1);
}

#[test]
fn full_table_is_sealed_before_the_next_is_opened() {
    let mut builder = builder_of(options(1, 1));
    add_full_key(&mut builder, b"k", 1, b"v", true);
    match builder.add_full_key(true, true) {
        AddStep::Seal(table) => assert_eq!(table.request.id, 1001),
        _ => panic!("the table is full"),
    }
    // The table is gone, whatever comes of finishing it.
    assert!(builder.current_builder().is_none());
    assert!(builder.is_empty());
    match builder.add_full_key(false, false) {
        AddStep::Open(request) => assert_eq!(request.id, 1002),
        _ => panic!("there is no table"),
    }
    // An id that has been handed out is not handed out again.
    assert_eq!(builder.open_next().unwrap().id, 1003);
    builder.opened(Table::open(TableRequest {
        id: 1003,
        required_memory: 1,
        writer_options: SstableWriterOptions {
            capacity_hint: None,
            policy: CachePolicy::Fill,
        },
        builder_options: options(1, 1),
    }));
    assert!(builder.open_next().is_none());
    assert!(matches!(builder.add_full_key(false, true), AddStep::Add));
}

#[test]
fn local_factory_hands_out_consecutive_ids() {
    let opts = options(4096, 1024);
    let mut factory = LocalTableBuilderFactory::new(u64::MAX, "store", opts);
    assert_eq!(*factory.sstable_store(), "store");
    assert_eq!(factory.memory_quota(), 1000000);
    assert_eq!(
        factory.open_builder(),
        TableRequest {
            id: u64::MAX,
            required_memory: 1,
            writer_options: SstableWriterOptions {
                capacity_hint: Some(4096),
                policy: CachePolicy::NotFill,
            },
            builder_options: opts,
        }
    );
    assert_eq!(factory.open_builder().id, 0);
    assert_eq!(factory.open_builder().id, 1);
}

#[test]
fn sealing_reports_sizes_and_progress() {
    let factory = LocalTableBuilderFactory::new(1, (), options(1, 1));
    let mut builder: CapacitySplitTableBuilder<_, (), &str, &str> = CapacitySplitTableBuilder::new(
        factory,
        StateStoreMetrics::unused(),
        Some(TaskProgressTracker { ssts_sealed: 4 }),
    );
    assert_eq!(builder.task_progress(), Some(4));
    builder.sealed(SstableBuilderOutput {
        sst_info: "first",
        file_size: 100,
        bloom_filter_size: 0,
        writer_output: "upload",
        avg_key_size: 3,
        avg_value_size: 0,
    });
    builder.sealed(SstableBuilderOutput {
        sst_info: "second",
        file_size: 0,
        bloom_filter_size: 7,
        writer_output: "upload",
        avg_key_size: 0,
        avg_value_size: 9,
    });
    assert_eq!(builder.task_progress(), Some(6));
    assert_eq!(builder.stats.sstable_file_size, vec![100]);
    assert_eq!(builder.stats.sstable_bloom_filter_size, vec![7]);
    assert_eq!(builder.stats.sstable_avg_key_size, vec![3]);
    assert_eq!(builder.stats.sstable_avg_value_size, vec![9]);
    assert_eq!(builder.len(), 2);
    assert_eq!(*builder.builder_factory().sstable_store(), ());
    match builder.finish() {
        FinishStep::Done(outputs) => {
            assert_eq!(outputs[0].sst_info, "first");
            assert_eq!(outputs[1].sst_info, "second");
        }
        FinishStep::Seal(..) => panic!("no table is open"),
    }
}

#[test]
fn untracked_progress_is_not_reported() {
    let mut builder = builder_of(options(1, 1));
    assert_eq!(builder.task_progress(), None);
    add_full_key(&mut builder, b"k", 1, b"v", true);
    seal_current(&mut builder);
    assert_eq!(builder.task_progress(), None);
    assert_eq!(builder.stats.sstable_file_size, vec![10]);
}

/// The pairs of the finished tables are the added ones, in order, and no table is empty.
#[test]
fn finished_tables_hold_the_pairs() {
    let mut builder = builder_of(options(40, 10));
    let mut sealed: Vec<(Vec<u8>, u64, Vec<u8>)> = Vec::new();
    let mut added = Vec::new();
    for epoch in 0..50u64 {
        let pair = (vec![b'k', epoch as u8 / 3], epoch, vec![b'v'; (epoch % 5) as usize]);
        let full = reach_capacity(&builder);
        let step = builder.add_full_key(epoch % 3 == 0, full);
        match step {
            AddStep::Seal(table) => {
                assert!(!table.pairs.is_empty());
                sealed.extend(table.pairs.clone());
                builder.sealed(table.finish());
                let request = builder.open_next().unwrap();
                builder.opened(Table::open(request));
            }
            AddStep::Open(request) => builder.opened(Table::open(request)),
            AddStep::Add => {}
        }
        builder.current_builder_mut().unwrap().pairs.push(pair.clone());
        added.push(pair);
        if epoch == 20 {
            let table = builder.seal_current().unwrap();
            sealed.extend(table.pairs.clone());
            builder.sealed(table.finish());
            assert!(builder.seal_current().is_none());
        }
    }
    let tables = builder.len();
    match builder.finish() {
        FinishStep::Seal(table, mut rest) => {
            sealed.extend(table.pairs.clone());
            rest.sealed(table.finish());
            assert_eq!(rest.len(), tables);
        }
        FinishStep::Done(_) => panic!("a table is open"),
    }
    assert_eq!(sealed, added);
    assert!(tables > 2);
}
