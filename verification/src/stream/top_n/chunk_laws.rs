//! What the executor keeps of the table behind it, over whole chunks.

use vstd::prelude::*;

use crate::common::order::{lemma_compare_equal, lemma_compare_flip};
use crate::common::value::{Change, Op};
use crate::stream::top_n::cache::{CacheRange, CacheView};
use crate::stream::top_n::executor::{is_insert, KeyInfo, KeyedChange, RunView, StepView};
use crate::stream::top_n::laws::{
    after_delete_with, applicable, apply_changes, bag_of_rows, delete_changes_with, in_step,
    law_delete_changes_are_exact, law_delete_keeps_step, law_in_step_is_well_formed,
    law_insert_changes_are_exact, law_insert_keeps_step, law_ranges_are_windows,
    lemma_apply_concat, lemma_range_holds, lemma_ranges, window,
};
use crate::stream::top_n::rows::{
    has_key, lemma_insert_sorted, lemma_position, lemma_position_is, lemma_remove_sorted,
    lemma_sorted_parts, position, rows_after, rows_insert, rows_remove, sorted, Entry,
};

verus! {

/// The cache, the table behind it, and what has been put out.
#[verifier::ext_equal]
pub struct Progress {
    pub cache: CacheView,
    /// Whether the table may hold rows behind the last cached one.
    pub rows_beyond: bool,
    pub table: Seq<Entry>,
    pub output: Seq<Change>,
}

/// `table` with `change` made to it.
pub open spec fn table_with(table: Seq<Entry>, change: KeyedChange) -> Seq<Entry> {
    if is_insert(change.0) {
        rows_insert(table, change.1)
    } else {
        rows_remove(table, change.1.0)
    }
}

/// `table` with `changes` made to it, one after the other.
pub open spec fn table_with_all(table: Seq<Entry>, changes: Seq<KeyedChange>) -> Seq<Entry>
    decreases changes.len(),
{
    if changes.len() == 0 {
        table
    } else {
        table_with(table_with_all(table, changes.drop_last()), changes.last())
    }
}

/// Whether `change` inserts a row with a key that is not in `table`, or deletes a row that is.
pub open spec fn valid(table: Seq<Entry>, change: KeyedChange) -> bool {
    let (key, row) = change.1;
    if is_insert(change.0) {
        !has_key(table, key)
    } else {
        has_key(table, key) && table[position(table, key)].1 == row
    }
}

/// Whether each of `changes` inserts a row with a new key, or deletes a row that is there then.
pub open spec fn valid_all(table: Seq<Entry>, changes: Seq<KeyedChange>) -> bool
    decreases changes.len(),
{
    changes.len() > 0 ==> {
        &&& valid_all(table, changes.drop_last())
        &&& valid(table_with_all(table, changes.drop_last()), changes.last())
    }
}

/// The rows of a chunk with their sort keys.
pub open spec fn keyed_rows(input: Seq<Change>, info: KeyInfo) -> Seq<KeyedChange> {
    input.map_values(|change: Change| info.keyed(change))
}

impl Progress {
    /// Nothing has been put out.
    pub open spec fn begun(cache: CacheView, rows_beyond: bool, table: Seq<Entry>) -> Progress {
        Progress { cache, rows_beyond, table, output: seq![] }
    }

    /// Whether the cache is in step with the table, and holds all its rows unless there may be rows
    /// beyond.
    pub open spec fn tracks(self) -> bool {
        &&& in_step(self.cache, self.table)
        &&& !self.rows_beyond ==> self.cache.cached().len() == self.table.len()
    }

    /// Whether `change` inserts a row that is for the table alone.
    pub open spec fn bypasses(self, change: KeyedChange) -> bool {
        is_insert(change.0) && self.rows_beyond && self.cache.is_behind(change.1.0)
    }

    /// The progress with one more row: a high range that has to be filled is filled from the table.
    pub open spec fn with_row(self, change: KeyedChange) -> Progress {
        let (key, row) = change.1;
        let table = table_with(self.table, change);
        if self.bypasses(change) {
            Progress { table, ..self }
        } else if is_insert(change.0) {
            Progress {
                cache: self.cache.after_insert(change.1),
                rows_beyond: self.rows_beyond || self.cache.is_full(),
                table,
                output: self.output + self.cache.insert_changes(change.1),
            }
        } else {
            let begun = self.cache.before_fill(key);
            Progress {
                cache: after_delete_with(self.cache, key, table),
                rows_beyond: if self.cache.needs_fill(key) {
                    rows_after(table, begun.fill_start(), self.cache.high_capacity).len()
                        == self.cache.high_capacity
                } else {
                    self.rows_beyond
                },
                table,
                output: self.output + delete_changes_with(self.cache, key, row, table),
            }
        }
    }

    /// The progress with all rows of `input`.
    pub open spec fn with_rows(self, input: Seq<KeyedChange>) -> Progress
        decreases input.len(),
    {
        if input.len() == 0 {
            self
        } else {
            self.with_rows(input.drop_last()).with_row(input.last())
        }
    }
}

/// A row of the table that is looked for in the middle range is there, as it is in the table.
pub proof fn lemma_middle_row(cache: CacheView, table: Seq<Entry>, entry: Entry)
    requires
        in_step(cache, table),
        has_key(table, entry.0),
        table[position(table, entry.0)].1 == entry.1,
        cache.range_of(entry.0) == CacheRange::Middle,
    ensures
        has_key(cache.middle, entry.0),
        cache.middle[position(cache.middle, entry.0)].1 == entry.1,
{
    let o = cache.low.len() as int;
    let m = cache.middle.len() as int;
    let q = position(table, entry.0);
    lemma_ranges(cache, table);
    lemma_range_holds(cache, table, entry.0);
    lemma_position(table, entry.0);
    lemma_sorted_parts(table, o);
    lemma_sorted_parts(table.skip(o), m);
    lemma_compare_equal(entry.0, entry.0);
    assert(cache.middle[q - o] == table[q]);
    assert(has_key(cache.middle, entry.0));
    if q > o {
        assert(cache.middle[q - o - 1] == table[q - 1]);
    }
    lemma_position_is(cache.middle, entry.0, q - o);
}

/// A row that comes behind all cached rows leaves the cache in step.
proof fn lemma_bypass(cache: CacheView, table: Seq<Entry>, entry: Entry)
    requires
        in_step(cache, table),
        !has_key(table, entry.0),
        cache.is_behind(entry.0),
    ensures
        in_step(cache, rows_insert(table, entry)),
{
    let c = cache.cached().len() as int;
    let p = position(table, entry.0);
    lemma_position(table, entry.0);
    lemma_insert_sorted(table, entry);
    assert(cache.cached().last() == table[c - 1]);
    lemma_compare_flip(table[c - 1].0, entry.0);
    assert(p >= c);
    assert(rows_insert(table, entry).take(c) =~= table.take(c));
}

/// A row that does not come behind all cached rows has its place among them, or else they are all
/// rows of the table.
proof fn lemma_place(progress: Progress, entry: Entry)
    requires
        progress.tracks(),
        !has_key(progress.table, entry.0),
        !progress.bypasses((Op::Insert, entry)),
    ensures
        position(progress.table, entry.0) <= progress.cache.cached().len(),
{
    let cache = progress.cache;
    let table = progress.table;
    let c = cache.cached().len() as int;
    lemma_position(table, entry.0);
    if progress.rows_beyond && cache.middle.len() == cache.limit {
        assert(cache.cached().last() == table[c - 1]);
    }
}

/// What one row does.
pub proof fn lemma_one_row(progress: Progress, change: KeyedChange)
    requires
        progress.tracks(),
        valid(progress.table, change),
    ensures
        progress.bypasses(change) || progress.cache.accepts(change),
        progress.with_row(change).tracks(),
        ({
            let after = progress.with_row(change);
            let changes = after.output.skip(progress.output.len() as int);
            &&& after.output == progress.output + changes
            &&& applicable(bag_of_rows(progress.cache.middle), changes)
            &&& apply_changes(bag_of_rows(progress.cache.middle), changes) == bag_of_rows(
                after.cache.middle,
            )
            &&& after.cache.offset == progress.cache.offset
            &&& after.cache.limit == progress.cache.limit
        }),
{
    let cache = progress.cache;
    let table = progress.table;
    let (key, row) = change.1;
    let after = progress.with_row(change);
    let changes = after.output.skip(progress.output.len() as int);
    law_in_step_is_well_formed(cache, table);
    if progress.bypasses(change) {
        lemma_bypass(cache, table, change.1);
        assert(changes =~= Seq::<Change>::empty());
    } else if is_insert(change.0) {
        lemma_place(progress, change.1);
        law_insert_keeps_step(cache, table, change.1);
        lemma_insert_sorted(table, change.1);
        assert(!has_key(cache.cached(), key)) by {
            if has_key(cache.cached(), key) {
                let i = choose|i: int|
                    0 <= i < cache.cached().len() && (#[trigger] cache.cached()[i]).0 == key;
                assert(table[i].0 == key);
            }
        }
        law_insert_changes_are_exact(cache, change.1);
        assert(changes =~= cache.insert_changes(change.1));
    } else {
        let rest = rows_remove(table, key);
        lemma_remove_sorted(table, key);
        law_delete_keeps_step(cache, table, key, rest);
        if cache.range_of(key) == CacheRange::Middle {
            lemma_middle_row(cache, table, change.1);
        }
        law_delete_changes_are_exact(cache, key, row, rest);
        assert(changes =~= delete_changes_with(cache, key, row, rest));
    }
}

/// The executor returns the top rows overall: whatever rows with new keys are inserted and whatever
/// rows of the table are deleted, its middle range is the window `[offset, offset+limit)` of the
/// table of all rows that have been seen and not been deleted, and the changes that it puts out,
/// applied to the rows of the window before, give the rows of the window after.
pub proof fn law_output_follows_window(
    cache: CacheView,
    rows_beyond: bool,
    table: Seq<Entry>,
    input: Seq<KeyedChange>,
)
    requires
        in_step(cache, table),
        !rows_beyond ==> cache.cached().len() == table.len(),
        valid_all(table, input),
    ensures
        ({
            let after = Progress::begun(cache, rows_beyond, table).with_rows(input);
            let before_rows = bag_of_rows(window(table, cache.offset, cache.limit));
            let after_window = window(after.table, cache.offset, cache.limit);
            &&& after.tracks()
            &&& after.table == table_with_all(table, input)
            &&& after.cache.offset == cache.offset
            &&& after.cache.limit == cache.limit
            &&& after.cache.middle == after_window
            &&& applicable(before_rows, after.output)
            &&& apply_changes(before_rows, after.output) == bag_of_rows(after_window)
        }),
    decreases input.len(),
{
    let start = Progress::begun(cache, rows_beyond, table);
    law_ranges_are_windows(cache, table);
    if input.len() > 0 {
        let prior = input.drop_last();
        law_output_follows_window(cache, rows_beyond, table, prior);
        let before = start.with_rows(prior);
        let after = start.with_rows(input);
        lemma_one_row(before, input.last());
        let changes = after.output.skip(before.output.len() as int);
        law_ranges_are_windows(before.cache, before.table);
        law_ranges_are_windows(after.cache, after.table);
        lemma_apply_concat(bag_of_rows(cache.middle), before.output, changes);
    }
}

/// The insertion of a row with a new key and the deletion of a row of the table are never refused
/// for the state of the cache.
pub proof fn law_valid_rows_are_accepted(
    cache: CacheView,
    rows_beyond: bool,
    table: Seq<Entry>,
    input: Seq<KeyedChange>,
    i: int,
)
    requires
        in_step(cache, table),
        !rows_beyond ==> cache.cached().len() == table.len(),
        valid_all(table, input),
        0 <= i < input.len(),
    ensures
        ({
            let before = Progress::begun(cache, rows_beyond, table).with_rows(input.take(i));
            before.bypasses(input[i]) || before.cache.accepts(input[i])
        }),
    decreases input.len(),
{
    let prior = input.drop_last();
    if i < prior.len() {
        law_valid_rows_are_accepted(cache, rows_beyond, table, prior, i);
        assert(prior.take(i) =~= input.take(i));
    } else {
        law_output_follows_window(cache, rows_beyond, table, prior);
        assert(input.take(i) =~= prior);
        lemma_one_row(Progress::begun(cache, rows_beyond, table).with_rows(prior), input.last());
    }
}

/// A row that has been inserted is there, and removing it gives back what was there before.
proof fn lemma_remove_inserted(table: Seq<Entry>, entry: Entry)
    requires
        sorted(table),
        !has_key(table, entry.0),
    ensures
        valid(rows_insert(table, entry), (Op::Delete, entry)),
        rows_remove(rows_insert(table, entry), entry.0) == table,
{
    let p = position(table, entry.0);
    let inserted = rows_insert(table, entry);
    lemma_position(table, entry.0);
    lemma_insert_sorted(table, entry);
    lemma_position(inserted, entry.0);
    lemma_compare_equal(entry.0, entry.0);
    assert(inserted[p] == entry);
    assert(has_key(inserted, entry.0));
    if p > 0 {
        assert(inserted[p - 1] == table[p - 1]);
    }
    lemma_position_is(inserted, entry.0, p);
    assert(inserted.remove(p) =~= table);
}

/// A deletion undoes the insertion of the same row: the table and the rows of the window are again
/// what they were.
pub proof fn law_delete_undoes_insert(
    cache: CacheView,
    rows_beyond: bool,
    table: Seq<Entry>,
    entry: Entry,
)
    requires
        in_step(cache, table),
        !rows_beyond ==> cache.cached().len() == table.len(),
        !has_key(table, entry.0),
    ensures
        ({
            let after = Progress::begun(cache, rows_beyond, table).with_rows(
                seq![(Op::Insert, entry), (Op::Delete, entry)],
            );
            &&& after.tracks()
            &&& after.table == table
            &&& after.cache.low == cache.low
            &&& after.cache.middle == cache.middle
            &&& apply_changes(bag_of_rows(cache.middle), after.output) == bag_of_rows(cache.middle)
        }),
{
    let input = seq![(Op::Insert, entry), (Op::Delete, entry)];
    let start = Progress::begun(cache, rows_beyond, table);
    let after = start.with_rows(input);
    let first = input.drop_last();
    assert(first =~= seq![(Op::Insert, entry)]);
    assert(first.drop_last() =~= Seq::<KeyedChange>::empty());
    assert(table_with_all(table, first.drop_last()) == table);
    assert(table_with_all(table, first) == rows_insert(table, entry));
    assert(table_with_all(table, input) == rows_remove(rows_insert(table, entry), entry.0));
    lemma_remove_inserted(table, entry);
    assert(valid_all(table, first.drop_last()));
    assert(valid_all(table, first));
    assert(valid_all(table, input));
    law_output_follows_window(cache, rows_beyond, table, input);
    law_ranges_are_windows(cache, table);
    law_ranges_are_windows(after.cache, after.table);
}

/// Whether a run has done what its rows ask for, up to the next one: the table is the one that its
/// table changes make of `table`.
pub open spec fn on_track(
    run: RunView,
    cache: CacheView,
    rows_beyond: bool,
    table: Seq<Entry>,
    input: Seq<Change>,
    info: KeyInfo,
) -> bool {
    &&& 0 <= run.next <= input.len()
    &&& (Progress {
        cache: run.cache,
        rows_beyond: run.rows_beyond,
        table: table_with_all(table, run.table_changes),
        output: run.output,
    }) == Progress::begun(cache, rows_beyond, table).with_rows(
        keyed_rows(input, info).take(run.next),
    )
}

proof fn lemma_table_push(table: Seq<Entry>, changes: Seq<KeyedChange>, change: KeyedChange)
    ensures
        table_with_all(table, changes.push(change)) == table_with(
            table_with_all(table, changes),
            change,
        ),
{
    assert(changes.push(change).drop_last() =~= changes);
}

/// However often a chunk has to wait for rows of the table: where the scans give the rows that the
/// table then has, its rows do what they do when they are applied one after the other.
pub proof fn law_waiting_changes_nothing(
    run: RunView,
    cache: CacheView,
    rows_beyond: bool,
    table: Seq<Entry>,
    input: Seq<Change>,
    info: KeyInfo,
)
    requires
        on_track(run, cache, rows_beyond, table, input, info),
    ensures
        ({
            let (reached, step) = run.advanced(input, info);
            match step {
                StepView::Fill(fill) => on_track(
                    reached.resumed(fill, table_with_all(table, reached.table_changes)),
                    cache,
                    rows_beyond,
                    table,
                    input,
                    info,
                ),
                StepView::Done => {
                    &&& on_track(reached, cache, rows_beyond, table, input, info)
                    &&& reached.next == input.len()
                },
                StepView::Refused => {
                    &&& on_track(reached, cache, rows_beyond, table, input, info)
                    &&& reached.next < input.len()
                    &&& !reached.next_accepted(input, info)
                },
            }
        }),
    decreases input.len() - run.next,
{
    if run.next < input.len() && run.next_accepted(input, info) {
        let keyed = keyed_rows(input, info);
        let change = info.keyed(input[run.next]);
        let (key, row) = change.1;
        let next = run.with_row(change);
        let start = Progress::begun(cache, rows_beyond, table);
        let before = start.with_rows(keyed.take(run.next));
        assert(keyed.take(run.next + 1).drop_last() =~= keyed.take(run.next));
        assert(keyed.take(run.next + 1).last() == change);
        let after = before.with_row(change);
        assert(after == start.with_rows(keyed.take(run.next + 1)));
        lemma_table_push(table, run.table_changes, next.table_changes.last());
        assert(next.table_changes == run.table_changes.push(next.table_changes.last()));
        let now = table_with_all(table, next.table_changes);
        assert(now == after.table);
        match run.cache.fill_for(change) {
            Some(fill) => {
                let done = next.resumed(fill, now);
                let begun = run.cache.before_fill(key);
                let filled = begun.filled(now, begun.fill_start(), run.cache.high_capacity);
                assert(filled.after_fill(fill.target.0, fill.target.1) == after.cache);
                assert(filled.changes_after_fill(fill.target.0, fill.target.2)
                    == filled.changes_after_fill(run.cache.range_of(key), row));
                assert(done.output =~= after.output);
                assert(done.cache == after.cache);
                assert(done.rows_beyond == after.rows_beyond);
            },
            None => {
                assert(next.cache == after.cache);
                assert(next.rows_beyond == after.rows_beyond);
                assert(next.output == after.output);
                law_waiting_changes_nothing(next, cache, rows_beyond, table, input, info);
            },
        }
    }
}

}
