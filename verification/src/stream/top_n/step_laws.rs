//! What single rows move between the ranges, and what is recorded of it.

use vstd::prelude::*;

use crate::common::order::{key_less, Key};
use crate::common::value::{Change, DatumValue, Op};
use crate::stream::top_n::cache::{
    displaced, displaces, ops_of, passed_on, rows_of, CacheRange, CacheView, TopNCache,
};
use crate::stream::top_n::chunk_laws::{
    lemma_middle_row, lemma_one_row, table_with, valid, Progress,
};
use crate::stream::top_n::executor::{is_insert, ChunkRun, KeyedChange, RunView};
use crate::stream::top_n::laws::{
    after_delete_with, delete_changes_with, in_step, law_in_step_is_well_formed,
    law_ranges_are_windows, lemma_displaced, lemma_insert_next, lemma_range_holds,
    lemma_ranges, lemma_refill_is_new, lemma_remove_before, lemma_remove_in_part, well_formed, window,
};
use crate::stream::top_n::row_laws::{
    law_insert_puts_the_row, law_keys_are_there_once, law_remove_takes_the_row,
};
use crate::stream::top_n::rows::{
    has_key, lemma_position, lemma_remove_sorted, lemma_sorted_parts, position, rows_after,
    rows_insert, rows_remove, sorted, Entry,
};

verus! {

/// Whether `after` is `before` without the row `out`, which was there, and with the row `into`,
/// which was not.
pub open spec fn differs_by(
    before: Seq<Entry>,
    after: Seq<Entry>,
    out: Option<Entry>,
    into: Option<Entry>,
) -> bool {
    &&& out is Some ==> before.contains(out->0) && !after.contains(out->0)
    &&& into is Some ==> after.contains(into->0) && !before.contains(into->0)
    &&& forall|x: Entry| #[trigger]
        after.contains(x) <==> into == Some(x) || (before.contains(x) && out != Some(x))
}

/// The record of a row that leaves and a row that comes: first the deletion, then the insertion.
pub open spec fn recorded(out: Option<Entry>, into: Option<Entry>) -> Seq<Change> {
    match (out, into) {
        (None, None) => seq![],
        (Some(x), None) => seq![(Op::Delete, x.1)],
        (None, Some(y)) => seq![(Op::Insert, y.1)],
        (Some(x), Some(y)) => seq![(Op::Delete, x.1), (Op::Insert, y.1)],
    }
}

/// A row that is there has its key there.
proof fn lemma_contains_key(s: Seq<Entry>, x: Entry)
    requires
        s.contains(x),
    ensures
        has_key(s, x.0),
{
    let i = choose|i: int| 0 <= i < s.len() && s[i] == x;
    assert(s[i].0 == x.0);
}

/// What sorted rows hold without the last one.
proof fn lemma_drop_last(s: Seq<Entry>)
    requires
        sorted(s),
        s.len() > 0,
    ensures
        sorted(s.drop_last()),
        s.contains(s.last()),
        forall|x: Entry| #[trigger] s.drop_last().contains(x) <==> s.contains(x) && x != s.last(),
{
    let n = s.len() - 1;
    lemma_sorted_parts(s, n);
    assert(s.drop_last() =~= s.take(n));
    assert(s[n] == s.last());
    assert forall|x: Entry| #[trigger] s.drop_last().contains(x) implies s.contains(x) && x
        != s.last() by {
        let i = choose|i: int| 0 <= i < n && s.drop_last()[i] == x;
        assert(s[i] == x);
        if x == s.last() {
            law_keys_are_there_once(s, i, n);
        }
    }
    assert forall|x: Entry| s.contains(x) && x != s.last() implies
        #[trigger] s.drop_last().contains(x) by {
        let i = choose|i: int| 0 <= i < s.len() && s[i] == x;
        assert(s.drop_last()[i] == x);
    }
}

/// What sorted rows hold without the first one.
proof fn lemma_drop_first(s: Seq<Entry>)
    requires
        sorted(s),
        s.len() > 0,
    ensures
        sorted(s.drop_first()),
        s.contains(s.first()),
        forall|x: Entry| #[trigger] s.drop_first().contains(x) <==> s.contains(x) && x != s.first(),
{
    lemma_sorted_parts(s, 1);
    assert(s.drop_first() =~= s.skip(1));
    assert(s[0] == s.first());
    assert forall|x: Entry| #[trigger] s.drop_first().contains(x) implies s.contains(x) && x
        != s.first() by {
        let i = choose|i: int| 0 <= i < s.len() - 1 && s.drop_first()[i] == x;
        assert(s[i + 1] == x);
        if x == s.first() {
            law_keys_are_there_once(s, i + 1, 0);
        }
    }
    assert forall|x: Entry| s.contains(x) && x != s.first() implies
        #[trigger] s.drop_first().contains(x) by {
        let i = choose|i: int| 0 <= i < s.len() && s[i] == x;
        assert(s.drop_first()[i - 1] == x);
    }
}

/// An insertion records what it does to the middle range and nothing else: at most one row leaves,
/// and at most one row comes.
pub proof fn law_insert_records_the_difference(cache: CacheView, entry: Entry) -> (moved: (
    Option<Entry>,
    Option<Entry>,
))
    requires
        well_formed(cache),
        !has_key(cache.cached(), entry.0),
    ensures
        differs_by(cache.middle, cache.after_insert(entry).middle, moved.0, moved.1),
        cache.insert_changes(entry) == recorded(moved.0, moved.1),
{
    let o = cache.low.len() as int;
    let m = cache.middle.len() as int;
    let all = cache.cached();
    lemma_ranges(cache, all);
    let after = cache.after_insert(entry);
    if o != cache.offset {
        (None, None)
    } else {
        lemma_displaced(all, o, entry);
        let second = passed_on(cache.low, entry);
        let rest = all.skip(o);
        lemma_sorted_parts(rest, m);
        assert(!has_key(cache.middle, second.0)) by {
            if has_key(cache.middle, second.0) {
                let i = choose|i: int|
                    0 <= i < cache.middle.len() && (#[trigger] cache.middle[i]).0 == second.0;
                assert(rest[i].0 == second.0);
            }
        }
        if cache.middle.contains(second) {
            lemma_contains_key(cache.middle, second);
        }
        if m != cache.limit {
            law_insert_puts_the_row(cache.middle, second);
            assert forall|x: Entry| #[trigger] after.middle.contains(x) <==> Some(second) == Some(x)
                || cache.middle.contains(x) by {
                if cache.middle.contains(x) {
                    lemma_contains_key(cache.middle, x);
                }
            }
            (None, Some(second))
        } else if displaces(cache.middle, second.0) {
            let last = cache.middle.last();
            lemma_drop_last(cache.middle);
            law_insert_puts_the_row(cache.middle.drop_last(), second);
            assert forall|x: Entry| #[trigger] after.middle.contains(x) <==> Some(second) == Some(x)
                || (cache.middle.contains(x) && Some(last) != Some(x)) by {
                if cache.middle.contains(x) {
                    lemma_contains_key(cache.middle, x);
                }
            }
            (Some(last), Some(second))
        } else {
            (None, None)
        }
    }
}

/// The row after which the high range is filled when a row of the low range is deleted is the last
/// one of the middle range.
proof fn lemma_fill_start(cache: CacheView, table: Seq<Entry>, key: Key)
    requires
        in_step(cache, table),
        has_key(table, key),
        cache.range_of(key) == CacheRange::Low,
        cache.middle.len() > 0,
    ensures
        cache.before_fill(key).fill_start() == cache.middle.last().0,
{
    let o = cache.low.len() as int;
    let m = cache.middle.len() as int;
    let rest = rows_remove(table, key);
    let begun = cache.before_fill(key);
    lemma_ranges(cache, table);
    lemma_position(table, key);
    lemma_remove_sorted(table, key);
    lemma_range_holds(cache, table, key);
    assert(cache.low =~= table.subrange(0, o));
    lemma_remove_in_part(table, 0, o, key);
    lemma_remove_before(table, o, o + m, key);
    assert(cache.middle.first() == rest[o - 1]);
    lemma_insert_next(rest, 0, o - 1);
    assert(begun.low.last() == rest[o - 1]);
    if m > 1 {
        assert(begun.middle.last() == cache.middle.last());
    }
}

/// A deletion records what it does to the middle range and nothing else: at most one row leaves, and
/// at most one row comes.
pub proof fn law_delete_records_the_difference(
    cache: CacheView,
    table: Seq<Entry>,
    entry: Entry,
    scanned: Seq<Entry>,
) -> (moved: (Option<Entry>, Option<Entry>))
    requires
        in_step(cache, table),
        has_key(table, entry.0),
        table[position(table, entry.0)].1 == entry.1,
        sorted(scanned),
    ensures
        differs_by(
            cache.middle,
            after_delete_with(cache, entry.0, scanned).middle,
            moved.0,
            moved.1,
        ),
        delete_changes_with(cache, entry.0, entry.1, scanned) == recorded(moved.0, moved.1),
{
    let key = entry.0;
    let o = cache.low.len() as int;
    let m = cache.middle.len() as int;
    let after = after_delete_with(cache, key, scanned);
    let changes = delete_changes_with(cache, key, entry.1, scanned);
    law_in_step_is_well_formed(cache, table);
    lemma_ranges(cache, table);
    lemma_sorted_parts(table, o);
    lemma_sorted_parts(table.skip(o), m);
    let begun = cache.before_fill(key);
    let ready = if cache.needs_fill(key) {
        begun.filled(scanned, begun.fill_start(), cache.high_capacity)
    } else {
        begun
    };
    match cache.range_of(key) {
        CacheRange::High => {
            assert(changes =~= recorded(None, None));
            (None, None)
        },
        CacheRange::Middle => {
            lemma_middle_row(cache, table, entry);
            let p = position(cache.middle, key);
            lemma_position(cache.middle, key);
            assert(cache.middle[p] == entry);
            let middle = rows_remove(cache.middle, key);
            law_remove_takes_the_row(cache.middle, key);
            lemma_refill_is_new(cache, cache.middle, ready.high, scanned);
            lemma_leaves(cache.middle, middle, entry);
            let into = lemma_refill_comes(cache.middle, middle, ready.high, after.middle, entry);
            assert(changes =~= recorded(Some(entry), into));
            (Some(entry), into)
        },
        CacheRange::Low => {
            if m == 0 {
                assert(changes =~= recorded(None, None));
                (None, None)
            } else {
                let first = cache.middle.first();
                let middle = cache.middle.drop_first();
                lemma_drop_first(cache.middle);
                lemma_fill_start(cache, table, key);
                lemma_refill_is_new(cache, cache.middle, ready.high, scanned);
                let into = lemma_refill_comes(
                    cache.middle,
                    middle,
                    ready.high,
                    after.middle,
                    first,
                );
                assert(changes =~= recorded(Some(first), into));
                (Some(first), into)
            }
        },
    }
}

/// Removing the row of a key is removing that row.
proof fn lemma_leaves(before: Seq<Entry>, after: Seq<Entry>, entry: Entry)
    requires
        sorted(before),
        before.contains(entry),
        forall|x: Entry| #[trigger] after.contains(x) <==> before.contains(x) && x.0 != entry.0,
    ensures
        forall|x: Entry| #[trigger] after.contains(x) <==> before.contains(x) && x != entry,
{
    assert forall|x: Entry| before.contains(x) && x.0 == entry.0 implies x == entry by {
        let i = choose|i: int| 0 <= i < before.len() && before[i] == x;
        let j = choose|j: int| 0 <= j < before.len() && before[j] == entry;
        law_keys_are_there_once(before, i, j);
    }
    assert forall|x: Entry| #[trigger] after.contains(x) <==> before.contains(x) && x != entry by {}
}

/// The middle range without `out` and with the first row of the high range, if there is one.
proof fn lemma_refill_comes(
    before: Seq<Entry>,
    middle: Seq<Entry>,
    high: Seq<Entry>,
    after: Seq<Entry>,
    out: Entry,
) -> (into: Option<Entry>)
    requires
        sorted(middle),
        before.contains(out),
        forall|x: Entry| #[trigger] middle.contains(x) <==> before.contains(x) && x != out,
        high.len() > 0 ==> !has_key(before, high.first().0),
        after == if high.len() > 0 {
            rows_insert(middle, high.first())
        } else {
            middle
        },
    ensures
        into == if high.len() > 0 {
            Some(high.first())
        } else {
            None
        },
        differs_by(before, after, Some(out), into),
{
    if high.len() > 0 {
        let first = high.first();
        law_insert_puts_the_row(middle, first);
        assert(!before.contains(first)) by {
            if before.contains(first) {
                lemma_contains_key(before, first);
            }
        }
        lemma_contains_key(before, out);
        assert forall|x: Entry| #[trigger] after.contains(x) <==> Some(first) == Some(x) || (
        before.contains(x) && Some(out) != Some(x)) by {
            if before.contains(x) {
                lemma_contains_key(before, x);
            }
        }
        assert(after.contains(first));
        Some(first)
    } else {
        None
    }
}

/// One row records what it does to the window and nothing else: where the
/// window stays, nothing is put out, and else the row that leaves it and the row that comes.
pub proof fn law_row_puts_out_the_difference(progress: Progress, change: KeyedChange) -> (moved: (
    Option<Entry>,
    Option<Entry>,
))
    requires
        progress.tracks(),
        valid(progress.table, change),
    ensures
        ({
            let after = progress.with_row(change);
            &&& after.table == table_with(progress.table, change)
            &&& after.output == progress.output + recorded(moved.0, moved.1)
            &&& differs_by(
                window(progress.table, progress.cache.offset, progress.cache.limit),
                window(after.table, after.cache.offset, after.cache.limit),
                moved.0,
                moved.1,
            )
        }),
{
    let cache = progress.cache;
    let after = progress.with_row(change);
    lemma_one_row(progress, change);
    law_ranges_are_windows(cache, progress.table);
    law_ranges_are_windows(after.cache, after.table);
    law_in_step_is_well_formed(cache, progress.table);
    if progress.bypasses(change) {
        assert(progress.output + recorded(None, None) =~= progress.output);
        (None, None)
    } else if is_insert(change.0) {
        assert(!has_key(cache.cached(), change.1.0)) by {
            if has_key(cache.cached(), change.1.0) {
                let c = cache.cached();
                let i = choose|i: int| 0 <= i < c.len() && (#[trigger] c[i]).0 == change.1.0;
                assert(progress.table[i].0 == change.1.0);
            }
        }
        law_insert_records_the_difference(cache, change.1)
    } else {
        lemma_remove_sorted(progress.table, change.1.0);
        law_delete_records_the_difference(cache, progress.table, change.1, after.table)
    }
}

/// The rows of a window are those of the table from the offset on, at most as many as the limit.
pub proof fn law_window_rows(table: Seq<Entry>, offset: int, limit: int, i: int)
    requires
        0 <= offset,
        0 <= limit,
        0 <= i < limit,
    ensures
        window(table, offset, limit).len() <= limit,
        i < window(table, offset, limit).len() <==> offset + i < table.len(),
        offset + i < table.len() ==> window(table, offset, limit)[i] == table[offset + i],
{
}

/// The ranges of a cache stand for its rows.
pub proof fn law_cache_stands_for_its_ranges(cache: TopNCache)
    ensures
        cache@.low == cache.low@,
        cache@.middle == cache.middle@,
        cache@.high == cache.high@,
        cache@.high_capacity == cache.high_capacity,
        cache@.offset == cache.offset,
        cache@.limit == cache.limit,
{
}

/// A run stands for what it has recorded: the changes of the window and of the table, in their
/// order.
pub proof fn law_run_stands_for_its_record(
    run: ChunkRun,
    cache: CacheView,
    rows_beyond: bool,
    i: int,
    k: int,
)
    requires
        run.wf(),
        0 <= i < run.res_ops@.len(),
        0 <= k < run.table_changes@.len(),
    ensures
        ({
            let view = run.with_cache(cache, rows_beyond);
            &&& view.next == run.next
            &&& view.cache == cache
            &&& view.rows_beyond == rows_beyond
            &&& view.output.len() == run.res_ops@.len()
            &&& view.output[i] == (run.res_ops@[i], run.res_rows@[i]@)
            &&& view.table_changes.len() == run.table_changes@.len()
            &&& view.table_changes[k] == run.table_changes@[k]@
        }),
{
}

/// What changes happen to which rows.
pub proof fn law_changes_are_ops_and_rows(changes: Seq<Change>, i: int)
    requires
        0 <= i < changes.len(),
    ensures
        ops_of(changes).len() == changes.len(),
        rows_of(changes).len() == changes.len(),
        ops_of(changes)[i] == changes[i].0,
        rows_of(changes)[i] == changes[i].1,
{
}

/// Every row of a chunk, whatever it is, asks for the same change of the state table, with its key
/// and all of its columns.
pub proof fn law_rows_go_to_the_table(run: RunView, change: KeyedChange)
    ensures
        run.with_row(change).next == run.next + 1,
        run.with_row(change).table_changes.drop_last() == run.table_changes,
        run.with_row(change).table_changes.last().0 == if change.0 == Op::Insert || change.0
            == Op::UpdateInsert {
            Op::Insert
        } else {
            Op::Delete
        },
        run.with_row(change).table_changes.last().1 == change.1,
{
    let after = run.with_row(change);
    assert(after.table_changes.drop_last() =~= run.table_changes);
}

/// A row for which the low range has room, or else the middle range, is taken there. It replaces a
/// row with the same key, whatever that is, and every other row stays.
pub proof fn law_range_with_room_takes_the_row(cache: CacheView, entry: Entry)
    requires
        cache.ordered(),
    ensures
        cache.low.len() < cache.offset && cache.middle.len() == 0 && cache.high.len() == 0
            ==> cache.accepts_insert(entry),
        cache.low.len() == cache.offset && cache.middle.len() < cache.limit && cache.high.len() == 0
            ==> cache.accepts_insert(entry),
        cache.low.len() != cache.offset ==> {
            let after = cache.after_insert(entry);
            &&& forall|x: Entry| #[trigger]
                after.low.contains(x) <==> x == entry || (cache.low.contains(x) && x.0 != entry.0)
            &&& after.middle == cache.middle
            &&& after.high == cache.high
            &&& cache.insert_changes(entry) == Seq::<Change>::empty()
        },
        cache.low.len() == cache.offset && cache.middle.len() != cache.limit && (cache.low.len()
            == 0 || key_less(cache.low.last().0, entry.0)) ==> {
            let after = cache.after_insert(entry);
            &&& after.low == cache.low
            &&& forall|x: Entry| #[trigger]
                after.middle.contains(x) <==> x == entry || (cache.middle.contains(x) && x.0
                    != entry.0)
            &&& after.high == cache.high
            &&& cache.insert_changes(entry) == seq![(Op::Insert, entry.1)]
        },
{
    law_insert_puts_the_row(cache.low, entry);
    law_insert_puts_the_row(cache.middle, entry);
}

/// A full range takes a row that does not come behind its last one, and hands that one on; it hands
/// on every other row.
pub proof fn law_full_range_hands_on_the_last_row(tier: Seq<Entry>, entry: Entry)
    requires
        sorted(tier),
        tier.len() > 0,
    ensures
        key_less(tier.last().0, entry.0) ==> displaced(tier, entry) == tier && passed_on(
            tier,
            entry,
        ) == entry,
        !key_less(tier.last().0, entry.0) ==> {
            &&& passed_on(tier, entry) == tier.last()
            &&& forall|x: Entry| #[trigger]
                displaced(tier, entry).contains(x) <==> x == entry || (tier.contains(x) && x
                    != tier.last() && x.0 != entry.0)
        },
{
    lemma_drop_last(tier);
    law_insert_puts_the_row(tier.drop_last(), entry);
}

/// Where the row of a key is looked for: behind the last row of a full middle range in the high
/// range; else behind the last row of a full low range in the middle range; else in the low range.
pub proof fn law_range_of_a_key(cache: CacheView, key: Key)
    requires
        0 <= cache.offset,
        0 < cache.limit,
        cache.low.len() <= cache.offset,
    ensures
        ({
            let behind_middle = cache.middle.len() == cache.limit && key_less(
                cache.middle.last().0,
                key,
            );
            let behind_low = cache.low.len() == cache.offset && (cache.low.len() == 0 || key_less(
                cache.low.last().0,
                key,
            ));
            &&& cache.range_of(key) == CacheRange::High <==> behind_middle
            &&& cache.range_of(key) == CacheRange::Middle <==> !behind_middle && behind_low
            &&& cache.range_of(key) == CacheRange::Low <==> !behind_middle && !behind_low
        }),
{
}

/// A cache that is in step with a table accepts every deletion, whether or not the table has the key,
/// but where the middle range is reached and has no row.
pub proof fn law_deletions_are_accepted(cache: CacheView, table: Seq<Entry>, key: Key)
    requires
        in_step(cache, table),
        cache.middle.len() > 0 || cache.low.len() < cache.offset || !key_less(
            cache.low.last().0,
            key,
        ) && cache.low.len() > 0,
    ensures
        cache.accepts_delete(key),
{
}

/// A deletion has to read on where it moves a row out of the middle range while no row is there to
/// take its place.
pub proof fn law_deletion_reads_on(cache: CacheView, key: Key)
    ensures
        cache.needs_fill(key) <==> {
            &&& cache.high.len() == 0
            &&& cache.range_of(key) == CacheRange::Middle || (cache.range_of(key)
                == CacheRange::Low && cache.middle.len() > 0)
        },
{
}

/// Whether `after` is `before` without a row of `key`, and with the first row of `high`, if there is
/// one, in its place.
pub open spec fn refilled_from(
    before: Seq<Entry>,
    after: Seq<Entry>,
    key: Key,
    high: Seq<Entry>,
) -> bool {
    if high.len() > 0 {
        forall|x: Entry| #[trigger]
            after.contains(x) <==> x == high.first() || (before.contains(x) && x.0 != key && x.0
                != high.first().0)
    } else {
        forall|x: Entry| #[trigger] after.contains(x) <==> before.contains(x) && x.0 != key
    }
}

/// A deletion behind the middle range changes the high range alone and records nothing. One in the
/// middle range records the deletion of its row, and one in the low range that of the first row of
/// the middle range, which moves there. Then the first row of the high range, if there is one, moves
/// to the middle range and is recorded as inserted. This is so whether or not the key is cached, and
/// whatever a scan gives.
pub proof fn law_deletion_by_range(
    cache: CacheView,
    key: Key,
    row: Seq<DatumValue>,
    scanned: Seq<Entry>,
)
    requires
        cache.ordered(),
        sorted(scanned),
    ensures
        ({
            let after = after_delete_with(cache, key, scanned);
            let changes = delete_changes_with(cache, key, row, scanned);
            let high = if cache.needs_fill(key) {
                rows_after(scanned, cache.before_fill(key).fill_start(), cache.high_capacity)
            } else {
                cache.high
            };
            let comes = if high.len() > 0 {
                seq![(Op::Insert, high.first().1)]
            } else {
                seq![]
            };
            match cache.range_of(key) {
                CacheRange::High => {
                    &&& after.low == cache.low
                    &&& after.middle == cache.middle
                    &&& forall|x: Entry| #[trigger]
                        after.high.contains(x) <==> cache.high.contains(x) && x.0 != key
                    &&& changes == Seq::<Change>::empty()
                },
                CacheRange::Middle => {
                    &&& after.low == cache.low
                    &&& refilled_from(cache.middle, after.middle, key, high)
                    &&& high.len() > 0 ==> after.high == high.drop_first()
                    &&& changes == seq![(Op::Delete, row)] + comes
                },
                CacheRange::Low => if cache.middle.len() > 0 {
                    let first = cache.middle.first();
                    &&& forall|x: Entry| #[trigger]
                        after.low.contains(x) <==> x == first || (cache.low.contains(x) && x.0
                            != key && x.0 != first.0)
                    &&& refilled_from(cache.middle, after.middle, first.0, high)
                    &&& high.len() > 0 ==> after.high == high.drop_first()
                    &&& changes == seq![(Op::Delete, first.1)] + comes
                } else {
                    &&& forall|x: Entry| #[trigger]
                        after.low.contains(x) <==> cache.low.contains(x) && x.0 != key
                    &&& cache.high.len() == 0 ==> changes == Seq::<Change>::empty()
                        && after.middle == cache.middle
                },
            }
        }),
{
    law_remove_takes_the_row(cache.high, key);
    law_remove_takes_the_row(cache.middle, key);
    law_remove_takes_the_row(cache.low, key);
    let changes = delete_changes_with(cache, key, row, scanned);
    let high = if cache.needs_fill(key) {
        rows_after(scanned, cache.before_fill(key).fill_start(), cache.high_capacity)
    } else {
        cache.high
    };
    let comes: Seq<Change> = if high.len() > 0 {
        seq![(Op::Insert, high.first().1)]
    } else {
        seq![]
    };
    match cache.range_of(key) {
        CacheRange::High => {
            assert(changes =~= Seq::<Change>::empty());
        },
        CacheRange::Middle => {
            law_insert_puts_the_row(rows_remove(cache.middle, key), high.first());
            assert(changes =~= seq![(Op::Delete, row)] + comes);
        },
        CacheRange::Low => {
            if cache.middle.len() > 0 {
                let first = cache.middle.first();
                let rest = cache.middle.drop_first();
                lemma_drop_first(cache.middle);
                law_remove_takes_the_row(cache.middle, first.0);
                lemma_same_key(cache.middle, first);
                law_insert_puts_the_row(rows_remove(cache.low, key), first);
                law_insert_puts_the_row(rest, high.first());
                assert(changes =~= seq![(Op::Delete, first.1)] + comes);
            } else if cache.high.len() == 0 {
                assert(changes =~= Seq::<Change>::empty());
            }
        },
    }
}

/// A row with the key of another one that is there is that one.
proof fn lemma_same_key(s: Seq<Entry>, entry: Entry)
    requires
        sorted(s),
        s.contains(entry),
    ensures
        forall|x: Entry| #[trigger] s.contains(x) && x.0 == entry.0 ==> x == entry,
{
    assert forall|x: Entry| #[trigger] s.contains(x) && x.0 == entry.0 implies x == entry by {
        let i = choose|i: int| 0 <= i < s.len() && s[i] == x;
        let j = choose|j: int| 0 <= j < s.len() && s[j] == entry;
        law_keys_are_there_once(s, i, j);
    }
}

/// Where the low range is full, it takes the row or hands it on, and the middle range takes what it
/// is handed or, where it is full too, hands on in turn. What the middle range takes is recorded as
/// inserted, after the row that it hands on for it. This is so whether or not the key is cached.
pub proof fn law_full_ranges_hand_on(cache: CacheView, entry: Entry)
    requires
        cache.low.len() == cache.offset,
    ensures
        ({
            let after = cache.after_insert(entry);
            let second = passed_on(cache.low, entry);
            let third = passed_on(cache.middle, second);
            let changes = cache.insert_changes(entry);
            &&& after.low == displaced(cache.low, entry)
            &&& cache.middle.len() != cache.limit ==> {
                &&& after.middle == rows_insert(cache.middle, second)
                &&& after.high == cache.high
                &&& changes == seq![(Op::Insert, second.1)]
            }
            &&& cache.middle.len() == cache.limit ==> {
                &&& after.middle == displaced(cache.middle, second)
                &&& cache.high.len() != cache.high_capacity ==> after.high == rows_insert(
                    cache.high,
                    third,
                )
                &&& cache.high.len() == cache.high_capacity ==> after.high == displaced(
                    cache.high,
                    third,
                )
                &&& changes == if cache.middle.len() > 0 && !key_less(
                    cache.middle.last().0,
                    second.0,
                ) {
                    seq![(Op::Delete, cache.middle.last().1), (Op::Insert, second.1)]
                } else {
                    seq![]
                }
            }
        }),
{
}

/// Every row, whatever it is, does to the cache and to the output what it does to the cache alone;
/// only an insertion behind the last cached row, where the table may hold rows in between, does
/// nothing to them.
pub proof fn law_rows_go_to_the_cache(run: RunView, change: KeyedChange)
    ensures
        ({
            let after = run.with_row(change);
            let inserts = change.0 == Op::Insert || change.0 == Op::UpdateInsert;
            let key = change.1.0;
            &&& inserts && run.rows_beyond && run.cache.is_behind(key) ==> {
                &&& after.cache == run.cache
                &&& after.output == run.output
                &&& after.rows_beyond
            }
            &&& inserts && !(run.rows_beyond && run.cache.is_behind(key)) ==> {
                &&& after.cache == run.cache.after_insert(change.1)
                &&& after.output == run.output + run.cache.insert_changes(change.1)
            }
            &&& !inserts && !run.cache.needs_fill(key) ==> {
                &&& after.cache == run.cache.after_delete(key)
                &&& after.output == run.output + run.cache.delete_changes(key, change.1.1)
                &&& after.rows_beyond == run.rows_beyond
            }
            &&& !inserts && run.cache.needs_fill(key) ==> {
                &&& after.cache == run.cache.before_fill(key)
                &&& after.output == run.output + run.cache.changes_before_fill(key)
                &&& after.rows_beyond == run.rows_beyond
            }
        }),
{
}

}
