//! What the runs of chunks do that wait for rows of the state table and go on.

use vstd::prelude::*;

use crate::common::value::{Change, Row};
use crate::stream::top_n::cache::CacheView;
use crate::stream::top_n::chunk_laws::{
    keyed_rows, law_output_follows_window, law_valid_rows_are_accepted,
    law_waiting_changes_nothing, on_track, table_with_all, valid_all,
};
use crate::stream::top_n::executor::{KeyInfo, KeyedChange, RunView};
use crate::stream::top_n::laws::{applicable, apply_changes, bag_of_rows, in_step, window};
use crate::stream::top_n::rows::Entry;

verus! {

/// The run carried on as far as it goes, where every scan gives the rows that the state table then
/// has: `table` with the changes made that the run asks for.
pub open spec fn completed(
    run: RunView,
    input: Seq<Change>,
    info: KeyInfo,
    table: Seq<Entry>,
) -> RunView
    decreases input.len() - run.next,
{
    let (reached, step) = run.advanced(input, info);
    if step is Fill && run.next < reached.next <= input.len() {
        completed(
            reached.resumed(step->Fill_0, table_with_all(table, reached.table_changes)),
            input,
            info,
            table,
        )
    } else {
        reached
    }
}

/// A run that waits for rows has come further.
proof fn lemma_fill_advances(run: RunView, input: Seq<Change>, info: KeyInfo)
    ensures
        run.advanced(input, info).1 is Fill ==> run.next < run.advanced(input, info).0.next
            <= input.len(),
    decreases input.len() - run.next,
{
    if 0 <= run.next < input.len() && run.next_accepted(input, info) {
        let change = info.keyed(input[run.next]);
        if run.cache.fill_for(change) is None {
            lemma_fill_advances(run.with_row(change), input, info);
        }
    }
}

/// A run that is on track stays so, and comes to its end or to a row that cannot be applied.
proof fn lemma_completed_on_track(
    run: RunView,
    cache: CacheView,
    rows_beyond: bool,
    table: Seq<Entry>,
    input: Seq<Change>,
    info: KeyInfo,
)
    requires
        on_track(run, cache, rows_beyond, table, input, info),
    ensures
        ({
            let done = completed(run, input, info, table);
            &&& on_track(done, cache, rows_beyond, table, input, info)
            &&& done.next < input.len() ==> !done.next_accepted(input, info)
        }),
    decreases input.len() - run.next,
{
    let (reached, step) = run.advanced(input, info);
    lemma_fill_advances(run, input, info);
    law_waiting_changes_nothing(run, cache, rows_beyond, table, input, info);
    if step is Fill {
        let resumed = reached.resumed(
            step->Fill_0,
            table_with_all(table, reached.table_changes),
        );
        lemma_completed_on_track(resumed, cache, rows_beyond, table, input, info);
    }
}

/// A chunk of insertions of rows with new keys and of deletions of rows of the table is applied to
/// its end, however often it waits, and what it puts out turns the rows `[offset, offset+limit)` of
/// the table before into those of the table after.
pub proof fn law_chunk_follows_window(
    cache: CacheView,
    rows_beyond: bool,
    table: Seq<Entry>,
    input: Seq<Change>,
    info: KeyInfo,
)
    requires
        in_step(cache, table),
        !rows_beyond ==> cache.cached().len() == table.len(),
        forall|i: int|
            0 <= i < input.len() ==> Row::within(info.columns, #[trigger] input[i].1.len()),
        valid_all(table, keyed_rows(input, info)),
    ensures
        ({
            let done = completed(RunView::begun(cache, rows_beyond), input, info, table);
            let after = table_with_all(table, done.table_changes);
            let before_rows = bag_of_rows(window(table, cache.offset, cache.limit));
            let after_window = window(after, cache.offset, cache.limit);
            &&& done.next == input.len()
            &&& after == table_with_all(table, keyed_rows(input, info))
            &&& in_step(done.cache, after)
            &&& !done.rows_beyond ==> done.cache.cached().len() == after.len()
            &&& done.cache.offset == cache.offset
            &&& done.cache.limit == cache.limit
            &&& done.cache.middle == after_window
            &&& applicable(before_rows, done.output)
            &&& apply_changes(before_rows, done.output) == bag_of_rows(after_window)
        }),
{
    let begun = RunView::begun(cache, rows_beyond);
    let keyed = keyed_rows(input, info);
    assert(keyed.take(0) =~= Seq::<KeyedChange>::empty());
    assert(on_track(begun, cache, rows_beyond, table, input, info));
    lemma_completed_on_track(begun, cache, rows_beyond, table, input, info);
    let done = completed(begun, input, info, table);
    if done.next < input.len() {
        law_valid_rows_are_accepted(cache, rows_beyond, table, keyed, done.next);
        assert(keyed[done.next] == info.keyed(input[done.next]));
        assert(Row::within(info.columns, input[done.next].1.len()));
    }
    assert(keyed.take(done.next) =~= keyed);
    law_output_follows_window(cache, rows_beyond, table, keyed);
}

/// The run `run` of a chunk that follows the chunk of the run `first`, as a run of both.
pub open spec fn behind(run: RunView, first: RunView) -> RunView {
    RunView {
        next: first.next + run.next,
        table_changes: first.table_changes + run.table_changes,
        output: first.output + run.output,
        ..run
    }
}

proof fn lemma_advanced_in_first(
    run: RunView,
    first: Seq<Change>,
    second: Seq<Change>,
    info: KeyInfo,
)
    requires
        0 <= run.next <= first.len(),
    ensures
        ({
            let (reached, step) = run.advanced(first, info);
            &&& run.advanced(first + second, info) == if step is Done {
                reached.advanced(first + second, info)
            } else {
                (reached, step)
            }
            &&& step is Done ==> reached.next == first.len()
        }),
    decreases first.len() - run.next,
{
    let both = first + second;
    if run.next < first.len() {
        assert(both[run.next] == first[run.next]);
        assert(run.next_accepted(both, info) == run.next_accepted(first, info));
        if run.next_accepted(first, info) {
            let change = info.keyed(first[run.next]);
            if run.cache.fill_for(change) is None {
                lemma_advanced_in_first(run.with_row(change), first, second, info);
            }
        }
    }
}

proof fn lemma_advanced_in_second(
    run: RunView,
    prior: RunView,
    first: Seq<Change>,
    second: Seq<Change>,
    info: KeyInfo,
)
    requires
        prior.next == first.len(),
        0 <= run.next,
    ensures
        behind(run, prior).advanced(first + second, info) == (
            behind(run.advanced(second, info).0, prior),
            run.advanced(second, info).1,
        ),
    decreases second.len() - run.next,
{
    let both = first + second;
    let whole = behind(run, prior);
    if run.next < second.len() {
        assert(both[whole.next] == second[run.next]);
        let change = info.keyed(second[run.next]);
        assert(whole.next_accepted(both, info) == run.next_accepted(second, info));
        if run.next_accepted(second, info) {
            assert(behind(run.with_row(change), prior) =~= whole.with_row(change));
            if run.cache.fill_for(change) is None {
                lemma_advanced_in_second(run.with_row(change), prior, first, second, info);
            }
        }
    }
}

proof fn lemma_table_concat(
    table: Seq<Entry>,
    first: Seq<KeyedChange>,
    second: Seq<KeyedChange>,
)
    ensures
        table_with_all(table, first + second) == table_with_all(
            table_with_all(table, first),
            second,
        ),
    decreases second.len(),
{
    if second.len() == 0 {
        assert(first + second =~= first);
    } else {
        lemma_table_concat(table, first, second.drop_last());
        assert((first + second).drop_last() =~= first + second.drop_last());
        assert((first + second).last() == second.last());
    }
}

proof fn lemma_completed_in_first(
    run: RunView,
    first: Seq<Change>,
    second: Seq<Change>,
    info: KeyInfo,
    table: Seq<Entry>,
)
    requires
        0 <= run.next <= first.len(),
        completed(run, first, info, table).next == first.len(),
    ensures
        completed(run, first + second, info, table) == completed(
            completed(run, first, info, table),
            first + second,
            info,
            table,
        ),
    decreases first.len() - run.next,
{
    let both = first + second;
    let (reached, step) = run.advanced(first, info);
    lemma_advanced_in_first(run, first, second, info);
    lemma_fill_advances(run, first, info);
    lemma_refused_within(run, first, info);
    if step is Fill {
        let resumed = reached.resumed(
            step->Fill_0,
            table_with_all(table, reached.table_changes),
        );
        lemma_completed_in_first(resumed, first, second, info, table);
    } else {
        lemma_completed_same(run, reached, both, info, table);
    }
}

/// A refused row is one of the chunk.
proof fn lemma_refused_within(run: RunView, input: Seq<Change>, info: KeyInfo)
    ensures
        run.advanced(input, info).1 is Refused ==> run.advanced(input, info).0.next < input.len(),
    decreases input.len() - run.next,
{
    if 0 <= run.next < input.len() && run.next_accepted(input, info) {
        let change = info.keyed(input[run.next]);
        if run.cache.fill_for(change) is None {
            lemma_refused_within(run.with_row(change), input, info);
        }
    }
}

/// Runs that advance alike are completed alike.
proof fn lemma_completed_same(
    run: RunView,
    other: RunView,
    input: Seq<Change>,
    info: KeyInfo,
    table: Seq<Entry>,
)
    requires
        run.advanced(input, info) == other.advanced(input, info),
    ensures
        completed(run, input, info, table) == completed(other, input, info, table),
{
    lemma_fill_advances(run, input, info);
    lemma_fill_advances(other, input, info);
}

proof fn lemma_completed_in_second(
    run: RunView,
    prior: RunView,
    first: Seq<Change>,
    second: Seq<Change>,
    info: KeyInfo,
    table: Seq<Entry>,
)
    requires
        prior.next == first.len(),
        0 <= run.next,
    ensures
        completed(behind(run, prior), first + second, info, table) == behind(
            completed(run, second, info, table_with_all(table, prior.table_changes)),
            prior,
        ),
    decreases second.len() - run.next,
{
    let both = first + second;
    let (reached, step) = run.advanced(second, info);
    let middle = table_with_all(table, prior.table_changes);
    lemma_advanced_in_second(run, prior, first, second, info);
    lemma_fill_advances(run, second, info);
    if step is Fill {
        let fill = step->Fill_0;
        lemma_table_concat(table, prior.table_changes, reached.table_changes);
        let now = table_with_all(middle, reached.table_changes);
        assert(table_with_all(table, behind(reached, prior).table_changes) == now);
        let resumed = reached.resumed(fill, now);
        assert(behind(reached, prior).resumed(fill, now) =~= behind(resumed, prior));
        lemma_completed_in_second(resumed, prior, first, second, info, table);
    }
}

/// Applying one chunk and then another does what applying both as one chunk does: the second
/// chunk's output follows the first one's, and the cache and the changes of the state table are the
/// same. An empty chunk does nothing.
pub proof fn law_chunks_concatenate(
    cache: CacheView,
    rows_beyond: bool,
    table: Seq<Entry>,
    first: Seq<Change>,
    second: Seq<Change>,
    info: KeyInfo,
)
    requires
        completed(RunView::begun(cache, rows_beyond), first, info, table).next == first.len(),
    ensures
        ({
            let one = completed(RunView::begun(cache, rows_beyond), first, info, table);
            let two = completed(
                RunView::begun(one.cache, one.rows_beyond),
                second,
                info,
                table_with_all(table, one.table_changes),
            );
            let both = completed(RunView::begun(cache, rows_beyond), first + second, info, table);
            &&& both.cache == two.cache
            &&& both.rows_beyond == two.rows_beyond
            &&& both.next == first.len() + two.next
            &&& both.table_changes == one.table_changes + two.table_changes
            &&& table_with_all(table, both.table_changes) == table_with_all(
                table_with_all(table, one.table_changes),
                two.table_changes,
            )
            &&& both.output == one.output + two.output
        }),
        completed(RunView::begun(cache, rows_beyond), seq![], info, table) == RunView::begun(
            cache,
            rows_beyond,
        ),
{
    let begun = RunView::begun(cache, rows_beyond);
    let one = completed(begun, first, info, table);
    let next = RunView::begun(one.cache, one.rows_beyond);
    lemma_completed_in_first(begun, first, second, info, table);
    assert(behind(next, one) =~= one);
    lemma_completed_in_second(next, one, first, second, info, table);
    let two = completed(next, second, info, table_with_all(table, one.table_changes));
    lemma_table_concat(table, one.table_changes, two.table_changes);
}

}
