//! What the cache keeps of the table behind it.

use vstd::multiset::Multiset;
use vstd::prelude::*;

use crate::common::order::{
    key_less, lemma_compare_equal, lemma_compare_flip, lemma_less_transitive, Key,
};
use crate::common::value::{Change, DatumValue, Op};
use crate::stream::top_n::cache::{displaced, displaces, passed_on, CacheRange, CacheView};
use crate::stream::top_n::rows::{
    end_position, first_n, has_key, lemma_insert_sorted, lemma_position, lemma_position_is,
    lemma_remove_sorted, lemma_sorted_parts, position, rows_after, rows_from_index, rows_insert,
    rows_remove, sorted, Entry,
};

verus! {

pub open spec fn smaller(a: int, b: int) -> int {
    if a <= b {
        a
    } else {
        b
    }
}

/// Whether the cache holds the first rows of `table`, each range as full as the table allows. The
/// high range may hold fewer rows than it has room for.
pub open spec fn in_step(cache: CacheView, table: Seq<Entry>) -> bool {
    &&& sorted(table)
    &&& 0 <= cache.offset
    &&& 0 < cache.limit
    &&& 0 < cache.high_capacity
    &&& cache.cached().len() <= table.len()
    &&& cache.cached() == table.take(cache.cached().len() as int)
    &&& cache.low.len() == smaller(cache.offset, table.len() as int)
    &&& cache.middle.len() == smaller(cache.limit, table.len() - cache.low.len())
    &&& cache.high.len() <= cache.high_capacity
}

/// Whether the cached rows are in order and no range is short while a later one holds rows.
pub open spec fn well_formed(cache: CacheView) -> bool {
    in_step(cache, cache.cached())
}

proof fn lemma_no_key_in_part(s: Seq<Entry>, a: int, b: int, key: Key)
    requires
        0 <= a <= b <= s.len(),
        !has_key(s, key),
    ensures
        !has_key(s.subrange(a, b), key),
{
    let t = s.subrange(a, b);
    if has_key(t, key) {
        let i = choose|i: int| 0 <= i < t.len() && (#[trigger] t[i]).0 == key;
        assert(s[i + a].0 == key);
    }
}

/// A new row that belongs to the first `m` rows pushes the last of them on.
proof fn lemma_displaced_inside(s: Seq<Entry>, m: int, entry: Entry)
    requires
        sorted(s),
        0 <= m <= s.len(),
        !has_key(s, entry.0),
        position(s, entry.0) < m,
    ensures
        displaces(s.take(m), entry.0),
        rows_insert(s.take(m).drop_last(), entry) == rows_insert(s, entry).take(m),
        s.take(m).last() == s[m - 1],
        !has_key(s.skip(m), s[m - 1].0),
        position(s.skip(m), s[m - 1].0) == 0,
        rows_insert(s.skip(m), s[m - 1]) == rows_insert(s, entry).skip(m),
{
    reveal(sorted);
    let p = position(s, entry.0);
    let tier = s.take(m);
    let rest = s.skip(m);
    let next = s[m - 1];
    lemma_position(s, entry.0);
    lemma_sorted_parts(s, m);
    lemma_sorted_parts(s, m - 1);
    let all = s.insert(p, entry);
    assert(rows_insert(s, entry) == all);
    assert(displaces(tier, entry.0)) by {
        lemma_compare_flip(entry.0, next.0);
    }
    let head = s.take(m - 1);
    assert(tier.drop_last() =~= head);
    assert(!has_key(head, entry.0)) by {
        lemma_no_key_in_part(s, 0, m - 1, entry.0);
        assert(head =~= s.subrange(0, m - 1));
    }
    assert(position(head, entry.0) == p) by {
        lemma_compare_flip(entry.0, s[p].0);
        lemma_position_is(head, entry.0, p);
    }
    assert(head.insert(p, entry) =~= all.take(m));
    assert(!has_key(rest, next.0)) by {
        if has_key(rest, next.0) {
            let i = choose|i: int| 0 <= i < rest.len() && (#[trigger] rest[i]).0 == next.0;
            assert(key_less(s[m - 1].0, s[i + m].0));
            lemma_compare_equal(next.0, next.0);
        }
    }
    assert(position(rest, next.0) == 0) by {
        if rest.len() > 0 {
            assert(key_less(s[m - 1].0, s[m].0));
            lemma_compare_flip(s[m - 1].0, s[m].0);
        }
        lemma_position_is(rest, next.0, 0);
    }
    assert(rest.insert(0, next) =~= all.skip(m));
}

/// A new row behind the first `m` rows leaves them as they are.
proof fn lemma_displaced_behind(s: Seq<Entry>, m: int, entry: Entry)
    requires
        sorted(s),
        0 <= m <= s.len(),
        !has_key(s, entry.0),
        position(s, entry.0) >= m,
    ensures
        !displaces(s.take(m), entry.0),
        s.take(m) == rows_insert(s, entry).take(m),
        !has_key(s.skip(m), entry.0),
        position(s.skip(m), entry.0) == position(s, entry.0) - m,
        rows_insert(s.skip(m), entry) == rows_insert(s, entry).skip(m),
{
    let p = position(s, entry.0);
    let tier = s.take(m);
    let rest = s.skip(m);
    lemma_position(s, entry.0);
    lemma_sorted_parts(s, m);
    let all = s.insert(p, entry);
    assert(rows_insert(s, entry) == all);
    if m > 0 {
        assert(tier.last() == s[m - 1]);
        assert(key_less(s[m - 1].0, entry.0));
    }
    assert(tier =~= all.take(m));
    assert(!has_key(rest, entry.0)) by {
        lemma_no_key_in_part(s, m, s.len() as int, entry.0);
        assert(rest =~= s.subrange(m, s.len() as int));
    }
    assert(position(rest, entry.0) == p - m) by {
        if p < s.len() {
            lemma_compare_flip(entry.0, s[p].0);
        }
        lemma_position_is(rest, entry.0, p - m);
    }
    assert(rest.insert(p - m, entry) =~= all.skip(m));
}

/// What a full range passes on goes to the rows behind it as the new row goes to all of them.
pub proof fn lemma_displaced(s: Seq<Entry>, m: int, entry: Entry)
    requires
        sorted(s),
        0 <= m <= s.len(),
        !has_key(s, entry.0),
    ensures
        sorted(s.skip(m)),
        displaced(s.take(m), entry) == rows_insert(s, entry).take(m),
        !has_key(s.skip(m), passed_on(s.take(m), entry).0),
        rows_insert(s.skip(m), passed_on(s.take(m), entry)) == rows_insert(s, entry).skip(m),
        displaces(s.take(m), entry.0) <==> position(s, entry.0) < m,
        position(s.skip(m), passed_on(s.take(m), entry).0) == if position(s, entry.0) < m {
            0
        } else {
            position(s, entry.0) - m
        },
{
    lemma_sorted_parts(s, m);
    if position(s, entry.0) < m {
        lemma_displaced_inside(s, m, entry);
    } else {
        lemma_displaced_behind(s, m, entry);
    }
}

/// The ranges of a cache that is in step with `table`, as parts of it.
pub proof fn lemma_ranges(cache: CacheView, table: Seq<Entry>)
    requires
        in_step(cache, table),
    ensures
        ({
            let o = cache.low.len() as int;
            let m = cache.middle.len() as int;
            let h = cache.high.len() as int;
            &&& o + m + h <= table.len()
            &&& cache.low == table.take(o)
            &&& cache.middle == table.skip(o).take(m)
            &&& cache.middle == table.subrange(o, o + m)
            &&& cache.high == table.skip(o).skip(m).take(h)
            &&& cache.high == table.subrange(o + m, o + m + h)
        }),
{
    let o = cache.low.len() as int;
    let m = cache.middle.len() as int;
    let h = cache.high.len() as int;
    let all = cache.cached();
    assert(all.len() == o + m + h);
    assert(all.subrange(0, o) =~= cache.low);
    assert(all.subrange(o, o + m) =~= cache.middle);
    assert(all.subrange(o + m, o + m + h) =~= cache.high);
    assert(cache.low =~= table.take(o));
    assert(cache.middle =~= table.subrange(o, o + m));
    assert(cache.middle =~= table.skip(o).take(m));
    assert(cache.high =~= table.subrange(o + m, o + m + h));
    assert(cache.high =~= table.skip(o).skip(m).take(h));
}

/// Consecutive parts of `table` are a cache that is in step with it.
proof fn lemma_in_step(cache: CacheView, table: Seq<Entry>)
    requires
        sorted(table),
        0 <= cache.offset,
        0 < cache.limit,
        0 < cache.high_capacity,
        ({
            let o = cache.low.len() as int;
            let m = cache.middle.len() as int;
            let h = cache.high.len() as int;
            &&& o + m + h <= table.len()
            &&& cache.low == table.take(o)
            &&& cache.middle == table.subrange(o, o + m)
            &&& cache.high == table.subrange(o + m, o + m + h)
            &&& o == smaller(cache.offset, table.len() as int)
            &&& m == smaller(cache.limit, table.len() - o)
            &&& h <= cache.high_capacity
        }),
    ensures
        in_step(cache, table),
{
    assert(cache.cached() =~= table.take(cache.cached().len() as int));
}

/// Inserting into the first `h` rows is inserting into all of them, as far as the new row does not
/// come later.
proof fn lemma_insert_in_front(s: Seq<Entry>, h: int, entry: Entry)
    requires
        sorted(s),
        0 <= h <= s.len(),
        !has_key(s, entry.0),
        position(s, entry.0) <= h,
    ensures
        rows_insert(s.take(h), entry) == rows_insert(s, entry).take(h + 1),
{
    let p = position(s, entry.0);
    let front = s.take(h);
    lemma_position(s, entry.0);
    lemma_sorted_parts(s, h);
    assert(!has_key(front, entry.0)) by {
        lemma_no_key_in_part(s, 0, h, entry.0);
        assert(front =~= s.subrange(0, h));
    }
    assert(position(front, entry.0) == p) by {
        if p < s.len() {
            lemma_compare_flip(entry.0, s[p].0);
        }
        lemma_position_is(front, entry.0, p);
    }
    assert(front.insert(p, entry) =~= s.insert(p, entry).take(h + 1));
}

proof fn lemma_insert_low(cache: CacheView, table: Seq<Entry>, entry: Entry)
    requires
        in_step(cache, table),
        !has_key(table, entry.0),
        cache.low.len() != cache.offset,
    ensures
        in_step(cache.after_insert(entry), rows_insert(table, entry)),
        cache.after_insert(entry).cached().len() == cache.cached().len() + 1,
{
    let o = cache.low.len() as int;
    let after = cache.after_insert(entry);
    let all = rows_insert(table, entry);
    lemma_ranges(cache, table);
    lemma_insert_sorted(table, entry);
    assert(table.take(o) =~= table);
    assert(after.low =~= all.take(o + 1));
    assert(after.middle =~= all.subrange(o + 1, o + 1));
    assert(after.high =~= all.subrange(o + 1, o + 1));
    lemma_in_step(after, all);
}

proof fn lemma_insert_middle(cache: CacheView, table: Seq<Entry>, entry: Entry)
    requires
        in_step(cache, table),
        !has_key(table, entry.0),
        cache.low.len() == cache.offset,
        cache.middle.len() != cache.limit,
    ensures
        in_step(cache.after_insert(entry), rows_insert(table, entry)),
        cache.after_insert(entry).cached().len() == cache.cached().len() + 1,
{
    let o = cache.low.len() as int;
    let m = cache.middle.len() as int;
    let after = cache.after_insert(entry);
    let all = rows_insert(table, entry);
    lemma_ranges(cache, table);
    lemma_insert_sorted(table, entry);
    lemma_displaced(table, o, entry);
    let rest = table.skip(o);
    assert(rest.take(m) =~= rest);
    assert(after.middle == all.skip(o));
    assert(after.middle =~= all.subrange(o, o + m + 1));
    assert(after.high =~= all.subrange(o + m + 1, o + m + 1));
    lemma_in_step(after, all);
}

proof fn lemma_insert_high(cache: CacheView, table: Seq<Entry>, entry: Entry)
    requires
        in_step(cache, table),
        !has_key(table, entry.0),
        cache.low.len() == cache.offset,
        cache.middle.len() == cache.limit,
        cache.high.len() == cache.high_capacity || position(table, entry.0)
            <= cache.cached().len(),
    ensures
        in_step(cache.after_insert(entry), rows_insert(table, entry)),
        cache.after_insert(entry).cached().len() == if cache.is_full() {
            cache.cached().len()
        } else {
            cache.cached().len() + 1
        },
        displaced(cache.low, entry).len() == cache.low.len(),
        displaced(cache.middle, passed_on(cache.low, entry)).len() == cache.middle.len(),
{
    let o = cache.low.len() as int;
    let m = cache.middle.len() as int;
    let h = cache.high.len() as int;
    let after = cache.after_insert(entry);
    let all = rows_insert(table, entry);
    lemma_ranges(cache, table);
    lemma_insert_sorted(table, entry);
    lemma_displaced(table, o, entry);
    let second = passed_on(cache.low, entry);
    let rest = table.skip(o);
    lemma_displaced(rest, m, second);
    let third = passed_on(cache.middle, second);
    let last = rest.skip(m);
    let last_all = rows_insert(last, third);
    assert(all.skip(o).skip(m) =~= all.skip(o + m));
    assert(last_all == all.skip(o + m));
    assert(after.low == all.take(o));
    assert(after.middle == all.skip(o).take(m));
    assert(after.middle =~= all.subrange(o, o + m));
    if h != cache.high_capacity {
        lemma_insert_in_front(last, h, third);
        assert(after.high == last_all.take(h + 1));
        assert(after.high =~= all.subrange(o + m, o + m + h + 1));
    } else {
        lemma_displaced(last, h, third);
        assert(after.high == last_all.take(h));
        assert(after.high =~= all.subrange(o + m, o + m + h));
    }
    lemma_in_step(after, all);
}

/// A cache that is in step with a table stays so when a new row is inserted into both. It holds one
/// row more, unless it was full.
///
/// The row is left out that lies behind a row of the table that is not cached while the high range
/// has room: the high range then takes the row, and the rows before it are missing there.
pub proof fn law_insert_keeps_step(cache: CacheView, table: Seq<Entry>, entry: Entry)
    requires
        in_step(cache, table),
        !has_key(table, entry.0),
        cache.high.len() == cache.high_capacity || position(table, entry.0)
            <= cache.cached().len(),
    ensures
        cache.accepts_insert(entry),
        in_step(cache.after_insert(entry), rows_insert(table, entry)),
        cache.after_insert(entry).cached().len() == if cache.is_full() {
            cache.cached().len()
        } else {
            cache.cached().len() + 1
        },
{
    if cache.low.len() != cache.offset {
        lemma_insert_low(cache, table, entry);
    } else if cache.middle.len() != cache.limit {
        lemma_insert_middle(cache, table, entry);
    } else {
        lemma_insert_high(cache, table, entry);
    }
}

/// Removing a row from a part of a sorted sequence that holds it.
pub proof fn lemma_remove_in_part(s: Seq<Entry>, a: int, b: int, key: Key)
    requires
        sorted(s),
        has_key(s, key),
        0 <= a <= position(s, key) < b <= s.len(),
    ensures
        rows_remove(s.subrange(a, b), key) == rows_remove(s, key).subrange(a, b - 1),
{
    let q = position(s, key);
    let part = s.subrange(a, b);
    lemma_position(s, key);
    lemma_sorted_parts(s, b);
    lemma_sorted_parts(s.take(b), a);
    assert(part =~= s.take(b).skip(a));
    assert(part[q - a] == s[q]);
    assert(has_key(part, key));
    lemma_compare_equal(key, key);
    lemma_position_is(part, key, q - a);
    assert(part.remove(q - a) =~= s.remove(q).subrange(a, b - 1));
}

/// The part of a sorted sequence before a row that is removed.
proof fn lemma_remove_behind(s: Seq<Entry>, a: int, b: int, key: Key)
    requires
        sorted(s),
        has_key(s, key),
        0 <= a <= b <= position(s, key),
    ensures
        position(s, key) < s.len(),
        rows_remove(s.subrange(a, b), key) == s.subrange(a, b),
        s.subrange(a, b) == rows_remove(s, key).subrange(a, b),
{
    let q = position(s, key);
    let part = s.subrange(a, b);
    lemma_position(s, key);
    if has_key(part, key) {
        let i = choose|i: int| 0 <= i < part.len() && (#[trigger] part[i]).0 == key;
        assert(key_less(s[i + a].0, key));
        lemma_compare_equal(key, key);
    }
    assert(s.subrange(a, b) =~= s.remove(q).subrange(a, b));
}

/// The part of a sorted sequence behind a row that is removed.
pub proof fn lemma_remove_before(s: Seq<Entry>, a: int, b: int, key: Key)
    requires
        sorted(s),
        has_key(s, key),
        position(s, key) < a <= b <= s.len(),
    ensures
        0 <= position(s, key),
        s.subrange(a, b) == rows_remove(s, key).subrange(a - 1, b - 1),
{
    let q = position(s, key);
    lemma_position(s, key);
    assert(s.subrange(a, b) =~= s.remove(q).subrange(a - 1, b - 1));
}

/// The row behind a part of a sorted sequence is inserted at its end.
pub proof fn lemma_insert_next(s: Seq<Entry>, a: int, b: int)
    requires
        sorted(s),
        0 <= a <= b < s.len(),
    ensures
        rows_insert(s.subrange(a, b), s[b]) == s.subrange(a, b + 1),
{
    let part = s.subrange(a, b);
    lemma_sorted_parts(s, b);
    lemma_sorted_parts(s.take(b), a);
    assert(part =~= s.take(b).skip(a));
    reveal(sorted);
    if b > a {
        assert(key_less(s[b - 1].0, s[b].0));
        assert(part[b - a - 1] == s[b - 1]);
    }
    if has_key(part, s[b].0) {
        let i = choose|i: int| 0 <= i < part.len() && (#[trigger] part[i]).0 == s[b].0;
        assert(key_less(s[i + a].0, s[b].0));
        lemma_compare_equal(s[b].0, s[b].0);
    }
    lemma_position_is(part, s[b].0, b - a);
    assert(part.insert(b - a, s[b]) =~= s.subrange(a, b + 1));
}

/// Where the rows after `key` begin.
proof fn lemma_end_position_is(s: Seq<Entry>, key: Key, n: int)
    requires
        sorted(s),
        0 <= n <= s.len(),
        n > 0 ==> !key_less(key, s[n - 1].0),
        n < s.len() ==> key_less(key, s[n].0),
    ensures
        end_position(s, key) == n,
{
    lemma_position(s, key);
    let p = position(s, key);
    if n > 0 {
        lemma_compare_flip(key, s[n - 1].0);
        lemma_compare_equal(key, s[n - 1].0);
    }
    if n < s.len() {
        lemma_compare_flip(key, s[n].0);
        lemma_compare_equal(key, s[n].0);
    }
    if n > 0 && s[n - 1].0 == key {
        assert(has_key(s, key));
        if p < n - 1 {
            assert(key_less(key, s[n - 1].0));
        }
        if p > n - 1 {
            assert(key_less(s[n - 1].0, key));
        }
    } else {
        lemma_position_is(s, key, n);
    }
}

/// The cache with a row missing at the end of its middle range is in step again once the row is
/// brought there from the high range.
proof fn lemma_refilled(cache: CacheView, table: Seq<Entry>, r: int, h: int)
    requires
        sorted(table),
        0 <= cache.offset,
        0 <= r < cache.limit,
        0 <= h <= cache.high_capacity,
        0 < cache.high_capacity,
        cache.offset + r + h <= table.len(),
        cache.low == table.take(cache.offset),
        cache.middle == table.subrange(cache.offset, cache.offset + r),
        cache.high == table.subrange(cache.offset + r, cache.offset + r + h),
        h == 0 ==> table.len() == cache.offset + r,
        h > 0 ==> r + 1 == cache.limit,
    ensures
        in_step(cache.refilled(), table),
        cache.refilled().cached().len() == cache.offset + r + h,
{
    let o = cache.offset;
    let after = cache.refilled();
    if h > 0 {
        lemma_insert_next(table, o, o + r);
        assert(cache.high.first() == table[o + r]);
        assert(after.high =~= table.subrange(o + r + 1, o + r + h));
        lemma_in_step(after, table);
    } else {
        lemma_in_step(after, table);
    }
}

/// The state of the cache after the row of `key` has been deleted, where the high range, if it has
/// to be filled, is filled from `scanned`.
pub open spec fn after_delete_with(cache: CacheView, key: Key, scanned: Seq<Entry>) -> CacheView {
    if cache.needs_fill(key) {
        let begun = cache.before_fill(key);
        begun.filled(scanned, begun.fill_start(), cache.high_capacity).after_fill(
            cache.range_of(key),
            key,
        )
    } else {
        cache.after_delete(key)
    }
}

/// Whether a deletion leaves no row of `table` uncached: the scan gave fewer rows than were asked
/// for, or there was no scan and all rows were cached before.
pub open spec fn reaches_end(
    cache: CacheView,
    table: Seq<Entry>,
    key: Key,
    scanned: Seq<Entry>,
) -> bool {
    if cache.needs_fill(key) {
        rows_after(scanned, cache.before_fill(key).fill_start(), cache.high_capacity).len()
            < cache.high_capacity
    } else {
        cache.cached().len() == table.len()
    }
}

/// What deleting the row `row` of `key` changes in the middle range, where the high range, if it
/// has to be filled, is filled from `scanned`.
pub open spec fn delete_changes_with(
    cache: CacheView,
    key: Key,
    row: Seq<DatumValue>,
    scanned: Seq<Entry>,
) -> Seq<Change> {
    if cache.needs_fill(key) {
        let begun = cache.before_fill(key);
        cache.changes_before_fill(key) + begun.filled(
            scanned,
            begun.fill_start(),
            cache.high_capacity,
        ).changes_after_fill(cache.range_of(key), row)
    } else {
        cache.delete_changes(key, row)
    }
}

proof fn lemma_delete_high(cache: CacheView, table: Seq<Entry>, key: Key)
    requires
        in_step(cache, table),
        has_key(table, key),
        cache.range_of(key) == CacheRange::High,
    ensures
        in_step(cache.after_delete(key), rows_remove(table, key)),
        cache.cached().len() == table.len() ==> cache.after_delete(key).cached().len()
            == table.len() - 1,
{
    let o = cache.low.len() as int;
    let m = cache.middle.len() as int;
    let h = cache.high.len() as int;
    let q = position(table, key);
    let after = cache.after_delete(key);
    let rest = rows_remove(table, key);
    lemma_ranges(cache, table);
    lemma_position(table, key);
    lemma_remove_sorted(table, key);
    assert(cache.middle.last() == table[o + m - 1]);
    lemma_compare_flip(table[o + m - 1].0, key);
    lemma_compare_equal(key, key);
    assert(q >= o + m);
    lemma_remove_behind(table, 0, o, key);
    lemma_remove_behind(table, o, o + m, key);
    assert(cache.low =~= table.subrange(0, o));
    assert(cache.low =~= rest.take(o));
    if q < o + m + h {
        lemma_remove_in_part(table, o + m, o + m + h, key);
    } else {
        lemma_remove_behind(table, o + m, o + m + h, key);
    }
    lemma_in_step(after, rest);
}

/// Where the row of a key that the table holds is looked for, it is.
pub proof fn lemma_range_holds(cache: CacheView, table: Seq<Entry>, key: Key)
    requires
        in_step(cache, table),
        has_key(table, key),
    ensures
        ({
            let o = cache.low.len() as int;
            let m = cache.middle.len() as int;
            let q = position(table, key);
            &&& 0 <= q < table.len()
            &&& cache.range_of(key) == CacheRange::Middle ==> o <= q < o + m && o == cache.offset
            &&& cache.range_of(key) == CacheRange::Low ==> q < o
            &&& cache.range_of(key) == CacheRange::High ==> o + m <= q
        }),
{
    let o = cache.low.len() as int;
    let m = cache.middle.len() as int;
    let q = position(table, key);
    lemma_ranges(cache, table);
    lemma_position(table, key);
    lemma_compare_equal(key, key);
    if m > 0 {
        assert(cache.middle.last() == table[o + m - 1]);
        lemma_compare_flip(table[o + m - 1].0, key);
    }
    if o > 0 {
        assert(cache.low.last() == table[o - 1]);
        lemma_compare_flip(table[o - 1].0, key);
    }
}

proof fn lemma_delete_middle(cache: CacheView, table: Seq<Entry>, key: Key, scanned: Seq<Entry>)
    requires
        in_step(cache, table),
        has_key(table, key),
        cache.range_of(key) == CacheRange::Middle,
        cache.high.len() == 0 ==> rows_after(
            scanned,
            cache.middle.last().0,
            cache.high_capacity,
        ) == rows_after(rows_remove(table, key), cache.middle.last().0, cache.high_capacity),
    ensures
        in_step(after_delete_with(cache, key, scanned), rows_remove(table, key)),
        reaches_end(cache, table, key, scanned) ==> after_delete_with(
            cache,
            key,
            scanned,
        ).cached().len() == table.len() - 1,
{
    let o = cache.low.len() as int;
    let m = cache.middle.len() as int;
    let h = cache.high.len() as int;
    let q = position(table, key);
    let rest = rows_remove(table, key);
    lemma_ranges(cache, table);
    lemma_position(table, key);
    lemma_remove_sorted(table, key);
    lemma_range_holds(cache, table, key);
    lemma_remove_behind(table, 0, o, key);
    assert(cache.low =~= table.subrange(0, o));
    assert(cache.low =~= rest.take(o));
    lemma_remove_in_part(table, o, o + m, key);
    if h == 0 {
        let start = cache.middle.last().0;
        assert(start == table[o + m - 1].0);
        lemma_after_last(table, key, o + m);
        let filled = cache.filled(scanned, start, cache.high_capacity);
        let removed = CacheView { middle: rows_remove(filled.middle, key), ..filled };
        let behind = rest.skip(o + m - 1);
        assert(filled.high == first_n(behind, cache.high_capacity));
        let g = filled.high.len() as int;
        assert(filled.high =~= rest.subrange(o + m - 1, o + m - 1 + g));
        lemma_refilled(removed, rest, m - 1, g);
        assert(after_delete_with(cache, key, scanned) == removed.refilled());
    } else {
        let removed = CacheView { middle: rows_remove(cache.middle, key), ..cache };
        lemma_remove_before(table, o + m, o + m + h, key);
        lemma_refilled(removed, rest, m - 1, h);
        assert(after_delete_with(cache, key, scanned) == removed.refilled());
    }
}

/// With a row among the first `n` removed, the rows after the last of the others begin one place
/// earlier.
proof fn lemma_after_last(table: Seq<Entry>, key: Key, n: int)
    requires
        sorted(table),
        has_key(table, key),
        0 <= position(table, key) < n <= table.len(),
    ensures
        end_position(rows_remove(table, key), table[n - 1].0) == n - 1,
{
    let q = position(table, key);
    let rest = rows_remove(table, key);
    lemma_position(table, key);
    lemma_remove_sorted(table, key);
    assert(rest == table.remove(q));
    reveal(sorted);
    let start = table[n - 1].0;
    lemma_compare_equal(start, start);
    if n - 1 > 0 {
        let before = if n - 2 < q {
            n - 2
        } else {
            n - 1
        };
        assert(rest[n - 2] == table[before]);
        lemma_compare_flip(table[before].0, start);
    }
    if n - 1 < rest.len() {
        assert(rest[n - 1] == table[n]);
    }
    lemma_end_position_is(rest, start, n - 1);
}

proof fn lemma_delete_low(cache: CacheView, table: Seq<Entry>, key: Key, scanned: Seq<Entry>)
    requires
        in_step(cache, table),
        has_key(table, key),
        cache.range_of(key) == CacheRange::Low,
        cache.needs_fill(key) ==> rows_after(
            scanned,
            cache.before_fill(key).fill_start(),
            cache.high_capacity,
        ) == rows_after(
            rows_remove(table, key),
            cache.before_fill(key).fill_start(),
            cache.high_capacity,
        ),
    ensures
        in_step(after_delete_with(cache, key, scanned), rows_remove(table, key)),
        reaches_end(cache, table, key, scanned) ==> after_delete_with(
            cache,
            key,
            scanned,
        ).cached().len() == table.len() - 1,
{
    let o = cache.low.len() as int;
    let m = cache.middle.len() as int;
    let h = cache.high.len() as int;
    let rest = rows_remove(table, key);
    let begun = cache.before_fill(key);
    lemma_ranges(cache, table);
    lemma_position(table, key);
    lemma_remove_sorted(table, key);
    lemma_range_holds(cache, table, key);
    assert(cache.low =~= table.subrange(0, o));
    lemma_remove_in_part(table, 0, o, key);
    assert(rows_remove(cache.low, key) == rest.subrange(0, o - 1));
    if m == 0 {
        assert(begun.low =~= rest.take(o - 1));
        assert(begun.middle =~= rest.subrange(o - 1, o - 1));
        assert(begun.high =~= rest.subrange(o - 1, o - 1));
        assert(begun.refilled() == begun);
        lemma_in_step(begun, rest);
    } else {
        lemma_remove_before(table, o, o + m, key);
        assert(cache.middle.first() == rest[o - 1]);
        lemma_insert_next(rest, 0, o - 1);
        assert(begun.low =~= rest.take(o));
        assert(begun.middle =~= rest.subrange(o, o + m - 1));
        if h == 0 {
            let start = begun.fill_start();
            assert(begun.low.last() == rest[o - 1]);
            assert(start == table[o + m - 1].0);
            lemma_after_last(table, key, o + m);
            let filled = begun.filled(scanned, start, cache.high_capacity);
            let behind = rest.skip(o + m - 1);
            assert(filled.high == first_n(behind, cache.high_capacity));
            let g = filled.high.len() as int;
            assert(filled.high =~= rest.subrange(o + m - 1, o + m - 1 + g));
            lemma_refilled(filled, rest, m - 1, g);
        } else {
            lemma_remove_before(table, o + m, o + m + h, key);
            lemma_refilled(begun, rest, m - 1, h);
        }
    }
}

/// A cache that is in step with a table stays so when a row of the table is deleted from both, and
/// the high range, where it has to be filled, is filled with the rows that the table then has after
/// the last cached row. Where the scan reaches the end of the table, all its rows are then cached.
pub proof fn law_delete_keeps_step(
    cache: CacheView,
    table: Seq<Entry>,
    key: Key,
    scanned: Seq<Entry>,
)
    requires
        in_step(cache, table),
        has_key(table, key),
        cache.needs_fill(key) ==> rows_after(
            scanned,
            cache.before_fill(key).fill_start(),
            cache.high_capacity,
        ) == rows_after(
            rows_remove(table, key),
            cache.before_fill(key).fill_start(),
            cache.high_capacity,
        ),
    ensures
        cache.accepts_delete(key),
        in_step(after_delete_with(cache, key, scanned), rows_remove(table, key)),
        reaches_end(cache, table, key, scanned) ==> after_delete_with(
            cache,
            key,
            scanned,
        ).cached().len() == table.len() - 1,
{
    lemma_ranges(cache, table);
    lemma_range_holds(cache, table, key);
    match cache.range_of(key) {
        CacheRange::High => lemma_delete_high(cache, table, key),
        CacheRange::Middle => lemma_delete_middle(cache, table, key, scanned),
        CacheRange::Low => lemma_delete_low(cache, table, key, scanned),
    }
}

/// The rows of `table` from `offset` on, at most `limit` of them.
pub open spec fn window(table: Seq<Entry>, offset: int, limit: int) -> Seq<Entry> {
    first_n(rows_from_index(table, offset), limit)
}

/// The ranges of a cache that is in step with a table are what they are called: the low range is
/// the rows `[0, offset)` of the table, the middle range the rows `[offset, offset+limit)`, and the
/// high range the first of those that follow, at most `high_capacity` of them.
pub proof fn law_ranges_are_windows(cache: CacheView, table: Seq<Entry>)
    requires
        in_step(cache, table),
    ensures
        cache.low == window(table, 0, cache.offset),
        cache.middle == window(table, cache.offset, cache.limit),
        cache.high == window(table, cache.offset + cache.limit, cache.high.len() as int),
        cache.high.len() <= cache.high_capacity,
{
    lemma_ranges(cache, table);
    assert(cache.low =~= window(table, 0, cache.offset));
    assert(cache.middle =~= window(table, cache.offset, cache.limit));
    assert(cache.high =~= window(table, cache.offset + cache.limit, cache.high.len() as int));
}

/// A cache that is filled from a scan of a table is in step with it. Where its high range has room
/// left, it holds all rows of the table.
pub proof fn law_init_is_in_step(cache: CacheView, table: Seq<Entry>)
    requires
        sorted(table),
        0 <= cache.offset,
        0 < cache.limit,
        0 < cache.high_capacity,
    ensures
        in_step(cache.initialized(table), table),
        cache.initialized(table).high.len() != cache.high_capacity ==> cache.initialized(
            table,
        ).cached().len() == table.len(),
{
    let after = cache.initialized(table);
    let o = after.low.len() as int;
    let m = after.middle.len() as int;
    let h = after.high.len() as int;
    assert(after.low =~= table.take(o));
    assert(after.middle =~= table.subrange(o, o + m));
    assert(after.high =~= table.subrange(o + m, o + m + h));
    lemma_in_step(after, table);
}

/// The first rows of a table are all that a cache has to be filled from, as many as its three
/// ranges hold.
pub proof fn law_limited_init_suffices(cache: CacheView, table: Seq<Entry>)
    requires
        0 <= cache.offset,
        0 <= cache.limit,
        0 <= cache.high_capacity,
    ensures
        cache.initialized(first_n(table, cache.offset + cache.limit + cache.high_capacity))
            == cache.initialized(table),
{
    let part = first_n(table, cache.offset + cache.limit + cache.high_capacity);
    assert(cache.initialized(part).low =~= cache.initialized(table).low);
    assert(cache.initialized(part).middle =~= cache.initialized(table).middle);
    assert(cache.initialized(part).high =~= cache.initialized(table).high);
}

/// A cache that is in step with a table is well formed.
pub proof fn law_in_step_is_well_formed(cache: CacheView, table: Seq<Entry>)
    requires
        in_step(cache, table),
    ensures
        well_formed(cache),
{
    let n = cache.cached().len() as int;
    lemma_sorted_parts(table, n);
    assert(cache.cached().take(n) =~= cache.cached());
}

/// The rows of `s`, without their keys and their order.
pub open spec fn bag_of_rows(s: Seq<Entry>) -> Multiset<Seq<DatumValue>> {
    s.map_values(|entry: Entry| entry.1).to_multiset()
}

/// The rows that `change` makes of `rows`.
pub open spec fn apply_change(rows: Multiset<Seq<DatumValue>>, change: Change) -> Multiset<
    Seq<DatumValue>,
> {
    match change.0 {
        Op::Insert | Op::UpdateInsert => rows.insert(change.1),
        Op::Delete | Op::UpdateDelete => rows.remove(change.1),
    }
}

/// The rows that `changes`, one after the other, make of `rows`.
pub open spec fn apply_changes(
    rows: Multiset<Seq<DatumValue>>,
    changes: Seq<Change>,
) -> Multiset<Seq<DatumValue>>
    decreases changes.len(),
{
    if changes.len() == 0 {
        rows
    } else {
        apply_change(apply_changes(rows, changes.drop_last()), changes.last())
    }
}

/// Whether every row that `changes` delete is there when it is deleted.
pub open spec fn applicable(rows: Multiset<Seq<DatumValue>>, changes: Seq<Change>) -> bool
    decreases changes.len(),
{
    changes.len() > 0 ==> {
        &&& applicable(rows, changes.drop_last())
        &&& match changes.last().0 {
            Op::Insert | Op::UpdateInsert => true,
            Op::Delete | Op::UpdateDelete => apply_changes(rows, changes.drop_last()).count(
                changes.last().1,
            ) > 0,
        }
    }
}

/// Applying one list of changes after another.
pub proof fn lemma_apply_concat(
    rows: Multiset<Seq<DatumValue>>,
    first: Seq<Change>,
    second: Seq<Change>,
)
    ensures
        apply_changes(rows, first + second) == apply_changes(apply_changes(rows, first), second),
        applicable(rows, first + second) <==> applicable(rows, first) && applicable(
            apply_changes(rows, first),
            second,
        ),
    decreases second.len(),
{
    if second.len() == 0 {
        assert(first + second =~= first);
    } else {
        lemma_apply_concat(rows, first, second.drop_last());
        assert((first + second).drop_last() =~= first + second.drop_last());
        assert((first + second).last() == second.last());
    }
}

proof fn lemma_apply_one(rows: Multiset<Seq<DatumValue>>, change: Change)
    ensures
        apply_changes(rows, seq![change]) == apply_change(rows, change),
        applicable(rows, seq![change]) <==> match change.0 {
            Op::Insert | Op::UpdateInsert => true,
            Op::Delete | Op::UpdateDelete => rows.count(change.1) > 0,
        },
{
    let one = seq![change];
    assert(one.drop_last() =~= Seq::<Change>::empty());
    assert(apply_changes(rows, one.drop_last()) == rows);
    assert(applicable(rows, one.drop_last()));
}

proof fn lemma_bag_remove(s: Seq<Entry>, i: int)
    requires
        0 <= i < s.len(),
    ensures
        bag_of_rows(s.remove(i)) == bag_of_rows(s).remove(s[i].1),
        bag_of_rows(s).count(s[i].1) > 0,
        bag_of_rows(s) == bag_of_rows(s.remove(i)).insert(s[i].1),
{
    broadcast use vstd::seq_lib::group_to_multiset_ensures;

    let rows = s.map_values(|entry: Entry| entry.1);
    assert(rows.remove(i) =~= s.remove(i).map_values(|entry: Entry| entry.1));
    assert(rows[i] == s[i].1);
    assert(rows.contains(rows[i]));
    assert(rows.remove(i).to_multiset() =~= rows.to_multiset().remove(rows[i]));
    assert(rows.to_multiset() =~= rows.to_multiset().remove(rows[i]).insert(rows[i]));
}

proof fn lemma_bag_insert(s: Seq<Entry>, entry: Entry)
    requires
        sorted(s),
        !has_key(s, entry.0),
    ensures
        bag_of_rows(rows_insert(s, entry)) == bag_of_rows(s).insert(entry.1),
{
    lemma_position(s, entry.0);
    let p = position(s, entry.0);
    let t = s.insert(p, entry);
    assert(t.remove(p) =~= s);
    lemma_bag_remove(t, p);
}

/// What a refill is recorded as is what it does to the middle range.
proof fn lemma_refill_changes(cache: CacheView)
    requires
        sorted(cache.middle),
        cache.high.len() > 0 ==> !has_key(cache.middle, cache.high.first().0),
    ensures
        applicable(bag_of_rows(cache.middle), cache.refill_changes()),
        apply_changes(bag_of_rows(cache.middle), cache.refill_changes()) == bag_of_rows(
            cache.refilled().middle,
        ),
{
    if cache.high.len() > 0 {
        lemma_bag_insert(cache.middle, cache.high.first());
        lemma_apply_one(bag_of_rows(cache.middle), (Op::Insert, cache.high.first().1));
    }
}

/// The changes that an insertion records, applied to the rows of the middle range, give the rows
/// that the middle range holds afterwards.
pub proof fn law_insert_changes_are_exact(cache: CacheView, entry: Entry)
    requires
        well_formed(cache),
        !has_key(cache.cached(), entry.0),
    ensures
        applicable(bag_of_rows(cache.middle), cache.insert_changes(entry)),
        apply_changes(bag_of_rows(cache.middle), cache.insert_changes(entry)) == bag_of_rows(
            cache.after_insert(entry).middle,
        ),
{
    let o = cache.low.len() as int;
    let m = cache.middle.len() as int;
    let all = cache.cached();
    let rows = bag_of_rows(cache.middle);
    lemma_ranges(cache, all);
    if o == cache.offset {
        lemma_displaced(all, o, entry);
        let second = passed_on(cache.low, entry);
        let rest = all.skip(o);
        lemma_sorted_parts(rest, m);
        lemma_no_key_in_part(rest, 0, m, second.0);
        assert(rest.subrange(0, m) =~= cache.middle);
        if m != cache.limit {
            lemma_bag_insert(cache.middle, second);
            lemma_apply_one(rows, (Op::Insert, second.1));
        } else if displaces(cache.middle, second.0) {
            let last = cache.middle.last();
            let head = cache.middle.drop_last();
            assert(head =~= cache.middle.remove(m - 1));
            lemma_bag_remove(cache.middle, m - 1);
            lemma_sorted_parts(cache.middle, m - 1);
            assert(head =~= cache.middle.take(m - 1));
            lemma_no_key_in_part(cache.middle, 0, m - 1, second.0);
            assert(head =~= cache.middle.subrange(0, m - 1));
            lemma_bag_insert(head, second);
            let first = seq![(Op::Delete, last.1)];
            let next = seq![(Op::Insert, second.1)];
            lemma_apply_one(rows, (Op::Delete, last.1));
            lemma_apply_one(bag_of_rows(head), (Op::Insert, second.1));
            lemma_apply_concat(rows, first, next);
            assert(cache.insert_changes(entry) =~= first + next);
        }
    }
}

/// A key that comes after the last row is not the key of a row.
proof fn lemma_beyond_last(s: Seq<Entry>, key: Key)
    requires
        sorted(s),
        s.len() > 0 ==> key_less(s.last().0, key),
    ensures
        !has_key(s, key),
{
    if has_key(s, key) {
        lemma_position(s, key);
        lemma_position_is(s, key, s.len() as int);
    }
}

/// The first row after `start` has a later key.
proof fn lemma_first_after(s: Seq<Entry>, start: Key, limit: int)
    requires
        sorted(s),
        rows_after(s, start, limit).len() > 0,
        0 < limit,
    ensures
        key_less(start, rows_after(s, start, limit).first().0),
{
    lemma_position(s, start);
    let n = end_position(s, start);
    assert(rows_after(s, start, limit).first() == s[n]);
}

/// The first row that refills the middle range comes after all rows there.
pub proof fn lemma_refill_is_new(
    cache: CacheView,
    middle: Seq<Entry>,
    high: Seq<Entry>,
    scanned: Seq<Entry>,
)
    requires
        well_formed(cache),
        sorted(scanned),
        cache.middle.len() > 0,
        high == cache.high || high == rows_after(
            scanned,
            cache.middle.last().0,
            cache.high_capacity,
        ),
        sorted(middle),
        middle.len() > 0 ==> middle.last() == cache.middle.last() || key_less(
            middle.last().0,
            cache.middle.last().0,
        ),
    ensures
        high.len() > 0 ==> !has_key(middle, high.first().0),
{
    let o = cache.low.len() as int;
    let m = cache.middle.len() as int;
    let all = cache.cached();
    lemma_ranges(cache, all);
    if high.len() > 0 {
        let last = cache.middle.last().0;
        if high == cache.high {
            reveal(sorted);
            assert(all[o + m] == high.first());
            assert(all[o + m - 1] == cache.middle.last());
            assert(key_less(last, high.first().0));
        } else {
            lemma_first_after(scanned, last, cache.high_capacity);
        }
        if middle.len() > 0 && middle.last() != cache.middle.last() {
            lemma_less_transitive(middle.last().0, last, high.first().0);
        }
        lemma_beyond_last(middle, high.first().0);
    }
}

/// When a row has been removed, the last row is the one that was last, or an earlier one.
proof fn lemma_removed_last(s: Seq<Entry>, key: Key)
    requires
        sorted(s),
        has_key(s, key),
    ensures
        sorted(rows_remove(s, key)),
        rows_remove(s, key) == s.remove(position(s, key)),
        rows_remove(s, key).len() > 0 ==> {
            let last = rows_remove(s, key).last();
            last == s.last() || key_less(last.0, s.last().0)
        },
{
    lemma_remove_sorted(s, key);
    lemma_position(s, key);
    reveal(sorted);
    let rest = rows_remove(s, key);
    if rest.len() > 0 {
        if position(s, key) == s.len() - 1 {
            assert(rest.last() == s[s.len() - 2]);
        } else {
            assert(rest.last() == s[s.len() - 1]);
        }
    }
}

#[verifier::spinoff_prover]
proof fn lemma_delete_middle_changes(
    cache: CacheView,
    key: Key,
    row: Seq<DatumValue>,
    scanned: Seq<Entry>,
)
    requires
        well_formed(cache),
        sorted(scanned),
        cache.range_of(key) == CacheRange::Middle,
        has_key(cache.middle, key),
        cache.middle[position(cache.middle, key)].1 == row,
    ensures
        applicable(bag_of_rows(cache.middle), delete_changes_with(cache, key, row, scanned)),
        apply_changes(
            bag_of_rows(cache.middle),
            delete_changes_with(cache, key, row, scanned),
        ) == bag_of_rows(after_delete_with(cache, key, scanned).middle),
{
    let o = cache.low.len() as int;
    let m = cache.middle.len() as int;
    let all = cache.cached();
    let rows = bag_of_rows(cache.middle);
    lemma_ranges(cache, all);
    lemma_sorted_parts(all, o);
    lemma_sorted_parts(all.skip(o), m);
    lemma_position(cache.middle, key);
    let p = position(cache.middle, key);
    let ready = if cache.high.len() == 0 {
        cache.filled(scanned, cache.middle.last().0, cache.high_capacity)
    } else {
        cache
    };
    let middle = rows_remove(cache.middle, key);
    let removed = CacheView { middle, ..ready };
    lemma_removed_last(cache.middle, key);
    lemma_bag_remove(cache.middle, p);
    lemma_refill_is_new(cache, middle, ready.high, scanned);
    lemma_refill_changes(removed);
    lemma_apply_one(rows, (Op::Delete, row));
    let first = seq![(Op::Delete, row)];
    lemma_apply_concat(rows, first, removed.refill_changes());
    assert(delete_changes_with(cache, key, row, scanned) =~= first + removed.refill_changes());
    assert(after_delete_with(cache, key, scanned) == removed.refilled());
}

proof fn lemma_delete_low_changes(
    cache: CacheView,
    key: Key,
    row: Seq<DatumValue>,
    scanned: Seq<Entry>,
)
    requires
        well_formed(cache),
        sorted(scanned),
        cache.range_of(key) == CacheRange::Low,
    ensures
        applicable(bag_of_rows(cache.middle), delete_changes_with(cache, key, row, scanned)),
        apply_changes(
            bag_of_rows(cache.middle),
            delete_changes_with(cache, key, row, scanned),
        ) == bag_of_rows(after_delete_with(cache, key, scanned).middle),
{
    let o = cache.low.len() as int;
    let m = cache.middle.len() as int;
    let all = cache.cached();
    let rows = bag_of_rows(cache.middle);
    let begun = cache.before_fill(key);
    lemma_ranges(cache, all);
    if m == 0 {
        assert(delete_changes_with(cache, key, row, scanned) =~= Seq::<Change>::empty());
    } else {
        lemma_sorted_parts(all, o);
        lemma_sorted_parts(all.skip(o), m);
        lemma_sorted_parts(cache.middle, 1);
        let middle = cache.middle.drop_first();
        assert(middle =~= cache.middle.skip(1));
        assert(middle =~= cache.middle.remove(0));
        lemma_bag_remove(cache.middle, 0);
        let ready = if cache.high.len() == 0 {
            begun.filled(scanned, begun.fill_start(), cache.high_capacity)
        } else {
            begun
        };
        if m > 1 {
            assert(middle.last() == cache.middle.last());
            lemma_refill_is_new(cache, middle, ready.high, scanned);
        }
        lemma_refill_changes(ready);
        lemma_apply_one(rows, (Op::Delete, cache.middle.first().1));
        let first = seq![(Op::Delete, cache.middle.first().1)];
        lemma_apply_concat(rows, first, ready.refill_changes());
        assert(delete_changes_with(cache, key, row, scanned) =~= first + ready.refill_changes());
        assert(after_delete_with(cache, key, scanned) == ready.refilled());
    }
}

/// The changes that a deletion records, applied to the rows of the middle range, give the rows that
/// the middle range holds afterwards, whatever the scan found that filled the high range.
pub proof fn law_delete_changes_are_exact(
    cache: CacheView,
    key: Key,
    row: Seq<DatumValue>,
    scanned: Seq<Entry>,
)
    requires
        well_formed(cache),
        sorted(scanned),
        cache.range_of(key) == CacheRange::Middle ==> has_key(cache.middle, key)
            && cache.middle[position(cache.middle, key)].1 == row,
    ensures
        applicable(bag_of_rows(cache.middle), delete_changes_with(cache, key, row, scanned)),
        apply_changes(
            bag_of_rows(cache.middle),
            delete_changes_with(cache, key, row, scanned),
        ) == bag_of_rows(after_delete_with(cache, key, scanned).middle),
{
    match cache.range_of(key) {
        CacheRange::High => {
            assert(delete_changes_with(cache, key, row, scanned) =~= Seq::<Change>::empty());
        },
        CacheRange::Middle => lemma_delete_middle_changes(cache, key, row, scanned),
        CacheRange::Low => lemma_delete_low_changes(cache, key, row, scanned),
    }
}

}
