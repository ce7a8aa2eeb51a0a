//! What insertions do in whatever order they come.

use vstd::prelude::*;

use crate::common::order::{lemma_compare_flip, lemma_less_transitive};
use crate::common::value::Change;
use crate::stream::top_n::cache::{CacheView, TOPN_CACHE_HIGH_CAPACITY_FACTOR};
use crate::stream::top_n::laws::{
    applicable, apply_changes, bag_of_rows, in_step, law_in_step_is_well_formed,
    law_insert_changes_are_exact, law_insert_keeps_step, lemma_apply_concat, lemma_ranges,
};
use crate::stream::top_n::rows::{
    has_key, lemma_insert_sorted, lemma_position, lemma_sorted_parts, position, rows_insert,
    sorted, Entry,
};

verus! {

/// The cache after `entries` have been inserted, one after the other.
pub open spec fn after_inserts(cache: CacheView, entries: Seq<Entry>) -> CacheView
    decreases entries.len(),
{
    if entries.len() == 0 {
        cache
    } else {
        after_inserts(cache, entries.drop_last()).after_insert(entries.last())
    }
}

/// What inserting `entries`, one after the other, changes in the middle range.
pub open spec fn inserts_changes(cache: CacheView, entries: Seq<Entry>) -> Seq<Change>
    decreases entries.len(),
{
    if entries.len() == 0 {
        seq![]
    } else {
        inserts_changes(cache, entries.drop_last()) + after_inserts(
            cache,
            entries.drop_last(),
        ).insert_changes(entries.last())
    }
}

/// `table` with `entries` inserted.
pub open spec fn table_with_rows(table: Seq<Entry>, entries: Seq<Entry>) -> Seq<Entry>
    decreases entries.len(),
{
    if entries.len() == 0 {
        table
    } else {
        rows_insert(table_with_rows(table, entries.drop_last()), entries.last())
    }
}

/// Whether the keys of `entries` are distinct and not those of rows of `table`.
pub open spec fn new_keys(table: Seq<Entry>, entries: Seq<Entry>) -> bool {
    &&& forall|i: int| 0 <= i < entries.len() ==> !has_key(table, (#[trigger] entries[i]).0)
    &&& forall|i: int, j: int|
        0 <= i < j < entries.len() ==> (#[trigger] entries[i]).0 != (#[trigger] entries[j]).0
}

/// Whether the cache is in step with `table` and holds as many of its rows as it has room for.
pub open spec fn topped_up(cache: CacheView, table: Seq<Entry>) -> bool {
    &&& in_step(cache, table)
    &&& cache.cached().len() == table.len() || cache.high.len() == cache.high_capacity
}

/// A new cache holds all rows of a table without rows.
pub proof fn law_new_cache_is_topped_up(offset: int, limit: int)
    requires
        0 <= offset,
        0 < limit,
    ensures
        topped_up(
            CacheView {
                low: seq![],
                middle: seq![],
                high: seq![],
                high_capacity: (offset + limit) * TOPN_CACHE_HIGH_CAPACITY_FACTOR,
                offset,
                limit,
            },
            seq![],
        ),
{
    reveal(sorted);
    let cache = CacheView {
        low: seq![],
        middle: seq![],
        high: seq![],
        high_capacity: (offset + limit) * TOPN_CACHE_HIGH_CAPACITY_FACTOR,
        offset,
        limit,
    };
    assert(cache.cached() =~= Seq::<Entry>::empty().take(0));
}

/// A row with a key that the table does not have stands in it once it is inserted, among the
/// others.
proof fn lemma_insert_counts(table: Seq<Entry>, entry: Entry)
    requires
        sorted(table),
        !has_key(table, entry.0),
    ensures
        rows_insert(table, entry).to_multiset() == table.to_multiset().insert(entry),
        forall|key: _| #[trigger]
            has_key(rows_insert(table, entry), key) ==> key == entry.0 || has_key(table, key),
{
    broadcast use vstd::seq_lib::group_to_multiset_ensures;

    lemma_position(table, entry.0);
    let p = position(table, entry.0);
    let t = rows_insert(table, entry);
    assert(t.remove(p) =~= table);
    assert(t[p] == entry);
    assert(t.contains(entry));
    assert(t.to_multiset() =~= t.to_multiset().remove(entry).insert(entry));
    assert forall|key: _| #[trigger] has_key(t, key) implies key == entry.0 || has_key(
        table,
        key,
    ) by {
        let i = choose|i: int| 0 <= i < t.len() && (#[trigger] t[i]).0 == key;
        if i < p {
            assert(table[i] == t[i]);
        } else if i > p {
            assert(table[i - 1] == t[i]);
        }
    }
}

proof fn lemma_inserts(cache: CacheView, table: Seq<Entry>, entries: Seq<Entry>)
    requires
        topped_up(cache, table),
        new_keys(table, entries),
    ensures
        ({
            let after = after_inserts(cache, entries);
            let all = table_with_rows(table, entries);
            &&& topped_up(after, all)
            &&& after.offset == cache.offset
            &&& after.limit == cache.limit
            &&& after.high_capacity == cache.high_capacity
            &&& all.to_multiset() == table.to_multiset().add(entries.to_multiset())
            &&& forall|key: _| #[trigger]
                has_key(all, key) ==> has_key(table, key) || has_key(entries, key)
            &&& applicable(bag_of_rows(cache.middle), inserts_changes(cache, entries))
            &&& apply_changes(bag_of_rows(cache.middle), inserts_changes(cache, entries))
                == bag_of_rows(after.middle)
        }),
    decreases entries.len(),
{
    broadcast use vstd::seq_lib::group_to_multiset_ensures;

    if entries.len() == 0 {
        assert(entries.to_multiset() =~= vstd::multiset::Multiset::empty());
        assert(table.to_multiset().add(entries.to_multiset()) =~= table.to_multiset());
    } else {
        let prior = entries.drop_last();
        let last = entries.last();
        assert(new_keys(table, prior));
        lemma_inserts(cache, table, prior);
        let before = after_inserts(cache, prior);
        let all = table_with_rows(table, prior);
        assert(!has_key(all, last.0)) by {
            if has_key(all, last.0) {
                assert(has_key(prior, last.0));
                let i = choose|i: int| 0 <= i < prior.len() && (#[trigger] prior[i]).0 == last.0;
                assert(entries[i].0 == last.0);
            }
        }
        lemma_position(all, last.0);
        lemma_insert_sorted(all, last);
        lemma_insert_counts(all, last);
        law_insert_keeps_step(before, all, last);
        law_in_step_is_well_formed(before, all);
        assert(!has_key(before.cached(), last.0)) by {
            if has_key(before.cached(), last.0) {
                let c = before.cached();
                let i = choose|i: int| 0 <= i < c.len() && (#[trigger] c[i]).0 == last.0;
                assert(all[i].0 == last.0);
            }
        }
        law_insert_changes_are_exact(before, last);
        lemma_apply_concat(
            bag_of_rows(cache.middle),
            inserts_changes(cache, prior),
            before.insert_changes(last),
        );
        assert(entries =~= prior.push(last));
        assert(entries.to_multiset() == prior.to_multiset().insert(last));
        assert(table.to_multiset().add(entries.to_multiset()) =~= table.to_multiset().add(
            prior.to_multiset(),
        ).insert(last));
        let whole = table_with_rows(table, entries);
        assert forall|key: _| #[trigger] has_key(whole, key) implies has_key(table, key) || has_key(
            entries,
            key,
        ) by {
            if key == last.0 {
                assert(entries[entries.len() - 1].0 == key);
            } else if !has_key(table, key) {
                assert(has_key(all, key));
                let i = choose|i: int| 0 <= i < prior.len() && (#[trigger] prior[i]).0 == key;
                assert(entries[i].0 == key);
            }
        }
    }
}

/// Two sorted sequences of the same entries are the same.
proof fn lemma_sorted_unique(s: Seq<Entry>, t: Seq<Entry>)
    requires
        sorted(s),
        sorted(t),
        s.to_multiset() == t.to_multiset(),
    ensures
        s == t,
    decreases s.len(),
{
    broadcast use vstd::seq_lib::group_to_multiset_ensures;

    assert(s.to_multiset().len() == s.len());
    assert(t.to_multiset().len() == t.len());
    if s.len() > 0 {
        let a = s.last();
        let b = t.last();
        assert(s.contains(a));
        assert(t.contains(b));
        assert(s.to_multiset().count(a) > 0);
        assert(t.to_multiset().count(b) > 0);
        assert(t.contains(a));
        assert(s.contains(b));
        if a != b {
            reveal(sorted);
            let i = choose|i: int| 0 <= i < t.len() && t[i] == a;
            let j = choose|j: int| 0 <= j < s.len() && s[j] == b;
            lemma_compare_flip(t[i].0, t[t.len() - 1].0);
            lemma_less_transitive(a.0, b.0, a.0);
            lemma_compare_flip(a.0, a.0);
        }
        lemma_sorted_parts(s, s.len() - 1);
        lemma_sorted_parts(t, t.len() - 1);
        assert(s.drop_last() =~= s.take(s.len() - 1));
        assert(t.drop_last() =~= t.take(t.len() - 1));
        assert(s.drop_last() =~= s.remove(s.len() - 1));
        assert(t.drop_last() =~= t.remove(t.len() - 1));
        lemma_sorted_unique(s.drop_last(), t.drop_last());
        assert(s =~= s.drop_last().push(a));
        assert(t =~= t.drop_last().push(b));
    } else {
        assert(s =~= t);
    }
}

/// The order in which new rows are inserted makes no difference: the ranges end up the same, and
/// what is recorded, applied to the rows of the middle range before, gives the same rows.
pub proof fn law_insertion_order_is_irrelevant(
    cache: CacheView,
    table: Seq<Entry>,
    entries: Seq<Entry>,
    others: Seq<Entry>,
)
    requires
        topped_up(cache, table),
        new_keys(table, entries),
        new_keys(table, others),
        entries.to_multiset() == others.to_multiset(),
    ensures
        after_inserts(cache, entries) == after_inserts(cache, others),
        applicable(bag_of_rows(cache.middle), inserts_changes(cache, entries)),
        applicable(bag_of_rows(cache.middle), inserts_changes(cache, others)),
        apply_changes(bag_of_rows(cache.middle), inserts_changes(cache, entries)) == bag_of_rows(
            after_inserts(cache, entries).middle,
        ),
        apply_changes(bag_of_rows(cache.middle), inserts_changes(cache, others)) == bag_of_rows(
            after_inserts(cache, entries).middle,
        ),
{
    lemma_inserts(cache, table, entries);
    lemma_inserts(cache, table, others);
    let all = table_with_rows(table, entries);
    lemma_sorted_unique(all, table_with_rows(table, others));
    let a = after_inserts(cache, entries);
    let b = after_inserts(cache, others);
    lemma_ranges(a, all);
    lemma_ranges(b, all);
    assert(a =~= b);
}

}
