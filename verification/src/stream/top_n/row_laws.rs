//! What rows by sort key hold after each operation.

use vstd::prelude::*;

use crate::common::order::{
    key_less, lemma_compare_equal, lemma_compare_flip, Key, OrderedRow,
};
use crate::common::value::Row;
use crate::stream::top_n::rows::{
    end_position, entries_of, first_n, has_key, lemma_insert_sorted, lemma_position,
    lemma_remove_sorted, lemma_rows_from_is_sorted, lemma_sorted_parts, position, rows_after,
    rows_from, rows_from_index, rows_insert, rows_remove, sorted, Entry,
};

verus! {

/// A list of keys and rows stands for these keys and rows, in their order.
pub proof fn law_entries_stand_for_keys_and_rows(entries: Seq<(OrderedRow, Row)>, i: int)
    requires
        0 <= i < entries.len(),
    ensures
        entries_of(entries).len() == entries.len(),
        entries_of(entries)[i].0 == entries[i].0@,
        entries_of(entries)[i].1 == entries[i].1@,
{
}

/// Rows are sorted where each comes before all that follow it.
pub proof fn law_sorted_rows(s: Seq<Entry>)
    ensures
        sorted(s) <==> forall|i: int, j: int|
            0 <= i < j < s.len() ==> key_less((#[trigger] s[i]).0, (#[trigger] s[j]).0),
{
    reveal(sorted);
}

/// A key is there where a row with that key is.
pub proof fn law_key_is_there_with_its_row(s: Seq<Entry>, key: Key)
    ensures
        has_key(s, key) <==> exists|entry: Entry| #[trigger] s.contains(entry) && entry.0 == key,
{
    if has_key(s, key) {
        let i = choose|i: int| 0 <= i < s.len() && (#[trigger] s[i]).0 == key;
        assert(s.contains(s[i]));
    }
    if exists|entry: Entry| #[trigger] s.contains(entry) && entry.0 == key {
        let entry = choose|entry: Entry| #[trigger] s.contains(entry) && entry.0 == key;
        let i = choose|i: int| 0 <= i < s.len() && s[i] == entry;
        assert(s[i].0 == key);
    }
}

/// In sorted rows each key is there once.
pub proof fn law_keys_are_there_once(s: Seq<Entry>, i: int, j: int)
    requires
        sorted(s),
        0 <= i < s.len(),
        0 <= j < s.len(),
        s[i].0 == s[j].0,
    ensures
        i == j,
{
    reveal(sorted);
    lemma_compare_equal(s[i].0, s[j].0);
    if i < j {
        assert(key_less(s[i].0, s[j].0));
    }
    if j < i {
        lemma_compare_equal(s[j].0, s[i].0);
        assert(key_less(s[j].0, s[i].0));
    }
}

/// Inserting a row puts it in its place: it is there afterwards, a row that had its key is not, and
/// every other row stays.
pub proof fn law_insert_puts_the_row(s: Seq<Entry>, entry: Entry)
    requires
        sorted(s),
    ensures
        sorted(rows_insert(s, entry)),
        forall|x: Entry| #[trigger]
            rows_insert(s, entry).contains(x) <==> x == entry || (s.contains(x) && x.0 != entry.0),
{
    let p = position(s, entry.0);
    let t = rows_insert(s, entry);
    lemma_position(s, entry.0);
    lemma_insert_sorted(s, entry);
    assert(t[p] == entry);
    assert forall|x: Entry| #[trigger] t.contains(x) implies x == entry || (s.contains(x) && x.0
        != entry.0) by {
        let i = choose|i: int| 0 <= i < t.len() && t[i] == x;
        if i != p {
            let j = if has_key(s, entry.0) || i < p {
                i
            } else {
                i - 1
            };
            assert(s[j] == x);
            if x.0 == entry.0 {
                assert(has_key(s, entry.0));
                law_keys_are_there_once(s, j, p);
            }
        }
    }
    assert forall|x: Entry| x == entry || (s.contains(x) && x.0 != entry.0) implies
        #[trigger] t.contains(x) by {
        if x != entry {
            let i = choose|i: int| 0 <= i < s.len() && s[i] == x;
            let j = if has_key(s, entry.0) || i < p {
                i
            } else {
                i + 1
            };
            assert(t[j] == x);
        }
    }
}

/// Removing a key takes its row out, and every other row stays.
pub proof fn law_remove_takes_the_row(s: Seq<Entry>, key: Key)
    requires
        sorted(s),
    ensures
        sorted(rows_remove(s, key)),
        forall|x: Entry| #[trigger]
            rows_remove(s, key).contains(x) <==> s.contains(x) && x.0 != key,
{
    let p = position(s, key);
    let t = rows_remove(s, key);
    lemma_position(s, key);
    lemma_remove_sorted(s, key);
    assert forall|x: Entry| #[trigger] t.contains(x) implies s.contains(x) && x.0 != key by {
        let i = choose|i: int| 0 <= i < t.len() && t[i] == x;
        if has_key(s, key) {
            let j = if i < p {
                i
            } else {
                i + 1
            };
            assert(s[j] == x);
            if x.0 == key {
                law_keys_are_there_once(s, j, p);
            }
        } else {
            assert(s[i] == x);
            if x.0 == key {
                assert(has_key(s, key));
            }
        }
    }
    assert forall|x: Entry| s.contains(x) && x.0 != key implies #[trigger] t.contains(x) by {
        let i = choose|i: int| 0 <= i < s.len() && s[i] == x;
        if has_key(s, key) {
            let j = if i < p {
                i
            } else {
                i - 1
            };
            assert(t[j] == x);
        } else {
            assert(t[i] == x);
        }
    }
}

/// Whether `entry` is the last one of `s` with its key.
pub open spec fn last_of_its_key(s: Seq<Entry>, entry: Entry) -> bool {
    exists|i: int|
        0 <= i < s.len() && #[trigger] s[i] == entry && forall|j: int|
            i < j < s.len() ==> (#[trigger] s[j]).0 != entry.0
}

/// Of rows that are inserted one after the other, the last one of each key is there, in its place.
pub proof fn law_last_row_of_a_key_stays(s: Seq<Entry>)
    ensures
        sorted(rows_from(s)),
        forall|x: Entry| #[trigger] rows_from(s).contains(x) <==> last_of_its_key(s, x),
    decreases s.len(),
{
    lemma_rows_from_is_sorted(s);
    if s.len() > 0 {
        let prior = s.drop_last();
        let last = s.last();
        law_last_row_of_a_key_stays(prior);
        law_insert_puts_the_row(rows_from(prior), last);
        assert forall|x: Entry| #[trigger] rows_from(s).contains(x) implies last_of_its_key(
            s,
            x,
        ) by {
            if x == last {
                assert(s[s.len() - 1] == x);
            } else {
                assert(rows_from(prior).contains(x));
                let i = choose|i: int|
                    0 <= i < prior.len() && #[trigger] prior[i] == x && forall|j: int|
                        i < j < prior.len() ==> (#[trigger] prior[j]).0 != x.0;
                assert(s[i] == x);
                assert forall|j: int| i < j < s.len() implies (#[trigger] s[j]).0 != x.0 by {
                    if j < prior.len() {
                        assert(prior[j].0 != x.0);
                    }
                }
            }
        }
        assert forall|x: Entry| last_of_its_key(s, x) implies #[trigger] rows_from(s).contains(
            x,
        ) by {
            let i = choose|i: int|
                0 <= i < s.len() && #[trigger] s[i] == x && forall|j: int|
                    i < j < s.len() ==> (#[trigger] s[j]).0 != x.0;
            if i < prior.len() {
                assert(s[s.len() - 1].0 != x.0);
                assert(prior[i] == x);
                assert forall|j: int| i < j < prior.len() implies (#[trigger] prior[j]).0 != x.0 by {
                    assert(s[j].0 != x.0);
                }
                assert(last_of_its_key(prior, x));
                assert(rows_from(prior).contains(x));
            }
        }
    }
}

/// The first rows of a sequence, and those that follow them.
pub proof fn law_parts_of_rows(s: Seq<Entry>, n: int, i: int)
    requires
        0 <= n,
        0 <= i < s.len(),
    ensures
        first_n(s, n).len() == if n < s.len() {
            n
        } else {
            s.len() as int
        },
        first_n(s, n).len() + rows_from_index(s, n).len() == s.len(),
        i < n ==> first_n(s, n)[i] == s[i],
        i >= n ==> rows_from_index(s, n)[i - n] == s[i],
{
}

/// The rows after a key are rows with a later key. There are no more than were asked for, and none
/// is left out but rows behind them where they are as many.
pub proof fn law_rows_after_a_key(s: Seq<Entry>, start: Key, limit: int)
    requires
        sorted(s),
        0 <= limit,
    ensures
        sorted(rows_after(s, start, limit)),
        rows_after(s, start, limit).len() <= limit,
        forall|x: Entry| #[trigger]
            rows_after(s, start, limit).contains(x) ==> s.contains(x) && key_less(start, x.0),
        forall|x: Entry| #[trigger]
            s.contains(x) && key_less(start, x.0) && !rows_after(s, start, limit).contains(x) ==> {
                &&& rows_after(s, start, limit).len() == limit
                &&& forall|y: Entry| #[trigger]
                    rows_after(s, start, limit).contains(y) ==> key_less(y.0, x.0)
            },
{
    let n = end_position(s, start);
    let beyond = s.skip(n);
    let r = rows_after(s, start, limit);
    lemma_position(s, start);
    lemma_sorted_parts(s, n);
    if limit < beyond.len() {
        lemma_sorted_parts(beyond, limit);
    }
    assert forall|x: Entry| #[trigger] r.contains(x) implies s.contains(x) && key_less(
        start,
        x.0,
    ) by {
        let i = choose|i: int| 0 <= i < r.len() && r[i] == x;
        assert(s[n + i] == x);
    }
    assert forall|x: Entry| #[trigger]
        s.contains(x) && key_less(start, x.0) && !r.contains(x) implies {
        &&& r.len() == limit
        &&& forall|y: Entry| #[trigger] r.contains(y) ==> key_less(y.0, x.0)
    } by {
        let i = choose|i: int| 0 <= i < s.len() && s[i] == x;
        lemma_compare_flip(start, x.0);
        lemma_compare_equal(start, x.0);
        assert(i >= n);
        assert(beyond[i - n] == x);
        if i - n < r.len() {
            assert(r[i - n] == x);
        }
        reveal(sorted);
        assert forall|y: Entry| #[trigger] r.contains(y) implies key_less(y.0, x.0) by {
            let j = choose|j: int| 0 <= j < r.len() && r[j] == y;
            assert(s[n + j] == y);
        }
    }
}

}
