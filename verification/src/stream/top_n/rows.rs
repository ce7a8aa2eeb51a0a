//! Rows in the order of their sort keys.

use vstd::prelude::*;

use crate::common::order::{
    key_less, lemma_compare_equal, lemma_compare_flip, lemma_less_transitive, Comparison, Key,
    OrderedRow,
};
use crate::common::value::{DatumValue, Row};

verus! {

/// A sort key and the row that it belongs to.
pub type Entry = (Key, Seq<DatumValue>);

/// Whether every entry comes before all entries that follow it.
#[verifier::opaque]
pub open spec fn sorted(s: Seq<Entry>) -> bool {
    forall|i: int, j: int| 0 <= i < j < s.len() ==> key_less((#[trigger] s[i]).0, (#[trigger] s[j]).0)
}

pub open spec fn has_key(s: Seq<Entry>, key: Key) -> bool {
    exists|i: int| 0 <= i < s.len() && (#[trigger] s[i]).0 == key
}

/// How many entries of a sorted sequence come before `key`.
pub open spec fn position(s: Seq<Entry>, key: Key) -> int
    decreases s.len(),
{
    if s.len() == 0 {
        0
    } else if key_less(s.last().0, key) {
        s.len() as int
    } else {
        position(s.drop_last(), key)
    }
}

/// `s` with `entry` in its place; an entry with the same key is replaced.
pub open spec fn rows_insert(s: Seq<Entry>, entry: Entry) -> Seq<Entry> {
    if has_key(s, entry.0) {
        s.update(position(s, entry.0), entry)
    } else {
        s.insert(position(s, entry.0), entry)
    }
}

/// `s` without the entry of `key`, if there is one.
pub open spec fn rows_remove(s: Seq<Entry>, key: Key) -> Seq<Entry> {
    if has_key(s, key) {
        s.remove(position(s, key))
    } else {
        s
    }
}

/// The entries that `s` gives when they are inserted one after the other.
pub open spec fn rows_from(s: Seq<Entry>) -> Seq<Entry>
    decreases s.len(),
{
    if s.len() == 0 {
        seq![]
    } else {
        rows_insert(rows_from(s.drop_last()), s.last())
    }
}

/// How many entries of a sorted sequence do not come after `key`.
pub open spec fn end_position(s: Seq<Entry>, key: Key) -> int {
    if has_key(s, key) {
        position(s, key) + 1
    } else {
        position(s, key)
    }
}

/// At most the first `n` entries of `s`.
pub open spec fn first_n(s: Seq<Entry>, n: int) -> Seq<Entry> {
    if n < s.len() {
        s.take(n)
    } else {
        s
    }
}

/// The entries of `s` from index `n` on.
pub open spec fn rows_from_index(s: Seq<Entry>, n: int) -> Seq<Entry> {
    if n < s.len() {
        s.skip(n)
    } else {
        seq![]
    }
}

/// The first entries after `key`, at most `limit` of them.
pub open spec fn rows_after(s: Seq<Entry>, key: Key, limit: int) -> Seq<Entry> {
    first_n(s.skip(end_position(s, key)), limit)
}

/// What [`position`] says of a sorted sequence.
pub proof fn lemma_position(s: Seq<Entry>, key: Key)
    requires
        sorted(s),
    ensures
        0 <= position(s, key) <= s.len(),
        forall|i: int| 0 <= i < position(s, key) ==> key_less((#[trigger] s[i]).0, key),
        forall|i: int|
            position(s, key) < i < s.len() ==> key_less(key, (#[trigger] s[i]).0),
        has_key(s, key) <==> position(s, key) < s.len() && s[position(s, key)].0 == key,
        !has_key(s, key) && position(s, key) < s.len() ==> key_less(key, s[position(s, key)].0),
    decreases s.len(),
{
    reveal(sorted);
    if s.len() > 0 {
        let last = s.last().0;
        lemma_compare_equal(last, key);
        lemma_compare_flip(last, key);
        if key_less(last, key) {
            assert forall|i: int| 0 <= i < s.len() implies key_less((#[trigger] s[i]).0, key) by {
                if i < s.len() - 1 {
                    lemma_less_transitive(s[i].0, last, key);
                }
            }
            if has_key(s, key) {
                let i = choose|i: int| 0 <= i < s.len() && (#[trigger] s[i]).0 == key;
                lemma_compare_equal(key, key);
                assert(key_less(s[i].0, key));
            }
        } else {
            let t = s.drop_last();
            lemma_position(t, key);
            let p = position(t, key);
            assert(forall|i: int| 0 <= i < t.len() ==> (#[trigger] s[i]) == t[i]);
            if p == t.len() {
                assert(position(s, key) == s.len() - 1);
                if has_key(s, key) {
                    let i = choose|i: int| 0 <= i < s.len() && (#[trigger] s[i]).0 == key;
                    if i < t.len() {
                        assert(t[i].0 == key);
                    }
                    assert(s.last().0 == key);
                } else {
                    assert(s[s.len() - 1].0 != key);
                }
            } else {
                assert(key_less(t[p].0, last));
                assert(key_less(key, last)) by {
                    if t[p].0 != key {
                        lemma_less_transitive(key, t[p].0, last);
                    }
                }
                lemma_compare_equal(key, last);
                if has_key(s, key) {
                    let i = choose|i: int| 0 <= i < s.len() && (#[trigger] s[i]).0 == key;
                    assert(i < t.len());
                    assert(t[i].0 == key);
                }
                if has_key(t, key) {
                    assert(s[p].0 == key);
                }
            }
        }
    }
}

/// A place between what comes before `key` and what does not is the position of `key`.
pub proof fn lemma_position_is(s: Seq<Entry>, key: Key, p: int)
    requires
        sorted(s),
        0 <= p <= s.len(),
        p > 0 ==> key_less(s[p - 1].0, key),
        p < s.len() ==> !key_less(s[p].0, key),
    ensures
        position(s, key) == p,
{
    reveal(sorted);
    lemma_position(s, key);
    let q = position(s, key);
    if q < p {
        lemma_compare_flip(key, s[p - 1].0);
        if q < p - 1 {
            assert(key_less(key, s[p - 1].0));
        } else {
            if s[q].0 == key {
                lemma_compare_equal(key, key);
            }
        }
    }
    if p < q {
        assert(key_less(s[p].0, key));
    }
}

/// The parts of a sorted sequence are sorted.
pub proof fn lemma_sorted_parts(s: Seq<Entry>, n: int)
    requires
        sorted(s),
        0 <= n <= s.len(),
    ensures
        sorted(s.take(n)),
        sorted(s.skip(n)),
{
    reveal(sorted);
    assert(forall|i: int| 0 <= i < n ==> (#[trigger] s.take(n)[i]) == s[i]);
    assert(forall|i: int| 0 <= i < s.len() - n ==> (#[trigger] s.skip(n)[i]) == s[i + n]);
}

/// A sorted sequence stays sorted with an entry inserted.
pub proof fn lemma_insert_sorted(s: Seq<Entry>, entry: Entry)
    requires
        sorted(s),
    ensures
        sorted(rows_insert(s, entry)),
        rows_insert(s, entry).len() == if has_key(s, entry.0) {
            s.len()
        } else {
            s.len() + 1
        },
{
    reveal(sorted);
    lemma_position(s, entry.0);
    let p = position(s, entry.0);
    let t = rows_insert(s, entry);
    assert forall|i: int, j: int| 0 <= i < j < t.len() implies key_less(
        (#[trigger] t[i]).0,
        (#[trigger] t[j]).0,
    ) by {
        if has_key(s, entry.0) {
            assert(t[i].0 == s[i].0);
            assert(t[j].0 == s[j].0);
        } else {
            if i < p {
                assert(t[i] == s[i]);
            } else if i > p {
                assert(t[i] == s[i - 1]);
            }
            if j < p {
                assert(t[j] == s[j]);
            } else if j > p {
                assert(t[j] == s[j - 1]);
            }
        }
    }
}

/// A sorted sequence stays sorted with an entry removed.
pub proof fn lemma_remove_sorted(s: Seq<Entry>, key: Key)
    requires
        sorted(s),
    ensures
        sorted(rows_remove(s, key)),
        !has_key(rows_remove(s, key), key),
        rows_remove(s, key).len() == if has_key(s, key) {
            s.len() - 1
        } else {
            s.len() as int
        },
{
    reveal(sorted);
    lemma_position(s, key);
    let p = position(s, key);
    let t = rows_remove(s, key);
    assert(has_key(s, key) ==> forall|i: int|
        0 <= i < t.len() ==> (#[trigger] t[i]) == s[if i < p { i } else { i + 1 }]);
    if has_key(t, key) {
        let i = choose|i: int| 0 <= i < t.len() && (#[trigger] t[i]).0 == key;
        let j = if i < p { i } else { i + 1 };
        lemma_compare_equal(key, key);
        assert(s[j].0 == key);
    }
}

/// A scan that gives the rows of a table in order gives the table: inserting the entries of a
/// sorted sequence one after the other gives the sequence back.
pub proof fn law_ordered_scan_gives_the_table(s: Seq<Entry>)
    requires
        sorted(s),
    ensures
        rows_from(s) == s,
    decreases s.len(),
{
    reveal(sorted);
    if s.len() > 0 {
        let t = s.drop_last();
        law_ordered_scan_gives_the_table(t);
        lemma_position(t, s.last().0);
        lemma_position_is(t, s.last().0, t.len() as int);
        assert(t.insert(t.len() as int, s.last()) =~= s);
    }
    assert(rows_from(s) =~= s);
}

/// Inserting entries one after the other always gives a sorted sequence.
pub proof fn lemma_rows_from_is_sorted(s: Seq<Entry>)
    ensures
        sorted(rows_from(s)),
    decreases s.len(),
{
    reveal(sorted);
    if s.len() > 0 {
        lemma_rows_from_is_sorted(s.drop_last());
        lemma_insert_sorted(rows_from(s.drop_last()), s.last());
    }
}

/// The first rows after a key, at most `limit` of them, are all that a scan has to give: reading on
/// from them gives what reading on from the whole table gives.
pub proof fn law_limited_scan_suffices(table: Seq<Entry>, start: Key, limit: int)
    requires
        sorted(table),
        0 <= limit,
    ensures
        rows_after(rows_after(table, start, limit), start, limit) == rows_after(
            table,
            start,
            limit,
        ),
{
    let n = end_position(table, start);
    let beyond = table.skip(n);
    let part = rows_after(table, start, limit);
    lemma_position(table, start);
    lemma_sorted_parts(table, n);
    if limit < beyond.len() {
        lemma_sorted_parts(beyond, limit);
    }
    if part.len() > 0 {
        assert(part[0] == table[n]);
        assert(key_less(start, part[0].0));
        lemma_compare_flip(start, part[0].0);
        lemma_compare_equal(start, part[0].0);
    }
    lemma_position_is(part, start, 0);
    lemma_position(part, start);
    assert(part.skip(0) =~= part);
}

/// Rows by sort key, each key once, in the order of the keys.
#[derive(Debug, PartialEq, Eq)]
pub struct OrderedRows {
    entries: Vec<(OrderedRow, Row)>,
}

pub open spec fn entry_of(entry: (OrderedRow, Row)) -> Entry {
    (entry.0@, entry.1@)
}

/// What a list of keys and rows stands for.
pub open spec fn entries_of(entries: Seq<(OrderedRow, Row)>) -> Seq<Entry> {
    entries.map_values(|entry: (OrderedRow, Row)| entry_of(entry))
}

impl View for OrderedRows {
    type V = Seq<Entry>;

    closed spec fn view(&self) -> Seq<Entry> {
        entries_of(self.entries@)
    }
}

impl OrderedRows {
    pub open spec fn wf(self) -> bool {
        sorted(self@)
    }

    pub fn new() -> (result: OrderedRows)
        ensures
            result.wf(),
            result@ == Seq::<Entry>::empty(),
    {
        reveal(sorted);
        let result = OrderedRows { entries: Vec::new() };
        assert(result@ =~= Seq::<Entry>::empty());
        result
    }

    /// The rows that inserting `rows` one after the other gives.
    pub fn from_rows(rows: Vec<(OrderedRow, Row)>) -> (result: OrderedRows)
        ensures
            result.wf(),
            result@ == rows_from(entries_of(rows@)),
    {
        let mut rest = rows;
        let mut reversed: Vec<(OrderedRow, Row)> = Vec::new();
        let ghost all = entries_of(rows@);
        while rest.len() > 0
            invariant
                all.len() == rest@.len() + reversed@.len(),
                forall|i: int| 0 <= i < rest@.len() ==> entry_of(#[trigger] rest@[i]) == all[i],
                forall|i: int|
                    0 <= i < reversed@.len() ==> entry_of(#[trigger] reversed@[i]) == all[all.len() - 1 - i],
            decreases rest.len(),
        {
            match rest.pop() {
                Some(entry) => reversed.push(entry),
                None => {},
            }
        }
        let mut result = OrderedRows::new();
        assert(all.take(0) =~= Seq::<Entry>::empty());
        while reversed.len() > 0
            invariant
                reversed@.len() <= all.len(),
                forall|i: int|
                    0 <= i < reversed@.len() ==> entry_of(#[trigger] reversed@[i]) == all[all.len() - 1 - i],
                result.wf(),
                result@ == rows_from(all.take(all.len() - reversed@.len())),
            decreases reversed.len(),
        {
            let ghost n = all.len() - reversed@.len();
            match reversed.pop() {
                Some(entry) => {
                    assert(entry_of(entry) == all[n]);
                    assert(all.take(n + 1).drop_last() =~= all.take(n));
                    result.insert(entry.0, entry.1);
                },
                None => {},
            }
        }
        assert(all.take(all.len() as int) =~= all);
        result
    }

    pub fn len(&self) -> (result: usize)
        ensures
            result == self@.len(),
    {
        self.entries.len()
    }

    pub fn is_empty(&self) -> (result: bool)
        ensures
            result == (self@.len() == 0),
    {
        self.entries.len() == 0
    }

    /// The key at `index`.
    pub fn key_at(&self, index: usize) -> (result: &OrderedRow)
        requires
            index < self@.len(),
        ensures
            result@ == self@[index as int].0,
    {
        &self.entries[index].0
    }

    /// The row at `index`.
    pub fn row_at(&self, index: usize) -> (result: &Row)
        requires
            index < self@.len(),
        ensures
            result@ == self@[index as int].1,
    {
        &self.entries[index].1
    }

    /// How many rows come before `key`.
    fn lower_bound(&self, key: &OrderedRow) -> (result: usize)
        requires
            self.wf(),
        ensures
            result == position(self@, key@),
            result <= self@.len(),
    {
        let mut low: usize = 0;
        let mut high: usize = self.entries.len();
        proof {
            lemma_position(self@, key@);
        }
        while low < high
            invariant
                self.wf(),
                0 <= low <= position(self@, key@) <= high <= self@.len(),
            decreases high - low,
        {
            let mid: usize = low + (high - low) / 2;
            proof {
                lemma_position(self@, key@);
                let p = position(self@, key@);
                assert(self@[mid as int].0 == self.entries@[mid as int].0@);
                lemma_compare_flip(key@, self@[mid as int].0);
                lemma_compare_equal(key@, self@[mid as int].0);
            }
            match self.entries[mid].0.compare(key) {
                Comparison::Less => {
                    low = mid + 1;
                },
                _ => {
                    high = mid;
                },
            }
        }
        low
    }

    /// Whether the row at `index` has the key `key`.
    fn is_at(&self, index: usize, key: &OrderedRow) -> (result: bool)
        ensures
            result == (index < self@.len() && self@[index as int].0 == key@),
    {
        if index < self.entries.len() {
            proof {
                lemma_compare_equal(self@[index as int].0, key@);
            }
            match self.entries[index].0.compare(key) {
                Comparison::Equal => true,
                _ => false,
            }
        } else {
            false
        }
    }

    pub fn contains_key(&self, key: &OrderedRow) -> (result: bool)
        requires
            self.wf(),
        ensures
            result == has_key(self@, key@),
    {
        let index = self.lower_bound(key);
        proof {
            lemma_position(self@, key@);
        }
        self.is_at(index, key)
    }

    /// Puts `row` in the place of its key. A row with the same key is replaced.
    pub fn insert(&mut self, key: OrderedRow, row: Row)
        requires
            old(self).wf(),
        ensures
            final(self).wf(),
            final(self)@ == rows_insert(old(self)@, (key@, row@)),
    {
        let ghost s = self@;
        let index = self.lower_bound(&key);
        proof {
            lemma_position(s, key@);
            lemma_insert_sorted(s, (key@, row@));
        }
        if self.is_at(index, &key) {
            self.entries.remove(index);
            self.entries.insert(index, (key, row));
            assert(self@ =~= s.update(index as int, (key@, row@)));
        } else {
            self.entries.insert(index, (key, row));
            assert(self@ =~= s.insert(index as int, (key@, row@)));
        }
    }

    /// Takes the row of `key` out, if there is one.
    pub fn remove(&mut self, key: &OrderedRow)
        requires
            old(self).wf(),
        ensures
            final(self).wf(),
            final(self)@ == rows_remove(old(self)@, key@),
    {
        let ghost s = self@;
        let index = self.lower_bound(key);
        proof {
            lemma_position(s, key@);
            lemma_remove_sorted(s, key@);
        }
        if self.is_at(index, key) {
            self.entries.remove(index);
            assert(self@ =~= s.remove(index as int));
        }
    }

    /// The last key.
    pub fn last_key(&self) -> (result: Option<&OrderedRow>)
        ensures
            match result {
                Some(key) => self@.len() > 0 && key@ == self@.last().0,
                None => self@.len() == 0,
            },
    {
        if self.entries.len() == 0 {
            None
        } else {
            Some(&self.entries[self.entries.len() - 1].0)
        }
    }

    /// Takes the last row out.
    pub fn pop_last(&mut self) -> (result: Option<(OrderedRow, Row)>)
        requires
            old(self).wf(),
        ensures
            final(self).wf(),
            match result {
                Some(entry) => {
                    &&& old(self)@.len() > 0
                    &&& entry_of(entry) == old(self)@.last()
                    &&& final(self)@ == old(self)@.drop_last()
                },
                None => old(self)@.len() == 0 && final(self)@ == old(self)@,
            },
    {
        reveal(sorted);
        let ghost s = self@;
        let result = self.entries.pop();
        proof {
            if s.len() > 0 {
                assert(self@ =~= s.drop_last());
            } else {
                assert(self@ =~= s);
            }
        }
        result
    }

    /// Takes the first row out.
    pub fn pop_first(&mut self) -> (result: Option<(OrderedRow, Row)>)
        requires
            old(self).wf(),
        ensures
            final(self).wf(),
            match result {
                Some(entry) => {
                    &&& old(self)@.len() > 0
                    &&& entry_of(entry) == old(self)@.first()
                    &&& final(self)@ == old(self)@.drop_first()
                },
                None => old(self)@.len() == 0 && final(self)@ == old(self)@,
            },
    {
        reveal(sorted);
        let ghost s = self@;
        if self.entries.len() == 0 {
            None
        } else {
            let entry = self.entries.remove(0);
            assert(self@ =~= s.drop_first());
            Some(entry)
        }
    }

    /// Takes out the rows from `at` on and returns them.
    pub fn split_off(&mut self, at: usize) -> (result: OrderedRows)
        requires
            old(self).wf(),
        ensures
            final(self).wf(),
            result.wf(),
            final(self)@ == first_n(old(self)@, at as int),
            result@ == rows_from_index(old(self)@, at as int),
    {
        reveal(sorted);
        let ghost s = self@;
        if at < self.entries.len() {
            let tail = self.entries.split_off(at);
            let result = OrderedRows { entries: tail };
            assert(self@ =~= s.take(at as int));
            assert(result@ =~= s.skip(at as int));
            result
        } else {
            OrderedRows::new()
        }
    }

    /// The first rows after `key`, at most `limit` of them.
    pub fn rows_after(self, key: &OrderedRow, limit: usize) -> (result: OrderedRows)
        requires
            self.wf(),
        ensures
            result.wf(),
            result@ == rows_after(self@, key@, limit as int),
    {
        let ghost s = self@;
        let mut rows = self;
        let index = rows.lower_bound(key);
        proof {
            lemma_position(s, key@);
        }
        assert(s.len() == rows.entries.len());
        let end: usize = if rows.is_at(index, key) {
            index + 1
        } else {
            index
        };
        let mut result = rows.split_off(end);
        proof {
            if end == s.len() {
                assert(s.skip(end as int) =~= Seq::<Entry>::empty());
            }
        }
        let _rest = result.split_off(limit);
        result
    }
}

}
