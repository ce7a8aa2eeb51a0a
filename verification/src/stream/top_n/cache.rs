//! The in-memory cache of the rows around the window.

use vstd::prelude::*;

use crate::common::order::{key_less, Comparison, Key, OrderedRow};
use crate::common::order::{lemma_compare_equal, lemma_compare_flip};
use crate::common::value::{Change, DatumValue, Op, Row};
use crate::stream::top_n::rows::{
    first_n, has_key, lemma_insert_sorted, rows_after, rows_from_index, rows_insert,
    rows_remove, sorted, Entry, OrderedRows,
};

verus! {

pub const TOPN_CACHE_HIGH_CAPACITY_FACTOR: usize = 2;

/// The first rows of the sorted input, in three ranges.
#[derive(Debug)]
pub struct TopNCache {
    /// Rows in the range `[0, offset)`
    pub low: OrderedRows,
    /// Rows in the range `[offset, offset+limit)`
    pub middle: OrderedRows,
    /// Rows in the range `[offset+limit, offset+limit+high_capacity)`
    pub high: OrderedRows,
    pub high_capacity: usize,
    pub offset: usize,
    /// Assumption: `limit != 0`
    pub limit: usize,
}

/// What a [`TopNCache`] stands for.
#[verifier::ext_equal]
pub struct CacheView {
    pub low: Seq<Entry>,
    pub middle: Seq<Entry>,
    pub high: Seq<Entry>,
    pub high_capacity: int,
    pub offset: int,
    pub limit: int,
}

/// The three ranges of a [`TopNCache`].
#[derive(Debug, Clone, Copy, PartialEq, Eq, Structural)]
pub enum CacheRange {
    Low,
    Middle,
    High,
}

/// Whether a row with `key` takes a place in the full range `tier`: it does not come after the
/// last row there.
pub open spec fn displaces(tier: Seq<Entry>, key: Key) -> bool {
    tier.len() > 0 && !key_less(tier.last().0, key)
}

/// The full range `tier` after `entry` has been offered to it: if `entry` takes a place there, the
/// last row leaves.
pub open spec fn displaced(tier: Seq<Entry>, entry: Entry) -> Seq<Entry> {
    if displaces(tier, entry.0) {
        rows_insert(tier.drop_last(), entry)
    } else {
        tier
    }
}

/// What `entry`, offered to the full range `tier`, leaves to the next range: the row that left, or
/// else `entry`.
pub open spec fn passed_on(tier: Seq<Entry>, entry: Entry) -> Entry {
    if displaces(tier, entry.0) {
        tier.last()
    } else {
        entry
    }
}

/// What happens of each change.
pub open spec fn ops_of(changes: Seq<Change>) -> Seq<Op> {
    changes.map_values(|change: Change| change.0)
}

/// The row of each change.
pub open spec fn rows_of(changes: Seq<Change>) -> Seq<Seq<DatumValue>> {
    changes.map_values(|change: Change| change.1)
}

pub open spec fn row_values(rows: Seq<Row>) -> Seq<Seq<DatumValue>> {
    rows.map_values(|row: Row| row@)
}

impl CacheView {
    /// All cached rows, in order.
    pub open spec fn cached(self) -> Seq<Entry> {
        self.low + self.middle + self.high
    }

    pub open spec fn ordered(self) -> bool {
        sorted(self.low) && sorted(self.middle) && sorted(self.high)
    }

    /// The cache with the first rows of `table` in its ranges.
    pub open spec fn initialized(self, table: Seq<Entry>) -> CacheView {
        let beyond_low = rows_from_index(table, self.offset);
        let beyond_middle = rows_from_index(beyond_low, self.limit);
        CacheView {
            low: first_n(table, self.offset),
            middle: first_n(beyond_low, self.limit),
            high: first_n(beyond_middle, self.high_capacity),
            ..self
        }
    }

    /// A low range with room left is followed by nothing.
    pub open spec fn low_consistent(self) -> bool {
        &&& self.low.len() <= self.offset
        &&& self.low.len() != self.offset ==> self.middle.len() == 0 && self.high.len() == 0
    }

    /// A full middle range follows a full low range, and one with room left is followed by nothing.
    pub open spec fn middle_consistent(self) -> bool {
        &&& self.middle.len() <= self.limit
        &&& if self.middle.len() == self.limit {
            self.low_consistent() && self.low.len() == self.offset
        } else {
            self.high.len() == 0
        }
    }

    /// A full high range follows a full middle range.
    pub open spec fn high_consistent(self) -> bool {
        &&& self.high.len() <= self.high_capacity
        &&& self.high.len() == self.high_capacity ==> self.middle_consistent()
            && self.middle.len() == self.limit
    }

    /// Whether the fill levels stay consistent while `entry` is inserted. Inserting a key that is
    /// cached already can leave a full range one row short, which a full range behind it excludes.
    pub open spec fn accepts_insert(self, entry: Entry) -> bool {
        &&& self.low_consistent()
        &&& self.low.len() == self.offset ==> {
            let after_low = CacheView { low: displaced(self.low, entry), ..self };
            let second = passed_on(self.low, entry);
            &&& after_low.middle_consistent()
            &&& self.middle.len() == self.limit ==> {
                let after_middle = CacheView {
                    middle: displaced(self.middle, second),
                    ..after_low
                };
                &&& self.middle.len() > 0
                &&& after_middle.high_consistent()
                &&& self.high.len() == self.high_capacity ==> self.high.len() > 0
            }
        }
    }

    /// Whether a row with `key` comes behind all cached rows while the middle range has no room for
    /// it.
    pub open spec fn is_behind(self, key: Key) -> bool {
        &&& self.middle.len() == self.limit
        &&& self.cached().len() > 0
        &&& key_less(self.cached().last().0, key)
    }

    /// Whether no range has room for another row, so that an insertion drops a row or passes over
    /// the one that is inserted.
    pub open spec fn is_full(self) -> bool {
        &&& self.low.len() == self.offset
        &&& self.middle.len() == self.limit
        &&& self.high.len() == self.high_capacity
    }

    /// The cache after `entry` has been inserted: each range takes it or what the range before it
    /// passed on, the last one may drop a row.
    pub open spec fn after_insert(self, entry: Entry) -> CacheView {
        if self.low.len() != self.offset {
            CacheView { low: rows_insert(self.low, entry), ..self }
        } else {
            let low = displaced(self.low, entry);
            let second = passed_on(self.low, entry);
            if self.middle.len() != self.limit {
                CacheView { low, middle: rows_insert(self.middle, second), ..self }
            } else {
                let middle = displaced(self.middle, second);
                let third = passed_on(self.middle, second);
                let high = if self.high.len() != self.high_capacity {
                    rows_insert(self.high, third)
                } else {
                    displaced(self.high, third)
                };
                CacheView { low, middle, high, ..self }
            }
        }
    }

    /// What inserting `entry` changes in the middle range.
    pub open spec fn insert_changes(self, entry: Entry) -> Seq<Change> {
        let second = passed_on(self.low, entry);
        if self.low.len() != self.offset {
            seq![]
        } else if self.middle.len() != self.limit {
            seq![(Op::Insert, second.1)]
        } else if displaces(self.middle, second.0) {
            seq![(Op::Delete, self.middle.last().1), (Op::Insert, second.1)]
        } else {
            seq![]
        }
    }

    /// The range in which a row with `key` is looked for.
    pub open spec fn range_of(self, key: Key) -> CacheRange {
        if self.middle.len() == self.limit && key_less(self.middle.last().0, key) {
            CacheRange::High
        } else if self.low.len() == self.offset && (self.offset == 0 || key_less(
            self.low.last().0,
            key,
        )) {
            CacheRange::Middle
        } else {
            CacheRange::Low
        }
    }

    /// Whether the fill levels are consistent where they are looked at while `key` is deleted, and
    /// there is a row in the middle range where one is deleted there.
    pub open spec fn accepts_delete(self, key: Key) -> bool {
        &&& self.middle_consistent()
        &&& self.middle.len() == self.limit ==> self.middle.len() > 0
        &&& self.range_of(key) != CacheRange::High ==> self.low_consistent()
        &&& self.range_of(key) == CacheRange::Middle && self.high.len() == 0 ==> self.middle.len()
            > 0
    }

    /// Whether deleting `key` has to fill the high range first.
    pub open spec fn needs_fill(self, key: Key) -> bool {
        match self.range_of(key) {
            CacheRange::High => false,
            CacheRange::Middle => self.high.len() == 0,
            CacheRange::Low => self.middle.len() > 0 && self.high.len() == 0,
        }
    }

    /// The cache when a deletion of `key` comes to the point where the high range is looked at.
    pub open spec fn before_fill(self, key: Key) -> CacheView {
        match self.range_of(key) {
            CacheRange::High => CacheView { high: rows_remove(self.high, key), ..self },
            CacheRange::Middle => self,
            CacheRange::Low => if self.middle.len() > 0 {
                CacheView {
                    low: rows_insert(rows_remove(self.low, key), self.middle.first()),
                    middle: self.middle.drop_first(),
                    ..self
                }
            } else {
                CacheView { low: rows_remove(self.low, key), ..self }
            },
        }
    }

    /// The key after which the high range is filled: that of the last row before it.
    pub open spec fn fill_start(self) -> Key {
        if self.middle.len() > 0 {
            self.middle.last().0
        } else {
            self.low.last().0
        }
    }

    /// What a deletion of `key` has changed in the middle range up to that point.
    pub open spec fn changes_before_fill(self, key: Key) -> Seq<Change> {
        if self.range_of(key) == CacheRange::Low && self.middle.len() > 0 {
            seq![(Op::Delete, self.middle.first().1)]
        } else {
            seq![]
        }
    }

    /// The first row of the high range, if any, moved to the middle range.
    pub open spec fn refilled(self) -> CacheView {
        if self.high.len() > 0 {
            CacheView {
                middle: rows_insert(self.middle, self.high.first()),
                high: self.high.drop_first(),
                ..self
            }
        } else {
            self
        }
    }

    pub open spec fn refill_changes(self) -> Seq<Change> {
        if self.high.len() > 0 {
            seq![(Op::Insert, self.high.first().1)]
        } else {
            seq![]
        }
    }

    /// The cache after the rest of a deletion whose row is in the range `range`.
    pub open spec fn after_fill(self, range: CacheRange, key: Key) -> CacheView {
        match range {
            CacheRange::High => self,
            CacheRange::Middle => CacheView {
                middle: rows_remove(self.middle, key),
                ..self
            }.refilled(),
            CacheRange::Low => self.refilled(),
        }
    }

    /// What the rest of a deletion changes in the middle range.
    pub open spec fn changes_after_fill(self, range: CacheRange, row: Seq<DatumValue>) -> Seq<
        Change,
    > {
        match range {
            CacheRange::High => seq![],
            CacheRange::Middle => seq![(Op::Delete, row)] + self.refill_changes(),
            CacheRange::Low => self.refill_changes(),
        }
    }

    /// The cache with the first rows of `scanned` after `start` in its high range.
    pub open spec fn filled(self, scanned: Seq<Entry>, start: Key, limit: int) -> CacheView {
        CacheView { high: rows_after(scanned, start, limit), ..self }
    }

    /// The cache after `key` has been deleted without filling the high range.
    pub open spec fn after_delete(self, key: Key) -> CacheView {
        self.before_fill(key).after_fill(self.range_of(key), key)
    }

    /// What deleting the row `row` with `key` changes in the middle range.
    pub open spec fn delete_changes(self, key: Key, row: Seq<DatumValue>) -> Seq<Change> {
        self.changes_before_fill(key) + self.before_fill(key).changes_after_fill(
            self.range_of(key),
            row,
        )
    }
}

impl View for TopNCache {
    type V = CacheView;

    open spec fn view(&self) -> CacheView {
        CacheView {
            low: self.low@,
            middle: self.middle@,
            high: self.high@,
            high_capacity: self.high_capacity as int,
            offset: self.offset as int,
            limit: self.limit as int,
        }
    }
}

/// Whether `first` comes after `second`.
fn comes_after(first: &OrderedRow, second: &OrderedRow) -> (result: bool)
    ensures
        result == key_less(second@, first@),
{
    proof {
        lemma_compare_flip(first@, second@);
    }
    match first.compare(second) {
        Comparison::Greater => true,
        _ => false,
    }
}

/// Whether a row with `key` takes a place in the full range `tier`.
fn takes_place(tier: &OrderedRows, key: &OrderedRow) -> (result: bool)
    ensures
        result == displaces(tier@, key@),
{
    match tier.last_key() {
        Some(last) => !comes_after(key, last),
        None => false,
    }
}

/// Records a change.
fn record(op: Op, row: Row, res_ops: &mut Vec<Op>, res_rows: &mut Vec<Row>)
    ensures
        final(res_ops)@ == old(res_ops)@.push(op),
        row_values(final(res_rows)@) == row_values(old(res_rows)@).push(row@),
{
    res_ops.push(op);
    res_rows.push(row);
    assert(row_values(res_rows@) =~= row_values(old(res_rows)@).push(row@));
}

/// How many rows the full range `tier` has after `entry` has been offered to it.
proof fn lemma_displaced_len(tier: Seq<Entry>, entry: Entry)
    requires
        sorted(tier),
    ensures
        sorted(displaced(tier, entry)),
        displaced(tier, entry).len() == if displaces(tier, entry.0) && has_key(tier, entry.0)
            && tier.last().0 != entry.0 {
            tier.len() - 1
        } else {
            tier.len() as int
        },
{
    if displaces(tier, entry.0) {
        reveal(sorted);
        let rest = tier.drop_last();
        lemma_insert_sorted(rest, entry);
        if has_key(rest, entry.0) {
            let i = choose|i: int| 0 <= i < rest.len() && (#[trigger] rest[i]).0 == entry.0;
            assert(tier[i].0 == entry.0);
            assert(key_less(tier[i].0, tier.last().0));
            lemma_compare_equal(entry.0, entry.0);
        }
        if has_key(tier, entry.0) && tier.last().0 != entry.0 {
            let i = choose|i: int| 0 <= i < tier.len() && (#[trigger] tier[i]).0 == entry.0;
            assert(rest[i].0 == entry.0);
        }
    }
}

/// Whether the full range `tier` stays full when a row with `key` is offered to it.
fn stays_full(tier: &OrderedRows, key: &OrderedRow) -> (result: bool)
    requires
        tier.wf(),
    ensures
        forall|entry: Entry|
            entry.0 == key@ ==> result == ((#[trigger] displaced(tier@, entry)).len() == tier@.len()),
{
    proof {
        assert forall|entry: Entry| entry.0 == key@ implies (#[trigger] displaced(
            tier@,
            entry,
        )).len() == if displaces(tier@, key@) && has_key(tier@, key@) && tier@.last().0 != key@ {
            tier@.len() - 1
        } else {
            tier@.len() as int
        } by {
            lemma_displaced_len(tier@, entry);
        }
    }
    match tier.last_key() {
        Some(last) => {
            proof {
                lemma_compare_flip(key@, last@);
                lemma_compare_equal(key@, last@);
            }
            match key.compare(last) {
                Comparison::Less => !tier.contains_key(key),
                _ => true,
            }
        },
        None => true,
    }
}

/// A row that the cache asks the state table for: the first `limit` rows after `start_key`.
#[derive(Debug)]
pub struct FillRequest {
    pub start_key: OrderedRow,
    pub limit: usize,
    pub pending: PendingDelete,
}

/// The rest of a deletion that waits for the high range to be filled.
#[derive(Debug)]
pub enum PendingDelete {
    /// The row to delete is in the middle range.
    Middle { key: OrderedRow, row: Row },
    /// The row that was to be deleted was in the low range, and the first row of the middle range
    /// has taken a place there.
    Low,
}

/// How far a deletion has come.
#[derive(Debug)]
pub enum DeleteStep {
    /// It is complete.
    Done,
    /// The high range is empty: rows of the state table are needed to go on, by
    /// [`TopNCache::delete_filled`].
    Fill(FillRequest),
}

impl TopNCache {
    pub open spec fn ordered(self) -> bool {
        self.low.wf() && self.middle.wf() && self.high.wf()
    }

    pub fn new(offset: usize, limit: usize) -> (result: TopNCache)
        requires
            limit != 0,
            (offset + limit) * TOPN_CACHE_HIGH_CAPACITY_FACTOR <= usize::MAX,
        ensures
            result.ordered(),
            result@ == (CacheView {
                low: seq![],
                middle: seq![],
                high: seq![],
                high_capacity: (offset + limit) * TOPN_CACHE_HIGH_CAPACITY_FACTOR,
                offset: offset as int,
                limit: limit as int,
            }),
            result@.high_capacity == 2 * (offset + limit),
    {
        TopNCache {
            low: OrderedRows::new(),
            middle: OrderedRows::new(),
            high: OrderedRows::new(),
            high_capacity: (offset + limit) * TOPN_CACHE_HIGH_CAPACITY_FACTOR,
            offset,
            limit,
        }
    }

    /// Caches the first rows that a scan of the state table found, in the place of what is cached.
    pub fn init(&mut self, scanned: OrderedRows)
        requires
            scanned.wf(),
        ensures
            final(self).ordered(),
            final(self)@ == old(self)@.initialized(scanned@),
    {
        let mut low = scanned;
        let mut middle = low.split_off(self.offset);
        let mut high = middle.split_off(self.limit);
        let _rest = high.split_off(self.high_capacity);
        self.low = low;
        self.middle = middle;
        self.high = high;
    }

    pub fn is_low_cache_full(&self) -> (result: bool)
        requires
            self@.low_consistent(),
        ensures
            result == (self@.low.len() == self@.offset),
    {
        self.low.len() == self.offset
    }

    pub fn is_middle_cache_full(&self) -> (result: bool)
        requires
            self@.middle_consistent(),
        ensures
            result == (self@.middle.len() == self@.limit),
    {
        self.middle.len() == self.limit
    }

    pub fn is_high_cache_full(&self) -> (result: bool)
        requires
            self@.high_consistent(),
        ensures
            result == (self@.high.len() == self@.high_capacity),
    {
        self.high.len() == self.high_capacity
    }

    /// Whether [`insert`](TopNCache::insert) can take a row with `key`.
    pub fn accepts_insert(&self, key: &OrderedRow) -> (result: bool)
        requires
            self.ordered(),
        ensures
            forall|entry: Entry|
                entry.0 == key@ ==> result == #[trigger] self@.accepts_insert(entry),
    {
        if self.low.len() > self.offset {
            return false;
        }
        if self.low.len() < self.offset {
            return self.middle.is_empty() && self.high.is_empty();
        }
        let low_stays = stays_full(&self.low, key);
        if self.middle.len() > self.limit {
            return false;
        }
        if self.middle.len() < self.limit {
            return self.high.is_empty();
        }
        if !low_stays || self.middle.is_empty() || self.high.len() > self.high_capacity {
            return false;
        }
        let middle_stays = if takes_place(&self.low, key) {
            match self.low.last_key() {
                Some(last) => stays_full(&self.middle, last),
                None => true,
            }
        } else {
            stays_full(&self.middle, key)
        };
        self.high.len() < self.high_capacity || (middle_stays && !self.high.is_empty())
    }

    /// Whether a row with `key` comes behind all cached rows while the middle range has no room for
    /// it.
    pub fn is_behind(&self, key: &OrderedRow) -> (result: bool)
        ensures
            result == self@.is_behind(key@),
    {
        let found = match self.high.last_key() {
            Some(last) => Some(last),
            None => match self.middle.last_key() {
                Some(last) => Some(last),
                None => self.low.last_key(),
            },
        };
        match found {
            Some(last) => self.middle.len() == self.limit && comes_after(key, last),
            None => false,
        }
    }

    /// Whether no range has room for another row.
    pub fn is_full(&self) -> (result: bool)
        ensures
            result == self@.is_full(),
    {
        self.low.len() == self.offset && self.middle.len() == self.limit && self.high.len()
            == self.high_capacity
    }

    /// Insert input row to corresponding cache range according to its order key.
    ///
    /// Changes in `self.middle` is recorded to `res_ops` and `res_rows`, which will be
    /// used to generate messages to be sent to downstream operators.
    pub fn insert(
        &mut self,
        ordered_pk_row: OrderedRow,
        row: Row,
        res_ops: &mut Vec<Op>,
        res_rows: &mut Vec<Row>,
    )
        requires
            old(self).ordered(),
            old(self)@.accepts_insert((ordered_pk_row@, row@)),
        ensures
            final(self).ordered(),
            final(self)@ == old(self)@.after_insert((ordered_pk_row@, row@)),
            final(res_ops)@ == old(res_ops)@ + ops_of(
                old(self)@.insert_changes((ordered_pk_row@, row@)),
            ),
            row_values(final(res_rows)@) == row_values(old(res_rows)@) + rows_of(
                old(self)@.insert_changes((ordered_pk_row@, row@)),
            ),
    {
        let ghost entry = (ordered_pk_row@, row@);
        let ghost changes = self@.insert_changes(entry);
        if !self.is_low_cache_full() {
            self.low.insert(ordered_pk_row, row);
            assert(res_ops@ =~= old(res_ops)@ + ops_of(changes));
            assert(row_values(res_rows@) =~= row_values(old(res_rows)@) + rows_of(changes));
            return;
        }
        let (second_key, second_row) = if takes_place(&self.low, &ordered_pk_row) {
            // The last row of the low range makes room for the input row.
            match self.low.pop_last() {
                Some(last) => {
                    self.low.insert(ordered_pk_row, row);
                    last
                },
                None => (ordered_pk_row, row),
            }
        } else {
            (ordered_pk_row, row)
        };
        let ghost second = (second_key@, second_row@);
        assert(second == passed_on(old(self)@.low, entry));
        assert(self@ == (CacheView { low: displaced(old(self)@.low, entry), ..old(self)@ }));
        if !self.is_middle_cache_full() {
            self.middle.insert(second_key, second_row.clone());
            record(Op::Insert, second_row, res_ops, res_rows);
            assert(res_ops@ =~= old(res_ops)@ + ops_of(changes));
            assert(row_values(res_rows@) =~= row_values(old(res_rows)@) + rows_of(changes));
            return;
        }
        let (third_key, third_row) = if takes_place(&self.middle, &second_key) {
            // The row belongs to the middle range, whose last row moves to the high range.
            match self.middle.pop_last() {
                Some(last) => {
                    record(Op::Delete, last.1.clone(), res_ops, res_rows);
                    record(Op::Insert, second_row.clone(), res_ops, res_rows);
                    self.middle.insert(second_key, second_row);
                    last
                },
                None => (second_key, second_row),
            }
        } else {
            (second_key, second_row)
        };
        let ghost third = (third_key@, third_row@);
        assert(third == passed_on(old(self)@.middle, second));
        assert(res_ops@ =~= old(res_ops)@ + ops_of(changes));
        assert(row_values(res_rows@) =~= row_values(old(res_rows)@) + rows_of(changes));
        if !self.is_high_cache_full() {
            self.high.insert(third_key, third_row);
        } else if takes_place(&self.high, &third_key) {
            let _dropped = self.high.pop_last();
            self.high.insert(third_key, third_row);
        }
    }

    /// The range in which a row with `key` is looked for.
    fn find_range(&self, key: &OrderedRow) -> (result: CacheRange)
        requires
            self@.accepts_delete(key@),
        ensures
            result == self@.range_of(key@),
    {
        if self.is_middle_cache_full() {
            match self.middle.last_key() {
                Some(last) => {
                    if comes_after(key, last) {
                        return CacheRange::High;
                    }
                },
                None => {},
            }
        }
        if self.is_low_cache_full() {
            match self.low.last_key() {
                Some(last) => {
                    if comes_after(key, last) {
                        CacheRange::Middle
                    } else {
                        CacheRange::Low
                    }
                },
                None => CacheRange::Middle,
            }
        } else {
            CacheRange::Low
        }
    }

    /// Whether [`delete`](TopNCache::delete) can take `key`.
    pub fn accepts_delete(&self, key: &OrderedRow) -> (result: bool)
        ensures
            result == self@.accepts_delete(key@),
    {
        if self.middle.len() > self.limit {
            return false;
        }
        let low_consistent = self.low.len() == self.offset || (self.low.len() < self.offset
            && self.middle.is_empty() && self.high.is_empty());
        if self.middle.len() == self.limit {
            if self.low.len() != self.offset {
                return false;
            }
            match self.middle.last_key() {
                Some(last) => {
                    if comes_after(key, last) {
                        return true;
                    }
                },
                None => {
                    return false;
                },
            }
        } else if !self.high.is_empty() {
            return false;
        }
        if !low_consistent {
            return false;
        }
        let in_middle = if self.low.len() == self.offset {
            match self.low.last_key() {
                Some(last) => comes_after(key, last),
                None => true,
            }
        } else {
            false
        };
        !in_middle || !self.high.is_empty() || !self.middle.is_empty()
    }

    /// Brings one row, if any, from the high range to the middle range.
    fn refill(&mut self, res_ops: &mut Vec<Op>, res_rows: &mut Vec<Row>)
        requires
            old(self).ordered(),
        ensures
            final(self).ordered(),
            final(self)@ == old(self)@.refilled(),
            final(res_ops)@ == old(res_ops)@ + ops_of(old(self)@.refill_changes()),
            row_values(final(res_rows)@) == row_values(old(res_rows)@) + rows_of(
                old(self)@.refill_changes(),
            ),
    {
        let ghost changes = self@.refill_changes();
        match self.high.pop_first() {
            Some(first) => {
                record(Op::Insert, first.1.clone(), res_ops, res_rows);
                self.middle.insert(first.0, first.1);
            },
            None => {},
        }
        assert(res_ops@ =~= old(res_ops)@ + ops_of(changes));
        assert(row_values(res_rows@) =~= row_values(old(res_rows)@) + rows_of(changes));
    }

    /// Deletes the row of `key` from the middle range and brings one row, if any, from the high
    /// range there.
    fn finish_middle(
        &mut self,
        key: &OrderedRow,
        row: Row,
        res_ops: &mut Vec<Op>,
        res_rows: &mut Vec<Row>,
    )
        requires
            old(self).ordered(),
        ensures
            final(self).ordered(),
            final(self)@ == old(self)@.after_fill(CacheRange::Middle, key@),
            final(res_ops)@ == old(res_ops)@ + ops_of(
                old(self)@.changes_after_fill(CacheRange::Middle, row@),
            ),
            row_values(final(res_rows)@) == row_values(old(res_rows)@) + rows_of(
                old(self)@.changes_after_fill(CacheRange::Middle, row@),
            ),
    {
        let ghost changes = self@.changes_after_fill(CacheRange::Middle, row@);
        self.middle.remove(key);
        record(Op::Delete, row, res_ops, res_rows);
        self.refill(res_ops, res_rows);
        assert(res_ops@ =~= old(res_ops)@ + ops_of(changes));
        assert(row_values(res_rows@) =~= row_values(old(res_rows)@) + rows_of(changes));
    }

    /// Delete input row from the cache.
    ///
    /// Changes in `self.middle` is recorded to `res_ops` and `res_rows`, which will be
    /// used to generate messages to be sent to downstream operators.
    ///
    /// Because we may need to add data from the state table to `self.high` during the delete
    /// operation, the deletion may stop and ask for rows of the state table. It goes on with
    /// [`delete_filled`](TopNCache::delete_filled).
    pub fn delete(
        &mut self,
        ordered_pk_row: OrderedRow,
        row: Row,
        res_ops: &mut Vec<Op>,
        res_rows: &mut Vec<Row>,
    ) -> (result: DeleteStep)
        requires
            old(self).ordered(),
            old(self)@.accepts_delete(ordered_pk_row@),
        ensures
            final(self).ordered(),
            result is Fill <==> old(self)@.needs_fill(ordered_pk_row@),
            match result {
                DeleteStep::Done => {
                    let changes = old(self)@.delete_changes(ordered_pk_row@, row@);
                    &&& final(self)@ == old(self)@.after_delete(ordered_pk_row@)
                    &&& final(res_ops)@ == old(res_ops)@ + ops_of(changes)
                    &&& row_values(final(res_rows)@) == row_values(old(res_rows)@) + rows_of(
                        changes,
                    )
                },
                DeleteStep::Fill(request) => {
                    let changes = old(self)@.changes_before_fill(ordered_pk_row@);
                    &&& final(self)@ == old(self)@.before_fill(ordered_pk_row@)
                    &&& final(res_ops)@ == old(res_ops)@ + ops_of(changes)
                    &&& row_values(final(res_rows)@) == row_values(old(res_rows)@) + rows_of(
                        changes,
                    )
                    &&& final(self)@.high.len() == 0
                    &&& request.start_key@ == if final(self)@.middle.len() > 0 {
                        final(self)@.middle.last().0
                    } else {
                        final(self)@.low.last().0
                    }
                    &&& request.limit == old(self)@.high_capacity
                    &&& match request.pending {
                        PendingDelete::Middle { key, row: pending_row } => {
                            &&& old(self)@.range_of(ordered_pk_row@) == CacheRange::Middle
                            &&& key@ == ordered_pk_row@
                            &&& pending_row@ == row@
                        },
                        PendingDelete::Low => old(self)@.range_of(ordered_pk_row@)
                            == CacheRange::Low,
                    }
                },
            },
    {
        let ghost key = ordered_pk_row@;
        let ghost range = self@.range_of(key);
        let ghost changes = self@.delete_changes(key, row@);
        match self.find_range(&ordered_pk_row) {
            CacheRange::High => {
                self.high.remove(&ordered_pk_row);
                assert(res_ops@ =~= old(res_ops)@ + ops_of(changes));
                assert(row_values(res_rows@) =~= row_values(old(res_rows)@) + rows_of(changes));
                DeleteStep::Done
            },
            CacheRange::Middle => {
                assert(changes =~= self@.changes_after_fill(range, row@));
                if self.high.is_empty() {
                    match self.middle.last_key() {
                        Some(last) => {
                            let request = FillRequest {
                                start_key: last.clone(),
                                limit: self.high_capacity,
                                pending: PendingDelete::Middle { key: ordered_pk_row, row },
                            };
                            proof {
                                let none = old(self)@.changes_before_fill(key);
                                assert(res_ops@ =~= old(res_ops)@ + ops_of(none));
                                assert(row_values(res_rows@) =~= row_values(old(res_rows)@)
                                    + rows_of(none));
                            }
                            return DeleteStep::Fill(request);
                        },
                        None => {},
                    }
                }
                self.finish_middle(&ordered_pk_row, row, res_ops, res_rows);
                DeleteStep::Done
            },
            CacheRange::Low => {
                self.low.remove(&ordered_pk_row);
                match self.middle.pop_first() {
                    Some(first) => {
                        // One row moves from the middle range to the low range.
                        record(Op::Delete, first.1.clone(), res_ops, res_rows);
                        proof {
                            lemma_insert_sorted(self.low@, (first.0@, first.1@));
                        }
                        self.low.insert(first.0, first.1);
                        let ghost begun = old(self)@.changes_before_fill(key);
                        assert(res_ops@ =~= old(res_ops)@ + ops_of(begun));
                        assert(row_values(res_rows@) =~= row_values(old(res_rows)@) + rows_of(
                            begun,
                        ));
                        if self.high.is_empty() {
                            let found = match self.middle.last_key() {
                                Some(last) => Some(last),
                                None => self.low.last_key(),
                            };
                            match found {
                                Some(last) => {
                                    let request = FillRequest {
                                        start_key: last.clone(),
                                        limit: self.high_capacity,
                                        pending: PendingDelete::Low,
                                    };
                                    return DeleteStep::Fill(request);
                                },
                                None => {},
                            }
                        }
                        self.refill(res_ops, res_rows);
                        assert(res_ops@ =~= old(res_ops)@ + ops_of(changes));
                        assert(row_values(res_rows@) =~= row_values(old(res_rows)@) + rows_of(
                            changes,
                        ));
                    },
                    None => {
                        assert(res_ops@ =~= old(res_ops)@ + ops_of(changes));
                        assert(row_values(res_rows@) =~= row_values(old(res_rows)@) + rows_of(
                            changes,
                        ));
                    },
                }
                DeleteStep::Done
            },
        }
    }

    /// Goes on with a deletion, given the rows that a scan of the state table found: the first of
    /// them after `request.start_key`, at most `request.limit`, become the high range. The result
    /// says whether these were as many as were asked for.
    pub fn delete_filled(
        &mut self,
        request: FillRequest,
        scanned: OrderedRows,
        res_ops: &mut Vec<Op>,
        res_rows: &mut Vec<Row>,
    ) -> (result: bool)
        requires
            old(self).ordered(),
            scanned.wf(),
        ensures
            final(self).ordered(),
            ({
                let filled = old(self)@.filled(
                    scanned@,
                    request.start_key@,
                    request.limit as int,
                );
                let (range, key, row) = request.pending.target();
                let changes = filled.changes_after_fill(range, row);
                &&& result == (filled.high.len() == request.limit)
                &&& final(self)@ == filled.after_fill(range, key)
                &&& final(res_ops)@ == old(res_ops)@ + ops_of(changes)
                &&& row_values(final(res_rows)@) == row_values(old(res_rows)@) + rows_of(changes)
            }),
    {
        self.high = scanned.rows_after(&request.start_key, request.limit);
        let all_found = self.high.len() == request.limit;
        match request.pending {
            PendingDelete::Middle { key, row } => {
                self.finish_middle(&key, row, res_ops, res_rows);
            },
            PendingDelete::Low => {
                self.refill(res_ops, res_rows);
            },
        }
        all_found
    }
}

impl PendingDelete {
    /// The range of the row to delete, its key and the row itself.
    pub open spec fn target(self) -> (CacheRange, Key, Seq<DatumValue>) {
        match self {
            PendingDelete::Middle { key, row } => (CacheRange::Middle, key@, row@),
            PendingDelete::Low => (CacheRange::Low, seq![], seq![]),
        }
    }
}

}
