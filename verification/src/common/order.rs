//! The order of sort keys.
//!
//! Null comes before every value, values of one type are in their natural order, and a column
//! that is sorted in descending order is compared the other way round. Keys are compared column
//! by column. The order is total: [`lemma_compare_equal`], [`lemma_compare_flip`] and
//! [`lemma_less_transitive`] say so.

use vstd::prelude::*;

use crate::common::value::{datum_value, Datum, DatumValue, Row, ScalarImpl, ScalarValue};

verus! {

/// The direction in which a column is sorted.
#[derive(Debug, Clone, Copy, PartialEq, Eq, Structural)]
pub enum OrderType {
    Ascending,
    Descending,
}

/// A column and the direction in which it is sorted.
#[derive(Debug, Clone, Copy, PartialEq, Eq, Structural)]
pub struct OrderPair {
    pub column_idx: usize,
    pub order_type: OrderType,
}

impl OrderPair {
    pub fn new(column_idx: usize, order_type: OrderType) -> (result: OrderPair)
        ensures
            result == (OrderPair { column_idx, order_type }),
    {
        OrderPair { column_idx, order_type }
    }
}

/// How a first value stands to a second.
#[derive(Debug, Clone, Copy, PartialEq, Eq, Structural)]
pub enum Comparison {
    Less,
    Equal,
    Greater,
}

impl Comparison {
    /// The same comparison seen from the second value.
    pub open spec fn flipped(self) -> Comparison {
        match self {
            Comparison::Less => Comparison::Greater,
            Comparison::Equal => Comparison::Equal,
            Comparison::Greater => Comparison::Less,
        }
    }
}

pub open spec fn compare_ints(a: int, b: int) -> Comparison {
    if a < b {
        Comparison::Less
    } else if a == b {
        Comparison::Equal
    } else {
        Comparison::Greater
    }
}

pub open spec fn compare_bytes(a: Seq<u8>, b: Seq<u8>) -> Comparison
    decreases a.len(),
{
    if a.len() == 0 || b.len() == 0 {
        compare_ints(a.len() as int, b.len() as int)
    } else if a[0] != b[0] {
        compare_ints(a[0] as int, b[0] as int)
    } else {
        compare_bytes(a.drop_first(), b.drop_first())
    }
}

/// The place of a type among the types: values of different types are in this order.
pub open spec fn type_rank(a: ScalarValue) -> int {
    match a {
        ScalarValue::Bool(_) => 0,
        ScalarValue::Int16(_) => 1,
        ScalarValue::Int32(_) => 2,
        ScalarValue::Int64(_) => 3,
        ScalarValue::Bytes(_) => 4,
    }
}

pub open spec fn bool_rank(b: bool) -> int {
    if b {
        1
    } else {
        0
    }
}

pub open spec fn compare_scalars(a: ScalarValue, b: ScalarValue) -> Comparison {
    match (a, b) {
        (ScalarValue::Bool(x), ScalarValue::Bool(y)) => compare_ints(bool_rank(x), bool_rank(y)),
        (ScalarValue::Int16(x), ScalarValue::Int16(y)) => compare_ints(x as int, y as int),
        (ScalarValue::Int32(x), ScalarValue::Int32(y)) => compare_ints(x as int, y as int),
        (ScalarValue::Int64(x), ScalarValue::Int64(y)) => compare_ints(x as int, y as int),
        (ScalarValue::Bytes(x), ScalarValue::Bytes(y)) => compare_bytes(x, y),
        _ => compare_ints(type_rank(a), type_rank(b)),
    }
}

pub open spec fn compare_data(a: DatumValue, b: DatumValue) -> Comparison {
    match (a, b) {
        (None, None) => Comparison::Equal,
        (None, Some(_)) => Comparison::Less,
        (Some(_), None) => Comparison::Greater,
        (Some(x), Some(y)) => compare_scalars(x, y),
    }
}

/// A datum of a sort key, with the direction in which its column is sorted.
#[derive(Debug, PartialEq, Eq)]
pub enum OrderedDatum {
    NormalOrder(Datum),
    ReversedOrder(Datum),
}

/// What an [`OrderedDatum`] stands for.
pub enum OrderedValue {
    Normal(DatumValue),
    Reversed(DatumValue),
}

impl View for OrderedDatum {
    type V = OrderedValue;

    open spec fn view(&self) -> OrderedValue {
        match *self {
            OrderedDatum::NormalOrder(datum) => OrderedValue::Normal(datum_value(datum)),
            OrderedDatum::ReversedOrder(datum) => OrderedValue::Reversed(datum_value(datum)),
        }
    }
}

pub open spec fn compare_ordered(a: OrderedValue, b: OrderedValue) -> Comparison {
    match (a, b) {
        (OrderedValue::Normal(x), OrderedValue::Normal(y)) => compare_data(x, y),
        (OrderedValue::Reversed(x), OrderedValue::Reversed(y)) => compare_data(y, x),
        (OrderedValue::Normal(_), OrderedValue::Reversed(_)) => Comparison::Less,
        (OrderedValue::Reversed(_), OrderedValue::Normal(_)) => Comparison::Greater,
    }
}

/// What a sort key stands for.
pub type Key = Seq<OrderedValue>;

/// Keys are compared by their first columns that differ; a key that ends first comes first.
#[verifier::opaque]
pub open spec fn compare_keys(a: Key, b: Key) -> Comparison
    decreases a.len(),
{
    if a.len() == 0 || b.len() == 0 {
        compare_ints(a.len() as int, b.len() as int)
    } else if compare_ordered(a[0], b[0]) != Comparison::Equal {
        compare_ordered(a[0], b[0])
    } else {
        compare_keys(a.drop_first(), b.drop_first())
    }
}

/// Whether `a` comes before `b`.
pub open spec fn key_less(a: Key, b: Key) -> bool {
    compare_keys(a, b) == Comparison::Less
}

pub open spec fn ordered_value(datum: DatumValue, order_type: OrderType) -> OrderedValue {
    match order_type {
        OrderType::Ascending => OrderedValue::Normal(datum),
        OrderType::Descending => OrderedValue::Reversed(datum),
    }
}

/// The key made of `row`, each of its columns sorted as `order_types` says.
pub open spec fn key_of(row: Seq<DatumValue>, order_types: Seq<OrderType>) -> Key {
    Seq::new(row.len(), |i: int| ordered_value(row[i], order_types[i]))
}

fn compare_exec_i64(a: i64, b: i64) -> (result: Comparison)
    ensures
        result == compare_ints(a as int, b as int),
{
    if a < b {
        Comparison::Less
    } else if a == b {
        Comparison::Equal
    } else {
        Comparison::Greater
    }
}

fn compare_exec_usize(a: usize, b: usize) -> (result: Comparison)
    ensures
        result == compare_ints(a as int, b as int),
{
    if a < b {
        Comparison::Less
    } else if a == b {
        Comparison::Equal
    } else {
        Comparison::Greater
    }
}

fn bool_rank_exec(b: bool) -> (result: i64)
    ensures
        result == bool_rank(b),
{
    if b {
        1
    } else {
        0
    }
}

fn compare_exec_bytes(a: &Vec<u8>, b: &Vec<u8>) -> (result: Comparison)
    ensures
        result == compare_bytes(a@, b@),
{
    let mut i: usize = 0;
    assert(a@.skip(0) =~= a@);
    assert(b@.skip(0) =~= b@);
    while i < a.len() && i < b.len()
        invariant
            i <= a.len(),
            i <= b.len(),
            compare_bytes(a@.skip(i as int), b@.skip(i as int)) == compare_bytes(a@, b@),
        decreases a.len() - i,
    {
        assert(a@.skip(i as int)[0] == a@[i as int]);
        assert(b@.skip(i as int)[0] == b@[i as int]);
        if a[i] != b[i] {
            return compare_exec_i64(a[i] as i64, b[i] as i64);
        }
        assert(a@.skip(i as int).drop_first() =~= a@.skip(i + 1));
        assert(b@.skip(i as int).drop_first() =~= b@.skip(i + 1));
        i = i + 1;
    }
    compare_exec_usize(a.len() - i, b.len() - i)
}

fn type_rank_exec(a: &ScalarImpl) -> (result: i64)
    ensures
        result == type_rank(a@),
{
    match a {
        ScalarImpl::Bool(_) => 0,
        ScalarImpl::Int16(_) => 1,
        ScalarImpl::Int32(_) => 2,
        ScalarImpl::Int64(_) => 3,
        ScalarImpl::Bytes(_) => 4,
    }
}

impl ScalarImpl {
    pub fn compare(&self, other: &ScalarImpl) -> (result: Comparison)
        ensures
            result == compare_scalars(self@, other@),
            match (*self, *other) {
                (ScalarImpl::Bool(x), ScalarImpl::Bool(y)) => {
                    &&& result == Comparison::Less <==> !x && y
                    &&& result == Comparison::Equal <==> x == y
                },
                (ScalarImpl::Int16(x), ScalarImpl::Int16(y)) => {
                    &&& result == Comparison::Less <==> x < y
                    &&& result == Comparison::Equal <==> x == y
                },
                (ScalarImpl::Int32(x), ScalarImpl::Int32(y)) => {
                    &&& result == Comparison::Less <==> x < y
                    &&& result == Comparison::Equal <==> x == y
                },
                (ScalarImpl::Int64(x), ScalarImpl::Int64(y)) => {
                    &&& result == Comparison::Less <==> x < y
                    &&& result == Comparison::Equal <==> x == y
                },
                _ => true,
            },
    {
        match (self, other) {
            (ScalarImpl::Bool(x), ScalarImpl::Bool(y)) => {
                compare_exec_i64(bool_rank_exec(*x), bool_rank_exec(*y))
            },
            (ScalarImpl::Int16(x), ScalarImpl::Int16(y)) => compare_exec_i64(*x as i64, *y as i64),
            (ScalarImpl::Int32(x), ScalarImpl::Int32(y)) => compare_exec_i64(*x as i64, *y as i64),
            (ScalarImpl::Int64(x), ScalarImpl::Int64(y)) => compare_exec_i64(*x, *y),
            (ScalarImpl::Bytes(x), ScalarImpl::Bytes(y)) => compare_exec_bytes(x, y),
            _ => compare_exec_i64(type_rank_exec(self), type_rank_exec(other)),
        }
    }
}

fn compare_exec_data(a: &Datum, b: &Datum) -> (result: Comparison)
    ensures
        result == compare_data(datum_value(*a), datum_value(*b)),
{
    match (a, b) {
        (None, None) => Comparison::Equal,
        (None, Some(_)) => Comparison::Less,
        (Some(_), None) => Comparison::Greater,
        (Some(x), Some(y)) => x.compare(y),
    }
}

impl OrderedDatum {
    pub fn compare(&self, other: &OrderedDatum) -> (result: Comparison)
        ensures
            result == compare_ordered(self@, other@),
    {
        match (self, other) {
            (OrderedDatum::NormalOrder(x), OrderedDatum::NormalOrder(y)) => compare_exec_data(x, y),
            (OrderedDatum::ReversedOrder(x), OrderedDatum::ReversedOrder(y)) => {
                compare_exec_data(y, x)
            },
            (OrderedDatum::NormalOrder(_), OrderedDatum::ReversedOrder(_)) => Comparison::Less,
            (OrderedDatum::ReversedOrder(_), OrderedDatum::NormalOrder(_)) => Comparison::Greater,
        }
    }
}

impl Clone for OrderedDatum {
    fn clone(&self) -> (result: Self)
        ensures
            result@ == self@,
    {
        match self {
            OrderedDatum::NormalOrder(datum) => {
                OrderedDatum::NormalOrder(crate::common::value::clone_datum(datum))
            },
            OrderedDatum::ReversedOrder(datum) => {
                OrderedDatum::ReversedOrder(crate::common::value::clone_datum(datum))
            },
        }
    }
}

/// A sort key.
#[derive(Debug, PartialEq, Eq)]
pub struct OrderedRow(pub Vec<OrderedDatum>);

impl View for OrderedRow {
    type V = Key;

    open spec fn view(&self) -> Key {
        self.0@.map_values(|datum: OrderedDatum| datum@)
    }
}

impl Clone for OrderedRow {
    fn clone(&self) -> (result: Self)
        ensures
            result@ == self@,
    {
        let mut data: Vec<OrderedDatum> = Vec::with_capacity(self.0.len());
        let mut i: usize = 0;
        while i < self.0.len()
            invariant
                i <= self.0.len(),
                data.len() == i,
                forall|j: int| 0 <= j < i ==> (#[trigger] data@[j])@ == self.0@[j]@,
            decreases self.0.len() - i,
        {
            data.push(self.0[i].clone());
            i = i + 1;
        }
        let result = OrderedRow(data);
        assert(result@ =~= self@);
        result
    }
}

impl OrderedRow {
    /// The key made of `row`, each of its columns sorted as `order_types` says.
    pub fn new(row: &Row, order_types: &Vec<OrderType>) -> (result: OrderedRow)
        requires
            row@.len() == order_types@.len(),
        ensures
            result@ == key_of(row@, order_types@),
            result@.len() == row@.len(),
            forall|i: int|
                0 <= i < row@.len() ==> #[trigger] result@[i] == match order_types@[i] {
                    OrderType::Ascending => OrderedValue::Normal(row@[i]),
                    OrderType::Descending => OrderedValue::Reversed(row@[i]),
                },
    {
        let mut data: Vec<OrderedDatum> = Vec::with_capacity(row.0.len());
        let mut i: usize = 0;
        while i < row.0.len()
            invariant
                i <= row.0.len(),
                row@.len() == order_types@.len(),
                data.len() == i,
                forall|j: int|
                    0 <= j < i ==> (#[trigger] data@[j])@ == ordered_value(row@[j], order_types@[j]),
            decreases row.0.len() - i,
        {
            let datum = crate::common::value::clone_datum(&row.0[i]);
            match order_types[i] {
                OrderType::Ascending => data.push(OrderedDatum::NormalOrder(datum)),
                OrderType::Descending => data.push(OrderedDatum::ReversedOrder(datum)),
            }
            i = i + 1;
        }
        let result = OrderedRow(data);
        assert(result@ =~= key_of(row@, order_types@));
        result
    }

    pub fn compare(&self, other: &OrderedRow) -> (result: Comparison)
        ensures
            result == compare_keys(self@, other@),
    {
        reveal(compare_keys);
        let mut i: usize = 0;
        assert(self@.skip(0) =~= self@);
        assert(other@.skip(0) =~= other@);
        while i < self.0.len() && i < other.0.len()
            invariant
                i <= self.0.len(),
                i <= other.0.len(),
                compare_keys(self@.skip(i as int), other@.skip(i as int)) == compare_keys(
                    self@,
                    other@,
                ),
            decreases self.0.len() - i,
        {
            reveal(compare_keys);
            assert(self@.skip(i as int)[0] == self@[i as int]);
            assert(other@.skip(i as int)[0] == other@[i as int]);
            let first = self.0[i].compare(&other.0[i]);
            if first != Comparison::Equal {
                return first;
            }
            assert(self@.skip(i as int).drop_first() =~= self@.skip(i + 1));
            assert(other@.skip(i as int).drop_first() =~= other@.skip(i + 1));
            i = i + 1;
        }
        compare_exec_usize(self.0.len() - i, other.0.len() - i)
    }
}

proof fn lemma_bytes_equal(a: Seq<u8>, b: Seq<u8>)
    ensures
        compare_bytes(a, b) == Comparison::Equal <==> a == b,
    decreases a.len(),
{
    if a.len() == 0 || b.len() == 0 {
        assert(a.len() == b.len() ==> a =~= b);
    } else if a[0] == b[0] {
        lemma_bytes_equal(a.drop_first(), b.drop_first());
        assert(a =~= seq![a[0]] + a.drop_first());
        assert(b =~= seq![b[0]] + b.drop_first());
    }
}

proof fn lemma_bytes_flip(a: Seq<u8>, b: Seq<u8>)
    ensures
        compare_bytes(b, a) == compare_bytes(a, b).flipped(),
    decreases a.len(),
{
    if a.len() > 0 && b.len() > 0 && a[0] == b[0] {
        lemma_bytes_flip(a.drop_first(), b.drop_first());
    }
}

proof fn lemma_bytes_transitive(a: Seq<u8>, b: Seq<u8>, c: Seq<u8>)
    requires
        compare_bytes(a, b) == Comparison::Less,
        compare_bytes(b, c) == Comparison::Less,
    ensures
        compare_bytes(a, c) == Comparison::Less,
    decreases a.len(),
{
    if a.len() > 0 && b.len() > 0 && c.len() > 0 && a[0] == b[0] && b[0] == c[0] {
        lemma_bytes_transitive(a.drop_first(), b.drop_first(), c.drop_first());
    }
}

pub proof fn lemma_ordered_equal(a: OrderedValue, b: OrderedValue)
    ensures
        compare_ordered(a, b) == Comparison::Equal <==> a == b,
{
    match (a, b) {
        (
            OrderedValue::Normal(Some(ScalarValue::Bytes(x))),
            OrderedValue::Normal(Some(ScalarValue::Bytes(y))),
        ) => lemma_bytes_equal(x, y),
        (
            OrderedValue::Reversed(Some(ScalarValue::Bytes(x))),
            OrderedValue::Reversed(Some(ScalarValue::Bytes(y))),
        ) => lemma_bytes_equal(y, x),
        _ => {},
    }
}

proof fn lemma_ordered_flip(a: OrderedValue, b: OrderedValue)
    ensures
        compare_ordered(b, a) == compare_ordered(a, b).flipped(),
{
    match (a, b) {
        (
            OrderedValue::Normal(Some(ScalarValue::Bytes(x))),
            OrderedValue::Normal(Some(ScalarValue::Bytes(y))),
        ) => lemma_bytes_flip(x, y),
        (
            OrderedValue::Reversed(Some(ScalarValue::Bytes(x))),
            OrderedValue::Reversed(Some(ScalarValue::Bytes(y))),
        ) => lemma_bytes_flip(x, y),
        _ => {},
    }
}

proof fn lemma_scalars_transitive(a: ScalarValue, b: ScalarValue, c: ScalarValue)
    requires
        compare_scalars(a, b) == Comparison::Less,
        compare_scalars(b, c) == Comparison::Less,
    ensures
        compare_scalars(a, c) == Comparison::Less,
{
    match (a, b, c) {
        (ScalarValue::Bytes(x), ScalarValue::Bytes(y), ScalarValue::Bytes(z)) => {
            lemma_bytes_transitive(x, y, z)
        },
        _ => {},
    }
}

proof fn lemma_data_transitive(a: DatumValue, b: DatumValue, c: DatumValue)
    requires
        compare_data(a, b) == Comparison::Less,
        compare_data(b, c) == Comparison::Less,
    ensures
        compare_data(a, c) == Comparison::Less,
{
    match (a, b, c) {
        (Some(x), Some(y), Some(z)) => lemma_scalars_transitive(x, y, z),
        _ => {},
    }
}

proof fn lemma_ordered_transitive(a: OrderedValue, b: OrderedValue, c: OrderedValue)
    requires
        compare_ordered(a, b) == Comparison::Less,
        compare_ordered(b, c) == Comparison::Less,
    ensures
        compare_ordered(a, c) == Comparison::Less,
{
    match (a, b, c) {
        (OrderedValue::Normal(x), OrderedValue::Normal(y), OrderedValue::Normal(z)) => {
            lemma_data_transitive(x, y, z)
        },
        (OrderedValue::Reversed(x), OrderedValue::Reversed(y), OrderedValue::Reversed(z)) => {
            lemma_data_transitive(z, y, x)
        },
        _ => {},
    }
}

/// Two keys compare as equal exactly where they are the same key.
pub proof fn lemma_compare_equal(a: Key, b: Key)
    ensures
        compare_keys(a, b) == Comparison::Equal <==> a == b,
    decreases a.len(),
{
    reveal(compare_keys);
    if a.len() == 0 || b.len() == 0 {
        assert(a.len() == b.len() ==> a =~= b);
    } else {
        lemma_ordered_equal(a[0], b[0]);
        if a[0] == b[0] {
            lemma_compare_equal(a.drop_first(), b.drop_first());
            assert(a =~= seq![a[0]] + a.drop_first());
            assert(b =~= seq![b[0]] + b.drop_first());
        }
    }
}

/// Comparing two keys the other way round gives the opposite answer: of two different keys one
/// comes first.
pub proof fn lemma_compare_flip(a: Key, b: Key)
    ensures
        compare_keys(b, a) == compare_keys(a, b).flipped(),
    decreases a.len(),
{
    reveal(compare_keys);
    if a.len() > 0 && b.len() > 0 {
        lemma_ordered_flip(a[0], b[0]);
        if compare_ordered(a[0], b[0]) == Comparison::Equal {
            lemma_compare_flip(a.drop_first(), b.drop_first());
        }
    }
}

/// What comes before a key comes before every key after it.
pub proof fn lemma_less_transitive(a: Key, b: Key, c: Key)
    requires
        key_less(a, b),
        key_less(b, c),
    ensures
        key_less(a, c),
    decreases a.len(),
{
    reveal(compare_keys);
    if a.len() > 0 && b.len() > 0 && c.len() > 0 {
        lemma_ordered_equal(a[0], b[0]);
        lemma_ordered_equal(b[0], c[0]);
        lemma_ordered_equal(a[0], c[0]);
        if a[0] == b[0] && b[0] == c[0] {
            lemma_less_transitive(a.drop_first(), b.drop_first(), c.drop_first());
        } else if a[0] != b[0] && b[0] != c[0] {
            lemma_ordered_transitive(a[0], b[0], c[0]);
        }
    }
}

}
