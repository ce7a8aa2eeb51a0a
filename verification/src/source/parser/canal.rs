//! NOTICE: This file describes not the official Canal format, but the `TiCDC` implementation, as
//! described in [the website](https://docs.pingcap.com/tidb/v6.0/ticdc-canal-json).

use serde_json::Value;
use vstd::prelude::*;
use vstd::std_specs::cmp::PartialEqSpecImpl;

use crate::source::parser::common::{
    protocol_error, protocol_error_about, same_text, ProtocolError, RowChange,
};

verus! {

pub const TICDC_INSERT_EVENT: &'static str = "INSERT";

pub const TICDC_UPDATE_EVENT: &'static str = "UPDATE";

pub const TICDC_DELETE_EVENT: &'static str = "DELETE";

pub const TICDC_QUERY_EVENT: &'static str = "QUERY";

/// A value of JSON, of the crate `serde_json`. It is carried through as it is.
#[verifier::external_type_specification]
#[verifier::external_body]
pub struct ExJsonValue(serde_json::Value);

/// Copying a value, by the `Clone` of `serde_json::Value`, which is derived. What is claimed: the
/// copy is the same value.
pub assume_specification[ <serde_json::Value as Clone>::clone ](
    value: &serde_json::Value,
) -> (result: serde_json::Value)
    ensures
        result == *value,
;

/// Whether two values are equal. It is coarser than sameness: numbers that differ only in the sign
/// of zero are equal.
pub uninterp spec fn json_equal(first: Value, second: Value) -> bool;

/// Compares two values, by the `PartialEq` of `serde_json::Value`. What is claimed: the outcome is
/// what [`json_equal`] says.
#[verifier::external_body]
fn json_equals(first: &Value, second: &Value) -> (result: bool)
    ensures
        result == json_equal(*first, *second),
{
    *first == *second
}

/// The columns of a row by name. No name occurs twice.
#[derive(Debug)]
pub struct JsonObject {
    fields: Vec<(String, Value)>,
}

/// Whether the field at `i` has the name `name`.
pub open spec fn named(fields: Seq<(String, Value)>, i: int, name: Seq<char>) -> bool {
    0 <= i < fields.len() && fields[i].0@ == name
}

pub open spec fn has_name(fields: Seq<(String, Value)>, name: Seq<char>) -> bool {
    exists|i: int| named(fields, i, name)
}

pub open spec fn value_of(fields: Seq<(String, Value)>, name: Seq<char>) -> Value {
    fields[choose|i: int| named(fields, i, name)].1
}

pub open spec fn distinct_names(fields: Seq<(String, Value)>) -> bool {
    forall|i: int, j: int|
        0 <= i < fields.len() && 0 <= j < fields.len() && fields[i].0@ == fields[j].0@ ==> i == j
}

/// The values of `fields` by name.
pub open spec fn fields_columns(fields: Seq<(String, Value)>) -> Map<Seq<char>, Value> {
    Map::new(|name: Seq<char>| has_name(fields, name), |name: Seq<char>| value_of(fields, name))
}

impl View for JsonObject {
    type V = Map<Seq<char>, Value>;

    closed spec fn view(&self) -> Map<Seq<char>, Value> {
        fields_columns(self.fields@)
    }
}

proof fn lemma_value_of(fields: Seq<(String, Value)>, i: int)
    requires
        distinct_names(fields),
        0 <= i < fields.len(),
    ensures
        has_name(fields, fields[i].0@),
        value_of(fields, fields[i].0@) == fields[i].1,
{
    let name = fields[i].0@;
    assert(named(fields, i, name));
    let j = choose|j: int| named(fields, j, name);
    assert(named(fields, j, name));
}

impl JsonObject {
    #[verifier::type_invariant]
    spec fn wf(self) -> bool {
        distinct_names(self.fields@)
    }

    pub fn new() -> (result: JsonObject)
        ensures
            result@ == Map::<Seq<char>, Value>::empty(),
    {
        let result = JsonObject { fields: Vec::new() };
        assert(result@ =~= Map::<Seq<char>, Value>::empty()) by {
            assert forall|name: Seq<char>| !has_name(result.fields@, name) by {
                if has_name(result.fields@, name) {
                    let i = choose|i: int| named(result.fields@, i, name);
                    assert(named(result.fields@, i, name));
                }
            }
        }
        result
    }

    /// The place of the column `name`, if there is one.
    fn find(&self, name: &str) -> (result: Option<usize>)
        ensures
            match result {
                Some(i) => named(self.fields@, i as int, name@),
                None => !has_name(self.fields@, name@),
            },
    {
        let mut i: usize = 0;
        while i < self.fields.len()
            invariant
                i <= self.fields@.len(),
                forall|j: int| 0 <= j < i ==> !named(self.fields@, j, name@),
            decreases self.fields.len() - i,
        {
            if same_text(self.fields[i].0.as_str(), name) {
                return Some(i);
            }
            i = i + 1;
        }
        None
    }

    /// The value of the column `name`, if there is one.
    pub fn get(&self, name: &str) -> (result: Option<&Value>)
        ensures
            match result {
                Some(value) => self@.contains_key(name@) && self@[name@] == *value,
                None => !self@.contains_key(name@),
            },
    {
        proof {
            use_type_invariant(self);
        }
        match self.find(name) {
            Some(i) => {
                proof {
                    lemma_value_of(self.fields@, i as int);
                }
                Some(&self.fields[i].1)
            },
            None => None,
        }
    }

    /// The columns and their values, in no particular order.
    pub fn into_fields(self) -> (result: Vec<(String, Value)>)
        ensures
            distinct_names(result@),
            fields_columns(result@) == self@,
    {
        proof {
            use_type_invariant(&self);
        }
        self.fields
    }

    /// The columns with `value` in the column `name`, in the place of what was there.
    pub fn with(self, name: String, value: Value) -> (result: JsonObject)
        ensures
            result@ == self@.insert(name@, value),
    {
        proof {
            use_type_invariant(&self);
        }
        let ghost before = self.fields@;
        let found = self.find(name.as_str());
        let mut fields = self.fields;
        match found {
            Some(i) => {
                fields.set(i, (name, value));
            },
            None => {
                assert forall|j: int| 0 <= j < before.len() implies before[j].0@ != name@ by {
                    assert(!named(before, j, name@));
                }
                fields.push((name, value));
            },
        }
        let ghost place: int = match found {
            Some(i) => i as int,
            None => before.len() as int,
        };
        assert(fields@[place] == (name, value));
        assert(forall|j: int| 0 <= j < before.len() && j != place ==> fields@[j] == before[j]);
        let result = JsonObject { fields };
        proof {
            let after = result.fields@;
            assert forall|other: Seq<char>| has_name(after, other) == (other == name@ || has_name(
                before,
                other,
            )) by {
                if has_name(after, other) {
                    let j = choose|j: int| named(after, j, other);
                    assert(named(after, j, other));
                    if j != place {
                        assert(named(before, j, other));
                    }
                }
                if other == name@ {
                    assert(named(after, place, other));
                } else if has_name(before, other) {
                    let j = choose|j: int| named(before, j, other);
                    assert(named(before, j, other));
                    assert(named(after, j, other));
                }
            }
            assert forall|other: Seq<char>| #[trigger] has_name(after, other) implies value_of(
                after,
                other,
            ) == if other == name@ {
                value
            } else {
                value_of(before, other)
            } by {
                if other == name@ {
                    lemma_value_of(after, place);
                } else {
                    let j = choose|j: int| named(after, j, other);
                    assert(named(after, j, other));
                    lemma_value_of(after, j);
                    lemma_value_of(before, j);
                }
            }
            assert(result@ =~= self@.insert(name@, value));
        }
        result
    }
}

impl Clone for JsonObject {
    fn clone(&self) -> (result: Self)
        ensures
            result@ == self@,
    {
        proof {
            use_type_invariant(self);
        }
        let mut fields: Vec<(String, Value)> = Vec::with_capacity(self.fields.len());
        let mut i: usize = 0;
        while i < self.fields.len()
            invariant
                i <= self.fields.len(),
                fields.len() == i,
                forall|j: int| 0 <= j < i ==> #[trigger] fields@[j] == self.fields@[j],
            decreases self.fields.len() - i,
        {
            fields.push((self.fields[i].0.clone(), self.fields[i].1.clone()));
            i = i + 1;
        }
        assert(fields@ =~= self.fields@);
        JsonObject { fields }
    }
}

/// Whether two rows have the same columns with equal values.
pub open spec fn equal_columns(first: Columns, second: Columns) -> bool {
    &&& first.dom() == second.dom()
    &&& forall|name: Seq<char>| #[trigger]
        first.contains_key(name) ==> json_equal(first[name], second[name])
}

impl PartialEqSpecImpl for JsonObject {
    open spec fn obeys_eq_spec() -> bool {
        true
    }

    open spec fn eq_spec(&self, other: &JsonObject) -> bool {
        equal_columns(self@, other@)
    }
}

impl PartialEq for JsonObject {
    fn eq(&self, other: &JsonObject) -> (result: bool) {
        proof {
            use_type_invariant(self);
            use_type_invariant(other);
        }
        let mut i: usize = 0;
        while i < self.fields.len()
            invariant
                i <= self.fields@.len(),
                distinct_names(self.fields@),
                forall|j: int|
                    0 <= j < i ==> {
                        let name = (#[trigger] self.fields@[j]).0@;
                        other@.contains_key(name) && json_equal(self@[name], other@[name])
                    },
            decreases self.fields.len() - i,
        {
            proof {
                lemma_value_of(self.fields@, i as int);
            }
            let same = match other.get(self.fields[i].0.as_str()) {
                Some(value) => json_equals(&self.fields[i].1, value),
                None => false,
            };
            if !same {
                assert(self@.contains_key(self.fields@[i as int].0@));
                return false;
            }
            i = i + 1;
        }
        let mut k: usize = 0;
        while k < other.fields.len()
            invariant
                k <= other.fields@.len(),
                distinct_names(other.fields@),
                forall|j: int|
                    0 <= j < k ==> self@.contains_key((#[trigger] other.fields@[j]).0@),
            decreases other.fields.len() - k,
        {
            if self.find(other.fields[k].0.as_str()).is_none() {
                proof {
                    lemma_value_of(other.fields@, k as int);
                    assert(other@.contains_key(other.fields@[k as int].0@));
                    assert(!self@.contains_key(other.fields@[k as int].0@));
                }
                return false;
            }
            k = k + 1;
        }
        proof {
            assert forall|name: Seq<char>| #[trigger] self@.contains_key(name) implies {
                &&& other@.contains_key(name)
                &&& json_equal(self@[name], other@[name])
            } by {
                let j = choose|j: int| named(self.fields@, j, name);
                assert(named(self.fields@, j, name));
                assert(self.fields@[j].0@ == name);
            }
            assert forall|name: Seq<char>| #[trigger] other@.contains_key(name) implies
                self@.contains_key(name) by {
                let j = choose|j: int| named(other.fields@, j, name);
                assert(named(other.fields@, j, name));
                assert(other.fields@[j].0@ == name);
            }
            assert(self@.dom() =~= other@.dom());
        }
        true
    }
}

/// An event of `TiCDC`.
#[derive(Debug, Default, Clone, PartialEq)]
pub struct CanalJsonEvent {
    /// The rows before the event: the field `old` of the message.
    pub before: Option<Vec<JsonObject>>,
    /// The rows after the event: the field `data` of the message.
    pub after: Option<Vec<JsonObject>>,
    /// What happened: the field `type` of the message.
    pub op: String,
    pub ts: u64,
}

/// The columns of a row by name.
pub type Columns = Map<Seq<char>, Value>;

/// What a list of rows stands for.
pub open spec fn rows_columns(rows: Option<Vec<JsonObject>>) -> Option<Seq<Columns>> {
    match rows {
        Some(rows) => Some(rows@.map_values(|row: JsonObject| row@)),
        None => None,
    }
}

/// The first row of a field of the message, or what is wrong with the field.
pub open spec fn first_row(
    rows: Option<Seq<Columns>>,
    missing: Seq<char>,
    empty: Seq<char>,
) -> Result<Columns, Seq<char>> {
    match rows {
        None => Err(missing),
        Some(rows) => if rows.len() == 0 {
            Err(empty)
        } else {
            Ok(rows[0])
        },
    }
}

pub open spec fn first_before(before: Option<Seq<Columns>>) -> Result<Columns, Seq<char>> {
    first_row(before, "old is missing for delete event"@, "old field is empty"@)
}

pub open spec fn first_after(after: Option<Seq<Columns>>) -> Result<Columns, Seq<char>> {
    first_row(after, "data is missing for delete event"@, "data field is empty"@)
}

/// What an event does to a row, or what is wrong with the event. Of the rows before and after, the
/// first ones count.
pub open spec fn canal_change(
    op: Seq<char>,
    before: Option<Seq<Columns>>,
    after: Option<Seq<Columns>>,
) -> Result<RowChange<Columns>, Seq<char>> {
    if op == TICDC_DELETE_EVENT@ {
        match first_before(before) {
            Ok(row) => Ok(RowChange::Delete(row)),
            Err(message) => Err(message),
        }
    } else if op == TICDC_INSERT_EVENT@ {
        match first_after(after) {
            Ok(row) => Ok(RowChange::Insert(row)),
            Err(message) => Err(message),
        }
    } else if op == TICDC_UPDATE_EVENT@ {
        match (first_before(before), first_after(after)) {
            (Ok(old_row), Ok(new_row)) => Ok(RowChange::Update { before: old_row, after: new_row }),
            (Err(message), _) => Err(message),
            (_, Err(message)) => Err(message),
        }
    } else if op == TICDC_QUERY_EVENT@ {
        Err("received a query message, please set `canal.instance.filter.query.dml` to true."@)
    } else {
        Err("unknown canal json op: "@ + op)
    }
}

/// What a change of records stands for.
pub open spec fn change_columns(change: RowChange<&JsonObject>) -> RowChange<Columns> {
    match change {
        RowChange::Insert(row) => RowChange::Insert(row@),
        RowChange::Delete(row) => RowChange::Delete(row@),
        RowChange::Update { before, after } => RowChange::Update { before: before@, after: after@ },
    }
}

fn check_first_row<'a>(
    rows: &'a Option<Vec<JsonObject>>,
    missing: &str,
    empty: &str,
) -> (result: Result<&'a JsonObject, ProtocolError>)
    ensures
        match result {
            Ok(row) => first_row(rows_columns(*rows), missing@, empty@) == Ok::<Columns, Seq<char>>(
                row@,
            ),
            Err(error) => first_row(rows_columns(*rows), missing@, empty@) == Err::<
                Columns,
                Seq<char>,
            >(error@),
        },
{
    match rows {
        None => Err(protocol_error(missing)),
        Some(list) => {
            if list.len() == 0 {
                Err(protocol_error(empty))
            } else {
                Ok(&list[0])
            }
        },
    }
}

/// Parses events of `TiCDC`.
#[derive(Debug)]
pub struct CanalJsonParser;

impl CanalJsonParser {
    /// What `event` does to a row. The columns of the row are read from its records with
    /// [`JsonObject::get`].
    pub fn parse<'a>(&self, event: &'a CanalJsonEvent) -> (result: Result<
        RowChange<&'a JsonObject>,
        ProtocolError,
    >)
        ensures
            match result {
                Ok(change) => canal_change(
                    event.op@,
                    rows_columns(event.before),
                    rows_columns(event.after),
                ) == Ok::<RowChange<Columns>, Seq<char>>(change_columns(change)),
                Err(error) => canal_change(
                    event.op@,
                    rows_columns(event.before),
                    rows_columns(event.after),
                ) == Err::<RowChange<Columns>, Seq<char>>(error@),
            },
            event.op@ == "DELETE"@ && event.before is Some && event.before->0@.len() > 0 ==> {
                &&& result matches Ok(RowChange::Delete(row))
                &&& row@ == event.before->0@[0]@
            },
            event.op@ == "INSERT"@ && event.after is Some && event.after->0@.len() > 0 ==> {
                &&& result matches Ok(RowChange::Insert(row))
                &&& row@ == event.after->0@[0]@
            },
            event.op@ == "UPDATE"@ && event.before is Some && event.before->0@.len() > 0
                && event.after is Some && event.after->0@.len() > 0 ==> {
                &&& result matches Ok(RowChange::Update { before, after })
                &&& before@ == event.before->0@[0]@
                &&& after@ == event.after->0@[0]@
            },
            event.op@ != "INSERT"@ && event.op@ != "DELETE"@ && event.op@ != "UPDATE"@ ==> result
                is Err,
    {
        proof {
            lemma_ops_distinct();
        }
        let op = event.op.as_str();
        if same_text(op, TICDC_DELETE_EVENT) {
            match check_first_row(
                &event.before,
                "old is missing for delete event",
                "old field is empty",
            ) {
                Ok(row) => Ok(RowChange::Delete(row)),
                Err(error) => Err(error),
            }
        } else if same_text(op, TICDC_INSERT_EVENT) {
            match check_first_row(
                &event.after,
                "data is missing for delete event",
                "data field is empty",
            ) {
                Ok(row) => Ok(RowChange::Insert(row)),
                Err(error) => Err(error),
            }
        } else if same_text(op, TICDC_UPDATE_EVENT) {
            let before = match check_first_row(
                &event.before,
                "old is missing for delete event",
                "old field is empty",
            ) {
                Ok(row) => row,
                Err(error) => {
                    return Err(error);
                },
            };
            let after = match check_first_row(
                &event.after,
                "data is missing for delete event",
                "data field is empty",
            ) {
                Ok(row) => row,
                Err(error) => {
                    return Err(error);
                },
            };
            Ok(RowChange::Update { before, after })
        } else if same_text(op, TICDC_QUERY_EVENT) {
            Err(
                protocol_error(
                    "received a query message, please set `canal.instance.filter.query.dml` to true.",
                ),
            )
        } else {
            Err(protocol_error_about("unknown canal json op: ", op))
        }
    }
}

/// A deletion deletes the first of the rows before, whatever its columns are and whatever stands in
/// the rows after. Without rows before it fails.
pub proof fn law_delete_event(before: Option<Seq<Columns>>, after: Option<Seq<Columns>>)
    ensures
        before is Some && before->0.len() > 0 ==> canal_change("DELETE"@, before, after) == Ok::<
            RowChange<Columns>,
            Seq<char>,
        >(RowChange::Delete(before->0[0])),
        before is None ==> canal_change("DELETE"@, before, after) == Err::<
            RowChange<Columns>,
            Seq<char>,
        >("old is missing for delete event"@),
        before is Some && before->0.len() == 0 ==> canal_change("DELETE"@, before, after) == Err::<
            RowChange<Columns>,
            Seq<char>,
        >("old field is empty"@),
{
}

/// An insertion inserts the first of the rows after, whatever its columns are and whatever stands in
/// the rows before. Without rows after it fails.
pub proof fn law_insert_event(before: Option<Seq<Columns>>, after: Option<Seq<Columns>>)
    ensures
        after is Some && after->0.len() > 0 ==> canal_change("INSERT"@, before, after) == Ok::<
            RowChange<Columns>,
            Seq<char>,
        >(RowChange::Insert(after->0[0])),
        after is None ==> canal_change("INSERT"@, before, after) == Err::<
            RowChange<Columns>,
            Seq<char>,
        >("data is missing for delete event"@),
        after is Some && after->0.len() == 0 ==> canal_change("INSERT"@, before, after) == Err::<
            RowChange<Columns>,
            Seq<char>,
        >("data field is empty"@),
{
    lemma_ops_distinct();
}

/// An update changes the first of the rows before to the first of the rows after, whatever their
/// columns are. It fails for what is wrong with the rows before, or else for what is wrong with
/// those after.
pub proof fn law_update_event(before: Option<Seq<Columns>>, after: Option<Seq<Columns>>)
    ensures
        ({
            let result = canal_change("UPDATE"@, before, after);
            let has_before = before is Some && before->0.len() > 0;
            &&& has_before && after is Some && after->0.len() > 0 ==> result == Ok::<
                RowChange<Columns>,
                Seq<char>,
            >(RowChange::Update { before: before->0[0], after: after->0[0] })
            &&& before is None ==> result == Err::<RowChange<Columns>, Seq<char>>(
                "old is missing for delete event"@,
            )
            &&& before is Some && before->0.len() == 0 ==> result == Err::<
                RowChange<Columns>,
                Seq<char>,
            >("old field is empty"@)
            &&& has_before && after is None ==> result == Err::<RowChange<Columns>, Seq<char>>(
                "data is missing for delete event"@,
            )
            &&& has_before && after is Some && after->0.len() == 0 ==> result == Err::<
                RowChange<Columns>,
                Seq<char>,
            >("data field is empty"@)
        }),
{
    lemma_ops_distinct();
}

/// A query, and every event of another kind, fails, whatever its rows are; the error names the kind.
pub proof fn law_other_events_fail(
    op: Seq<char>,
    before: Option<Seq<Columns>>,
    after: Option<Seq<Columns>>,
)
    ensures
        canal_change("QUERY"@, before, after) == Err::<RowChange<Columns>, Seq<char>>(
            "received a query message, please set `canal.instance.filter.query.dml` to true."@,
        ),
        op != "INSERT"@ && op != "DELETE"@ && op != "UPDATE"@ && op != "QUERY"@ ==> canal_change(
            op,
            before,
            after,
        ) == Err::<RowChange<Columns>, Seq<char>>("unknown canal json op: "@ + op),
{
    lemma_ops_distinct();
}

/// A list of rows stands for the columns of its rows, in their order, and a change of records for
/// the same change of their columns.
pub proof fn law_records_stand_for_their_columns(
    rows: Vec<JsonObject>,
    i: int,
    first: &JsonObject,
    second: &JsonObject,
)
    requires
        0 <= i < rows@.len(),
    ensures
        rows_columns(None) is None,
        rows_columns(Some(rows)) is Some,
        rows_columns(Some(rows))->0.len() == rows@.len(),
        rows_columns(Some(rows))->0[i] == rows@[i]@,
        change_columns(RowChange::Insert(first)) == RowChange::Insert(first@),
        change_columns(RowChange::Delete(first)) == RowChange::Delete(first@),
        change_columns(RowChange::Update { before: first, after: second }) == (RowChange::Update {
            before: first@,
            after: second@,
        }),
{
}

/// Where no name occurs twice, each field is found under its name, and no other name is.
pub proof fn law_fields_are_found_by_name(
    fields: Seq<(String, Value)>,
    i: int,
    name: Seq<char>,
)
    requires
        distinct_names(fields),
        0 <= i < fields.len(),
    ensures
        fields_columns(fields).contains_key(fields[i].0@),
        fields_columns(fields)[fields[i].0@] == fields[i].1,
        fields_columns(fields).contains_key(name) ==> exists|j: int|
            0 <= j < fields.len() && (#[trigger] fields[j]).0@ == name,
{
    lemma_value_of(fields, i);
    if fields_columns(fields).contains_key(name) {
        let j = choose|j: int| named(fields, j, name);
        assert(named(fields, j, name));
        assert(fields[j].0@ == name);
    }
}

/// Rows are equal where they have the same columns and each column has equal values.
pub proof fn law_equal_rows(first: Columns, second: Columns, name: Seq<char>)
    ensures
        equal_columns(first, second) ==> {
            &&& first.contains_key(name) <==> second.contains_key(name)
            &&& first.contains_key(name) ==> json_equal(first[name], second[name])
        },
        (forall|other: Seq<char>| #[trigger]
            first.contains_key(other) <==> second.contains_key(other)) && (forall|
            other: Seq<char>,
        | #[trigger]
            first.contains_key(other) ==> json_equal(first[other], second[other]))
            ==> equal_columns(first, second),
{
    if forall|other: Seq<char>| #[trigger]
        first.contains_key(other) <==> second.contains_key(other) {
        assert(first.dom() =~= second.dom());
    }
}

proof fn lemma_ops_distinct()
    ensures
        "INSERT"@ != "DELETE"@,
        "INSERT"@ != "UPDATE"@,
        "INSERT"@ != "QUERY"@,
        "DELETE"@ != "UPDATE"@,
        "DELETE"@ != "QUERY"@,
        "UPDATE"@ != "QUERY"@,
{
    reveal_strlit("DELETE");
    reveal_strlit("INSERT");
    reveal_strlit("UPDATE");
    reveal_strlit("QUERY");
    assert("DELETE"@[0] == 'D');
    assert("INSERT"@[0] == 'I');
    assert("UPDATE"@[0] == 'U');
    assert("QUERY"@[0] == 'Q');
}

/// An update changes a row exactly where a deletion would delete what was before and an insertion
/// would insert what is after. Where it does not, it fails as the deletion does, or else as the
/// insertion.
pub proof fn law_update_is_delete_and_insert(
    before: Option<Seq<Columns>>,
    after: Option<Seq<Columns>>,
)
    ensures
        canal_change(TICDC_UPDATE_EVENT@, before, after) == match (
            canal_change(TICDC_DELETE_EVENT@, before, after),
            canal_change(TICDC_INSERT_EVENT@, before, after),
        ) {
            (Ok(RowChange::Delete(old_row)), Ok(RowChange::Insert(new_row))) => Ok::<
                RowChange<Columns>,
                Seq<char>,
            >(RowChange::Update { before: old_row, after: new_row }),
            (Ok(_), insertion) => insertion,
            (deletion, _) => deletion,
        },
{
    lemma_ops_distinct();
}

}
