//! Events of Debezium, in JSON.

use simd_json::prelude::{TypedScalarValue, ValueAsScalar, ValueObjectAccess};
use simd_json::BorrowedValue;
use vstd::prelude::*;
use vstd::string::to_string_from_display_ensures;

use crate::source::parser::common::{
    protocol_error, protocol_error_about, same_text, ProtocolError, RowChange,
};

verus! {

pub const DEBEZIUM_READ_OP: &'static str = "r";

pub const DEBEZIUM_CREATE_OP: &'static str = "c";

pub const DEBEZIUM_UPDATE_OP: &'static str = "u";

pub const DEBEZIUM_DELETE_OP: &'static str = "d";

pub const BEFORE: &'static str = "before";

pub const AFTER: &'static str = "after";

pub const OP: &'static str = "op";

/// A value of JSON, of the crate `simd_json`. It borrows from the text that it was read from.
#[verifier::external_type_specification]
#[verifier::external_body]
pub struct ExBorrowedValue<'value>(simd_json::BorrowedValue<'value>);

/// What the crate `simd_json` finds wrong with a text.
#[verifier::external_type_specification]
#[verifier::external_body]
pub struct ExSimdJsonError(simd_json::Error);

/// Whether reading `text` as JSON can give `outcome`. It is a relation and not a function: of a
/// large object in which a name occurs twice, which of the two values is found under the name
/// depends on a hash function that is seeded anew in each process.
pub uninterp spec fn json_outcome(
    text: Seq<u8>,
    outcome: Result<BorrowedValue<'static>, simd_json::Error>,
) -> bool;

/// The fields of a value by name. Only an object has any.
pub uninterp spec fn json_fields(value: BorrowedValue<'static>) -> Map<
    Seq<char>,
    BorrowedValue<'static>,
>;

/// The text of a value, if it is a string.
pub uninterp spec fn json_text(value: BorrowedValue<'static>) -> Option<Seq<char>>;

/// Whether a value is null.
pub uninterp spec fn json_is_null(value: BorrowedValue<'static>) -> bool;

/// Reads `text` as JSON, by `simd_json::to_borrowed_value`, which takes the bytes before the call
/// as the text, and rewrites them to the strings that the value borrows. What is claimed: the
/// outcome is one that [`json_outcome`] allows for the text. Nothing is claimed of which texts are
/// JSON. The bound on the length keeps the sizes of its buffers, the largest of which has an element
/// for each byte of the text at most, within what can be allocated. A value is built by recursion,
/// so how deep a text may be nested is up to the stack.
#[verifier::external_body]
fn to_borrowed_value<'a>(text: &'a mut [u8]) -> (result: Result<
    BorrowedValue<'a>,
    simd_json::Error,
>)
    requires
        32 * old(text)@.len() + 256 <= isize::MAX,
    ensures
        json_outcome(old(text)@, result),
{
    simd_json::to_borrowed_value(text)
}

/// The field `name` of a value, by `ValueObjectAccess::get`, a trait of the crate `value-trait` that
/// `simd_json` implements for its values. What is claimed: the field is the one that [`json_fields`]
/// has under the name, and there is none where it has none.
#[verifier::external_body]
fn json_get<'a, 'b>(value: &'a BorrowedValue<'b>, name: &str) -> (result: Option<
    &'a BorrowedValue<'b>,
>)
    ensures
        match result {
            Some(field) => json_fields(*value).contains_key(name@) && json_fields(*value)[name@]
                == *field,
            None => !json_fields(*value).contains_key(name@),
        },
{
    value.get(name)
}

/// The text of a value, by `ValueAsScalar::as_str`, another such trait. What is claimed: it is what
/// [`json_text`] says.
#[verifier::external_body]
fn json_as_str<'a, 'b>(value: &'a BorrowedValue<'b>) -> (result: Option<&'a str>)
    ensures
        match result {
            Some(text) => json_text(*value) == Some(text@),
            None => json_text(*value) is None,
        },
{
    value.as_str()
}

/// Whether a value is null, by `TypedScalarValue::is_null`, another such trait. What is claimed: it
/// is what [`json_is_null`] says.
#[verifier::external_body]
fn json_null<'a, 'b>(value: &'a BorrowedValue<'b>) -> (result: bool)
    ensures
        result == json_is_null(*value),
{
    value.is_null()
}

/// The field `name` of `value`, if it is there and not null.
pub open spec fn present_field(value: BorrowedValue<'static>, name: Seq<char>) -> Option<
    BorrowedValue<'static>,
> {
    if json_fields(value).contains_key(name) && !json_is_null(json_fields(value)[name]) {
        Some(json_fields(value)[name])
    } else {
        None
    }
}

/// The text of the field `name` of `value`, if it is there and a string.
pub open spec fn text_field(value: BorrowedValue<'static>, name: Seq<char>) -> Option<Seq<char>> {
    if json_fields(value).contains_key(name) {
        json_text(json_fields(value)[name])
    } else {
        None
    }
}

/// What an event does to a row, or what is wrong with the event.
pub open spec fn debezium_change(payload: BorrowedValue<'static>) -> Result<
    RowChange<BorrowedValue<'static>>,
    Seq<char>,
> {
    let before = present_field(payload, BEFORE@);
    let after = present_field(payload, AFTER@);
    match text_field(payload, OP@) {
        None => Err("op field not found in maxwell json"@),
        Some(op) => if op == DEBEZIUM_UPDATE_OP@ {
            match (before, after) {
                (Some(before), Some(after)) => Ok(RowChange::Update { before, after }),
                (None, _) => Err(
                    "before is missing for updating event. If you are using postgres, you may want to try ALTER TABLE $TABLE_NAME REPLICA IDENTITY FULL;"@,
                ),
                (_, None) => Err("after is missing for updating event"@),
            }
        } else if op == DEBEZIUM_CREATE_OP@ || op == DEBEZIUM_READ_OP@ {
            match after {
                Some(after) => Ok(RowChange::Insert(after)),
                None => Err("after is missing for creating event"@),
            }
        } else if op == DEBEZIUM_DELETE_OP@ {
            match before {
                Some(before) => Ok(RowChange::Delete(before)),
                None => Err("before is missing for delete event"@),
            }
        } else {
            Err("unknown debezium op: "@ + op)
        },
    }
}

/// What a message does to a row, or what is wrong with the message. A message that includes its
/// schema holds the event in its field `payload`, another one is the event.
pub open spec fn message_change(
    including_schema: bool,
    message: BorrowedValue<'static>,
) -> Result<RowChange<BorrowedValue<'static>>, Seq<char>> {
    if including_schema {
        match present_field(message, "payload"@) {
            Some(payload) => debezium_change(payload),
            None => Err("no payload in debezium event"@),
        }
    } else {
        debezium_change(message)
    }
}

/// What a change of borrowed records stands for.
pub open spec fn change_values(change: RowChange<&BorrowedValue<'static>>) -> RowChange<
    BorrowedValue<'static>,
> {
    match change {
        RowChange::Insert(row) => RowChange::Insert(*row),
        RowChange::Delete(row) => RowChange::Delete(*row),
        RowChange::Update { before, after } => RowChange::Update { before: *before, after: *after },
    }
}

/// `value`, unless it is null.
fn ensure_not_null<'a, 'b>(value: &'a BorrowedValue<'b>) -> (result: Option<&'a BorrowedValue<'b>>)
    ensures
        result == if json_is_null(*value) {
            None
        } else {
            Some(value)
        },
{
    if json_null(value) {
        None
    } else {
        Some(value)
    }
}

/// The field `name` of `value`, if it is there and not null, or else the error `missing`.
fn require_field<'a, 'b>(value: &'a BorrowedValue<'b>, name: &str, missing: &str) -> (result: Result<
    &'a BorrowedValue<'b>,
    ProtocolError,
>)
    ensures
        match result {
            Ok(field) => present_field(*value, name@) == Some(*field),
            Err(error) => present_field(*value, name@) is None && error@ == missing@,
        },
{
    let field = match json_get(value, name) {
        Some(field) => ensure_not_null(field),
        None => None,
    };
    match field {
        Some(field) => Ok(field),
        None => Err(protocol_error(missing)),
    }
}

/// Parses messages of Debezium.
#[derive(Debug)]
pub struct DebeziumJsonParser {
    including_schema: bool,
}

impl DebeziumJsonParser {
    /// Whether the messages include their schema.
    pub closed spec fn includes_schema(self) -> bool {
        self.including_schema
    }

    pub fn new(including_schema: bool) -> (result: DebeziumJsonParser)
        ensures
            result.includes_schema() == including_schema,
    {
        DebeziumJsonParser { including_schema }
    }

    /// What the event `payload` does to a row.
    fn parse_payload<'a, 'b>(&self, payload: &'a BorrowedValue<'b>) -> (result: Result<
        RowChange<&'a BorrowedValue<'b>>,
        ProtocolError,
    >)
        ensures
            match result {
                Ok(change) => debezium_change(*payload) == Ok::<
                    RowChange<BorrowedValue<'static>>,
                    Seq<char>,
                >(change_values(change)),
                Err(error) => debezium_change(*payload) == Err::<
                    RowChange<BorrowedValue<'static>>,
                    Seq<char>,
                >(error@),
            },
    {
        let found = match json_get(payload, OP) {
            Some(field) => json_as_str(field),
            None => None,
        };
        let op = match found {
            Some(op) => op,
            None => {
                return Err(protocol_error("op field not found in maxwell json"));
            },
        };
        if same_text(op, DEBEZIUM_UPDATE_OP) {
            let before = match require_field(
                payload,
                BEFORE,
                "before is missing for updating event. If you are using postgres, you may want to try ALTER TABLE $TABLE_NAME REPLICA IDENTITY FULL;",
            ) {
                Ok(before) => before,
                Err(error) => {
                    return Err(error);
                },
            };
            match require_field(payload, AFTER, "after is missing for updating event") {
                Ok(after) => Ok(RowChange::Update { before, after }),
                Err(error) => Err(error),
            }
        } else if same_text(op, DEBEZIUM_CREATE_OP) || same_text(op, DEBEZIUM_READ_OP) {
            match require_field(payload, AFTER, "after is missing for creating event") {
                Ok(after) => Ok(RowChange::Insert(after)),
                Err(error) => Err(error),
            }
        } else if same_text(op, DEBEZIUM_DELETE_OP) {
            match require_field(payload, BEFORE, "before is missing for delete event") {
                Ok(before) => Ok(RowChange::Delete(before)),
                Err(error) => Err(error),
            }
        } else {
            Err(protocol_error_about("unknown debezium op: ", op))
        }
    }

    /// What `message` does to a row.
    pub fn parse_message<'a, 'b>(&self, message: &'a BorrowedValue<'b>) -> (result: Result<
        RowChange<&'a BorrowedValue<'b>>,
        ProtocolError,
    >)
        ensures
            match result {
                Ok(change) => message_change(self.includes_schema(), *message) == Ok::<
                    RowChange<BorrowedValue<'static>>,
                    Seq<char>,
                >(change_values(change)),
                Err(error) => message_change(self.includes_schema(), *message) == Err::<
                    RowChange<BorrowedValue<'static>>,
                    Seq<char>,
                >(error@),
            },
            ({
                let event = if self.includes_schema() {
                    json_fields(*message)["payload"@]
                } else {
                    *message
                };
                let before = json_fields(event)["before"@];
                let after = json_fields(event)["after"@];
                let has_before = holds_field(event, "before"@, before);
                let has_after = holds_field(event, "after"@, after);
                holds_event(self.includes_schema(), *message, event) ==> {
                    &&& has_op(event, "u"@) && has_before && has_after ==> {
                        &&& result matches Ok(RowChange::Update { before: x, after: y })
                        &&& *x == before
                        &&& *y == after
                    }
                    &&& (has_op(event, "c"@) || has_op(event, "r"@)) && has_after ==> {
                        &&& result matches Ok(RowChange::Insert(x))
                        &&& *x == after
                    }
                    &&& has_op(event, "d"@) && has_before ==> {
                        &&& result matches Ok(RowChange::Delete(x))
                        &&& *x == before
                    }
                }
            }),
    {
        proof {
            lemma_ops_distinct();
        }
        // if the debezium json message includes schema,
        // we need the payload field of the message,
        // else the message it self
        if self.including_schema {
            match require_field(message, "payload", "no payload in debezium event") {
                Ok(payload) => self.parse_payload(payload),
                Err(error) => Err(error),
            }
        } else {
            self.parse_payload(message)
        }
    }

    /// What the message `payload` does to a row. The event borrows its texts from `payload_mut`,
    /// in which a copy of the message is read.
    pub fn parse<'b>(&self, payload: &[u8], payload_mut: &'b mut Vec<u8>) -> (result: Result<
        DebeziumEvent<'b>,
        ProtocolError,
    >)
        requires
            32 * payload@.len() + 256 <= isize::MAX,
        ensures
            match result {
                Ok(event) => {
                    &&& json_outcome(payload@, Ok(event.message_view()))
                    &&& message_change(self.includes_schema(), event.message_view()) == Ok::<
                        RowChange<BorrowedValue<'static>>,
                        Seq<char>,
                    >(event.change())
                    &&& ({
                        let message = event.message_view();
                        let payload = if self.includes_schema() {
                            json_fields(message)["payload"@]
                        } else {
                            message
                        };
                        let before = json_fields(payload)["before"@];
                        let after = json_fields(payload)["after"@];
                        &&& holds_event(self.includes_schema(), message, payload)
                        &&& has_op(payload, "u"@) ==> event.change() == (RowChange::Update {
                            before,
                            after,
                        })
                        &&& has_op(payload, "c"@) || has_op(payload, "r"@) ==> event.change()
                            == RowChange::Insert(after)
                        &&& has_op(payload, "d"@) ==> event.change() == RowChange::Delete(before)
                    })
                },
                Err(error) => {
                    ||| exists|cause: simd_json::Error| #[trigger]
                        json_outcome(payload@, Err(cause)) && to_string_from_display_ensures(
                            &cause,
                            error.0,
                        )
                    ||| exists|message: BorrowedValue<'static>| #[trigger]
                        json_outcome(payload@, Ok(message)) && message_change(
                            self.includes_schema(),
                            message,
                        ) == Err::<RowChange<BorrowedValue<'static>>, Seq<char>>(error@)
                },
            },
    {
        proof {
            lemma_ops_distinct();
        }
        *payload_mut = vstd::slice::slice_to_vec(payload);
        match to_borrowed_value(payload_mut.as_mut_slice()) {
            Ok(message) => {
                let problem = match self.parse_message(&message) {
                    Ok(_) => None,
                    Err(error) => Some(error),
                };
                match problem {
                    None => Ok(
                        DebeziumEvent {
                            message,
                            parser: DebeziumJsonParser { including_schema: self.including_schema },
                        },
                    ),
                    Some(error) => Err(error),
                }
            },
            Err(cause) => Err(ProtocolError(cause.to_string())),
        }
    }
}

/// A message that has been parsed.
#[derive(Debug)]
pub struct DebeziumEvent<'b> {
    message: BorrowedValue<'b>,
    parser: DebeziumJsonParser,
}

impl<'b> DebeziumEvent<'b> {
    #[verifier::type_invariant]
    spec fn wf(self) -> bool {
        message_change(self.parser.including_schema, self.message) is Ok
    }

    /// The message.
    pub closed spec fn message_view(self) -> BorrowedValue<'static> {
        self.message
    }

    /// What the event does to a row.
    pub closed spec fn change(self) -> RowChange<BorrowedValue<'static>> {
        message_change(self.parser.including_schema, self.message)->Ok_0
    }

    /// What the event does to a row. The columns of the row are read from its records with
    /// [`record_column`].
    pub fn row_change<'a>(&'a self) -> (result: RowChange<&'a BorrowedValue<'b>>)
        ensures
            change_values(result) == self.change(),
    {
        proof {
            use_type_invariant(self);
        }
        match self.parser.parse_message(&self.message) {
            Ok(change) => change,
            Err(_) => {
                assert(false);
                RowChange::Insert(&self.message)
            },
        }
    }
}

/// The column `name` of the record `record`, if it is there.
pub fn record_column<'a, 'b>(record: &'a BorrowedValue<'b>, name: &str) -> (result: Option<
    &'a BorrowedValue<'b>,
>)
    ensures
        match result {
            Some(field) => json_fields(*record).contains_key(name@) && json_fields(*record)[name@]
                == *field,
            None => !json_fields(*record).contains_key(name@),
        },
{
    json_get(record, name)
}

/// Whether `field` stands in `value` under `name` and is not null.
pub open spec fn holds_field(
    value: BorrowedValue<'static>,
    name: Seq<char>,
    field: BorrowedValue<'static>,
) -> bool {
    &&& json_fields(value).contains_key(name)
    &&& json_fields(value)[name] == field
    &&& !json_is_null(field)
}

/// Whether nothing but null stands in `value` under `name`.
pub open spec fn lacks_field(value: BorrowedValue<'static>, name: Seq<char>) -> bool {
    json_fields(value).contains_key(name) ==> json_is_null(json_fields(value)[name])
}

/// Whether the field `op` of `event` is the text `op`.
pub open spec fn has_op(event: BorrowedValue<'static>, op: Seq<char>) -> bool {
    json_fields(event).contains_key("op"@) && json_text(json_fields(event)["op"@]) == Some(op)
}

/// Whether `event` is the event of `message`: its field `payload` where it includes its schema, and
/// else the message.
pub open spec fn holds_event(
    including_schema: bool,
    message: BorrowedValue<'static>,
    event: BorrowedValue<'static>,
) -> bool {
    if including_schema {
        holds_field(message, "payload"@, event)
    } else {
        event == message
    }
}

/// An update changes what was before to what is after, whatever other fields the event has.
pub proof fn law_update_message(
    including_schema: bool,
    message: BorrowedValue<'static>,
    event: BorrowedValue<'static>,
    before: BorrowedValue<'static>,
    after: BorrowedValue<'static>,
)
    requires
        holds_event(including_schema, message, event),
        has_op(event, "u"@),
    ensures
        holds_field(event, "before"@, before) && holds_field(event, "after"@, after)
            ==> message_change(including_schema, message) == Ok::<
            RowChange<BorrowedValue<'static>>,
            Seq<char>,
        >(RowChange::Update { before, after }),
        lacks_field(event, "before"@) ==> message_change(including_schema, message) == Err::<
            RowChange<BorrowedValue<'static>>,
            Seq<char>,
        >(
            "before is missing for updating event. If you are using postgres, you may want to try ALTER TABLE $TABLE_NAME REPLICA IDENTITY FULL;"@,
        ),
        holds_field(event, "before"@, before) && lacks_field(event, "after"@) ==> message_change(
            including_schema,
            message,
        ) == Err::<
            RowChange<BorrowedValue<'static>>,
            Seq<char>,
        >("after is missing for updating event"@),
{
    lemma_ops_distinct();
}

/// A creation, and likewise the reading of a row, inserts what is after, whatever other fields the
/// event has.
pub proof fn law_create_message(
    including_schema: bool,
    message: BorrowedValue<'static>,
    event: BorrowedValue<'static>,
    after: BorrowedValue<'static>,
)
    requires
        holds_event(including_schema, message, event),
        has_op(event, "c"@) || has_op(event, "r"@),
    ensures
        holds_field(event, "after"@, after) ==> message_change(including_schema, message) == Ok::<
            RowChange<BorrowedValue<'static>>,
            Seq<char>,
        >(RowChange::Insert(after)),
        lacks_field(event, "after"@) ==> message_change(including_schema, message) == Err::<
            RowChange<BorrowedValue<'static>>,
            Seq<char>,
        >("after is missing for creating event"@),
{
    lemma_ops_distinct();
}

/// A deletion deletes what was before, whatever other fields the event has.
pub proof fn law_delete_message(
    including_schema: bool,
    message: BorrowedValue<'static>,
    event: BorrowedValue<'static>,
    before: BorrowedValue<'static>,
)
    requires
        holds_event(including_schema, message, event),
        has_op(event, "d"@),
    ensures
        holds_field(event, "before"@, before) ==> message_change(including_schema, message) == Ok::<
            RowChange<BorrowedValue<'static>>,
            Seq<char>,
        >(RowChange::Delete(before)),
        lacks_field(event, "before"@) ==> message_change(including_schema, message) == Err::<
            RowChange<BorrowedValue<'static>>,
            Seq<char>,
        >("before is missing for delete event"@),
{
    lemma_ops_distinct();
}

/// A message fails without an event, an event without a text in its field `op`, and an event of
/// another kind, which the error names.
pub proof fn law_other_messages_fail(
    including_schema: bool,
    message: BorrowedValue<'static>,
    event: BorrowedValue<'static>,
    op: Seq<char>,
)
    ensures
        including_schema && lacks_field(message, "payload"@) ==> message_change(
            including_schema,
            message,
        ) == Err::<
            RowChange<BorrowedValue<'static>>,
            Seq<char>,
        >("no payload in debezium event"@),
        holds_event(including_schema, message, event) && !(json_fields(event).contains_key("op"@)
            && json_text(json_fields(event)["op"@]) is Some) ==> message_change(
            including_schema,
            message,
        ) == Err::<
            RowChange<BorrowedValue<'static>>,
            Seq<char>,
        >("op field not found in maxwell json"@),
        holds_event(including_schema, message, event) && has_op(event, op) && op != "u"@ && op
            != "c"@ && op != "r"@ && op != "d"@ ==> message_change(including_schema, message)
            == Err::<
            RowChange<BorrowedValue<'static>>,
            Seq<char>,
        >("unknown debezium op: "@ + op),
{
    lemma_ops_distinct();
}

/// Whether two values hold the same under `name`, or nothing but null.
pub open spec fn same_field(
    first: BorrowedValue<'static>,
    second: BorrowedValue<'static>,
    name: Seq<char>,
) -> bool {
    ||| lacks_field(first, name) && lacks_field(second, name)
    ||| holds_field(first, name, json_fields(second)[name]) && holds_field(
        second,
        name,
        json_fields(first)[name],
    )
}

/// Only the kind of an event and what was before and is after count: two messages whose events agree
/// in these do the same, or fail alike, whatever else they hold and whether or not they include
/// their schemas.
pub proof fn law_other_fields_do_not_count(
    including_schema: bool,
    message: BorrowedValue<'static>,
    event: BorrowedValue<'static>,
    other_including_schema: bool,
    other_message: BorrowedValue<'static>,
    other_event: BorrowedValue<'static>,
    op: Seq<char>,
)
    requires
        holds_event(including_schema, message, event),
        holds_event(other_including_schema, other_message, other_event),
        has_op(event, op),
        has_op(other_event, op),
        same_field(event, other_event, "before"@),
        same_field(event, other_event, "after"@),
    ensures
        message_change(including_schema, message) == message_change(
            other_including_schema,
            other_message,
        ),
{
}

/// A change of borrowed records stands for the same change of the records.
pub proof fn law_changes_stand_for_records(
    first: &BorrowedValue<'static>,
    second: &BorrowedValue<'static>,
)
    ensures
        change_values(RowChange::Insert(first)) == RowChange::Insert(*first),
        change_values(RowChange::Delete(first)) == RowChange::Delete(*first),
        change_values(RowChange::Update { before: first, after: second }) == (RowChange::Update {
            before: *first,
            after: *second,
        }),
{
}

/// A message that includes its schema does what its field `payload` does as a message that does
/// not.
pub proof fn law_schema_is_an_envelope(
    message: BorrowedValue<'static>,
    payload: BorrowedValue<'static>,
)
    requires
        present_field(message, "payload"@) == Some(payload),
    ensures
        message_change(true, message) == message_change(false, payload),
{
}

/// A row that is read for a snapshot is inserted as a row that is created.
pub proof fn law_read_is_like_create(
    read: BorrowedValue<'static>,
    created: BorrowedValue<'static>,
)
    requires
        text_field(read, OP@) == Some(DEBEZIUM_READ_OP@),
        text_field(created, OP@) == Some(DEBEZIUM_CREATE_OP@),
        present_field(read, AFTER@) == present_field(created, AFTER@),
    ensures
        debezium_change(read) == debezium_change(created),
{
    lemma_ops_distinct();
}

/// An update changes a row exactly where a deletion would delete what was before and a creation
/// would insert what is after.
pub proof fn law_update_is_delete_and_create(
    updated: BorrowedValue<'static>,
    deleted: BorrowedValue<'static>,
    created: BorrowedValue<'static>,
    before: BorrowedValue<'static>,
    after: BorrowedValue<'static>,
)
    requires
        text_field(updated, OP@) == Some(DEBEZIUM_UPDATE_OP@),
        text_field(deleted, OP@) == Some(DEBEZIUM_DELETE_OP@),
        text_field(created, OP@) == Some(DEBEZIUM_CREATE_OP@),
        present_field(deleted, BEFORE@) == present_field(updated, BEFORE@),
        present_field(created, AFTER@) == present_field(updated, AFTER@),
    ensures
        debezium_change(updated) == Ok::<RowChange<BorrowedValue<'static>>, Seq<char>>(
            RowChange::Update { before, after },
        ) <==> {
            &&& debezium_change(deleted) == Ok::<RowChange<BorrowedValue<'static>>, Seq<char>>(
                RowChange::Delete(before),
            )
            &&& debezium_change(created) == Ok::<RowChange<BorrowedValue<'static>>, Seq<char>>(
                RowChange::Insert(after),
            )
        },
{
    lemma_ops_distinct();
}

proof fn lemma_ops_distinct()
    ensures
        "r"@ != "c"@,
        "r"@ != "u"@,
        "r"@ != "d"@,
        "c"@ != "u"@,
        "c"@ != "d"@,
        "u"@ != "d"@,
{
    reveal_strlit("r");
    reveal_strlit("c");
    reveal_strlit("u");
    reveal_strlit("d");
    assert("r"@[0] == 'r');
    assert("c"@[0] == 'c');
    assert("u"@[0] == 'u');
    assert("d"@[0] == 'd');
}

}
