//! Formats, readers and parsers of sources.

use serde_json::Value;
use simd_json::prelude::ValueAsScalar;
use simd_json::BorrowedValue;
use std::collections::HashMap;
use stream_core::common::types::{DataType, StructType};
use stream_core::common::value::{Op, Row, StreamChunk};
use stream_core::source::format::SourceFormat;
use stream_core::source::parser::canal::{CanalJsonEvent, CanalJsonParser, JsonObject};
use stream_core::source::parser::common::{ProtocolError, RowChange};
use stream_core::source::parser::debezium::{record_column, DebeziumJsonParser};
use stream_core::source::reader::{SourceImpl, SourceStreamReaderImpl, StreamChunkWithState};

const SCALARS: [DataType; 11] = [
    DataType::Boolean,
    DataType::Int16,
    DataType::Int32,
    DataType::Int64,
    DataType::Float32,
    DataType::Float64,
    DataType::Decimal,
    DataType::Date,
    DataType::Varchar,
    DataType::Time,
    DataType::Timestamp,
];

fn struct_of(fields: Vec<DataType>) -> DataType {
    DataType::Struct(StructType { fields })
}

fn list_of(datatype: DataType) -> DataType {
    DataType::List {
        datatype: Box::new(datatype),
    }
}

#[test]
fn scalar_types_are_supported() {
    for format in [
        SourceFormat::Json,
        SourceFormat::Protobuf,
        SourceFormat::Avro,
        SourceFormat::DebeziumJson,
    ] {
        for dt in &SCALARS {
            assert!(format.supported_type(dt));
            assert!(!SourceFormat::Invalid.supported_type(dt));
        }
    }
}

#[test]
fn other_types_are_supported_by_debezium_alone() {
    for dt in [
        DataType::Timestampz,
        DataType::Interval,
        list_of(DataType::Int64),
    ] {
        assert!(!SourceFormat::Json.supported_type(&dt));
        assert!(!SourceFormat::Protobuf.supported_type(&dt));
        assert!(!SourceFormat::Avro.supported_type(&dt));
        assert!(!SourceFormat::Invalid.supported_type(&dt));
        assert!(SourceFormat::DebeziumJson.supported_type(&dt));
    }
}

#[test]
fn struct_is_supported_by_its_fields() {
    let plain = struct_of(vec![
        DataType::Int64,
        struct_of(vec![DataType::Varchar]),
        struct_of(vec![]),
    ]);
    let deep = struct_of(vec![
        DataType::Int64,
        struct_of(vec![DataType::Varchar, DataType::Interval]),
    ]);
    for format in [
        SourceFormat::Json,
        SourceFormat::Protobuf,
        SourceFormat::Avro,
    ] {
        assert!(format.supported_type(&plain));
        assert!(!format.supported_type(&deep));
    }
    assert!(SourceFormat::DebeziumJson.supported_type(&deep));
    assert!(!SourceFormat::Invalid.supported_type(&plain));
}

fn some_chunk() -> StreamChunk {
    StreamChunk {
        rows: vec![(Op::Insert, Row(vec![None]))],
    }
}

#[test]
fn chunk_of_a_table_has_no_offsets() {
    let with_state = StreamChunkWithState::from(some_chunk());
    assert_eq!(with_state.chunk, some_chunk());
    assert_eq!(with_state.split_offset_mapping, None);

    let table: SourceStreamReaderImpl<Result<StreamChunk, String>, _> =
        SourceStreamReaderImpl::Table(Ok(some_chunk()));
    let read = table.next().unwrap();
    assert_eq!(read.chunk, some_chunk());
    assert_eq!(read.split_offset_mapping, None);
}

#[test]
fn reader_hands_on_what_was_read() {
    let mut offsets = HashMap::new();
    offsets.insert("split".to_string(), "7".to_string());
    let connector: SourceStreamReaderImpl<Result<StreamChunk, String>, _> =
        SourceStreamReaderImpl::Connector(Ok(StreamChunkWithState {
            chunk: some_chunk(),
            split_offset_mapping: Some(offsets.clone()),
        }));
    let read = connector.next().unwrap();
    assert_eq!(read.chunk, some_chunk());
    assert_eq!(read.split_offset_mapping, Some(offsets));

    let table: SourceStreamReaderImpl<_, Result<StreamChunkWithState, _>> =
        SourceStreamReaderImpl::Table(Err("closed"));
    assert_eq!(table.next().unwrap_err(), "closed");
    let connector: SourceStreamReaderImpl<Result<StreamChunk, _>, _> =
        SourceStreamReaderImpl::Connector(Err("lost"));
    assert_eq!(connector.next().unwrap_err(), "lost");
}

#[test]
fn source_is_a_table_or_a_connector() {
    let mut table: SourceImpl<u8, char> = SourceImpl::Table(1);
    assert_eq!(table.as_table(), Some(&1));
    assert_eq!(table.as_connector(), None);
    *table.as_table_mut().unwrap() = 2;
    assert!(table.as_connector_mut().is_none());
    assert_eq!(table.into_table().unwrap(), 2);

    let mut connector: SourceImpl<u8, char> = SourceImpl::Connector('a');
    assert_eq!(connector.as_table(), None);
    assert_eq!(connector.as_connector(), Some(&'a'));
    *connector.as_connector_mut().unwrap() = 'b';
    assert!(connector.as_table_mut().is_none());
    match connector.into_table() {
        Err(SourceImpl::Connector(c)) => assert_eq!(c, 'b'),
        _ => panic!("the source comes back"),
    }
    let connector: SourceImpl<u8, char> = SourceImpl::Connector('c');
    assert_eq!(connector.into_connector().unwrap(), 'c');
    let table: SourceImpl<u8, char> = SourceImpl::Table(3);
    assert!(matches!(table.into_connector(), Err(SourceImpl::Table(3))));
}

fn get_update_payload() -> &'static str {
    r#"
{
    "id": 0,
    "database": "test",
    "table": "tp_int",
    "pkNames": [
        "id"
    ],
    "isDdl": false,
    "type": "INSERT",
    "es": 1639633141221,
    "ts": 1639633142960,
    "sql": "",
    "sqlType": {
        "c_bigint": -5,
        "c_int": 4,
        "c_mediumint": 4,
        "c_smallint": 5,
        "c_tinyint": -6,
        "id": 4
    },
    "mysqlType": {
        "c_bigint": "bigint",
        "c_int": "int",
        "c_mediumint": "mediumint",
        "c_smallint": "smallint",
        "c_tinyint": "tinyint",
        "id": "int"
    },
    "data": [
        {
            "c_bigint": "9223372036854775807",
            "c_int": "2147483647",
            "c_mediumint": "8388607",
            "c_smallint": "32767",
            "c_tinyint": "127",
            "id": "2"
        }
    ],
    "old": null,
    "_tidb": {
        "commitTs": 163963314122145239
    }
}
    "#
}

fn records(value: &Value) -> Option<Vec<JsonObject>> {
    let list = value.as_array()?;
    Some(
        list.iter()
            .map(|record| {
                let mut object = JsonObject::new();
                for (name, value) in record.as_object().unwrap() {
                    object = object.with(name.clone(), value.clone());
                }
                object
            })
            .collect(),
    )
}

fn event_of(payload: &str) -> CanalJsonEvent {
    let message: Value = serde_json::from_slice(payload.as_bytes()).unwrap();
    CanalJsonEvent {
        before: records(&message["old"]),
        after: records(&message["data"]),
        op: message["type"].as_str().unwrap().to_string(),
        ts: message["ts"].as_u64().unwrap(),
    }
}

#[test]
fn test_parse_event() {
    let event = event_of(get_update_payload());
    println!("{:?}", event);
    assert_eq!(event.op, "INSERT");
    assert_eq!(event.ts, 1639633142960);
    assert!(event.before.is_none());
    match CanalJsonParser.parse(&event).unwrap() {
        RowChange::Insert(row) => {
            assert_eq!(row.get("id"), Some(&Value::String("2".to_string())));
            assert_eq!(
                row.get("c_bigint"),
                Some(&Value::String("9223372036854775807".to_string()))
            );
            assert_eq!(row.get("database"), None);
        }
        _ => panic!("a row is inserted"),
    }
}

fn object(id: u64) -> JsonObject {
    JsonObject::new().with("id".to_string(), Value::from(id))
}

fn canal_event(
    op: &str,
    before: Option<Vec<JsonObject>>,
    after: Option<Vec<JsonObject>>,
) -> CanalJsonEvent {
    CanalJsonEvent {
        before,
        after,
        op: op.to_string(),
        ts: 0,
    }
}

fn id_of(row: &JsonObject) -> u64 {
    row.get("id").unwrap().as_u64().unwrap()
}

fn canal_error(
    op: &str,
    before: Option<Vec<JsonObject>>,
    after: Option<Vec<JsonObject>>,
) -> String {
    let event = canal_event(op, before, after);
    match CanalJsonParser.parse(&event) {
        Err(ProtocolError(text)) => text,
        Ok(_) => panic!("the event is not in order"),
    }
}

#[test]
fn canal_events_change_the_first_row() {
    let event = canal_event("DELETE", Some(vec![object(1), object(2)]), None);
    match CanalJsonParser.parse(&event).unwrap() {
        RowChange::Delete(row) => assert_eq!(id_of(row), 1),
        _ => panic!("a row is deleted"),
    }
    let event = canal_event("INSERT", None, Some(vec![object(3), object(4)]));
    match CanalJsonParser.parse(&event).unwrap() {
        RowChange::Insert(row) => assert_eq!(id_of(row), 3),
        _ => panic!("a row is inserted"),
    }
    let event = canal_event("UPDATE", Some(vec![object(5)]), Some(vec![object(6)]));
    match CanalJsonParser.parse(&event).unwrap() {
        RowChange::Update { before, after } => {
            assert_eq!(id_of(before), 5);
            assert_eq!(id_of(after), 6);
        }
        _ => panic!("a row is updated"),
    }
}

#[test]
fn canal_events_out_of_order() {
    let one = || Some(vec![object(1)]);
    let none = || Some(vec![]);
    for op in ["DELETE", "UPDATE"] {
        assert_eq!(
            canal_error(op, None, one()),
            "old is missing for delete event"
        );
        assert_eq!(canal_error(op, none(), one()), "old field is empty");
    }
    for op in ["INSERT", "UPDATE"] {
        assert_eq!(
            canal_error(op, one(), None),
            "data is missing for delete event"
        );
        assert_eq!(canal_error(op, one(), none()), "data field is empty");
    }
    assert_eq!(
        canal_error("UPDATE", None, None),
        "old is missing for delete event"
    );
    assert_eq!(
        canal_error("QUERY", one(), one()),
        "received a query message, please set `canal.instance.filter.query.dml` to true."
    );
    assert_eq!(
        canal_error("insert", one(), one()),
        "unknown canal json op: insert"
    );
    assert_eq!(canal_error("", one(), one()), "unknown canal json op: ");
}

#[test]
fn last_value_of_a_column_counts() {
    let row = object(1)
        .with("name".to_string(), Value::Null)
        .with("id".to_string(), Value::from(2));
    assert_eq!(id_of(&row), 2);
    assert_eq!(row.get("name"), Some(&Value::Null));
    assert_eq!(row.get("names"), None);
    let mut fields = row.into_fields();
    fields.sort_by(|a, b| a.0.cmp(&b.0));
    assert_eq!(
        fields,
        vec![
            ("id".to_string(), Value::from(2)),
            ("name".to_string(), Value::Null)
        ]
    );
    let event = CanalJsonEvent::default();
    assert_eq!(event.op, "");
    assert_eq!(event.ts, 0);
    assert!(event.before.is_none() && event.after.is_none());
}

#[test]
fn canal_events_are_copied_and_compared() {
    let row = || object(1).with("name".to_string(), Value::from("a"));
    let event = canal_event("UPDATE", Some(vec![row()]), Some(vec![object(2)]));
    assert_eq!(event.clone(), event);
    assert_eq!(row().clone().get("name"), Some(&Value::from("a")));
    // The order of columns does not count.
    let other = JsonObject::new()
        .with("name".to_string(), Value::from("a"))
        .with("id".to_string(), Value::from(1));
    assert_eq!(row(), other);
    assert_ne!(row(), object(1));
    assert_ne!(object(1), row());
    assert_ne!(object(1), object(2));
    assert_eq!(
        JsonObject::new().with("x".to_string(), Value::from(0.0)),
        JsonObject::new().with("x".to_string(), Value::from(-0.0))
    );
    assert_ne!(event, CanalJsonEvent::default());
}

fn u64_of(record: &BorrowedValue<'_>, name: &str) -> Option<u64> {
    record_column(record, name).and_then(|value| value.as_u64())
}

fn debezium_error(including_schema: bool, payload: &str) -> String {
    let mut buffer = Vec::new();
    let parser = DebeziumJsonParser::new(including_schema);
    let result = parser.parse(payload.as_bytes(), &mut buffer);
    match result {
        Err(ProtocolError(text)) => text,
        Ok(_) => panic!("the message is not in order"),
    }
}

#[test]
fn debezium_update() {
    let payload = r#"{"before": {"id": 1, "name": "a"}, "after": {"id": 2, "name": "b\n"}, "op": "u"}"#;
    let mut buffer = Vec::new();
    let event = DebeziumJsonParser::new(false)
        .parse(payload.as_bytes(), &mut buffer)
        .unwrap();
    match event.row_change() {
        RowChange::Update { before, after } => {
            assert_eq!(u64_of(before, "id"), Some(1));
            assert_eq!(u64_of(after, "id"), Some(2));
            assert_eq!(
                record_column(after, "name").and_then(|value| value.as_str()),
                Some("b\n")
            );
            assert!(record_column(after, "op").is_none());
        }
        _ => panic!("a row is updated"),
    }
}

#[test]
fn debezium_create_and_read_insert() {
    for op in ["c", "r"] {
        let payload = format!(
            r#"{{"before": null, "after": {{"id": 3}}, "op": "{}"}}"#,
            op
        );
        let mut buffer = Vec::new();
        let event = DebeziumJsonParser::new(false)
            .parse(payload.as_bytes(), &mut buffer)
            .unwrap();
        match event.row_change() {
            RowChange::Insert(after) => assert_eq!(u64_of(after, "id"), Some(3)),
            _ => panic!("a row is inserted"),
        }
    }
}

#[test]
fn debezium_delete() {
    let payload = r#"{"before": {"id": 4}, "after": null, "op": "d"}"#;
    let mut buffer = vec![1, 2, 3];
    let event = DebeziumJsonParser::new(false)
        .parse(payload.as_bytes(), &mut buffer)
        .unwrap();
    match event.row_change() {
        RowChange::Delete(before) => assert_eq!(u64_of(before, "id"), Some(4)),
        _ => panic!("a row is deleted"),
    }
}

#[test]
fn debezium_message_with_schema_holds_the_event_in_its_payload() {
    let payload = r#"{"schema": {}, "payload": {"before": {"id": 5}, "op": "d"}}"#;
    let mut buffer = Vec::new();
    let event = DebeziumJsonParser::new(true)
        .parse(payload.as_bytes(), &mut buffer)
        .unwrap();
    match event.row_change() {
        RowChange::Delete(before) => assert_eq!(u64_of(before, "id"), Some(5)),
        _ => panic!("a row is deleted"),
    }
    assert_eq!(
        debezium_error(false, payload),
        "op field not found in maxwell json"
    );
    assert_eq!(
        debezium_error(true, r#"{"op": "d", "payload": null}"#),
        "no payload in debezium event"
    );
    assert_eq!(
        debezium_error(true, r#"{"op": "d"}"#),
        "no payload in debezium event"
    );
}

#[test]
fn debezium_messages_out_of_order() {
    assert_eq!(
        debezium_error(false, r#"{"op": 1}"#),
        "op field not found in maxwell json"
    );
    assert_eq!(
        debezium_error(false, "[]"),
        "op field not found in maxwell json"
    );
    for before in [r#""op": "u""#, r#""before": null, "op": "u""#] {
        assert_eq!(
            debezium_error(false, &format!(r#"{{{}, "after": {{}}}}"#, before)),
            "before is missing for updating event. If you are using postgres, you may want to try ALTER TABLE $TABLE_NAME REPLICA IDENTITY FULL;"
        );
    }
    assert_eq!(
        debezium_error(false, r#"{"op": "u", "before": {}}"#),
        "after is missing for updating event"
    );
    for op in ["c", "r"] {
        assert_eq!(
            debezium_error(false, &format!(r#"{{"op": "{}", "after": null}}"#, op)),
            "after is missing for creating event"
        );
    }
    assert_eq!(
        debezium_error(false, r#"{"op": "d", "after": {}}"#),
        "before is missing for delete event"
    );
    assert_eq!(
        debezium_error(false, r#"{"op": "x"}"#),
        "unknown debezium op: x"
    );
}

#[test]
fn debezium_text_that_is_not_json() {
    let text = r#"{"op": "#;
    let mut copy = text.as_bytes().to_vec();
    let cause = simd_json::to_borrowed_value(&mut copy).unwrap_err();
    assert_eq!(debezium_error(false, text), cause.to_string());
}

#[test]
fn debezium_message_that_has_been_read() {
    let mut text = br#"{"op": "c", "after": {"id": 6}}"#.to_vec();
    let message = simd_json::to_borrowed_value(&mut text).unwrap();
    match DebeziumJsonParser::new(false).parse_message(&message).unwrap() {
        RowChange::Insert(after) => assert_eq!(u64_of(after, "id"), Some(6)),
        _ => panic!("a row is inserted"),
    }
    assert_eq!(
        DebeziumJsonParser::new(true)
            .parse_message(&message)
            .unwrap_err(),
        ProtocolError("no payload in debezium event".to_string())
    );
}

#[test]
fn debezium_odd_texts_are_refused() {
    let parser = DebeziumJsonParser::new(false);
    let deep = "[".repeat(200) + &"]".repeat(200);
    for text in [
        "", " ", "\n\n", "{", "}", "[", "]", "\"", "\\", "{\"op\"}", "{\"op\":}", "nul", "null",
        "true", "-", "1", "1.5e400", "\"c\"", "{}", "{}{}", ",", ":", "[1,]", &deep,
    ] {
        let mut buffer = Vec::new();
        assert!(parser.parse(text.as_bytes(), &mut buffer).is_err());
    }
    for bytes in [&[0u8][..], &[0xff, 0xfe], &[b'"', 0xc3, b'"'], &[b'"', 1, b'"']] {
        let mut buffer = Vec::new();
        assert!(parser.parse(bytes, &mut buffer).is_err());
    }
    for length in 0..200usize {
        let mut buffer = Vec::new();
        let text = format!("{{\"op\":\"{}\"}}", "x".repeat(length));
        assert!(parser.parse(text.as_bytes(), &mut buffer).is_err());
    }
}

#[test]
fn debezium_numbers() {
    let text = r#"{"op":"c","after":{"a":1.5,"b":-0.25e2,"c":123456789.123456789,"d":18446744073709551615,"e":-9223372036854775808,"f":0.12345678901234567890123456789}}"#;
    let mut buffer = Vec::new();
    let parser = DebeziumJsonParser::new(false);
    let event = parser.parse(text.as_bytes(), &mut buffer).unwrap();
    match event.row_change() {
        RowChange::Insert(after) => {
            let float = |name: &str| record_column(after, name).and_then(|v| v.as_f64());
            assert_eq!(float("a"), Some(1.5));
            assert_eq!(float("b"), Some(-25.0));
            assert_eq!(float("c"), Some(123456789.12345679));
            assert_eq!(float("f"), Some(0.12345678901234568));
            assert_eq!(u64_of(after, "d"), Some(u64::MAX));
            assert_eq!(
                record_column(after, "e").and_then(|v| v.as_i64()),
                Some(i64::MIN)
            );
        }
        _ => panic!("a row is inserted"),
    }
}

/// Of an object with many fields each is found under its name.
#[test]
fn debezium_records_with_many_columns() {
    let fields: Vec<String> = (0..100).map(|i| format!("\"c{}\":{}", i, i)).collect();
    let text = format!("{{\"op\":\"c\",\"after\":{{{}}}}}", fields.join(","));
    let mut buffer = Vec::new();
    let parser = DebeziumJsonParser::new(false);
    let event = parser.parse(text.as_bytes(), &mut buffer).unwrap();
    match event.row_change() {
        RowChange::Insert(after) => {
            for i in 0..100u64 {
                assert_eq!(u64_of(after, &format!("c{}", i)), Some(i));
            }
            assert_eq!(u64_of(after, "c100"), None);
        }
        _ => panic!("a row is inserted"),
    }
}
