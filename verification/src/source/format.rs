//! Formats of sources.

use vstd::prelude::*;

use crate::common::types::DataType;

verus! {

/// The format of the messages of a source.
#[derive(Clone, Copy, Debug, PartialEq, Eq, Structural)]
pub enum SourceFormat {
    Invalid,
    Json,
    Protobuf,
    DebeziumJson,
    Avro,
}

/// Whether values of the type `dt` can be read from plain records: the scalar types can, but for
/// timestamps with a time zone and intervals, and so can structs of such types; lists cannot.
pub open spec fn plainly_readable(dt: DataType) -> bool
    decreases dt,
{
    match dt {
        DataType::Struct(st) => forall|i: int|
            0 <= i < st.fields@.len() ==> plainly_readable(#[trigger] st.fields@[i]),
        DataType::Timestampz | DataType::Interval | DataType::List { .. } => false,
        _ => true,
    }
}

/// A struct with a field that cannot be read cannot be read.
proof fn lemma_unreadable_field(dt: DataType, i: int)
    requires
        dt is Struct,
        0 <= i < dt->Struct_0.fields@.len(),
        !plainly_readable(dt->Struct_0.fields@[i]),
    ensures
        !plainly_readable(dt),
{
    if plainly_readable(dt) {
        assert(plainly_readable(dt->Struct_0.fields@[i]));
    }
}

impl SourceFormat {
    /// Whether a column of type `dt` can be read from messages of this format.
    pub open spec fn supports(self, dt: DataType) -> bool {
        match self {
            SourceFormat::Json | SourceFormat::Protobuf | SourceFormat::Avro => plainly_readable(dt),
            SourceFormat::DebeziumJson => true,
            SourceFormat::Invalid => false,
        }
    }

    /// Whether a column of type `dt` can be read from messages of this format.
    pub fn supported_type(&self, dt: &DataType) -> (result: bool)
        ensures
            result == self.supports(*dt),
            *self == SourceFormat::DebeziumJson ==> result,
            *self == SourceFormat::Invalid ==> !result,
            *self != SourceFormat::DebeziumJson && (dt is List || dt is Timestampz
                || dt is Interval) ==> !result,
            *self != SourceFormat::Invalid && !(dt is List || dt is Timestampz || dt is Interval
                || dt is Struct) ==> result,
        decreases *dt,
    {
        match self {
            SourceFormat::Json | SourceFormat::Protobuf | SourceFormat::Avro => match dt {
                DataType::Boolean
                | DataType::Int16
                | DataType::Int32
                | DataType::Int64
                | DataType::Float32
                | DataType::Float64
                | DataType::Decimal
                | DataType::Date
                | DataType::Varchar
                | DataType::Time
                | DataType::Timestamp => true,
                DataType::Struct(st) => {
                    let mut i: usize = 0;
                    while i < st.fields.len()
                        invariant
                            *dt == DataType::Struct(*st),
                            i <= st.fields@.len(),
                            self.supports(*dt) == plainly_readable(*dt),
                            *self != SourceFormat::DebeziumJson,
                            *self != SourceFormat::Invalid,
                            forall|j: int| 0 <= j < i ==> plainly_readable(#[trigger] st.fields@[j]),
                        decreases st.fields.len() - i,
                    {
                        if !self.supported_type(&st.fields[i]) {
                            proof {
                                lemma_unreadable_field(*dt, i as int);
                            }
                            return false;
                        }
                        i = i + 1;
                    }
                    true
                },
                DataType::Timestampz | DataType::Interval | DataType::List { .. } => false,
            },
            SourceFormat::DebeziumJson => true,
            _ => false,
        }
    }
}

/// Whether `format` is one whose messages are plain records.
pub open spec fn has_plain_records(format: SourceFormat) -> bool {
    format == SourceFormat::Json || format == SourceFormat::Protobuf || format
        == SourceFormat::Avro
}

/// The formats with plain records support booleans, numbers, dates, times and texts.
pub proof fn law_scalars_are_supported(format: SourceFormat)
    requires
        has_plain_records(format),
    ensures
        format.supports(DataType::Boolean),
        format.supports(DataType::Int16),
        format.supports(DataType::Int32),
        format.supports(DataType::Int64),
        format.supports(DataType::Float32),
        format.supports(DataType::Float64),
        format.supports(DataType::Decimal),
        format.supports(DataType::Date),
        format.supports(DataType::Varchar),
        format.supports(DataType::Time),
        format.supports(DataType::Timestamp),
{
}

/// The formats with plain records support no timestamps with a time zone and no intervals.
pub proof fn law_zones_and_intervals_are_not_supported(format: SourceFormat)
    requires
        has_plain_records(format),
    ensures
        !format.supports(DataType::Timestampz),
        !format.supports(DataType::Interval),
{
}

/// The formats with plain records support no lists, whatever their elements are.
pub proof fn law_lists_are_not_supported(format: SourceFormat, element: Box<DataType>)
    requires
        has_plain_records(format),
    ensures
        !format.supports(DataType::List { datatype: element }),
{
}

/// The format of Debezium supports every type, and the invalid format none.
pub proof fn law_debezium_supports_all_types(dt: DataType)
    ensures
        SourceFormat::DebeziumJson.supports(dt),
        !SourceFormat::Invalid.supports(dt),
{
}

/// The formats with plain records support the same types.
pub proof fn law_plain_formats_agree(dt: DataType)
    ensures
        SourceFormat::Json.supports(dt) <==> SourceFormat::Protobuf.supports(dt),
        SourceFormat::Json.supports(dt) <==> SourceFormat::Avro.supports(dt),
{
}

/// A struct is supported exactly where all of its fields are, in every format but the invalid one.
pub proof fn law_struct_supported_by_fields(format: SourceFormat, dt: DataType)
    requires
        dt is Struct,
        format != SourceFormat::Invalid,
    ensures
        format.supports(dt) <==> forall|i: int|
            0 <= i < dt->Struct_0.fields@.len() ==> format.supports(
                #[trigger] dt->Struct_0.fields@[i],
            ),
{
    reveal_with_fuel(plainly_readable, 2);
}

}
