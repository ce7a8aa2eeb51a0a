//! Data types and schemas.

use vstd::prelude::*;

verus! {

/// The type of a column.
#[derive(Debug, PartialEq, Eq)]
pub enum DataType {
    Boolean,
    Int16,
    Int32,
    Int64,
    Float32,
    Float64,
    Decimal,
    Date,
    Varchar,
    Time,
    Timestamp,
    Timestampz,
    Interval,
    Struct(StructType),
    List { datatype: Box<DataType> },
}

/// The types of the fields of a struct.
#[derive(Debug, PartialEq, Eq)]
pub struct StructType {
    pub fields: Vec<DataType>,
}

/// A column of a schema.
#[derive(Debug, PartialEq, Eq)]
pub struct Field {
    pub data_type: DataType,
    pub name: String,
}

impl Field {
    /// A column without a name.
    pub fn unnamed(data_type: DataType) -> (result: Field)
        ensures
            result.data_type == data_type,
            result.name@ == Seq::<char>::empty(),
    {
        Field { data_type, name: String::new() }
    }
}

/// The columns of a table or a stream.
#[derive(Debug, PartialEq, Eq)]
pub struct Schema {
    pub fields: Vec<Field>,
}

}
