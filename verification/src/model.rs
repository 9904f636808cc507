//! Table and index definitions, and the datatypes fields can carry.

use vstd::prelude::*;

verus! {

/// Supported field datatypes.
#[derive(Debug, PartialEq, Eq, Structural, Clone, Copy)]
pub enum DataType {
    STRING,
    DOUBLE,
    INT,
    LONG,
    DATETIME,
    BOOL,
    BLOB,
}

/// A point in time: milliseconds since the epoch.
#[derive(Debug, Clone, Copy, PartialEq, Eq, Structural)]
pub struct TimeStamp(pub i64);

impl TimeStamp {
    /// The raw millisecond count.
    pub fn millis(&self) -> (r: i64)
        ensures
            r == self.0,
    {
        self.0
    }
}

/// Whether an index admits duplicate extracted keys.
#[derive(Debug, PartialEq, Eq, Structural, Clone, Copy)]
pub enum IndexType {
    NORMAL,
    UNIQUE,
}

/// The direction a field orders an index.
#[derive(Debug, PartialEq, Eq, Structural, Clone, Copy)]
pub enum OrderMode {
    ASC,
    DESC,
}

/// One field of a table.
#[derive(Debug, Clone)]
pub struct FieldDefine {
    pub name: String,
    pub datatype: DataType,
    pub comment: Option<String>,
}

/// One field of an index, with its direction.
#[derive(Debug, Clone)]
pub struct OrderedField {
    pub field_name: String,
    pub order_mode: OrderMode,
}

/// One index of a table.
#[derive(Debug, Clone)]
pub struct IndexDefine {
    pub name: String,
    pub index_type: IndexType,
    pub fields: Vec<OrderedField>,
    pub comment: Option<String>,
}

/// A table: its fields, key fields and indexes.
#[derive(Debug, Clone)]
pub struct TableDefine {
    pub name: String,
    pub comment: Option<String>,
    pub fields: Vec<FieldDefine>,
    pub key_fields: Vec<String>,
    pub indexes: Vec<IndexDefine>,
}

impl TableDefine {
    /// A bare definition: a name and nothing else, as a key-value table uses.
    pub fn new(name: &str) -> (r: TableDefine)
        ensures
            r.name@ == name@,
            r.comment is None,
            r.fields@.len() == 0,
            r.key_fields@.len() == 0,
            r.indexes@.len() == 0,
    {
        TableDefine {
            name: name.to_owned(),
            comment: None,
            fields: Vec::new(),
            key_fields: Vec::new(),
            indexes: Vec::new(),
        }
    }
}

} // verus!
