//! Parquet columns and data pages.

use vstd::prelude::*;

use crate::options::Encoding;

verus! {

/// How often a field occurs.
#[derive(Debug, Clone, Copy, PartialEq, Eq, Hash, Structural)]
pub enum Repetition {
    Required,
    Optional,
    Repeated,
}

/// What every field of a schema has.
#[derive(Debug, PartialEq, Eq)]
pub struct FieldInfo {
    pub name: String,
    pub repetition: Repetition,
    pub id: Option<i32>,
}

/// The type in which Parquet stores a value.
#[derive(Debug, Clone, Copy, PartialEq, Eq, Hash, Structural)]
pub enum ParquetPhysicalType {
    Boolean,
    Int32,
    Int64,
    Int96,
    Float,
    Double,
    ByteArray,
    FixedLenByteArray(usize),
}

/// The type of a leaf column.
#[derive(Debug, PartialEq, Eq)]
pub struct ParquetPrimitiveType {
    pub field_info: FieldInfo,
    pub physical_type: ParquetPhysicalType,
}

/// A leaf column and how deep it lies.
#[derive(Debug, PartialEq, Eq)]
pub struct Descriptor {
    pub primitive_type: ParquetPrimitiveType,
    pub max_def_level: i16,
    pub max_rep_level: i16,
}

/// The statistics of a page.
#[derive(Debug, PartialEq, Eq)]
pub struct ParquetStatistics {
    pub null_count: Option<i64>,
    pub distinct_count: Option<i64>,
    pub min_value: Option<Vec<u8>>,
    pub max_value: Option<Vec<u8>>,
}

/// The header of a data page of the first version.
#[derive(Debug, PartialEq, Eq)]
pub struct DataPageHeaderV1 {
    pub num_values: i32,
    pub encoding: Encoding,
    pub definition_level_encoding: Encoding,
    pub repetition_level_encoding: Encoding,
    pub statistics: Option<ParquetStatistics>,
}

/// The header of a data page of the second version.
#[derive(Debug, PartialEq, Eq)]
pub struct DataPageHeaderV2 {
    pub num_values: i32,
    pub encoding: Encoding,
    pub num_nulls: i32,
    pub num_rows: i32,
    pub definition_levels_byte_length: i32,
    pub repetition_levels_byte_length: i32,
    pub is_compressed: Option<bool>,
    pub statistics: Option<ParquetStatistics>,
}

/// The header of a data page.
#[derive(Debug, PartialEq, Eq)]
pub enum DataPageHeader {
    V1(DataPageHeaderV1),
    V2(DataPageHeaderV2),
}

impl DataPageHeader {
    /// The number of values in the page.
    pub open spec fn count(self) -> i32 {
        match self {
            DataPageHeader::V1(header) => header.num_values,
            DataPageHeader::V2(header) => header.num_values,
        }
    }
}

/// A data page that is not compressed yet.
#[derive(Debug, PartialEq, Eq)]
pub struct DataPage {
    pub header: DataPageHeader,
    pub buffer: Vec<u8>,
    pub descriptor: Descriptor,
    pub num_rows: usize,
}

impl DataPage {
    /// The number of values in the page.
    pub fn num_values(&self) -> (count: usize)
        requires
            self.header.count() >= 0,
        ensures
            count == self.header.count(),
    {
        match &self.header {
            DataPageHeader::V1(header) => header.num_values as usize,
            DataPageHeader::V2(header) => header.num_values as usize,
        }
    }
}

/// A page that a writer has made.
#[derive(Debug, PartialEq, Eq)]
pub enum Page {
    Data(DataPage),
    /// The values of a dictionary.
    Dict(Vec<u8>),
}

} // verus!
