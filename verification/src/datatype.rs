//! The types of columns, and their layouts in memory.

use vstd::prelude::*;

verus! {

/// The unit of a point in time or of a duration.
#[derive(Debug, Clone, Copy, PartialEq, Eq, Hash, Structural)]
pub enum TimeUnit {
    Second,
    Millisecond,
    Microsecond,
    Nanosecond,
}

/// The unit of a calendar interval.
#[derive(Debug, Clone, Copy, PartialEq, Eq, Hash, Structural)]
pub enum IntervalUnit {
    YearMonth,
    DayTime,
    MonthDayNano,
    MonthDayMillis,
}

/// The integer type of dictionary keys.
#[derive(Debug, Clone, Copy, PartialEq, Eq, Hash, Structural)]
pub enum IntegerType {
    Int8,
    Int16,
    Int32,
    Int64,
    Int128,
    UInt8,
    UInt16,
    UInt32,
    UInt64,
    UInt128,
}

/// The in-memory type of a fixed-width value.
#[derive(Debug, Clone, Copy, PartialEq, Eq, Hash, Structural)]
pub enum PrimitiveType {
    Int8,
    Int16,
    Int32,
    Int64,
    Int128,
    Int256,
    UInt8,
    UInt16,
    UInt32,
    UInt64,
    UInt128,
    Float16,
    Float32,
    Float64,
    DaysMs,
    MonthDayNano,
    MonthDayMillis,
}

/// The in-memory layout of a column.
#[derive(Debug, Clone, Copy, PartialEq, Eq, Hash, Structural)]
pub enum PhysicalType {
    Null,
    Boolean,
    Primitive(PrimitiveType),
    Binary,
    FixedSizeBinary,
    LargeBinary,
    Utf8,
    LargeUtf8,
    BinaryView,
    Utf8View,
    List,
    FixedSizeList,
    LargeList,
    Struct,
    Union,
    MapEntries,
    Dictionary(IntegerType),
}

/// A named member of a nested type.
#[derive(Debug, PartialEq, Eq)]
pub struct Field {
    pub name: String,
    pub dtype: DataType,
    pub is_nullable: bool,
}

/// A type that stands on top of another one.
#[derive(Debug, PartialEq, Eq)]
pub struct ExtensionType {
    pub name: String,
    pub inner: DataType,
    pub metadata: Option<String>,
}

/// The logical type of a column.
#[derive(Debug, PartialEq, Eq)]
pub enum DataType {
    Null,
    Boolean,
    Int8,
    Int16,
    Int32,
    Int64,
    Int128,
    UInt8,
    UInt16,
    UInt32,
    UInt64,
    UInt128,
    Float16,
    Float32,
    Float64,
    Timestamp(TimeUnit, Option<String>),
    Date32,
    Date64,
    Time32(TimeUnit),
    Time64(TimeUnit),
    Duration(TimeUnit),
    Interval(IntervalUnit),
    Binary,
    FixedSizeBinary(usize),
    LargeBinary,
    Utf8,
    LargeUtf8,
    BinaryView,
    Utf8View,
    List(Box<Field>),
    FixedSizeList(Box<Field>, usize),
    LargeList(Box<Field>),
    Struct(Vec<Field>),
    /// Key-value pairs: the member is a struct of the key and the value.
    MapEntries(Box<Field>, bool),
    Dictionary(IntegerType, Box<DataType>, bool),
    /// A number of decimal digits and a scale, held in sixteen bytes.
    Decimal(usize, usize),
    Decimal32(usize, usize),
    Decimal64(usize, usize),
    /// A number of decimal digits and a scale, held in thirty-two bytes.
    Decimal256(usize, usize),
    Extension(Box<ExtensionType>),
    Union(Vec<Field>),
    Unknown,
}

impl DataType {
    /// The type below all extensions.
    pub open spec fn storage(self) -> DataType
        decreases self,
    {
        match self {
            DataType::Extension(ext) => ext.inner.storage(),
            _ => self,
        }
    }

    /// Strips all extensions from the type.
    pub fn to_storage(&self) -> (storage: &DataType)
        ensures
            *storage == self.storage(),
            !(storage is Extension),
            !(self is Extension) ==> storage == self,
        decreases self,
    {
        match self {
            DataType::Extension(ext) => ext.inner.to_storage(),
            _ => self,
        }
    }

    /// The layout of a column of this type, where there is one: the type whose layout is
    /// not known has none.
    pub open spec fn physical(self) -> Option<PhysicalType>
        decreases self,
    {
        match self {
            DataType::Null => Some(PhysicalType::Null),
            DataType::Boolean => Some(PhysicalType::Boolean),
            DataType::Int8 => Some(PhysicalType::Primitive(PrimitiveType::Int8)),
            DataType::Int16 => Some(PhysicalType::Primitive(PrimitiveType::Int16)),
            DataType::Int32
            | DataType::Date32
            | DataType::Time32(_)
            | DataType::Interval(IntervalUnit::YearMonth)
            | DataType::Decimal32(_, _) => Some(PhysicalType::Primitive(PrimitiveType::Int32)),
            DataType::Int64
            | DataType::Date64
            | DataType::Timestamp(_, _)
            | DataType::Time64(_)
            | DataType::Duration(_)
            | DataType::Decimal64(_, _) => Some(PhysicalType::Primitive(PrimitiveType::Int64)),
            DataType::Int128
            | DataType::Decimal(_, _) => Some(PhysicalType::Primitive(PrimitiveType::Int128)),
            DataType::Decimal256(_, _) => Some(PhysicalType::Primitive(PrimitiveType::Int256)),
            DataType::UInt8 => Some(PhysicalType::Primitive(PrimitiveType::UInt8)),
            DataType::UInt16 => Some(PhysicalType::Primitive(PrimitiveType::UInt16)),
            DataType::UInt32 => Some(PhysicalType::Primitive(PrimitiveType::UInt32)),
            DataType::UInt64 => Some(PhysicalType::Primitive(PrimitiveType::UInt64)),
            DataType::UInt128 => Some(PhysicalType::Primitive(PrimitiveType::UInt128)),
            DataType::Float16 => Some(PhysicalType::Primitive(PrimitiveType::Float16)),
            DataType::Float32 => Some(PhysicalType::Primitive(PrimitiveType::Float32)),
            DataType::Float64 => Some(PhysicalType::Primitive(PrimitiveType::Float64)),
            DataType::Interval(IntervalUnit::DayTime) => Some(
                PhysicalType::Primitive(PrimitiveType::DaysMs),
            ),
            DataType::Interval(IntervalUnit::MonthDayNano) => Some(
                PhysicalType::Primitive(PrimitiveType::MonthDayNano),
            ),
            DataType::Interval(IntervalUnit::MonthDayMillis) => Some(
                PhysicalType::Primitive(PrimitiveType::MonthDayMillis),
            ),
            DataType::Binary => Some(PhysicalType::Binary),
            DataType::FixedSizeBinary(_) => Some(PhysicalType::FixedSizeBinary),
            DataType::LargeBinary => Some(PhysicalType::LargeBinary),
            DataType::Utf8 => Some(PhysicalType::Utf8),
            DataType::LargeUtf8 => Some(PhysicalType::LargeUtf8),
            DataType::BinaryView => Some(PhysicalType::BinaryView),
            DataType::Utf8View => Some(PhysicalType::Utf8View),
            DataType::List(_) => Some(PhysicalType::List),
            DataType::FixedSizeList(_, _) => Some(PhysicalType::FixedSizeList),
            DataType::LargeList(_) => Some(PhysicalType::LargeList),
            DataType::Struct(_) => Some(PhysicalType::Struct),
            DataType::MapEntries(_, _) => Some(PhysicalType::MapEntries),
            DataType::Dictionary(key, _, _) => Some(PhysicalType::Dictionary(key)),
            DataType::Extension(ext) => ext.inner.physical(),
            DataType::Union(_) => Some(PhysicalType::Union),
            DataType::Unknown => None,
        }
    }

    /// Whether the layout of a column of this type is known.
    pub fn has_layout(&self) -> (known: bool)
        ensures
            known == (self.physical() is Some),
        decreases self,
    {
        match self {
            DataType::Extension(ext) => ext.inner.has_layout(),
            DataType::Unknown => false,
            _ => true,
        }
    }

    /// The layout of a column of this type.
    pub fn to_physical_type(&self) -> (physical: PhysicalType)
        requires
            self.physical() is Some,
        ensures
            Some(physical) == self.physical(),
        decreases self,
    {
        match self {
            DataType::Null => PhysicalType::Null,
            DataType::Boolean => PhysicalType::Boolean,
            DataType::Int8 => PhysicalType::Primitive(PrimitiveType::Int8),
            DataType::Int16 => PhysicalType::Primitive(PrimitiveType::Int16),
            DataType::Int32
            | DataType::Date32
            | DataType::Time32(_)
            | DataType::Decimal32(_, _) => PhysicalType::Primitive(PrimitiveType::Int32),
            DataType::Int64
            | DataType::Date64
            | DataType::Timestamp(_, _)
            | DataType::Time64(_)
            | DataType::Duration(_)
            | DataType::Decimal64(_, _) => PhysicalType::Primitive(PrimitiveType::Int64),
            DataType::Int128
            | DataType::Decimal(_, _) => PhysicalType::Primitive(PrimitiveType::Int128),
            DataType::Decimal256(_, _) => PhysicalType::Primitive(PrimitiveType::Int256),
            DataType::UInt8 => PhysicalType::Primitive(PrimitiveType::UInt8),
            DataType::UInt16 => PhysicalType::Primitive(PrimitiveType::UInt16),
            DataType::UInt32 => PhysicalType::Primitive(PrimitiveType::UInt32),
            DataType::UInt64 => PhysicalType::Primitive(PrimitiveType::UInt64),
            DataType::UInt128 => PhysicalType::Primitive(PrimitiveType::UInt128),
            DataType::Float16 => PhysicalType::Primitive(PrimitiveType::Float16),
            DataType::Float32 => PhysicalType::Primitive(PrimitiveType::Float32),
            DataType::Float64 => PhysicalType::Primitive(PrimitiveType::Float64),
            DataType::Interval(unit) => match unit {
                IntervalUnit::YearMonth => PhysicalType::Primitive(PrimitiveType::Int32),
                IntervalUnit::DayTime => PhysicalType::Primitive(PrimitiveType::DaysMs),
                IntervalUnit::MonthDayNano => PhysicalType::Primitive(PrimitiveType::MonthDayNano),
                IntervalUnit::MonthDayMillis => PhysicalType::Primitive(
                    PrimitiveType::MonthDayMillis,
                ),
            },
            DataType::Binary => PhysicalType::Binary,
            DataType::FixedSizeBinary(_) => PhysicalType::FixedSizeBinary,
            DataType::LargeBinary => PhysicalType::LargeBinary,
            DataType::Utf8 => PhysicalType::Utf8,
            DataType::LargeUtf8 => PhysicalType::LargeUtf8,
            DataType::BinaryView => PhysicalType::BinaryView,
            DataType::Utf8View => PhysicalType::Utf8View,
            DataType::List(_) => PhysicalType::List,
            DataType::FixedSizeList(_, _) => PhysicalType::FixedSizeList,
            DataType::LargeList(_) => PhysicalType::LargeList,
            DataType::Struct(_) => PhysicalType::Struct,
            DataType::MapEntries(_, _) => PhysicalType::MapEntries,
            DataType::Dictionary(key, _, _) => PhysicalType::Dictionary(*key),
            DataType::Extension(ext) => ext.inner.to_physical_type(),
            DataType::Union(_) => PhysicalType::Union,
            DataType::Unknown => PhysicalType::Null,
        }
    }
}

/// A type that is named like a layout has it, and types with a meaning are held as the numbers that
/// they are counted in: dates, times and intervals of months as integers of 32 or 64 bits, decimals
/// as integers of their width.
pub proof fn law_types_share_layouts(unit: TimeUnit, zone: Option<String>, a: usize, b: usize)
    ensures
        DataType::Date32.physical() == DataType::Int32.physical(),
        DataType::Time32(unit).physical() == DataType::Int32.physical(),
        DataType::Interval(IntervalUnit::YearMonth).physical() == DataType::Int32.physical(),
        DataType::Decimal32(a, b).physical() == DataType::Int32.physical(),
        DataType::Date64.physical() == DataType::Int64.physical(),
        DataType::Time64(unit).physical() == DataType::Int64.physical(),
        DataType::Timestamp(unit, zone).physical() == DataType::Int64.physical(),
        DataType::Duration(unit).physical() == DataType::Int64.physical(),
        DataType::Decimal64(a, b).physical() == DataType::Int64.physical(),
        DataType::Decimal(a, b).physical() == DataType::Int128.physical(),
        DataType::Int32.physical() == Some(PhysicalType::Primitive(PrimitiveType::Int32)),
        DataType::Int64.physical() == Some(PhysicalType::Primitive(PrimitiveType::Int64)),
        DataType::Int128.physical() == Some(PhysicalType::Primitive(PrimitiveType::Int128)),
{
}

/// An extension has the layout of the type below it, and only the unknown type has none.
pub proof fn law_extensions_keep_layout(dtype: DataType)
    ensures
        dtype.physical() == dtype.storage().physical(),
        dtype.physical() is None <==> dtype.storage() is Unknown,
    decreases dtype,
{
    if let DataType::Extension(ext) = dtype {
        law_extensions_keep_layout(ext.inner);
    }
}

} // verus!
