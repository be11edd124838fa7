//! What goes into a page, and which writer writes it.

use vstd::prelude::*;

use crate::array::{copy_mask, copy_strings, count_missing, mask, missing, null_count_as};
use crate::array::unset_bits;
use crate::array::{byte_strings, ArrayView, ColumnArray, DaysMs, I256};
use crate::array::{Values, ValuesView};
use crate::bytes::{be_concat, cast_bytes, ints, native_concat};
use crate::convert::{all_to_i32, all_to_i64, days_concat, months_concat};
use crate::convert::{to_be_images, to_days_images, to_i32s, to_i64s, to_months_images};
use crate::convert::{unset_mask, wide_to_all_be_images, zeros};
use crate::datatype::{DataType, IntervalUnit, PhysicalType, PrimitiveType};
use crate::decimal::{decimal_length_from_precision, decimal_size, MAX_PRECISION};
use crate::error::{WriteError, WriteErrorView};
use crate::nested::Nested;
use crate::options::{Encoding, StatisticsOptions, WriteOptions};
use crate::parquet::{ParquetPrimitiveType, Repetition};

verus! {

/// The writer of a page, and for numbers the type in memory and the type that is stored.
#[derive(Debug, Clone, Copy, PartialEq, Eq, Structural)]
pub enum PageWriter {
    Boolean,
    Integer(PrimitiveType, PrimitiveType),
    Plain(PrimitiveType, PrimitiveType),
    Binary,
    BinaryView,
    FixedSizeBinary,
    NestedBoolean,
    NestedPrimitive(PrimitiveType, PrimitiveType),
    NestedBinary,
    NestedBinaryView,
    NestedFixedSizeBinary,
}

/// From what the statistics of a page of byte strings of one size are taken.
#[derive(Debug, Clone, Copy, PartialEq, Eq, Structural)]
pub enum StatisticsSource {
    /// The half precision numbers of the column.
    Float16,
    /// The byte strings that are written.
    FixedSizeBinary,
    /// The integers of the column, written in so many bytes.
    Decimal(usize),
    /// The lower halves of the wide integers of the column, written in so many bytes.
    Decimal256WithI128(usize),
    /// The wide integers of the column, written in so many bytes.
    Decimal256(usize),
}

/// The statistics that a page of byte strings of one size gets.
#[derive(Debug, Clone, Copy, PartialEq, Eq, Structural)]
pub struct StatisticsRequest {
    pub source: StatisticsSource,
    pub options: StatisticsOptions,
}

/// What is written.
#[derive(Debug, PartialEq, Eq)]
pub enum PageInput {
    /// The column as it is.
    Array,
    /// These values, with this mask.
    Converted(Values, Option<Vec<bool>>),
}

/// What is written.
#[verifier::ext_equal]
pub enum PageInputView {
    Array,
    Converted(ArrayView),
}

impl View for PageInput {
    type V = PageInputView;

    open spec fn view(&self) -> PageInputView {
        match self {
            PageInput::Array => PageInputView::Array,
            PageInput::Converted(values, validity) => PageInputView::Converted(
                ArrayView { values: values@, validity: mask(*validity) },
            ),
        }
    }
}

/// A page to be written. Where there is no encoding, the writer has only one.
#[derive(Debug, PartialEq, Eq)]
pub struct PageRequest {
    pub writer: PageWriter,
    pub input: PageInput,
    pub options: WriteOptions,
    pub encoding: Option<Encoding>,
    pub statistics: Option<StatisticsRequest>,
}

/// A page to be written.
#[verifier::ext_equal]
pub struct PageRequestView {
    pub writer: PageWriter,
    pub input: PageInputView,
    pub options: WriteOptions,
    pub encoding: Option<Encoding>,
    pub statistics: Option<StatisticsRequest>,
}

impl View for PageRequest {
    type V = PageRequestView;

    open spec fn view(&self) -> PageRequestView {
        PageRequestView {
            writer: self.writer,
            input: self.input@,
            options: self.options,
            encoding: self.encoding,
            statistics: self.statistics,
        }
    }
}

/// The request of a result, or its error.
pub open spec fn request_view(request: Result<PageRequest, WriteError<'_>>) -> Result<
    PageRequestView,
    WriteErrorView,
> {
    match request {
        Ok(request) => Ok(request@),
        Err(error) => Err(error@),
    }
}

/// The page of an option.
pub open spec fn optional_view(request: Option<PageRequest>) -> Option<PageRequestView> {
    match request {
        Some(request) => Some(request@),
        None => None,
    }
}

/// The integers of a column.
pub open spec fn int_values(array: ArrayView) -> Seq<int> {
    match array.values {
        ValuesView::Ints(_, values) => values,
        _ => Seq::empty(),
    }
}

/// The byte strings of a column.
pub open spec fn string_values(array: ArrayView) -> Seq<Seq<u8>> {
    match array.values {
        ValuesView::Bytes(_, items) => items,
        _ => Seq::empty(),
    }
}

/// The intervals of a column.
pub open spec fn interval_values(array: ArrayView) -> Seq<DaysMs> {
    match array.values {
        ValuesView::Intervals(values) => values,
        _ => Seq::empty(),
    }
}

/// So many bits that are not set.
pub open spec fn no_bits(len: nat) -> Seq<bool> {
    Seq::new(len, |i: int| false)
}

/// The encoding that the writer is told: below other levels, none.
pub open spec fn told_encoding(nested: bool, encoding: Encoding) -> Option<Encoding> {
    if nested {
        None
    } else {
        Some(encoding)
    }
}

/// The statistics of this source, where any are asked for.
pub open spec fn asked_statistics(source: StatisticsSource, options: WriteOptions) -> Option<
    StatisticsRequest,
> {
    if options.statistics.none_asked() {
        None
    } else {
        Some(StatisticsRequest { source, options: options.statistics })
    }
}

/// The writer of booleans.
pub open spec fn boolean_writer(nested: bool) -> PageWriter {
    if nested {
        PageWriter::NestedBoolean
    } else {
        PageWriter::Boolean
    }
}

/// The page that holds the column as it is.
pub open spec fn plain_page(
    writer: PageWriter,
    options: WriteOptions,
    encoding: Option<Encoding>,
) -> PageRequestView {
    PageRequestView { writer, input: PageInputView::Array, options, encoding, statistics: None }
}

/// The page of integers that are held as one type and stored as another.
pub open spec fn integer_page(
    nested: bool,
    from: PrimitiveType,
    to: PrimitiveType,
    options: WriteOptions,
    encoding: Encoding,
) -> PageRequestView {
    plain_page(
        if nested {
            PageWriter::NestedPrimitive(from, to)
        } else {
            PageWriter::Integer(from, to)
        },
        options,
        told_encoding(nested, encoding),
    )
}

/// The page of numbers that are stored as they are held, in the plain encoding.
pub open spec fn number_page(
    nested: bool,
    primitive: PrimitiveType,
    options: WriteOptions,
) -> PageRequestView {
    plain_page(
        if nested {
            PageWriter::NestedPrimitive(primitive, primitive)
        } else {
            PageWriter::Plain(primitive, primitive)
        },
        options,
        None,
    )
}

/// The page that holds other values than the column, under the same mask.
pub open spec fn converted_page(
    page: PageRequestView,
    values: ValuesView,
    validity: Option<Seq<bool>>,
) -> PageRequestView {
    PageRequestView { input: PageInputView::Converted(ArrayView { values, validity }), ..page }
}

/// The page of byte strings of one size.
pub open spec fn fixed_size_page(
    nested: bool,
    size: nat,
    bytes: Seq<u8>,
    validity: Option<Seq<bool>>,
    options: WriteOptions,
    source: StatisticsSource,
) -> PageRequestView {
    PageRequestView {
        writer: if nested {
            PageWriter::NestedFixedSizeBinary
        } else {
            PageWriter::FixedSizeBinary
        },
        input: PageInputView::Converted(
            ArrayView { values: ValuesView::FixedSizeBinary(size, bytes), validity },
        ),
        options,
        encoding: None,
        statistics: asked_statistics(source, options),
    }
}

/// The page of decimal numbers that fit into 32 or 64 bits.
pub open spec fn small_decimal_page(
    nested: bool,
    precision: nat,
    array: ArrayView,
    options: WriteOptions,
    encoding: Encoding,
) -> PageRequestView {
    if precision <= 9 {
        converted_page(
            integer_page(nested, PrimitiveType::Int32, PrimitiveType::Int32, options, encoding),
            ValuesView::Ints(PrimitiveType::Int32, all_to_i32(int_values(array))),
            array.validity,
        )
    } else {
        converted_page(
            integer_page(nested, PrimitiveType::Int64, PrimitiveType::Int64, options, encoding),
            ValuesView::Ints(PrimitiveType::Int64, all_to_i64(int_values(array))),
            array.validity,
        )
    }
}

/// The page of decimal numbers of up to 38 digits.
pub open spec fn decimal_page(
    nested: bool,
    precision: nat,
    array: ArrayView,
    options: WriteOptions,
    encoding: Encoding,
    source: StatisticsSource,
) -> PageRequestView {
    if precision <= 18 {
        small_decimal_page(nested, precision, array, options, encoding)
    } else {
        fixed_size_page(
            nested,
            decimal_size(precision),
            be_concat(int_values(array), decimal_size(precision)),
            array.validity,
            options,
            source,
        )
    }
}

/// The options without the least and the greatest value.
pub open spec fn without_extremes(options: WriteOptions) -> WriteOptions {
    WriteOptions {
        statistics: StatisticsOptions {
            min_value: false,
            max_value: false,
            ..options.statistics
        },
        ..options
    }
}

/// The type in which the integers of a column are held and the one in which they are stored, where
/// the column is one of integers.
pub open spec fn stored_integers(dtype: DataType) -> Option<(PrimitiveType, PrimitiveType)> {
    match dtype {
        DataType::UInt8 => Some((PrimitiveType::UInt8, PrimitiveType::Int32)),
        DataType::UInt16 => Some((PrimitiveType::UInt16, PrimitiveType::Int32)),
        DataType::UInt32 => Some((PrimitiveType::UInt32, PrimitiveType::Int32)),
        DataType::UInt64 => Some((PrimitiveType::UInt64, PrimitiveType::Int64)),
        DataType::Int8 => Some((PrimitiveType::Int8, PrimitiveType::Int32)),
        DataType::Int16 => Some((PrimitiveType::Int16, PrimitiveType::Int32)),
        DataType::Int32
        | DataType::Date32
        | DataType::Time32(_) => Some((PrimitiveType::Int32, PrimitiveType::Int32)),
        DataType::Int64
        | DataType::Date64
        | DataType::Time64(_)
        | DataType::Timestamp(_, _)
        | DataType::Duration(_) => Some((PrimitiveType::Int64, PrimitiveType::Int64)),
        _ => None,
    }
}

/// The page of a leaf column of this type, which is no extension: with `nested`, one below other
/// levels. There is none for a type that has no leaf column.
pub open spec fn leaf_page(
    nested: bool,
    dtype: DataType,
    array: ArrayView,
    options: WriteOptions,
    encoding: Encoding,
) -> Option<PageRequestView> {
    match stored_integers(dtype) {
        Some((from, to)) => Some(integer_page(nested, from, to, options, encoding)),
        None => other_leaf_page(nested, dtype, array, options, encoding),
    }
}

/// The page of a leaf column whose type is none of the integers.
pub open spec fn other_leaf_page(
    nested: bool,
    dtype: DataType,
    array: ArrayView,
    options: WriteOptions,
    encoding: Encoding,
) -> Option<PageRequestView> {
    match dtype {
        DataType::Null => Some(
            converted_page(
                number_page(nested, PrimitiveType::Int32, options),
                ValuesView::Ints(
                    PrimitiveType::Int32,
                    Seq::new(array.len(), |i: int| 0int),
                ),
                Some(no_bits(array.len())),
            ),
        ),
        DataType::Struct(fields) => if fields@.len() == 0 {
            Some(
                converted_page(
                    plain_page(boolean_writer(nested), options, told_encoding(nested, encoding)),
                    ValuesView::Booleans(no_bits(array.len())),
                    array.validity,
                ),
            )
        } else {
            None
        },
        DataType::Boolean => Some(
            plain_page(boolean_writer(nested), options, told_encoding(nested, encoding)),
        ),
        DataType::Float16 => Some(
            fixed_size_page(
                nested,
                2,
                native_concat(int_values(array), 2),
                array.validity,
                options,
                StatisticsSource::Float16,
            ),
        ),
        DataType::Float32 => Some(number_page(nested, PrimitiveType::Float32, options)),
        DataType::Float64 => Some(number_page(nested, PrimitiveType::Float64, options)),
        DataType::LargeUtf8 => Some(
            converted_page(
                large_binary_page(nested, options, encoding),
                ValuesView::Bytes(PhysicalType::LargeBinary, string_values(array)),
                array.validity,
            ),
        ),
        DataType::LargeBinary => Some(large_binary_page(nested, options, encoding)),
        DataType::Utf8View => Some(
            converted_page(
                binary_view_page(nested, options, encoding),
                ValuesView::Bytes(PhysicalType::BinaryView, string_values(array)),
                array.validity,
            ),
        ),
        DataType::BinaryView => Some(binary_view_page(nested, options, encoding)),
        DataType::Interval(IntervalUnit::YearMonth) => if nested {
            None
        } else {
            Some(
                fixed_size_page(
                    nested,
                    12,
                    months_concat(int_values(array)),
                    array.validity,
                    options,
                    StatisticsSource::FixedSizeBinary,
                ),
            )
        },
        DataType::Interval(IntervalUnit::DayTime) => if nested {
            None
        } else {
            Some(
                fixed_size_page(
                    nested,
                    12,
                    days_concat(interval_values(array)),
                    array.validity,
                    options,
                    StatisticsSource::FixedSizeBinary,
                ),
            )
        },
        DataType::FixedSizeBinary(_) => if nested {
            None
        } else {
            Some(
                PageRequestView {
                    statistics: asked_statistics(StatisticsSource::FixedSizeBinary, options),
                    ..plain_page(PageWriter::FixedSizeBinary, options, None)
                },
            )
        },
        DataType::Decimal(precision, _) => Some(
            decimal_page(
                nested,
                precision as nat,
                array,
                options,
                encoding,
                StatisticsSource::Decimal(decimal_size(precision as nat) as usize),
            ),
        ),
        DataType::Decimal256(precision, _) => if precision <= MAX_PRECISION {
            Some(
                decimal_page(
                    nested,
                    precision as nat,
                    array,
                    options,
                    encoding,
                    StatisticsSource::Decimal256WithI128(decimal_size(precision as nat) as usize),
                ),
            )
        } else {
            Some(
                fixed_size_page(
                    nested,
                    32,
                    be_concat(int_values(array), 32),
                    array.validity,
                    options,
                    StatisticsSource::Decimal256(32),
                ),
            )
        },
        DataType::UInt128 => Some(
            fixed_size_page(
                nested,
                16,
                native_concat(int_values(array), 16),
                array.validity,
                options,
                StatisticsSource::Decimal(16),
            ),
        ),
        DataType::Int128 => Some(
            fixed_size_page(
                nested,
                16,
                native_concat(int_values(array), 16),
                array.validity,
                if nested {
                    without_extremes(options)
                } else {
                    options
                },
                StatisticsSource::Decimal(16),
            ),
        ),
        _ => None,
    }
}

/// The page of byte strings.
pub open spec fn large_binary_page(
    nested: bool,
    options: WriteOptions,
    encoding: Encoding,
) -> PageRequestView {
    plain_page(
        if nested {
            PageWriter::NestedBinary
        } else {
            PageWriter::Binary
        },
        options,
        told_encoding(nested, encoding),
    )
}

/// The page of viewed byte strings.
pub open spec fn binary_view_page(
    nested: bool,
    options: WriteOptions,
    encoding: Encoding,
) -> PageRequestView {
    plain_page(
        if nested {
            PageWriter::NestedBinaryView
        } else {
            PageWriter::BinaryView
        },
        options,
        told_encoding(nested, encoding),
    )
}

/// The page of a column without levels above it.
pub open spec fn flat_page(
    dtype: DataType,
    array: ArrayView,
    type_: ParquetPrimitiveType,
    options: WriteOptions,
    encoding: Encoding,
) -> Result<PageRequestView, WriteErrorView>
    decreases dtype,
{
    if is_required(type_) && null_count_as(dtype, array) > 0 {
        Err(WriteErrorView::MissingValue(type_.field_info.name@))
    } else {
        match dtype {
            DataType::Extension(ext) => flat_page(ext.inner, array, type_, options, encoding),
            _ => match leaf_page(false, dtype, array, options, encoding) {
                Some(page) => Ok(page),
                None => Err(WriteErrorView::UnsupportedType(dtype)),
            },
        }
    }
}

/// The page of a column below other levels.
pub open spec fn nested_page(
    dtype: DataType,
    array: ArrayView,
    type_: ParquetPrimitiveType,
    options: WriteOptions,
    encoding: Encoding,
) -> Result<PageRequestView, WriteErrorView> {
    if is_required(type_) && missing(array.validity) > 0 {
        Err(WriteErrorView::MissingValue(type_.field_info.name@))
    } else {
        match leaf_page(true, dtype.storage(), array, options, encoding) {
            Some(page) => Ok(page),
            None => Err(WriteErrorView::UnsupportedNestedType(dtype.storage())),
        }
    }
}

/// The page of a column with so many levels.
pub open spec fn page_of(
    dtype: DataType,
    array: ArrayView,
    levels: nat,
    type_: ParquetPrimitiveType,
    options: WriteOptions,
    encoding: Encoding,
) -> Result<PageRequestView, WriteErrorView> {
    if levels == 1 {
        flat_page(dtype, array, type_, options, encoding)
    } else {
        nested_page(dtype, array, type_, options, encoding)
    }
}

/// Whether a decimal type has no more digits than its numbers can have.
pub open spec fn digits_fit(dtype: DataType) -> bool {
    dtype.storage() matches DataType::Decimal(precision, _) ==> precision <= MAX_PRECISION
}

/// Whether a decimal type has no more digits than its numbers can have.
pub fn has_fitting_digits(dtype: &DataType) -> (fitting: bool)
    ensures
        fitting == digits_fit(*dtype),
        fitting <==> !(dtype.storage() matches DataType::Decimal(precision, _) && precision > 38),
{
    match dtype.to_storage() {
        DataType::Decimal(precision, _) => *precision <= MAX_PRECISION,
        _ => true,
    }
}

/// Whether no value may be missing in a column.
pub open spec fn is_required(type_: ParquetPrimitiveType) -> bool {
    type_.field_info.repetition is Required
}

/// Whether no value may be missing in a column.
fn no_value_may_miss(type_: &ParquetPrimitiveType) -> (required: bool)
    ensures
        required == is_required(*type_),
{
    matches!(type_.field_info.repetition, Repetition::Required)
}

/// The statistics of this source, where any are asked for.
fn ask(source: StatisticsSource, options: WriteOptions) -> (request: Option<StatisticsRequest>)
    ensures
        request == asked_statistics(source, options),
{
    if options.has_statistics() {
        Some(StatisticsRequest { source, options: options.statistics })
    } else {
        None
    }
}

/// The page that holds the column as it is.
fn request_plain(writer: PageWriter, options: WriteOptions, encoding: Option<Encoding>) -> (request:
    PageRequest)
    ensures
        request@ == plain_page(writer, options, encoding),
{
    PageRequest { writer, input: PageInput::Array, options, encoding, statistics: None }
}

/// The encoding that the writer is told.
fn tell(nested: bool, encoding: Encoding) -> (told: Option<Encoding>)
    ensures
        told == told_encoding(nested, encoding),
{
    if nested {
        None
    } else {
        Some(encoding)
    }
}

/// The page of integers.
fn request_integers(
    nested: bool,
    from: PrimitiveType,
    to: PrimitiveType,
    options: WriteOptions,
    encoding: Encoding,
) -> (request: PageRequest)
    ensures
        request@ == integer_page(nested, from, to, options, encoding),
{
    let writer: PageWriter = if nested {
        PageWriter::NestedPrimitive(from, to)
    } else {
        PageWriter::Integer(from, to)
    };
    request_plain(writer, options, tell(nested, encoding))
}

/// The page of numbers that are stored as they are held.
fn request_numbers(nested: bool, primitive: PrimitiveType, options: WriteOptions) -> (request:
    PageRequest)
    ensures
        request@ == number_page(nested, primitive, options),
{
    let writer: PageWriter = if nested {
        PageWriter::NestedPrimitive(primitive, primitive)
    } else {
        PageWriter::Plain(primitive, primitive)
    };
    request_plain(writer, options, None)
}

/// The page of booleans.
fn request_booleans(nested: bool, options: WriteOptions, encoding: Encoding) -> (request:
    PageRequest)
    ensures
        request@ == plain_page(boolean_writer(nested), options, told_encoding(nested, encoding)),
{
    let writer: PageWriter = if nested {
        PageWriter::NestedBoolean
    } else {
        PageWriter::Boolean
    };
    request_plain(writer, options, tell(nested, encoding))
}

/// The page of byte strings.
fn request_large_binary(nested: bool, options: WriteOptions, encoding: Encoding) -> (request:
    PageRequest)
    ensures
        request@ == large_binary_page(nested, options, encoding),
{
    let writer: PageWriter = if nested {
        PageWriter::NestedBinary
    } else {
        PageWriter::Binary
    };
    request_plain(writer, options, tell(nested, encoding))
}

/// The page of viewed byte strings.
fn request_binary_view(nested: bool, options: WriteOptions, encoding: Encoding) -> (request:
    PageRequest)
    ensures
        request@ == binary_view_page(nested, options, encoding),
{
    let writer: PageWriter = if nested {
        PageWriter::NestedBinaryView
    } else {
        PageWriter::BinaryView
    };
    request_plain(writer, options, tell(nested, encoding))
}

/// The same page with other values in place of the column.
fn with_values(request: PageRequest, values: Values, validity: Option<Vec<bool>>) -> (converted:
    PageRequest)
    ensures
        converted@ == converted_page(request@, values@, mask(validity)),
{
    PageRequest { input: PageInput::Converted(values, validity), ..request }
}

/// The page of byte strings of one size.
fn request_fixed_size(
    nested: bool,
    size: usize,
    bytes: Vec<u8>,
    validity: Option<Vec<bool>>,
    options: WriteOptions,
    source: StatisticsSource,
) -> (request: PageRequest)
    ensures
        request@ == fixed_size_page(
            nested,
            size as nat,
            bytes@,
            mask(validity),
            options,
            source,
        ),
{
    PageRequest {
        writer: if nested {
            PageWriter::NestedFixedSizeBinary
        } else {
            PageWriter::FixedSizeBinary
        },
        input: PageInput::Converted(Values::FixedSizeBinary { size, bytes }, validity),
        options,
        encoding: None,
        statistics: ask(source, options),
    }
}

/// Copies of byte strings.
fn copy_all(items: &Vec<Vec<u8>>) -> (copy: Vec<Vec<u8>>)
    ensures
        byte_strings(copy@) == byte_strings(items@),
{
    assert(byte_strings(items@).subrange(0, items@.len() as int) =~= byte_strings(items@));
    copy_strings(items, 0, items.len())
}

/// The page of decimal numbers in sixteen bytes each.
fn request_decimals(
    nested: bool,
    precision: usize,
    values: &Vec<i128>,
    validity: Option<Vec<bool>>,
    options: WriteOptions,
    encoding: Encoding,
) -> (request: PageRequest)
    requires
        precision <= MAX_PRECISION,
    ensures
        request@ == decimal_page(
            nested,
            precision as nat,
            (ArrayView {
                values: ValuesView::Ints(PrimitiveType::Int128, ints(values@)),
                validity: mask(validity),
            }),
            options,
            encoding,
            StatisticsSource::Decimal(decimal_size(precision as nat) as usize),
        ),
{
    if precision <= 9 {
        let request: PageRequest = request_integers(
            nested,
            PrimitiveType::Int32,
            PrimitiveType::Int32,
            options,
            encoding,
        );
        with_values(request, Values::Int32(to_i32s(values)), validity)
    } else if precision <= 18 {
        let request: PageRequest = request_integers(
            nested,
            PrimitiveType::Int64,
            PrimitiveType::Int64,
            options,
            encoding,
        );
        with_values(request, Values::Int64(to_i64s(values)), validity)
    } else {
        let size: usize = decimal_length_from_precision(precision);
        request_fixed_size(
            nested,
            size,
            to_be_images(values, size),
            validity,
            options,
            StatisticsSource::Decimal(size),
        )
    }
}

/// The page of decimal numbers in thirty-two bytes each.
fn request_wide_decimals(
    nested: bool,
    precision: usize,
    values: &Vec<I256>,
    validity: Option<Vec<bool>>,
    options: WriteOptions,
    encoding: Encoding,
) -> (request: PageRequest)
    ensures
        Some(request@) == other_leaf_page(
            nested,
            DataType::Decimal256(precision, 0),
            (ArrayView {
                values: ValuesView::Ints(PrimitiveType::Int256, ints(values@)),
                validity: mask(validity),
            }),
            options,
            encoding,
        ),
{
    if precision <= 9 {
        let request: PageRequest = request_integers(
            nested,
            PrimitiveType::Int32,
            PrimitiveType::Int32,
            options,
            encoding,
        );
        with_values(request, Values::Int32(to_i32s(values)), validity)
    } else if precision <= 18 {
        let request: PageRequest = request_integers(
            nested,
            PrimitiveType::Int64,
            PrimitiveType::Int64,
            options,
            encoding,
        );
        with_values(request, Values::Int64(to_i64s(values)), validity)
    } else if precision <= MAX_PRECISION {
        let size: usize = decimal_length_from_precision(precision);
        request_fixed_size(
            nested,
            size,
            to_be_images(values, size),
            validity,
            options,
            StatisticsSource::Decimal256WithI128(size),
        )
    } else {
        request_fixed_size(
            nested,
            32,
            wide_to_all_be_images(values),
            validity,
            options,
            StatisticsSource::Decimal256(32),
        )
    }
}

/// The types in which the integers of a column are held and stored.
fn integer_types(dtype: &DataType) -> (types: Option<(PrimitiveType, PrimitiveType)>)
    ensures
        types == stored_integers(*dtype),
{
    // casts below MUST match the casts done at the metadata (field -> parquet type).
    match dtype {
        DataType::UInt8 => Some((PrimitiveType::UInt8, PrimitiveType::Int32)),
        DataType::UInt16 => Some((PrimitiveType::UInt16, PrimitiveType::Int32)),
        DataType::UInt32 => Some((PrimitiveType::UInt32, PrimitiveType::Int32)),
        DataType::UInt64 => Some((PrimitiveType::UInt64, PrimitiveType::Int64)),
        DataType::Int8 => Some((PrimitiveType::Int8, PrimitiveType::Int32)),
        DataType::Int16 => Some((PrimitiveType::Int16, PrimitiveType::Int32)),
        DataType::Int32 | DataType::Date32 | DataType::Time32(_) => Some(
            (PrimitiveType::Int32, PrimitiveType::Int32),
        ),
        DataType::Int64
        | DataType::Date64
        | DataType::Time64(_)
        | DataType::Timestamp(_, _)
        | DataType::Duration(_) => Some((PrimitiveType::Int64, PrimitiveType::Int64)),
        _ => None,
    }
}

/// The page of a leaf column of this type, where there is one.
fn request_leaf(
    nested: bool,
    dtype: &DataType,
    array: &ColumnArray<'_>,
    options: WriteOptions,
    encoding: Encoding,
) -> (request: Option<PageRequest>)
    requires
        array@.is_whole(),
        !(dtype is Extension),
        dtype.physical() matches Some(layout) ==> array@.values.has_layout(layout),
        digits_fit(*dtype),
    ensures
        optional_view(request) == leaf_page(nested, *dtype, array@, options, encoding),
{
    match integer_types(dtype) {
        Some((from, to)) => Some(request_integers(nested, from, to, options, encoding)),
        None => request_other_leaf(nested, dtype, array, options, encoding),
    }
}

/// The page of half precision numbers.
fn request_halves(nested: bool, array: &ColumnArray<'_>, options: WriteOptions) -> (request: Option<
    PageRequest,
>)
    requires
        array@.values.has_layout(PhysicalType::Primitive(PrimitiveType::Float16)),
    ensures
        optional_view(request) == other_leaf_page(
            nested,
            DataType::Float16,
            array@,
            options,
            Encoding::Plain,
        ),
{
    match &array.values {
        Values::Float16(values) => Some(
            request_fixed_size(
                nested,
                2,
                cast_bytes(values.as_slice()),
                copy_mask(&array.validity),
                options,
                StatisticsSource::Float16,
            ),
        ),
        _ => None,
    }
}

/// The page of unsigned integers of sixteen bytes.
fn request_unsigned(nested: bool, array: &ColumnArray<'_>, options: WriteOptions) -> (request:
    Option<PageRequest>)
    requires
        array@.values.has_layout(PhysicalType::Primitive(PrimitiveType::UInt128)),
    ensures
        optional_view(request) == other_leaf_page(
            nested,
            DataType::UInt128,
            array@,
            options,
            Encoding::Plain,
        ),
{
    match &array.values {
        Values::UInt128(values) => Some(
            request_fixed_size(
                nested,
                16,
                cast_bytes(values.as_slice()),
                copy_mask(&array.validity),
                options,
                StatisticsSource::Decimal(16),
            ),
        ),
        _ => None,
    }
}

/// The page of signed integers of sixteen bytes.
fn request_signed(nested: bool, array: &ColumnArray<'_>, options: WriteOptions) -> (request: Option<
    PageRequest,
>)
    requires
        array@.values.has_layout(PhysicalType::Primitive(PrimitiveType::Int128)),
    ensures
        optional_view(request) == other_leaf_page(
            nested,
            DataType::Int128,
            array@,
            options,
            Encoding::Plain,
        ),
{
    let mut told: WriteOptions = options;
    if nested {
        // The order of signed 128-bit integers is not that of their bytes.
        told.statistics.min_value = false;
        told.statistics.max_value = false;
    }
    match &array.values {
        Values::Int128(values) => Some(
            request_fixed_size(
                nested,
                16,
                cast_bytes(values.as_slice()),
                copy_mask(&array.validity),
                told,
                StatisticsSource::Decimal(16),
            ),
        ),
        _ => None,
    }
}

/// The page of strings.
fn request_strings(
    nested: bool,
    array: &ColumnArray<'_>,
    options: WriteOptions,
    encoding: Encoding,
) -> (request: Option<PageRequest>)
    requires
        array@.values.has_layout(PhysicalType::LargeUtf8),
    ensures
        optional_view(request) == other_leaf_page(
            nested,
            DataType::LargeUtf8,
            array@,
            options,
            encoding,
        ),
{
    match &array.values {
        Values::LargeUtf8(items) => {
            let request: PageRequest = request_large_binary(nested, options, encoding);
            Some(
                with_values(
                    request,
                    Values::LargeBinary(copy_all(items)),
                    copy_mask(&array.validity),
                ),
            )
        },
        _ => None,
    }
}

/// The page of viewed strings.
fn request_viewed_strings(
    nested: bool,
    array: &ColumnArray<'_>,
    options: WriteOptions,
    encoding: Encoding,
) -> (request: Option<PageRequest>)
    requires
        array@.values.has_layout(PhysicalType::Utf8View),
    ensures
        optional_view(request) == other_leaf_page(
            nested,
            DataType::Utf8View,
            array@,
            options,
            encoding,
        ),
{
    match &array.values {
        Values::Utf8View(items) => {
            let request: PageRequest = request_binary_view(nested, options, encoding);
            Some(
                with_values(
                    request,
                    Values::BinaryView(copy_all(items)),
                    copy_mask(&array.validity),
                ),
            )
        },
        _ => None,
    }
}

/// The page of intervals of months.
fn request_months(nested: bool, array: &ColumnArray<'_>, options: WriteOptions) -> (request: Option<
    PageRequest,
>)
    requires
        array@.values.has_layout(PhysicalType::Primitive(PrimitiveType::Int32)),
    ensures
        optional_view(request) == other_leaf_page(
            nested,
            DataType::Interval(IntervalUnit::YearMonth),
            array@,
            options,
            Encoding::Plain,
        ),
{
    match &array.values {
        Values::Int32(values) => if nested {
            None
        } else {
            Some(
                request_fixed_size(
                    nested,
                    12,
                    to_months_images(values),
                    copy_mask(&array.validity),
                    options,
                    StatisticsSource::FixedSizeBinary,
                ),
            )
        },
        _ => None,
    }
}

/// The page of intervals of days.
fn request_days(nested: bool, array: &ColumnArray<'_>, options: WriteOptions) -> (request: Option<
    PageRequest,
>)
    requires
        array@.values.has_layout(PhysicalType::Primitive(PrimitiveType::DaysMs)),
    ensures
        optional_view(request) == other_leaf_page(
            nested,
            DataType::Interval(IntervalUnit::DayTime),
            array@,
            options,
            Encoding::Plain,
        ),
{
    match &array.values {
        Values::DaysMs(values) => if nested {
            None
        } else {
            Some(
                request_fixed_size(
                    nested,
                    12,
                    to_days_images(values),
                    copy_mask(&array.validity),
                    options,
                    StatisticsSource::FixedSizeBinary,
                ),
            )
        },
        _ => None,
    }
}

/// The page of byte strings of one size.
fn request_fixed_size_column(nested: bool, options: WriteOptions) -> (request: Option<PageRequest>)
    ensures
        optional_view(request) == (if nested {
            None
        } else {
            Some(
                PageRequestView {
                    statistics: asked_statistics(StatisticsSource::FixedSizeBinary, options),
                    ..plain_page(PageWriter::FixedSizeBinary, options, None)
                },
            )
        }),
{
    if nested {
        None
    } else {
        Some(
            PageRequest {
                statistics: ask(StatisticsSource::FixedSizeBinary, options),
                ..request_plain(PageWriter::FixedSizeBinary, options, None)
            },
        )
    }
}

/// The page of a column without values.
fn request_nothing(nested: bool, array: &ColumnArray<'_>, options: WriteOptions) -> (request:
    PageRequest)
    requires
        array@.is_whole(),
    ensures
        Some(request@) == other_leaf_page(
            nested,
            DataType::Null,
            array@,
            options,
            Encoding::Plain,
        ),
{
    let request: PageRequest = request_numbers(nested, PrimitiveType::Int32, options);
    let len: usize = array.len();
    with_values(request, Values::Int32(zeros(len)), Some(unset_mask(len)))
}

/// The page of structs without members: booleans with the same mask.
fn request_empty_structs(
    nested: bool,
    array: &ColumnArray<'_>,
    options: WriteOptions,
    encoding: Encoding,
) -> (request: PageRequest)
    requires
        array@.is_whole(),
    ensures
        request@ == converted_page(
            plain_page(boolean_writer(nested), options, told_encoding(nested, encoding)),
            ValuesView::Booleans(no_bits(array@.len())),
            array@.validity,
        ),
{
    let request: PageRequest = request_booleans(nested, options, encoding);
    with_values(
        request,
        Values::Boolean(unset_mask(array.len())),
        copy_mask(&array.validity),
    )
}

/// The page of decimal numbers.
fn request_decimal_column(
    nested: bool,
    precision: usize,
    array: &ColumnArray<'_>,
    options: WriteOptions,
    encoding: Encoding,
) -> (request: Option<PageRequest>)
    requires
        precision <= MAX_PRECISION,
        array@.values.has_layout(PhysicalType::Primitive(PrimitiveType::Int128)),
    ensures
        optional_view(request) == Some(
            decimal_page(
                nested,
                precision as nat,
                array@,
                options,
                encoding,
                StatisticsSource::Decimal(decimal_size(precision as nat) as usize),
            ),
        ),
{
    match &array.values {
        Values::Int128(values) => Some(
            request_decimals(
                nested,
                precision,
                values,
                copy_mask(&array.validity),
                options,
                encoding,
            ),
        ),
        _ => None,
    }
}

/// The page of wide decimal numbers.
fn request_wide_decimal_column(
    nested: bool,
    precision: usize,
    array: &ColumnArray<'_>,
    options: WriteOptions,
    encoding: Encoding,
) -> (request: Option<PageRequest>)
    requires
        array@.values.has_layout(PhysicalType::Primitive(PrimitiveType::Int256)),
    ensures
        optional_view(request) == other_leaf_page(
            nested,
            DataType::Decimal256(precision, 0),
            array@,
            options,
            encoding,
        ),
{
    match &array.values {
        Values::Int256(values) => Some(
            request_wide_decimals(
                nested,
                precision,
                values,
                copy_mask(&array.validity),
                options,
                encoding,
            ),
        ),
        _ => None,
    }
}

/// The page of a leaf column whose type is none of the integers.
fn request_other_leaf(
    nested: bool,
    dtype: &DataType,
    array: &ColumnArray<'_>,
    options: WriteOptions,
    encoding: Encoding,
) -> (request: Option<PageRequest>)
    requires
        array@.is_whole(),
        !(dtype is Extension),
        dtype.physical() matches Some(layout) ==> array@.values.has_layout(layout),
        digits_fit(*dtype),
    ensures
        optional_view(request) == other_leaf_page(nested, *dtype, array@, options, encoding),
{
    match dtype {
        DataType::Null => Some(request_nothing(nested, array, options)),
        DataType::Struct(fields) => if fields.len() == 0 {
            Some(request_empty_structs(nested, array, options, encoding))
        } else {
            None
        },
        DataType::Boolean => Some(request_booleans(nested, options, encoding)),
        DataType::Float16 => request_halves(nested, array, options),
        DataType::Float32 => Some(request_numbers(nested, PrimitiveType::Float32, options)),
        DataType::Float64 => Some(request_numbers(nested, PrimitiveType::Float64, options)),
        DataType::LargeUtf8 => request_strings(nested, array, options, encoding),
        DataType::LargeBinary => Some(request_large_binary(nested, options, encoding)),
        DataType::BinaryView => Some(request_binary_view(nested, options, encoding)),
        DataType::Utf8View => request_viewed_strings(nested, array, options, encoding),
        DataType::Interval(IntervalUnit::YearMonth) => request_months(nested, array, options),
        DataType::Interval(IntervalUnit::DayTime) => request_days(nested, array, options),
        DataType::FixedSizeBinary(_) => request_fixed_size_column(nested, options),
        DataType::Decimal(precision, _) => request_decimal_column(
            nested,
            *precision,
            array,
            options,
            encoding,
        ),
        DataType::Decimal256(precision, _) => request_wide_decimal_column(
            nested,
            *precision,
            array,
            options,
            encoding,
        ),
        DataType::UInt128 => request_unsigned(nested, array, options),
        DataType::Int128 => request_signed(nested, array, options),
        _ => None,
    }
}

/// Converts a column to a page based on options, descriptor and `encoding`.
pub fn array_to_page<'a>(
    array: &ColumnArray<'a>,
    type_: &'a ParquetPrimitiveType,
    nested: &[Nested],
    options: WriteOptions,
    encoding: Encoding,
) -> (page: Result<PageRequest, WriteError<'a>>)
    requires
        array.wf(),
        digits_fit(*array.dtype),
    ensures
        request_view(page) == page_of(
            *array.dtype,
            array@,
            nested@.len(),
            *type_,
            options,
            encoding,
        ),
{
    if nested.len() == 1 {
        // special case where validity == def levels
        return array_to_page_simple(array, type_, options, encoding);
    }
    array_to_page_nested(array, type_, options, encoding)
}

/// The number of missing items of a column that is taken for this type.
fn count_nulls(dtype: &DataType, array: &ColumnArray<'_>) -> (count: usize)
    requires
        array@.is_whole(),
    ensures
        count == null_count_as(*dtype, array@),
{
    match dtype {
        DataType::Null => array.len(),
        _ => count_missing(&array.validity),
    }
}

/// Converts a column without levels above it to a page.
pub fn array_to_page_simple<'a>(
    array: &ColumnArray<'a>,
    type_: &'a ParquetPrimitiveType,
    options: WriteOptions,
    encoding: Encoding,
) -> (page: Result<PageRequest, WriteError<'a>>)
    requires
        array.wf(),
        digits_fit(*array.dtype),
    ensures
        request_view(page) == flat_page(
            *array.dtype,
            array@,
            *type_,
            options,
            encoding,
        ),
{
    flat_request(array.dtype, array, type_, options, encoding)
}

/// The page of a column that is taken for this type.
fn flat_request<'a>(
    dtype: &'a DataType,
    array: &ColumnArray<'_>,
    type_: &'a ParquetPrimitiveType,
    options: WriteOptions,
    encoding: Encoding,
) -> (page: Result<PageRequest, WriteError<'a>>)
    requires
        array@.is_whole(),
        dtype.physical() matches Some(layout) && array@.values.has_layout(layout),
        digits_fit(*dtype),
    ensures
        request_view(page) == flat_page(*dtype, array@, *type_, options, encoding),
    decreases dtype,
{
    if no_value_may_miss(type_) && count_nulls(dtype, array) > 0 {
        return Err(WriteError::MissingValue(type_.field_info.name.as_str()));
    }
    match dtype {
        DataType::Extension(ext) => flat_request(&ext.inner, array, type_, options, encoding),
        _ => match request_leaf(false, dtype, array, options, encoding) {
            Some(request) => Ok(request),
            None => Err(WriteError::UnsupportedType(dtype)),
        },
    }
}

/// Below all extensions lies no extension.
pub proof fn lemma_storage(dtype: DataType)
    ensures
        !(dtype.storage() is Extension),
        dtype.storage().physical() == dtype.physical(),
        dtype.storage().storage() == dtype.storage(),
    decreases dtype,
{
    if let DataType::Extension(ext) = dtype {
        lemma_storage(ext.inner);
    }
}

/// Converts a column below other levels to a page.
pub fn array_to_page_nested<'a>(
    array: &ColumnArray<'a>,
    type_: &'a ParquetPrimitiveType,
    options: WriteOptions,
    encoding: Encoding,
) -> (page: Result<PageRequest, WriteError<'a>>)
    requires
        array.wf(),
        digits_fit(*array.dtype),
    ensures
        request_view(page) == nested_page(
            *array.dtype,
            array@,
            *type_,
            options,
            encoding,
        ),
{
    if no_value_may_miss(type_) && count_missing(&array.validity) > 0 {
        return Err(WriteError::MissingValue(type_.field_info.name.as_str()));
    }
    let dtype: &'a DataType = array.dtype.to_storage();
    proof {
        lemma_storage(*array.dtype);
    }
    match request_leaf(true, dtype, array, options, encoding) {
        Some(request) => Ok(request),
        None => Err(WriteError::UnsupportedNestedType(dtype)),
    }
}

/// An extension makes no difference to the page: it is that of the type below.
pub proof fn law_extensions_are_transparent(
    dtype: DataType,
    array: ArrayView,
    type_: ParquetPrimitiveType,
    options: WriteOptions,
    encoding: Encoding,
)
    requires
        array.is_whole(),
    ensures
        flat_page(dtype, array, type_, options, encoding) == flat_page(
            dtype.storage(),
            array,
            type_,
            options,
            encoding,
        ),
        nested_page(dtype, array, type_, options, encoding) == nested_page(
            dtype.storage(),
            array,
            type_,
            options,
            encoding,
        ),
    decreases dtype,
{
    lemma_storage(dtype);
    if let Some(bits) = array.validity {
        lemma_unset_bits(bits);
    }
    if let DataType::Extension(ext) = dtype {
        law_extensions_are_transparent(ext.inner, array, type_, options, encoding);
        lemma_storage(ext.inner);
    }
}

/// A required column gets a page only if no value is missing, and is refused for that reason only
/// if one is; a column that is not required is never refused for it. The refusal names the column.
pub proof fn law_required_pages_have_all_values(
    dtype: DataType,
    array: ArrayView,
    levels: nat,
    type_: ParquetPrimitiveType,
    options: WriteOptions,
    encoding: Encoding,
)
    requires
        array.is_whole(),
    ensures
        is_required(type_) && page_of(dtype, array, levels, type_, options, encoding) is Ok
            ==> missing(array.validity) == 0,
        page_of(dtype, array, levels, type_, options, encoding) matches Err(
            WriteErrorView::MissingValue(column),
        ) ==> {
            &&& column == type_.field_info.name@
            &&& is_required(type_)
            &&& missing(array.validity) > 0 || dtype.storage() is Null
        },
    decreases dtype,
{
    if let Some(bits) = array.validity {
        lemma_unset_bits(bits);
    }
    if let DataType::Extension(ext) = dtype {
        law_required_pages_have_all_values(ext.inner, array, levels, type_, options, encoding);
    }
}

/// No more bits are unset than there are.
proof fn lemma_unset_bits(bits: Seq<bool>)
    ensures
        unset_bits(bits) <= bits.len(),
    decreases bits.len(),
{
    if bits.len() > 0 {
        lemma_unset_bits(bits.drop_last());
    }
}

} // verus!
