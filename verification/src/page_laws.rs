//! What holds of the page of a column, whatever its type.

use vstd::endian::endianness;
use vstd::prelude::*;

use crate::array::{law_none_missing, missing, ArrayView, DaysMs, ValuesView};
use crate::bytes::{be_concat, native_concat};
use crate::convert::{days_concat, law_cut_integers_in_place, law_days_in_place};
use crate::convert::{law_intervals_have_one_width, law_months_in_place, months_concat};
use crate::datatype::{DataType, IntervalUnit, PhysicalType};
use crate::decimal::{decimal_size, law_decimal_size_is_least, law_small_decimals_fit, pow10};
use crate::error::WriteErrorView;
use crate::images::{element_size, law_joined_numbers_in_place, law_numbers_have_one_width};
use crate::options::{Encoding, WriteOptions};
use crate::pages::{digits_fit, int_values, interval_values, law_extensions_are_transparent};
use crate::pages::{leaf_page, lemma_storage, page_of, stored_integers};
use crate::pages::{PageInputView, PageRequestView, PageWriter, StatisticsSource};
use crate::parquet::ParquetPrimitiveType;

verus! {

/// Whether the column has the layout of its type, a bit of the mask for each item, and no more
/// digits than its numbers can have.
pub open spec fn is_column_of(dtype: DataType, array: ArrayView) -> bool {
    &&& array.is_whole()
    &&& dtype.physical() matches Some(layout)
    &&& array.values.has_layout(layout)
    &&& digits_fit(dtype)
}

/// Whether columns of this type are stored with the encoding that is asked for: those of integers,
/// booleans, strings and byte strings.
pub open spec fn takes_encoding(dtype: DataType) -> bool {
    match dtype.storage() {
        DataType::Int8
        | DataType::Int16
        | DataType::Int32
        | DataType::Int64
        | DataType::UInt8
        | DataType::UInt16
        | DataType::UInt32
        | DataType::UInt64
        | DataType::Date32
        | DataType::Date64
        | DataType::Time32(_)
        | DataType::Time64(_)
        | DataType::Timestamp(_, _)
        | DataType::Duration(_)
        | DataType::Boolean
        | DataType::Struct(_)
        | DataType::LargeUtf8
        | DataType::LargeBinary
        | DataType::Utf8View
        | DataType::BinaryView => true,
        DataType::Decimal(precision, _) | DataType::Decimal256(precision, _) => precision <= 18,
        _ => false,
    }
}

/// The values that a page holds.
pub open spec fn written_values(page: PageRequestView, array: ArrayView) -> ArrayView {
    match page.input {
        PageInputView::Array => array,
        PageInputView::Converted(view) => view,
    }
}

/// The page of a column is that of a leaf of the type below all extensions.
proof fn lemma_page_of_leaf(
    dtype: DataType,
    array: ArrayView,
    levels: nat,
    type_: ParquetPrimitiveType,
    options: WriteOptions,
    encoding: Encoding,
)
    requires
        array.is_whole(),
    ensures
        page_of(dtype, array, levels, type_, options, encoding) matches Ok(page) ==> leaf_page(
            levels != 1,
            dtype.storage(),
            array,
            options,
            encoding,
        ) == Some(page),
        !(dtype.storage() is Extension),
        dtype.storage().physical() == dtype.physical(),
{
    lemma_storage(dtype);
    law_extensions_are_transparent(dtype, array, type_, options, encoding);
}

/// As many bytes as items of this size take make so many items.
proof fn lemma_items_of_bytes(count: nat, size: nat)
    requires
        size > 0,
    ensures
        (count * size) / size == count,
        (count * size) % size == 0,
{
    vstd::arithmetic::div_mod::lemma_div_by_multiple(count as int, size as int);
    vstd::arithmetic::div_mod::lemma_mod_multiples_basic(count as int, size as int);
}

/// Byte strings of one size that stand for numbers are as many as these.
proof fn lemma_number_items(values: Seq<int>, size: nat)
    requires
        size > 0,
    ensures
        ValuesView::FixedSizeBinary(size, native_concat(values, size)).len() == values.len(),
        ValuesView::FixedSizeBinary(size, native_concat(values, size)).is_whole(),
        ValuesView::FixedSizeBinary(size, be_concat(values, size)).len() == values.len(),
        ValuesView::FixedSizeBinary(size, be_concat(values, size)).is_whole(),
{
    law_numbers_have_one_width(values, size);
    lemma_items_of_bytes(values.len(), size);
}

/// Byte strings of one size that stand for intervals are as many as these.
proof fn lemma_interval_items(months: Seq<int>, days: Seq<DaysMs>)
    ensures
        ValuesView::FixedSizeBinary(12, months_concat(months)).len() == months.len(),
        ValuesView::FixedSizeBinary(12, months_concat(months)).is_whole(),
        ValuesView::FixedSizeBinary(12, days_concat(days)).len() == days.len(),
        ValuesView::FixedSizeBinary(12, days_concat(days)).is_whole(),
{
    law_intervals_have_one_width(months, days);
    lemma_items_of_bytes(months.len(), 12);
    lemma_items_of_bytes(days.len(), 12);
}

/// The values of a column of integers are integers of the type in which these are held, and that
/// in which they are stored has 32 bits where they have no more, and otherwise 64.
proof fn lemma_integer_column(dtype: DataType, array: ArrayView)
    requires
        is_column_of(dtype, array),
        stored_integers(dtype) is Some,
    ensures
        array.values matches ValuesView::Ints(held, _) && held == (stored_integers(dtype)->0).0,
        element_size((stored_integers(dtype)->0).0) <= 4 ==> (stored_integers(dtype)->0).1 is Int32,
        element_size((stored_integers(dtype)->0).0) > 4 ==> (stored_integers(dtype)->0).1 is Int64,
        !((stored_integers(dtype)->0).0 is Float32 || (stored_integers(dtype)->0).0 is Float64),
{
}

/// Pages keep missing values: where a page holds converted values, they are as many as the rows of the
/// column, and their mask is its mask. Of a column without values, all are missing.
#[verifier::rlimit(50)]
pub proof fn law_pages_keep_missing_values(
    dtype: DataType,
    array: ArrayView,
    levels: nat,
    type_: ParquetPrimitiveType,
    options: WriteOptions,
    encoding: Encoding,
    page: PageRequestView,
)
    requires
        is_column_of(dtype, array),
        page_of(dtype, array, levels, type_, options, encoding) == Ok::<
            PageRequestView,
            WriteErrorView,
        >(page),
    ensures
        written_values(page, array).is_whole(),
        written_values(page, array).len() == array.len(),
        !(dtype.storage() is Null) ==> written_values(page, array).validity == array.validity,
        dtype.storage() is Null ==> (written_values(page, array).validity matches Some(bits)
            && bits.len() == array.len() && forall|i: int|
            0 <= i < bits.len() ==> !#[trigger] bits[i]),
{
    lemma_page_of_leaf(dtype, array, levels, type_, options, encoding);
    let values = int_values(array);
    match dtype.storage() {
        DataType::Float16 => lemma_number_items(values, 2),
        DataType::Int128 | DataType::UInt128 => lemma_number_items(values, 16),
        DataType::Interval(_) => lemma_interval_items(values, interval_values(array)),
        DataType::Decimal(precision, _) => {
            law_decimal_size_is_least(precision as nat);
            lemma_number_items(values, decimal_size(precision as nat));
        },
        DataType::Decimal256(precision, _) => if precision <= 38 {
            law_decimal_size_is_least(precision as nat);
            lemma_number_items(values, decimal_size(precision as nat));
        } else {
            lemma_number_items(values, 32);
        },
        _ => {},
    }
}

/// The writer of a page is one for the values that the page holds, and one for columns below other
/// levels if and only if there are any. It is told the type of the numbers that it gets, and stores
/// integers in 32 bits where they have no more, and otherwise in 64.
#[verifier::rlimit(50)]
pub proof fn law_writer_fits_values(
    dtype: DataType,
    array: ArrayView,
    levels: nat,
    type_: ParquetPrimitiveType,
    options: WriteOptions,
    encoding: Encoding,
    page: PageRequestView,
)
    requires
        is_column_of(dtype, array),
        page_of(dtype, array, levels, type_, options, encoding) == Ok::<
            PageRequestView,
            WriteErrorView,
        >(page),
    ensures
        match page.writer {
            PageWriter::Boolean | PageWriter::NestedBoolean => written_values(
                page,
                array,
            ).values is Booleans,
            PageWriter::Integer(from, to) | PageWriter::NestedPrimitive(from, to)
            | PageWriter::Plain(from, to) => {
                &&& written_values(page, array).values matches ValuesView::Ints(held, _)
                &&& held == from
                &&& if from is Float32 || from is Float64 {
                    to == from
                } else if element_size(from) <= 4 {
                    to is Int32
                } else {
                    to is Int64
                }
            },
            PageWriter::Binary | PageWriter::NestedBinary => written_values(
                page,
                array,
            ).values.has_layout(PhysicalType::LargeBinary),
            PageWriter::BinaryView | PageWriter::NestedBinaryView => written_values(
                page,
                array,
            ).values.has_layout(PhysicalType::BinaryView),
            PageWriter::FixedSizeBinary | PageWriter::NestedFixedSizeBinary => written_values(
                page,
                array,
            ).values is FixedSizeBinary,
        },
        levels == 1 <==> page.writer is Boolean || page.writer is Integer || page.writer is Plain
            || page.writer is Binary || page.writer is BinaryView || page.writer is FixedSizeBinary,
        page.writer is Plain <==> levels == 1 && (dtype.storage() is Null || dtype.storage()
            is Float32 || dtype.storage() is Float64),
{
    lemma_page_of_leaf(dtype, array, levels, type_, options, encoding);
    lemma_storage(dtype);
    if stored_integers(dtype.storage()) is Some {
        lemma_integer_column(dtype.storage(), array);
    }
}

/// The writer is told the encoding that was asked for if the column has no levels above it and is one
/// of integers, booleans, strings or byte strings; otherwise it is told none.
#[verifier::rlimit(50)]
pub proof fn law_encoding_is_told(
    dtype: DataType,
    array: ArrayView,
    levels: nat,
    type_: ParquetPrimitiveType,
    options: WriteOptions,
    encoding: Encoding,
    page: PageRequestView,
)
    requires
        array.is_whole(),
        page_of(dtype, array, levels, type_, options, encoding) == Ok::<
            PageRequestView,
            WriteErrorView,
        >(page),
    ensures
        levels == 1 && takes_encoding(dtype) ==> page.encoding == Some(encoding),
        page.encoding is Some ==> page.encoding == Some(encoding) && levels == 1 && (page.writer
            is Boolean || page.writer is Integer || page.writer is Binary || page.writer
            is BinaryView),
{
    lemma_page_of_leaf(dtype, array, levels, type_, options, encoding);
}

/// The writer gets the options of the caller. Only that of integers of 128 bits below other levels is
/// not asked for the least and the greatest value.
#[verifier::rlimit(50)]
pub proof fn law_options_are_kept(
    dtype: DataType,
    array: ArrayView,
    levels: nat,
    type_: ParquetPrimitiveType,
    options: WriteOptions,
    encoding: Encoding,
    page: PageRequestView,
)
    requires
        array.is_whole(),
        page_of(dtype, array, levels, type_, options, encoding) == Ok::<
            PageRequestView,
            WriteErrorView,
        >(page),
    ensures
        page.options.version == options.version,
        page.options.compression == options.compression,
        page.options.data_page_size == options.data_page_size,
        page.options.content_defined_chunking == options.content_defined_chunking,
        page.options.statistics.distinct_count == options.statistics.distinct_count,
        page.options.statistics.null_count == options.statistics.null_count,
        levels != 1 && dtype.storage() is Int128 ==> !page.options.statistics.min_value
            && !page.options.statistics.max_value,
        !(levels != 1 && dtype.storage() is Int128) ==> page.options == options,
{
    lemma_page_of_leaf(dtype, array, levels, type_, options, encoding);
}

/// Statistics are taken of byte strings of one size only, and only if any is asked for. They are taken
/// of the values of the column, in as many bytes as these are written in, and with the options of the
/// page.
#[verifier::rlimit(50)]
pub proof fn law_statistics_are_asked_for(
    dtype: DataType,
    array: ArrayView,
    levels: nat,
    type_: ParquetPrimitiveType,
    options: WriteOptions,
    encoding: Encoding,
    page: PageRequestView,
)
    requires
        is_column_of(dtype, array),
        page_of(dtype, array, levels, type_, options, encoding) == Ok::<
            PageRequestView,
            WriteErrorView,
        >(page),
    ensures
        page.statistics is Some <==> (page.writer is FixedSizeBinary || page.writer
            is NestedFixedSizeBinary) && (page.options.statistics.min_value
            || page.options.statistics.max_value || page.options.statistics.distinct_count
            || page.options.statistics.null_count),
        page.statistics matches Some(request) ==> {
            &&& request.options == page.options.statistics
            &&& written_values(page, array).values matches ValuesView::FixedSizeBinary(size, _)
            &&& match request.source {
                StatisticsSource::Float16 => dtype.storage() is Float16,
                StatisticsSource::FixedSizeBinary => dtype.storage() is FixedSizeBinary
                    || dtype.storage() is Interval,
                StatisticsSource::Decimal(told) => told == size && (dtype.storage() is Decimal
                    || dtype.storage() is Int128 || dtype.storage() is UInt128),
                StatisticsSource::Decimal256WithI128(told) => told == size && (
                dtype.storage() matches DataType::Decimal256(precision, _) && precision <= 38),
                StatisticsSource::Decimal256(told) => told == size && (
                dtype.storage() matches DataType::Decimal256(precision, _) && precision > 38),
            }
        },
{
    lemma_page_of_leaf(dtype, array, levels, type_, options, encoding);
    match dtype.storage() {
        DataType::Decimal(precision, _) => law_decimal_size_is_least(precision as nat),
        DataType::Decimal256(precision, _) => if precision <= 38 {
            law_decimal_size_is_least(precision as nat);
        },
        _ => {},
    }
}

/// A page holds the column as it is unless Parquet stores other values in its place: those of columns
/// without values, of structs without members, of half precision numbers, of strings, of intervals, of
/// decimals and of integers of 128 bits.
#[verifier::rlimit(50)]
pub proof fn law_who_is_converted(
    dtype: DataType,
    array: ArrayView,
    levels: nat,
    type_: ParquetPrimitiveType,
    options: WriteOptions,
    encoding: Encoding,
    page: PageRequestView,
)
    requires
        is_column_of(dtype, array),
        page_of(dtype, array, levels, type_, options, encoding) == Ok::<
            PageRequestView,
            WriteErrorView,
        >(page),
    ensures
        page.input is Converted <==> match dtype.storage() {
            DataType::Null
            | DataType::Struct(_)
            | DataType::Float16
            | DataType::LargeUtf8
            | DataType::Utf8View
            | DataType::Interval(_)
            | DataType::Decimal(_, _)
            | DataType::Decimal256(_, _)
            | DataType::Int128
            | DataType::UInt128 => true,
            _ => false,
        },
{
    lemma_page_of_leaf(dtype, array, levels, type_, options, encoding);
}

/// Strings are written as the byte strings that they are, one by one: those of the long layout as
/// such ones of the long layout, and viewed ones as viewed ones.
#[verifier::rlimit(50)]
pub proof fn law_strings_are_kept(
    dtype: DataType,
    array: ArrayView,
    levels: nat,
    type_: ParquetPrimitiveType,
    options: WriteOptions,
    encoding: Encoding,
    page: PageRequestView,
    i: int,
)
    requires
        is_column_of(dtype, array),
        page_of(dtype, array, levels, type_, options, encoding) == Ok::<
            PageRequestView,
            WriteErrorView,
        >(page),
        dtype.storage() is LargeUtf8 || dtype.storage() is Utf8View,
        0 <= i < array.len(),
    ensures
        match (array.values, written_values(page, array).values) {
            (ValuesView::Bytes(_, items), ValuesView::Bytes(layout, written)) => {
                &&& written.len() == items.len()
                &&& written[i] == items[i]
                &&& dtype.storage() is LargeUtf8 ==> layout is LargeBinary
                &&& dtype.storage() is Utf8View ==> layout is BinaryView
            },
            _ => false,
        },
{
    lemma_page_of_leaf(dtype, array, levels, type_, options, encoding);
}

/// Structs without members are written as booleans that are not set, and columns without values as
/// zeros of 32 bits.
#[verifier::rlimit(50)]
pub proof fn law_nothing_is_written_as_nothing(
    dtype: DataType,
    array: ArrayView,
    levels: nat,
    type_: ParquetPrimitiveType,
    options: WriteOptions,
    encoding: Encoding,
    page: PageRequestView,
    i: int,
)
    requires
        is_column_of(dtype, array),
        page_of(dtype, array, levels, type_, options, encoding) == Ok::<
            PageRequestView,
            WriteErrorView,
        >(page),
        dtype.storage() is Null || dtype.storage() is Struct,
        0 <= i < array.len(),
    ensures
        match written_values(page, array).values {
            ValuesView::Booleans(written) => dtype.storage() is Struct && !written[i],
            ValuesView::Ints(held, written) => dtype.storage() is Null && held is Int32
                && written[i] == 0,
            _ => false,
        },
{
    lemma_page_of_leaf(dtype, array, levels, type_, options, encoding);
}

/// Intervals are written in twelve bytes: months, days and milliseconds, four bytes each, with the
/// least significant one first.
#[verifier::rlimit(50)]
pub proof fn law_intervals_in_place(
    dtype: DataType,
    array: ArrayView,
    levels: nat,
    type_: ParquetPrimitiveType,
    options: WriteOptions,
    encoding: Encoding,
    page: PageRequestView,
    i: int,
    k: nat,
)
    requires
        is_column_of(dtype, array),
        page_of(dtype, array, levels, type_, options, encoding) == Ok::<
            PageRequestView,
            WriteErrorView,
        >(page),
        dtype.storage() is Interval,
        0 <= i < array.len(),
        k < 4,
    ensures
        match (array.values, written_values(page, array).values) {
            (ValuesView::Ints(_, months), ValuesView::FixedSizeBinary(size, bytes)) => {
                &&& size == 12
                &&& bytes[12 * i + k] == (months[i] / vstd::arithmetic::power::pow(256, k)) % 256
                &&& bytes[12 * i + 4 + k] == 0
                &&& bytes[12 * i + 8 + k] == 0
            },
            (ValuesView::Intervals(intervals), ValuesView::FixedSizeBinary(size, bytes)) => {
                &&& size == 12
                &&& bytes[12 * i + k] == 0
                &&& bytes[12 * i + 4 + k] == (intervals[i].days as int
                    / vstd::arithmetic::power::pow(256, k)) % 256
                &&& bytes[12 * i + 8 + k] == (intervals[i].ms as int
                    / vstd::arithmetic::power::pow(256, k)) % 256
            },
            _ => false,
        },
{
    lemma_page_of_leaf(dtype, array, levels, type_, options, encoding);
    match array.values {
        ValuesView::Ints(_, months) => law_months_in_place(months, i, k),
        ValuesView::Intervals(intervals) => law_days_in_place(intervals, i, k),
        _ => {},
    }
}

/// Half precision numbers and integers of 128 bits are written as they lie in memory.
#[verifier::rlimit(50)]
pub proof fn law_plain_numbers_in_place(
    dtype: DataType,
    array: ArrayView,
    levels: nat,
    type_: ParquetPrimitiveType,
    options: WriteOptions,
    encoding: Encoding,
    page: PageRequestView,
    i: int,
    k: nat,
)
    requires
        is_column_of(dtype, array),
        page_of(dtype, array, levels, type_, options, encoding) == Ok::<
            PageRequestView,
            WriteErrorView,
        >(page),
        dtype.storage() is Float16 || dtype.storage() is Int128 || dtype.storage() is UInt128,
        0 <= i < array.len(),
        k < (if dtype.storage() is Float16 {
            2nat
        } else {
            16nat
        }),
    ensures
        match (array.values, written_values(page, array).values) {
            (ValuesView::Ints(_, values), ValuesView::FixedSizeBinary(size, bytes)) => {
                let digit = (values[i] / vstd::arithmetic::power::pow(256, k)) % 256;
                &&& size == (if dtype.storage() is Float16 {
                    2nat
                } else {
                    16nat
                })
                &&& endianness() is Little ==> bytes[i * size + k] == digit
                &&& endianness() is Big ==> bytes[i * size + (size - 1 - k)] == digit
            },
            _ => false,
        },
{
    lemma_page_of_leaf(dtype, array, levels, type_, options, encoding);
    if let ValuesView::Ints(_, values) = array.values {
        if dtype.storage() is Float16 {
            law_joined_numbers_in_place(values, 2, i, k);
        } else {
            law_joined_numbers_in_place(values, 16, i, k);
        }
    }
}

/// Decimals of up to nine digits are written as integers of 32 bits, and those of up to eighteen as
/// integers of 64: each number that has no more digits stays what it is, and of any other the low bits
/// stay.
#[verifier::rlimit(50)]
pub proof fn law_small_decimals_are_kept(
    dtype: DataType,
    array: ArrayView,
    levels: nat,
    type_: ParquetPrimitiveType,
    options: WriteOptions,
    encoding: Encoding,
    page: PageRequestView,
    precision: nat,
    i: int,
)
    requires
        is_column_of(dtype, array),
        page_of(dtype, array, levels, type_, options, encoding) == Ok::<
            PageRequestView,
            WriteErrorView,
        >(page),
        match dtype.storage() {
            DataType::Decimal(own, _) | DataType::Decimal256(own, _) => own == precision,
            _ => false,
        },
        precision <= 18,
        0 <= i < array.len(),
    ensures
        match (array.values, written_values(page, array).values) {
            (ValuesView::Ints(_, values), ValuesView::Ints(stored, written)) => {
                &&& written.len() == values.len()
                &&& precision <= 9 ==> {
                    &&& stored is Int32
                    &&& i32::MIN <= written[i] <= i32::MAX
                    &&& (values[i] - written[i]) % 0x1_0000_0000 == 0
                }
                &&& precision > 9 ==> {
                    &&& stored is Int64
                    &&& i64::MIN <= written[i] <= i64::MAX
                    &&& (values[i] - written[i]) % 0x1_0000_0000_0000_0000 == 0
                }
                &&& -pow10(precision) < values[i] < pow10(precision) ==> written[i] == values[i]
            },
            _ => false,
        },
{
    lemma_page_of_leaf(dtype, array, levels, type_, options, encoding);
    if let ValuesView::Ints(_, values) = array.values {
        law_cut_integers_in_place(values, i);
        if -pow10(precision) < values[i] < pow10(precision) {
            law_small_decimals_fit(precision, values[i]);
        }
    }
}

/// Decimals of more than eighteen digits are written in as few bytes as their digits need, and those
/// of more than thirty-eight in thirty-two, with the most significant one first.
#[verifier::rlimit(50)]
pub proof fn law_large_decimals_in_place(
    dtype: DataType,
    array: ArrayView,
    levels: nat,
    type_: ParquetPrimitiveType,
    options: WriteOptions,
    encoding: Encoding,
    page: PageRequestView,
    precision: nat,
    i: int,
    k: nat,
)
    requires
        is_column_of(dtype, array),
        page_of(dtype, array, levels, type_, options, encoding) == Ok::<
            PageRequestView,
            WriteErrorView,
        >(page),
        match dtype.storage() {
            DataType::Decimal(own, _) | DataType::Decimal256(own, _) => own == precision,
            _ => false,
        },
        precision > 18,
        0 <= i < array.len(),
        written_values(page, array).values matches ValuesView::FixedSizeBinary(size, _) ==> k
            < size,
    ensures
        match (array.values, written_values(page, array).values) {
            (ValuesView::Ints(_, values), ValuesView::FixedSizeBinary(size, bytes)) => {
                let numbers = 2 * (vstd::arithmetic::power::pow(10, precision) + 1);
                &&& precision > 38 ==> size == 32
                &&& precision <= 38 ==> {
                    &&& 1 <= size <= 16
                    &&& numbers <= vstd::arithmetic::power::pow(256, size)
                    &&& forall|fewer: nat|
                        1 <= fewer < size ==> #[trigger] vstd::arithmetic::power::pow(256, fewer)
                            < numbers
                }
                &&& bytes.len() == values.len() * size
                &&& bytes[i * size + (size - 1 - k)] == (values[i] / vstd::arithmetic::power::pow(
                    256,
                    k,
                )) % 256
            },
            _ => false,
        },
{
    lemma_page_of_leaf(dtype, array, levels, type_, options, encoding);
    if precision <= 38 {
        law_decimal_size_is_least(precision);
    }
    match (array.values, written_values(page, array).values) {
        (ValuesView::Ints(_, values), ValuesView::FixedSizeBinary(size, _)) => {
            law_joined_numbers_in_place(values, size, i, k);
        },
        _ => {},
    }
}

/// A column gets a page unless it is required and a value is missing, or there is no page for its
/// type. There is one for every type but nested ones, dictionaries, strings of the short layout,
/// narrow decimals and intervals with more than two units; below other levels there is none for
/// intervals and byte strings of one size either. The error names the type below all extensions.
#[verifier::rlimit(50)]
pub proof fn law_who_gets_a_page(
    dtype: DataType,
    array: ArrayView,
    levels: nat,
    type_: ParquetPrimitiveType,
    options: WriteOptions,
    encoding: Encoding,
)
    requires
        array.is_whole(),
    ensures
        ({
            let page = page_of(dtype, array, levels, type_, options, encoding);
            let has_page = match dtype.storage() {
                DataType::Binary
                | DataType::Utf8
                | DataType::List(_)
                | DataType::LargeList(_)
                | DataType::FixedSizeList(_, _)
                | DataType::MapEntries(_, _)
                | DataType::Dictionary(_, _, _)
                | DataType::Decimal32(_, _)
                | DataType::Decimal64(_, _)
                | DataType::Union(_)
                | DataType::Unknown
                | DataType::Interval(IntervalUnit::MonthDayNano)
                | DataType::Interval(IntervalUnit::MonthDayMillis) => false,
                DataType::Struct(fields) => fields@.len() == 0,
                DataType::Interval(_) | DataType::FixedSizeBinary(_) => levels == 1,
                _ => true,
            };
            let some_missing = array.validity matches Some(bits) && exists|i: int|
                0 <= i < bits.len() && !#[trigger] bits[i];
            let refused = type_.field_info.repetition is Required && (some_missing || (levels == 1
                && dtype.storage() is Null && array.len() > 0));
            &&& refused <==> page == Err::<PageRequestView, WriteErrorView>(
                WriteErrorView::MissingValue(type_.field_info.name@),
            )
            &&& !refused && has_page <==> page is Ok
            &&& !refused && !has_page && levels == 1 ==> page == Err::<
                PageRequestView,
                WriteErrorView,
            >(WriteErrorView::UnsupportedType(dtype.storage()))
            &&& !refused && !has_page && levels != 1 ==> page == Err::<
                PageRequestView,
                WriteErrorView,
            >(WriteErrorView::UnsupportedNestedType(dtype.storage()))
        }),
{
    lemma_page_of_leaf(dtype, array, levels, type_, options, encoding);
    lemma_storage(dtype);
    law_extensions_are_transparent(dtype, array, type_, options, encoding);
    law_none_missing(array.validity);
    if let Some(bits) = array.validity {
        if missing(array.validity) > 0 {
            let i = choose|i: int| 0 <= i < bits.len() && !#[trigger] bits[i];
            assert(!bits[i]);
        }
    }
}

} // verus!
