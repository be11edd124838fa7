//! The bytes that stand for the values of a column.

use vstd::endian::endianness;
use vstd::prelude::*;

use crate::array::{is_set, mask_fits, ArrayView, ColumnArray, Values, ValuesView};
use crate::array::{byte_strings, mask};
use crate::bytes::{be_bytes, be_concat, law_bytes_are_digits, lemma_le_bytes_len, native_bytes};
use crate::bytes::{cast_bytes, ints, le_bytes, le_concat, native_concat, push_le, PlainInt};
use crate::cdc::{is_ascending, value_count, ValueBoundaryTracker};
use crate::datatype::{PhysicalType, PrimitiveType};

verus! {

/// The bytes of a string: its length in four bytes, then its contents.
pub open spec fn string_image(item: Seq<u8>) -> Seq<u8> {
    le_bytes(item.len() as int, 4) + item
}

/// The bytes of each string of a column. A missing one has none.
pub open spec fn string_images(items: Seq<Seq<u8>>, validity: Option<Seq<bool>>) -> Seq<Seq<u8>> {
    Seq::new(
        items.len(),
        |i: int|
            if is_set(validity, i) {
                string_image(items[i])
            } else {
                Seq::empty()
            },
    )
}

/// Where each image starts once all are joined, and where the last one ends.
pub open spec fn image_starts(images: Seq<Seq<u8>>) -> Seq<usize> {
    Seq::new((images.len() + 1) as nat, |i: int| images.take(i).flatten().len() as usize)
}

/// Whether the images can be joined in memory.
pub open spec fn fits_memory(images: Seq<Seq<u8>>) -> bool {
    images.flatten().len() <= usize::MAX
}

/// Joining one image more appends it.
pub proof fn lemma_join_next(images: Seq<Seq<u8>>, i: int)
    requires
        0 <= i < images.len(),
    ensures
        images.take(i + 1).flatten() == images.take(i).flatten() + images[i],
{
    assert(images.take(i + 1) =~= images.take(i).push(images[i]));
    images.take(i).lemma_flatten_push(images[i]);
}

/// Appends the bytes of a string.
fn push_string(buffer: &mut Vec<u8>, item: &Vec<u8>)
    ensures
        final(buffer)@ == old(buffer)@ + string_image(item@),
{
    push_le(buffer, item.len() as u64, 4);
    let ghost prefixed = buffer@;
    buffer.extend_from_slice(item.as_slice());
    assert(buffer@ =~= prefixed + item@);
    assert(buffer@ =~= old(buffer)@ + string_image(item@));
}

/// Whether item `i` is there.
fn is_there(validity: &Option<Vec<bool>>, i: usize) -> (there: bool)
    requires
        mask(*validity) matches Some(bits) ==> i < bits.len(),
    ensures
        there == is_set(mask(*validity), i as int),
{
    match validity {
        Some(bits) => bits[i],
        None => true,
    }
}

/// The bytes of all strings, and where each one starts.
pub(crate) fn encode_strings(items: &Vec<Vec<u8>>, validity: &Option<Vec<bool>>) -> (encoded: (
    Vec<u8>,
    ValueBoundaryTracker,
))
    requires
        mask_fits(mask(*validity), items@.len() as int),
    ensures
        encoded.0@ == string_images(byte_strings(items@), mask(*validity)).flatten(),
        encoded.1@ == image_starts(string_images(byte_strings(items@), mask(*validity))),
{
    let ghost images = string_images(byte_strings(items@), mask(*validity));
    let mut buffer: Vec<u8> = Vec::new();
    let mut tracker: ValueBoundaryTracker = ValueBoundaryTracker::new();
    let mut i: usize = 0;
    assert(images.take(0).flatten() =~= Seq::<u8>::empty());
    assert(tracker@ =~= image_starts(images).take(1));
    while i < items.len()
        invariant
            i <= items@.len(),
            mask_fits(mask(*validity), items@.len() as int),
            images == string_images(byte_strings(items@), mask(*validity)),
            buffer@ == images.take(i as int).flatten(),
            tracker@ == image_starts(images).take(i + 1),
        decreases items@.len() - i,
    {
        proof {
            lemma_join_next(images, i as int);
        }
        if is_there(validity, i) {
            push_string(&mut buffer, &items[i]);
        }
        assert(buffer@ =~= images.take(i + 1).flatten());
        tracker.record(buffer.len());
        assert(tracker@ =~= image_starts(images).take(i + 2));
        i = i + 1;
    }
    assert(images.take(i as int) =~= images);
    assert(tracker@ =~= image_starts(images));
    (buffer, tracker)
}

/// The bytes of all integers, `width` for each, least significant first.
fn widen<T: PlainInt>(values: &Vec<T>, width: usize) -> (buffer: Vec<u8>)
    requires
        width <= 16,
    ensures
        buffer@ == le_concat(ints(values@), width as nat),
{
    let ghost images = ints(values@).map_values(|x: int| le_bytes(x, width as nat));
    let mut buffer: Vec<u8> = Vec::new();
    let mut i: usize = 0;
    assert(images.take(0).flatten() =~= Seq::<u8>::empty());
    while i < values.len()
        invariant
            i <= values@.len(),
            width <= 16,
            images == ints(values@).map_values(|x: int| le_bytes(x, width as nat)),
            buffer@ == images.take(i as int).flatten(),
        decreases values@.len() - i,
    {
        proof {
            lemma_join_next(images, i as int);
        }
        push_le(&mut buffer, values[i], width);
        i = i + 1;
    }
    assert(images.take(i as int) =~= images);
    buffer
}

/// The bytes by which a column is divided, and how many of them each row takes where all rows
/// take the same. Integers are those that Parquet stores, four, eight or sixteen bytes wide. There
/// are no bytes for a column of another layout.
pub open spec fn preview(array: ArrayView) -> (Option<Seq<u8>>, Option<int>) {
    match array.values {
        ValuesView::Ints(primitive, values) => match primitive {
            PrimitiveType::Int8
            | PrimitiveType::Int16
            | PrimitiveType::Int32
            | PrimitiveType::UInt8
            | PrimitiveType::UInt16
            | PrimitiveType::UInt32 => (Some(le_concat(values, 4)), Some(4)),
            PrimitiveType::Int64
            | PrimitiveType::UInt64 => (Some(le_concat(values, 8)), Some(8)),
            PrimitiveType::Int128
            | PrimitiveType::UInt128 => (Some(le_concat(values, 16)), Some(16)),
            PrimitiveType::Float32 => (Some(native_concat(values, 4)), Some(4)),
            PrimitiveType::Float64 => (Some(native_concat(values, 8)), Some(8)),
            _ => (None, None),
        },
        ValuesView::Bytes(layout, items) => match layout {
            PhysicalType::LargeBinary
            | PhysicalType::LargeUtf8
            | PhysicalType::BinaryView
            | PhysicalType::Utf8View => (
                Some(string_images(items, array.validity).flatten()),
                None,
            ),
            _ => (None, None),
        },
        _ => (None, None),
    }
}

/// The preview as mathematical values.
pub open spec fn preview_view(preview: (Option<Vec<u8>>, Option<usize>)) -> (
    Option<Seq<u8>>,
    Option<int>,
) {
    (
        match preview.0 {
            Some(bytes) => Some(bytes@),
            None => None,
        },
        match preview.1 {
            Some(width) => Some(width as int),
            None => None,
        },
    )
}

/// Extract byte data for CDC analysis that approximates what will be encoded.
/// Returns (bytes, bytes_per_row) where bytes_per_row is Some for fixed-size types.
pub fn get_cdc_byte_data_for_encoding(array: &ColumnArray<'_>) -> (data: (
    Option<Vec<u8>>,
    Option<usize>,
))
    requires
        array@.is_whole(),
    ensures
        preview_view(data) == preview(array@),
{
    match &array.values {
        // These get promoted to i32 in Parquet
        Values::Int8(values) => (Some(widen(values, 4)), Some(4)),
        Values::Int16(values) => (Some(widen(values, 4)), Some(4)),
        Values::Int32(values) => (Some(widen(values, 4)), Some(4)),
        Values::UInt8(values) => (Some(widen(values, 4)), Some(4)),
        Values::UInt16(values) => (Some(widen(values, 4)), Some(4)),
        Values::UInt32(values) => (Some(widen(values, 4)), Some(4)),
        // These stay as i64
        Values::Int64(values) => (Some(widen(values, 8)), Some(8)),
        Values::UInt64(values) => (Some(widen(values, 8)), Some(8)),
        // These take sixteen bytes
        Values::Int128(values) => (Some(widen(values, 16)), Some(16)),
        Values::UInt128(values) => (Some(widen(values, 16)), Some(16)),
        // Floats: just copy bytes directly
        Values::Float32(values) => (Some(cast_bytes(values.as_slice())), Some(4)),
        Values::Float64(values) => (Some(cast_bytes(values.as_slice())), Some(8)),
        // Strings: length-prefixed, so that their contents show
        Values::LargeBinary(items) => (Some(encode_strings(items, &array.validity).0), None),
        Values::LargeUtf8(items) => (Some(encode_strings(items, &array.validity).0), None),
        Values::BinaryView(items) => (Some(encode_strings(items, &array.validity).0), None),
        Values::Utf8View(items) => (Some(encode_strings(items, &array.validity).0), None),
        _ => (None, None),
    }
}

/// The bytes that a value of this type takes.
pub open spec fn element_size(primitive: PrimitiveType) -> nat {
    match primitive {
        PrimitiveType::Int8 | PrimitiveType::UInt8 => 1,
        PrimitiveType::Int16 | PrimitiveType::UInt16 | PrimitiveType::Float16 => 2,
        PrimitiveType::Int32 | PrimitiveType::UInt32 | PrimitiveType::Float32 => 4,
        PrimitiveType::Int64
        | PrimitiveType::UInt64
        | PrimitiveType::Float64
        | PrimitiveType::DaysMs
        | PrimitiveType::MonthDayMillis => 8,
        PrimitiveType::Int128 | PrimitiveType::UInt128 | PrimitiveType::MonthDayNano => 16,
        PrimitiveType::Int256 => 32,
    }
}

/// The bytes that a value of this type takes.
pub fn primitive_element_size(ptype: PrimitiveType) -> (size: usize)
    ensures
        size == element_size(ptype),
{
    match ptype {
        PrimitiveType::Int8 | PrimitiveType::UInt8 => 1,
        PrimitiveType::Int16 | PrimitiveType::UInt16 | PrimitiveType::Float16 => 2,
        PrimitiveType::Int32 | PrimitiveType::UInt32 | PrimitiveType::Float32 => 4,
        PrimitiveType::Int64 | PrimitiveType::UInt64 | PrimitiveType::Float64 => 8,
        PrimitiveType::Int128 | PrimitiveType::UInt128 => 16,
        PrimitiveType::Int256 => 32,
        PrimitiveType::DaysMs | PrimitiveType::MonthDayMillis => 8,
        PrimitiveType::MonthDayNano => 16,
    }
}

/// The values of a column as they lie in memory. There are none for integers of 256 bits, half
/// precision numbers and what is not a number.
pub open spec fn memory_image(values: ValuesView) -> Seq<u8> {
    match values {
        ValuesView::Ints(primitive, ints) => match primitive {
            PrimitiveType::Int256 | PrimitiveType::Float16 => Seq::empty(),
            _ => native_concat(ints, element_size(primitive)),
        },
        _ => Seq::empty(),
    }
}

/// The values of a column as they lie in memory.
pub(crate) fn to_memory_image(values: &Values) -> (bytes: Vec<u8>)
    ensures
        bytes@ == memory_image(values@),
{
    match values {
        Values::Int8(v) => cast_bytes(v.as_slice()),
        Values::Int16(v) => cast_bytes(v.as_slice()),
        Values::Int32(v) => cast_bytes(v.as_slice()),
        Values::Int64(v) => cast_bytes(v.as_slice()),
        Values::Int128(v) => cast_bytes(v.as_slice()),
        Values::UInt8(v) => cast_bytes(v.as_slice()),
        Values::UInt16(v) => cast_bytes(v.as_slice()),
        Values::UInt32(v) => cast_bytes(v.as_slice()),
        Values::UInt64(v) => cast_bytes(v.as_slice()),
        Values::UInt128(v) => cast_bytes(v.as_slice()),
        Values::Float32(v) => cast_bytes(v.as_slice()),
        Values::Float64(v) => cast_bytes(v.as_slice()),
        _ => Vec::new(),
    }
}

/// Images of one size, joined, take that size each.
pub proof fn lemma_concat_len(images: Seq<Seq<u8>>, width: nat)
    requires
        forall|i: int| 0 <= i < images.len() ==> (#[trigger] images[i]).len() == width,
    ensures
        images.flatten().len() == images.len() * width,
    decreases images.len(),
{
    if images.len() == 0 {
        assert(images.flatten() =~= Seq::<u8>::empty());
    } else {
        let before = images.drop_last();
        lemma_concat_len(before, width);
        assert(images =~= before.push(images.last()));
        before.lemma_flatten_push(images.last());
        assert((before.len() + 1) * width == before.len() * width + width) by (nonlinear_arith);
    }
}

/// A column of numbers takes the size of one value for each row.
pub proof fn law_numbers_have_one_width(values: Seq<int>, width: nat)
    ensures
        le_concat(values, width).len() == values.len() * width,
        native_concat(values, width).len() == values.len() * width,
        be_concat(values, width).len() == values.len() * width,
{
    let little = values.map_values(|x: int| le_bytes(x, width));
    let big = values.map_values(|x: int| be_bytes(x, width));
    let native = values.map_values(|x: int| native_bytes(x, width));
    assert forall|i: int| 0 <= i < values.len() implies (#[trigger] little[i]).len() == width by {
        lemma_le_bytes_len(values[i], width);
    }
    assert forall|i: int| 0 <= i < values.len() implies (#[trigger] native[i]).len() == width by {
        lemma_le_bytes_len(values[i], width);
    }
    assert forall|i: int| 0 <= i < values.len() implies (#[trigger] big[i]).len() == width by {
        lemma_le_bytes_len(values[i], width);
    }
    lemma_concat_len(little, width);
    lemma_concat_len(native, width);
    lemma_concat_len(big, width);
}

/// Where all rows of a column show the same number of bytes, it shows so many for each row.
pub proof fn law_preview_has_one_width(array: ArrayView)
    ensures
        preview(array) matches (Some(bytes), Some(width)) ==> bytes.len() == array.len() * width,
{
    if let ValuesView::Ints(_, values) = array.values {
        law_numbers_have_one_width(values, 4);
        law_numbers_have_one_width(values, 8);
        law_numbers_have_one_width(values, 16);
    }
}

/// Joining more images never makes the whole shorter.
proof fn lemma_join_grows(images: Seq<Seq<u8>>, i: int, j: int)
    requires
        0 <= i <= j <= images.len(),
    ensures
        images.take(i).flatten().len() <= images.take(j).flatten().len(),
    decreases j - i,
{
    if i < j {
        lemma_join_grows(images, i, j - 1);
        lemma_join_next(images, j - 1);
    }
}

/// The starts of joined images are in order, begin at the first byte and end after the last one;
/// there is one value for each image.
pub proof fn law_image_starts(images: Seq<Seq<u8>>)
    requires
        fits_memory(images),
    ensures
        is_ascending(image_starts(images)),
        value_count(image_starts(images)) == images.len(),
        image_starts(images)[0] == 0,
        image_starts(images).last() == images.flatten().len(),
        forall|i: int|
            0 <= i <= images.len() ==> #[trigger] image_starts(images)[i] == images.take(
                i,
            ).flatten().len(),
{
    let starts = image_starts(images);
    assert(images.take(images.len() as int) =~= images);
    assert(images.take(0).flatten() =~= Seq::<u8>::empty());
    assert forall|i: int| 0 <= i <= images.len() implies #[trigger] starts[i] == images.take(
        i,
    ).flatten().len() by {
        lemma_join_grows(images, i, images.len() as int);
    }
    assert forall|i: int, j: int| 0 <= i <= j < starts.len() implies starts[i] <= starts[j] by {
        lemma_join_grows(images, i, j);
    }
}

/// The layout of strings makes no difference: columns with the same strings and the same mask
/// show the same bytes.
pub proof fn law_string_layouts_look_alike(
    one: ArrayView,
    other: ArrayView,
    items: Seq<Seq<u8>>,
    one_layout: PhysicalType,
    other_layout: PhysicalType,
)
    requires
        one.values == ValuesView::Bytes(one_layout, items),
        other.values == ValuesView::Bytes(other_layout, items),
        one.validity == other.validity,
        preview(one).0 is Some,
        preview(other).0 is Some,
    ensures
        preview(one) == preview(other),
{
}

/// The width of small integers makes no difference: columns with the same numbers show the same
/// bytes, whether each is held in one, two or four bytes.
pub proof fn law_small_integers_look_alike(
    one: ArrayView,
    other: ArrayView,
    values: Seq<int>,
    one_type: PrimitiveType,
    other_type: PrimitiveType,
)
    requires
        one.values == ValuesView::Ints(one_type, values),
        other.values == ValuesView::Ints(other_type, values),
        one_type is Int8 || one_type is Int16 || one_type is Int32 || one_type is UInt8
            || one_type is UInt16 || one_type is UInt32,
        other_type is Int8 || other_type is Int16 || other_type is Int32 || other_type is UInt8
            || other_type is UInt16 || other_type is UInt32,
    ensures
        preview(one) == preview(other),
{
}

/// Joined images lie one after the other: each begins where those before it end.
pub proof fn law_joined_images_in_place(images: Seq<Seq<u8>>, i: int)
    requires
        0 <= i < images.len(),
    ensures
        images.take(i).flatten().len() + images[i].len() == images.take(i + 1).flatten().len()
            <= images.flatten().len(),
        images.flatten().subrange(
            images.take(i).flatten().len() as int,
            images.take(i + 1).flatten().len() as int,
        ) == images[i],
{
    lemma_join_next(images, i);
    lemma_join_prefix(images, i + 1, images.len() as int);
    assert(images.take(images.len() as int) =~= images);
    let start = images.take(i).flatten().len() as int;
    let end = images.take(i + 1).flatten().len() as int;
    assert(images.flatten().subrange(start, end) =~= images.flatten().take(end).subrange(
        start,
        end,
    ));
    assert(images.take(i + 1).flatten().subrange(start, end) =~= images[i]);
}

/// The first images, joined, are the beginning of more of them, joined.
proof fn lemma_join_prefix(images: Seq<Seq<u8>>, i: int, j: int)
    requires
        0 <= i <= j <= images.len(),
    ensures
        images.take(i).flatten().len() <= images.take(j).flatten().len(),
        images.take(j).flatten().take(images.take(i).flatten().len() as int) == images.take(
            i,
        ).flatten(),
    decreases j - i,
{
    let few = images.take(i).flatten();
    if i < j {
        lemma_join_prefix(images, i, j - 1);
        lemma_join_next(images, j - 1);
        let more = images.take(j - 1).flatten();
        assert((more + images[j - 1]).take(few.len() as int) =~= more.take(few.len() as int));
    } else {
        assert(few.take(few.len() as int) =~= few);
    }
}

/// Joined images of one size lie at multiples of it.
pub proof fn law_equal_images_in_place(images: Seq<Seq<u8>>, width: nat, i: int)
    requires
        0 <= i < images.len(),
        forall|j: int| 0 <= j < images.len() ==> (#[trigger] images[j]).len() == width,
    ensures
        images.flatten().len() == images.len() * width,
        0 <= i * width,
        (i + 1) * width == i * width + width <= images.flatten().len(),
        images.flatten().subrange((i * width) as int, ((i + 1) * width) as int) == images[i],
{
    law_joined_images_in_place(images, i);
    lemma_concat_len(images, width);
    assert forall|j: int| 0 <= j < i implies (#[trigger] images.take(i)[j]).len() == width by {
        assert(images.take(i)[j] == images[j]);
    }
    lemma_concat_len(images.take(i), width);
    assert((i + 1) * width == i * width + width && 0 <= i * width) by (nonlinear_arith)
        requires
            i >= 0,
    ;
}

/// Numbers that are joined lie at multiples of their size, digit by digit.
pub proof fn law_joined_numbers_in_place(values: Seq<int>, width: nat, i: int, k: nat)
    requires
        0 <= i < values.len(),
        k < width,
    ensures
        0 <= i * width,
        (i + 1) * width == i * width + width <= values.len() * width,
        le_concat(values, width).len() == values.len() * width,
        be_concat(values, width).len() == values.len() * width,
        native_concat(values, width).len() == values.len() * width,
        le_concat(values, width)[i * width + k] == (values[i] / vstd::arithmetic::power::pow(
            256,
            k,
        )) % 256,
        be_concat(values, width)[i * width + (width - 1 - k)] == (values[i]
            / vstd::arithmetic::power::pow(256, k)) % 256,
        endianness() is Little ==> native_concat(values, width)[i * width + k] == (values[i]
            / vstd::arithmetic::power::pow(256, k)) % 256,
        endianness() is Big ==> native_concat(values, width)[i * width + (width - 1 - k)] == (
        values[i] / vstd::arithmetic::power::pow(256, k)) % 256,
{
    let little = values.map_values(|x: int| le_bytes(x, width));
    let big = values.map_values(|x: int| be_bytes(x, width));
    let native = values.map_values(|x: int| native_bytes(x, width));
    assert forall|j: int| 0 <= j < values.len() implies (#[trigger] little[j]).len() == width by {
        lemma_le_bytes_len(values[j], width);
    }
    assert forall|j: int| 0 <= j < values.len() implies (#[trigger] big[j]).len() == width by {
        lemma_le_bytes_len(values[j], width);
    }
    assert forall|j: int| 0 <= j < values.len() implies (#[trigger] native[j]).len() == width by {
        lemma_le_bytes_len(values[j], width);
    }
    law_equal_images_in_place(little, width, i);
    law_equal_images_in_place(big, width, i);
    law_equal_images_in_place(native, width, i);
    law_bytes_are_digits(values[i], width, k);
    let start = i * width;
    let end = (i + 1) * width;
    assert(little[i][k as int] == little.flatten().subrange(start, end)[k as int]);
    assert(big[i][width - 1 - k] == big.flatten().subrange(start, end)[width - 1 - k]);
    assert(native[i][k as int] == native.flatten().subrange(start, end)[k as int]);
    assert(native[i][width - 1 - k] == native.flatten().subrange(start, end)[width - 1 - k]);
}

/// Integers show as many bytes as Parquet stores of them: four, or eight or sixteen for those that
/// are wider, least significant first. So do floating-point numbers, in the order of the machine.
pub proof fn law_numbers_show_in_place(
    array: ArrayView,
    primitive: PrimitiveType,
    values: Seq<int>,
    width: nat,
    i: int,
    k: nat,
)
    requires
        array.values == ValuesView::Ints(primitive, values),
        match primitive {
            PrimitiveType::Int8
            | PrimitiveType::Int16
            | PrimitiveType::Int32
            | PrimitiveType::UInt8
            | PrimitiveType::UInt16
            | PrimitiveType::UInt32
            | PrimitiveType::Float32 => width == 4,
            PrimitiveType::Int64 | PrimitiveType::UInt64 | PrimitiveType::Float64 => width == 8,
            PrimitiveType::Int128 | PrimitiveType::UInt128 => width == 16,
            _ => false,
        },
        0 <= i < values.len(),
        k < width,
    ensures
        preview(array).1 == Some(width as int),
        preview(array).0 matches Some(bytes) && {
            let digit = (values[i] / vstd::arithmetic::power::pow(256, k)) % 256;
            &&& bytes.len() == values.len() * width
            &&& 0 <= i * width
            &&& (i + 1) * width == i * width + width <= bytes.len()
            &&& !(primitive is Float32 || primitive is Float64) ==> bytes[i * width + k] == digit
            &&& endianness() is Little ==> bytes[i * width + k] == digit
            &&& endianness() is Big && (primitive is Float32 || primitive is Float64)
                ==> bytes[i * width + (width - 1 - k)] == digit
        },
{
    law_joined_numbers_in_place(values, width, i, k);
}

/// A column shows bytes if it is one of integers of up to 128 bits, of single or double precision
/// numbers, or of strings of the long or the viewed layout, and otherwise none. Only strings have
/// rows of different sizes.
pub proof fn law_who_shows_bytes(array: ArrayView)
    ensures
        preview(array).0 is Some <==> match array.values {
            ValuesView::Ints(primitive, _) => !(primitive is Int256 || primitive is Float16
                || primitive is DaysMs || primitive is MonthDayNano
                || primitive is MonthDayMillis),
            ValuesView::Bytes(layout, _) => layout is LargeBinary || layout is LargeUtf8
                || layout is BinaryView || layout is Utf8View,
            _ => false,
        },
        preview(array).1 is Some <==> preview(array).0 is Some && array.values is Ints,
{
}

/// Strings that are joined lie one after the other. One that is there takes four bytes more than
/// it has: first its length, then its contents. One that is missing takes none.
pub proof fn law_joined_strings_in_place(
    items: Seq<Seq<u8>>,
    validity: Option<Seq<bool>>,
    i: int,
)
    requires
        0 <= i < items.len(),
        fits_memory(string_images(items, validity)),
    ensures
        ({
            let images = string_images(items, validity);
            let bytes = images.flatten();
            let starts = image_starts(images);
            let is_missing = validity matches Some(bits) && !bits[i];
            &&& starts.len() == items.len() + 1
            &&& starts[0] == 0
            &&& starts[items.len() as int] == bytes.len()
            &&& is_missing ==> starts[i + 1] == starts[i]
            &&& !is_missing ==> {
                &&& starts[i + 1] == starts[i] + 4 + items[i].len()
                &&& starts[i + 1] <= bytes.len()
                &&& bytes.subrange(starts[i] + 4, starts[i + 1] as int) == items[i]
                &&& forall|k: nat|
                    k < 4 ==> bytes[starts[i] + k] == (items[i].len() as int
                        / #[trigger] vstd::arithmetic::power::pow(256, k)) % 256
            }
        }),
{
    let images = string_images(items, validity);
    let bytes = images.flatten();
    let starts = image_starts(images);
    law_image_starts(images);
    law_joined_images_in_place(images, i);
    assert(starts[i] == images.take(i).flatten().len());
    assert(starts[i + 1] == images.take(i + 1).flatten().len());
    let is_missing = validity matches Some(bits) && !bits[i];
    if !is_missing {
        let image = bytes.subrange(starts[i] as int, starts[i + 1] as int);
        let len = items[i].len() as int;
        assert(image == le_bytes(len, 4) + items[i]);
        lemma_le_bytes_len(len, 4);
        assert(bytes.subrange(starts[i] + 4, starts[i + 1] as int) =~= items[i]) by {
            assert forall|k: int| 0 <= k < items[i].len() implies bytes[starts[i] + 4 + k]
                == items[i][k] by {
                assert(image[4 + k] == items[i][k]);
            }
        }
        assert forall|k: nat| k < 4 implies bytes[starts[i] + k] == (len
            / #[trigger] vstd::arithmetic::power::pow(256, k)) % 256 by {
            law_bytes_are_digits(len, 4, k);
            assert(image[k as int] == le_bytes(len, 4)[k as int]);
        }
    }
}

/// The strings of a column show as they are joined, in every layout that shows them.
pub proof fn law_strings_show_joined(array: ArrayView, layout: PhysicalType, items: Seq<Seq<u8>>)
    requires
        array.values == ValuesView::Bytes(layout, items),
        layout is LargeBinary || layout is LargeUtf8 || layout is BinaryView || layout is Utf8View,
    ensures
        preview(array) == (
            Some(string_images(items, array.validity).flatten()),
            None::<int>,
        ),
{
}

/// Each wider type takes twice the bytes of the one before it, whether it is signed or not.
pub proof fn law_element_sizes()
    ensures
        element_size(PrimitiveType::Int8) == 1,
        element_size(PrimitiveType::Int16) == 2 * element_size(PrimitiveType::Int8),
        element_size(PrimitiveType::Int32) == 2 * element_size(PrimitiveType::Int16),
        element_size(PrimitiveType::Int64) == 2 * element_size(PrimitiveType::Int32),
        element_size(PrimitiveType::Int128) == 2 * element_size(PrimitiveType::Int64),
        element_size(PrimitiveType::Int256) == 2 * element_size(PrimitiveType::Int128),
        element_size(PrimitiveType::UInt8) == element_size(PrimitiveType::Int8),
        element_size(PrimitiveType::UInt16) == element_size(PrimitiveType::Int16),
        element_size(PrimitiveType::UInt32) == element_size(PrimitiveType::Int32),
        element_size(PrimitiveType::UInt64) == element_size(PrimitiveType::Int64),
        element_size(PrimitiveType::UInt128) == element_size(PrimitiveType::Int128),
        element_size(PrimitiveType::Float16) == element_size(PrimitiveType::Int16),
        element_size(PrimitiveType::Float32) == element_size(PrimitiveType::Int32),
        element_size(PrimitiveType::Float64) == element_size(PrimitiveType::Int64),
        element_size(PrimitiveType::DaysMs) == 2 * element_size(PrimitiveType::Int32),
        element_size(PrimitiveType::MonthDayMillis) == element_size(PrimitiveType::Int64),
        element_size(PrimitiveType::MonthDayNano) == 2 * element_size(PrimitiveType::Int64),
{
}

} // verus!
