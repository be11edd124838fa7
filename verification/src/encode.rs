//! Encoding of a whole column, before it is split into pages.

use vstd::endian::endianness;
use vstd::prelude::*;

use crate::array::{is_set, mask, ArrayView, ColumnArray};
use crate::array::{Values, ValuesView};
use crate::cdc::{content_pages, is_ascending, law_fixed_size_boundaries};
use crate::cdc::{law_split_loses_nothing, page_bytes, page_spans, value_count};
use crate::cdc::{EncodedColumnData, EncodedView, ValueBoundaryTracker};
use crate::datatype::{PhysicalType, PrimitiveType};
use crate::error::{WriteError, WriteErrorView};
use crate::images::{element_size, encode_strings, fits_memory, image_starts};
use crate::images::{law_image_starts, law_joined_numbers_in_place, law_joined_strings_in_place};
use crate::images::{law_numbers_have_one_width, memory_image};
use crate::images::{primitive_element_size, string_images, to_memory_image};
use crate::levels::{encode_levels, law_levels_read_back, levels_of_runs, rle_bytes};
use crate::nested::Nested;
use crate::options::{ContentDefinedChunkingOptions, Encoding, WriteOptions};
use crate::pages::{array_to_page, digits_fit, page_of};
use crate::pages::{PageRequest, PageRequestView};
use crate::parquet::{DataPage, Page, ParquetPrimitiveType};
use crate::spans::is_partition;

verus! {

/// Where values of one size start once they are joined, and where the last one ends.
pub open spec fn even_starts(num_values: nat, element_size: nat) -> Seq<usize> {
    Seq::new(num_values + 1, |i: int| (i * element_size) as usize)
}

/// Whether values of one size can be joined in memory.
pub open spec fn even_starts_fit(num_values: nat, element_size: nat) -> bool {
    num_values < usize::MAX && num_values * element_size <= usize::MAX
}

/// Encode primitive array to bytes with value boundary tracking.
pub fn encode_primitive_for_cdc(array: &ColumnArray<'_>, elem_size: usize) -> (encoded: Result<
    (Vec<u8>, ValueBoundaryTracker),
    WriteError<'static>,
>)
    requires
        array@.is_whole(),
        even_starts_fit(array@.len(), elem_size as nat),
    ensures
        encoded is Ok,
        encoded->Ok_0.0@ == memory_image(array@.values),
        encoded->Ok_0.1@ == even_starts(array@.len(), elem_size as nat),
{
    // Get raw bytes from the primitive array's values buffer
    let bytes: Vec<u8> = to_memory_image(&array.values);
    let tracker: ValueBoundaryTracker = ValueBoundaryTracker::for_fixed_size(
        array.len(),
        elem_size,
    );
    assert(tracker@ =~= even_starts(array@.len(), elem_size as nat));
    Ok((bytes, tracker))
}

/// Whether a column has this one of the two layouts of viewed strings.
pub open spec fn is_viewed(values: ValuesView) -> bool {
    values matches ValuesView::Bytes(layout, _) && (layout is BinaryView || layout is Utf8View)
}

/// The strings of a column, and what is known of where each starts: without strings, only that
/// the first one would start at the first byte.
pub open spec fn encoded_strings(
    array: ArrayView,
    has_strings: bool,
) -> (Seq<u8>, Seq<usize>) {
    match array.values {
        ValuesView::Bytes(_, items) if has_strings => {
            let images = string_images(items, array.validity);
            (images.flatten(), image_starts(images))
        },
        _ => (Seq::empty(), seq![0usize]),
    }
}

/// Encode BinaryView/Utf8View to length-prefixed bytes for CDC.
/// This produces the actual bytes that Parquet will encode, not the view structs.
pub fn encode_binview_for_cdc(array: &ColumnArray<'_>) -> (encoded: Result<
    (Vec<u8>, ValueBoundaryTracker),
    WriteError<'static>,
>)
    requires
        array@.is_whole(),
    ensures
        encoded is Ok,
        (encoded->Ok_0.0@, encoded->Ok_0.1@) == encoded_strings(array@, is_viewed(array@.values)),
{
    match &array.values {
        Values::Utf8View(items) => Ok(encode_strings(items, &array.validity)),
        Values::BinaryView(items) => Ok(encode_strings(items, &array.validity)),
        _ => Ok((Vec::new(), ValueBoundaryTracker::new())),
    }
}

/// Encode Binary/LargeBinary to length-prefixed bytes for CDC.
pub fn encode_binary_for_cdc(array: &ColumnArray<'_>) -> (encoded: Result<
    (Vec<u8>, ValueBoundaryTracker),
    WriteError<'static>,
>)
    requires
        array@.is_whole(),
    ensures
        encoded is Ok,
        (encoded->Ok_0.0@, encoded->Ok_0.1@) == encoded_strings(array@, !is_viewed(array@.values)),
{
    match &array.values {
        Values::LargeBinary(items) => Ok(encode_strings(items, &array.validity)),
        Values::Binary(items) => Ok(encode_strings(items, &array.validity)),
        Values::LargeUtf8(items) => Ok(encode_strings(items, &array.validity)),
        Values::Utf8(items) => Ok(encode_strings(items, &array.validity)),
        _ => Ok((Vec::new(), ValueBoundaryTracker::new())),
    }
}

/// The definition level of each value: 1 where it is there, 0 where it is missing.
pub open spec fn def_level_bytes(validity: Option<Seq<bool>>, num_values: nat) -> Seq<u8> {
    Seq::new(
        num_values,
        |i: int|
            if is_set(validity, i) {
                1u8
            } else {
                0u8
            },
    )
}

/// Encode validity bitmap as RLE-encoded definition levels.
pub fn encode_validity_as_def_levels(validity: &Option<Vec<bool>>, num_values: usize) -> (levels:
    Vec<u8>)
    requires
        mask(*validity) matches Some(bits) ==> num_values <= bits.len(),
    ensures
        levels@ == rle_bytes(def_level_bytes(mask(*validity), num_values as nat)),
        levels_of_runs(levels@) == def_level_bytes(mask(*validity), num_values as nat),
{
    // 1 = defined, 0 = null
    let mut def_levels: Vec<u8> = Vec::new();
    let mut i: usize = 0;
    while i < num_values
        invariant
            i <= num_values,
            mask(*validity) matches Some(bits) ==> num_values <= bits.len(),
            def_levels@ == def_level_bytes(mask(*validity), i as nat),
        decreases num_values - i,
    {
        let defined: bool = match validity {
            Some(bits) => bits[i],
            None => true,
        };
        def_levels.push(
            if defined {
                1
            } else {
                0
            },
        );
        i = i + 1;
        assert(def_levels@ =~= def_level_bytes(mask(*validity), i as nat));
    }
    encode_levels(def_levels.as_slice())
}

/// No mask is encoded like a mask with all bits set.
pub proof fn law_no_mask_is_a_full_mask(bits: Seq<bool>, num_values: nat)
    requires
        num_values <= bits.len(),
        forall|i: int| 0 <= i < num_values ==> #[trigger] bits[i],
    ensures
        def_level_bytes(None, num_values) == def_level_bytes(Some(bits), num_values),
        rle_bytes(def_level_bytes(None, num_values)) == rle_bytes(
            def_level_bytes(Some(bits), num_values),
        ),
{
    assert(def_level_bytes(None, num_values) =~= def_level_bytes(Some(bits), num_values));
}

/// The definition levels of a column: none where no value can be missing.
pub open spec fn def_levels_of(array: ArrayView) -> Option<Seq<u8>> {
    if array.validity is Some {
        Some(rle_bytes(def_level_bytes(array.validity, array.len())))
    } else {
        None
    }
}

/// The encoded values of a column that has no levels above it and one of the layouts whose bytes
/// are known.
pub open spec fn encoded_directly(
    array: ArrayView,
    layout: PhysicalType,
    encoding: Encoding,
) -> Option<EncodedView> {
    match layout {
        PhysicalType::Primitive(primitive) => Some(
            EncodedView {
                data: memory_image(array.values),
                num_values: array.len(),
                encoding,
                def_levels: def_levels_of(array),
                rep_levels: None,
                value_boundaries: even_starts(array.len(), element_size(primitive)),
            },
        ),
        PhysicalType::BinaryView
        | PhysicalType::Utf8View
        | PhysicalType::LargeBinary
        | PhysicalType::LargeUtf8 => Some(
            EncodedView {
                data: encoded_strings(array, true).0,
                num_values: array.len(),
                encoding,
                def_levels: def_levels_of(array),
                rep_levels: None,
                value_boundaries: encoded_strings(array, true).1,
            },
        ),
        _ => None,
    }
}

/// Why a column could not be encoded: what can be said before a page is written, or what its
/// writer says.
#[derive(Debug, PartialEq, Eq)]
pub enum EncodeError<'a, E> {
    Write(WriteError<'a>),
    Writer(E),
}

/// Why a column could not be encoded.
#[verifier::ext_equal]
pub enum EncodeErrorView<E> {
    Write(WriteErrorView),
    Writer(E),
}

impl<'a, E> View for EncodeError<'a, E> {
    type V = EncodeErrorView<E>;

    open spec fn view(&self) -> EncodeErrorView<E> {
        match *self {
            EncodeError::Write(error) => EncodeErrorView::Write(error@),
            EncodeError::Writer(error) => EncodeErrorView::Writer(error),
        }
    }
}

/// The encoded values that a page holds, one byte for each: levels are among them already.
pub open spec fn wrapped_page(page: Page, encoding: Encoding) -> Result<
    EncodedView,
    WriteErrorView,
> {
    match page {
        Page::Data(data_page) => Ok(
            EncodedView {
                data: data_page.buffer@,
                num_values: data_page.header.count() as nat,
                encoding,
                def_levels: None,
                rep_levels: None,
                value_boundaries: even_starts(data_page.header.count() as nat, 1),
            },
        ),
        Page::Dict(_) => Err(WriteErrorView::DictionaryPage),
    }
}

/// What an encoding result is.
pub open spec fn encoded_view<E: View>(encoded: Result<EncodedColumnData, E>) -> Result<
    EncodedView,
    E::V,
> {
    match encoded {
        Ok(encoded) => Ok(encoded@),
        Err(error) => Err(error@),
    }
}

/// Takes a page that was written for the encoded values of a column.
pub fn wrap_page(page: Page, encoding: Encoding) -> (encoded: Result<
    EncodedColumnData,
    WriteError<'static>,
>)
    requires
        page matches Page::Data(data_page) ==> data_page.header.count() >= 0,
    ensures
        encoded_view(encoded) == wrapped_page(page, encoding),
{
    match page {
        Page::Data(data_page) => {
            let num_values: usize = data_page.num_values();
            let value_boundaries: ValueBoundaryTracker = ValueBoundaryTracker::for_fixed_size(
                num_values,
                1,
            );
            assert(value_boundaries@ =~= even_starts(num_values as nat, 1));
            Ok(
                EncodedColumnData {
                    data: data_page.buffer,
                    num_values,
                    encoding,
                    def_levels: None,  // Already included in buffer
                    rep_levels: None,
                    value_boundaries,
                },
            )
        },
        Page::Dict(_) => Err(WriteError::DictionaryPage),
    }
}

/// Whether the writer takes the page and never counts less than no values in it.
pub open spec fn writer_takes<E, W: Fn(PageRequest) -> Result<Page, E>>(
    write_page: W,
    request: PageRequestView,
) -> bool {
    &&& forall|asked: PageRequest| asked@ == request ==> #[trigger] call_requires(
        write_page,
        (asked,),
    )
    &&& forall|asked: PageRequest, page: Result<Page, E>|
        asked@ == request && #[trigger] call_ensures(write_page, (asked,), page) ==> (
        page matches Ok(Page::Data(data_page)) ==> data_page.header.count() >= 0)
}

/// Whether `encoded` is what comes of a page that the writer has made for the request.
pub open spec fn comes_from_writer<E, W: Fn(PageRequest) -> Result<Page, E>>(
    write_page: W,
    request: Result<PageRequestView, WriteErrorView>,
    encoding: Encoding,
    encoded: Result<EncodedView, EncodeErrorView<E>>,
) -> bool {
    match request {
        Err(error) => encoded == Err::<EncodedView, EncodeErrorView<E>>(
            EncodeErrorView::Write(error),
        ),
        Ok(request) => exists|asked: PageRequest, page: Result<Page, E>|
            asked@ == request && #[trigger] call_ensures(write_page, (asked,), page) && encoded
                == (match page {
                Err(error) => Err(EncodeErrorView::Writer(error)),
                Ok(page) => match wrapped_page(page, encoding) {
                    Ok(view) => Ok(view),
                    Err(error) => Err(EncodeErrorView::Write(error)),
                },
            }),
    }
}

/// Fallback: encode via existing single-page path and wrap.
pub fn encode_via_existing_path<'a, E, W: Fn(PageRequest) -> Result<Page, E>>(
    array: &ColumnArray<'a>,
    type_: &'a ParquetPrimitiveType,
    nested: &[Nested],
    options: WriteOptions,
    encoding: Encoding,
    write_page: W,
) -> (encoded: Result<EncodedColumnData, EncodeError<'a, E>>)
    requires
        array.wf(),
        digits_fit(*array.dtype),
        page_of(
            *array.dtype,
            array@,
            nested@.len(),
            *type_,
            options,
            encoding,
        ) matches Ok(request) ==> writer_takes(write_page, request),
    ensures
        comes_from_writer(
            write_page,
            page_of(
                *array.dtype,
                array@,
                nested@.len(),
                *type_,
                options,
                encoding,
            ),
            encoding,
            encoded_view(encoded),
        ),
{
    // Create a single page using existing logic
    match array_to_page(array, type_, nested, options, encoding) {
        Err(error) => Err(EncodeError::Write(error)),
        Ok(request) => {
            let ghost asked = request;
            let page: Result<Page, E> = write_page(request);
            assert(call_ensures(write_page, (asked,), page));
            match page {
                Err(error) => Err(EncodeError::Writer(error)),
                Ok(page) => match wrap_page(page, encoding) {
                    Ok(encoded) => Ok(encoded),
                    Err(error) => Err(EncodeError::Write(error)),
                },
            }
        },
    }
}

/// Encode an array to bytes for CDC processing.
/// Returns `EncodedColumnData` with the encoded bytes and value boundary tracking.
pub fn encode_array_for_cdc<'a, E, W: Fn(PageRequest) -> Result<Page, E>>(
    array: &ColumnArray<'a>,
    type_: &'a ParquetPrimitiveType,
    nested: &[Nested],
    options: WriteOptions,
    encoding: Encoding,
    write_page: W,
) -> (encoded: Result<EncodedColumnData, EncodeError<'a, E>>)
    requires
        array.wf(),
        nested@.len() == 1 ==> (array.dtype.physical() matches Some(
            PhysicalType::Primitive(primitive),
        ) ==> even_starts_fit(array@.len(), element_size(primitive))),
        nested@.len() != 1 || encoded_directly(array@, array.dtype.physical()->0, encoding) is None
            ==> {
            &&& digits_fit(*array.dtype)
            &&& page_of(
                *array.dtype,
                array@,
                nested@.len(),
                *type_,
                options,
                encoding,
            ) matches Ok(request) ==> writer_takes(write_page, request)
        },
    ensures
        match encoded_directly(array@, array.dtype.physical()->0, encoding) {
            Some(view) if nested@.len() == 1 => encoded_view(encoded) == Ok::<
                EncodedView,
                EncodeErrorView<E>,
            >(view),
            _ => comes_from_writer(
                write_page,
                page_of(
                    *array.dtype,
                    array@,
                    nested@.len(),
                    *type_,
                    options,
                    encoding,
                ),
                encoding,
                encoded_view(encoded),
            ),
        },
        nested@.len() == 1 && encoded_directly(array@, array.dtype.physical()->0, encoding) is Some
            ==> (encoded matches Ok(encoded) && tells_missing_values(
            encoded@,
            array@.validity,
            array@.len(),
        )),
{
    // For simple (non-nested) case with primitive types
    if nested.len() == 1 {
        match array.dtype.to_physical_type() {
            PhysicalType::Primitive(ptype) => {
                let elem_size: usize = primitive_element_size(ptype);
                if let Ok((data, tracker)) = encode_primitive_for_cdc(array, elem_size) {
                    return Ok(with_def_levels(array, data, tracker, encoding));
                }
            },
            PhysicalType::BinaryView | PhysicalType::Utf8View => {
                if let Ok((data, tracker)) = encode_binview_for_cdc(array) {
                    return Ok(with_def_levels(array, data, tracker, encoding));
                }
            },
            PhysicalType::LargeBinary | PhysicalType::LargeUtf8 => {
                if let Ok((data, tracker)) = encode_binary_for_cdc(array) {
                    return Ok(with_def_levels(array, data, tracker, encoding));
                }
            },
            _ => {},
        }
    }
    // Fallback: encode via existing path and wrap result
    // This handles nested types and edge cases
    encode_via_existing_path(array, type_, nested, options, encoding, write_page)
}

/// Whether the definition levels of encoded values, read back, tell for each row whether the mask
/// of the column says that it has a value: 1 where it has one and 0 elsewhere. Without a mask there
/// are none.
pub open spec fn tells_missing_values(
    encoded: EncodedView,
    validity: Option<Seq<bool>>,
    rows: nat,
) -> bool {
    &&& encoded.num_values == rows
    &&& match validity {
        Some(bits) => {
            &&& encoded.def_levels matches Some(levels)
            &&& levels_of_runs(levels).len() == rows
            &&& forall|i: int|
                0 <= i < rows ==> #[trigger] levels_of_runs(levels)[i] == (if bits[i] {
                    1u8
                } else {
                    0u8
                })
        },
        None => encoded.def_levels is None,
    }
}

/// The encoded values of a column, with its definition levels if nullable.
fn with_def_levels(
    array: &ColumnArray<'_>,
    data: Vec<u8>,
    value_boundaries: ValueBoundaryTracker,
    encoding: Encoding,
) -> (encoded: EncodedColumnData)
    requires
        array@.is_whole(),
    ensures
        encoded@ == (EncodedView {
            data: data@,
            num_values: array@.len(),
            encoding,
            def_levels: def_levels_of(array@),
            rep_levels: None,
            value_boundaries: value_boundaries@,
        }),
        tells_missing_values(encoded@, array@.validity, array@.len()),
{
    let num_values: usize = array.len();
    let def_levels: Option<Vec<u8>> = if array.validity.is_some() {
        Some(encode_validity_as_def_levels(&array.validity, num_values))
    } else {
        None
    };
    EncodedColumnData {
        data,
        num_values,
        encoding,
        def_levels,
        rep_levels: None,
        value_boundaries,
    }
}

/// The boundaries of strings that were encoded directly are those of their bytes: they are in
/// order, begin at the first byte and end after the last one, and there is one value for each row.
pub proof fn law_string_boundaries(array: ArrayView, layout: PhysicalType, encoding: Encoding)
    requires
        array.values is Bytes,
        layout is BinaryView || layout is Utf8View || layout is LargeBinary || layout is LargeUtf8,
        fits_memory(string_images(array.values->Bytes_1, array.validity)),
    ensures
        encoded_directly(array, layout, encoding) matches Some(encoded) && {
            &&& is_ascending(encoded.value_boundaries)
            &&& value_count(encoded.value_boundaries) == encoded.num_values == array.len()
            &&& encoded.value_boundaries[0] == 0
            &&& encoded.value_boundaries.last() == encoded.data.len()
        },
{
    law_image_starts(string_images(array.values->Bytes_1, array.validity));
}

/// The boundaries of numbers that were encoded directly are those of their bytes.
pub proof fn law_number_boundaries(
    array: ArrayView,
    primitive: PrimitiveType,
    encoding: Encoding,
)
    requires
        array.values matches ValuesView::Ints(own, _) && own == primitive,
        !(primitive is Int256),
        !(primitive is Float16),
        even_starts_fit(array.len(), element_size(primitive)),
    ensures
        encoded_directly(array, PhysicalType::Primitive(primitive), encoding) matches Some(encoded)
            && {
            &&& is_ascending(encoded.value_boundaries)
            &&& value_count(encoded.value_boundaries) == encoded.num_values == array.len()
            &&& encoded.value_boundaries[0] == 0
            &&& encoded.value_boundaries.last() == encoded.data.len()
        },
{
    let starts = even_starts(array.len(), element_size(primitive));
    let count = array.len() as usize;
    let size = element_size(primitive) as usize;
    assert(starts =~= Seq::new((count + 1) as nat, |i: int| (i * size) as usize));
    law_fixed_size_boundaries(starts, count, size);
    law_numbers_have_one_width(array.values->Ints_1, element_size(primitive));
}

/// Encoding and splitting together lose nothing: a column of strings, or of numbers whose bytes
/// are known, that was encoded directly and is split by its content goes into pages that have all
/// its rows, each in exactly one page, and all its bytes in their order.
pub proof fn law_encoded_column_splits_whole(
    encoded: EncodedColumnData,
    array: ArrayView,
    layout: PhysicalType,
    encoding: Encoding,
    cdc_options: ContentDefinedChunkingOptions,
)
    requires
        encoded_directly(array, layout, encoding) == Some(encoded@),
        array.values.has_layout(layout),
        array.len() > 0,
        match array.values {
            ValuesView::Ints(primitive, _) => {
                &&& !(primitive is Int256)
                &&& !(primitive is Float16)
                &&& even_starts_fit(array.len(), element_size(primitive))
            },
            ValuesView::Bytes(_, items) => fits_memory(string_images(items, array.validity)),
            _ => false,
        },
    ensures
        is_partition(page_spans(content_pages(encoded, cdc_options)), array.len() as int),
        page_bytes(content_pages(encoded, cdc_options)) == encoded.data@,
{
    match array.values {
        ValuesView::Ints(primitive, _) => law_number_boundaries(array, primitive, encoding),
        _ => law_string_boundaries(array, layout, encoding),
    }
    let offsets = encoded.value_boundaries@;
    assert forall|i: int| 0 <= i < offsets.len() implies #[trigger] offsets[i]
        <= encoded.data@.len() by {
        assert(offsets[i] <= offsets[offsets.len() - 1]);
    }
    law_split_loses_nothing(encoded, cdc_options);
}

/// The definition levels of a mask tell each value that is there from each that is missing: read
/// back, there is one level for each value, 1 where the bit of the value is set and 0 elsewhere.
/// Without a mask all are 1.
pub proof fn law_levels_tell_missing_values(validity: Option<Seq<bool>>, num_values: nat, i: int)
    requires
        0 <= i < num_values,
    ensures
        ({
            let levels = levels_of_runs(rle_bytes(def_level_bytes(validity, num_values)));
            &&& levels.len() == num_values
            &&& validity matches Some(bits) ==> levels[i] == (if bits[i] {
                1u8
            } else {
                0u8
            })
            &&& validity is None ==> levels[i] == 1
        }),
{
    law_levels_read_back(def_level_bytes(validity, num_values));
}

/// Missing values are told: a column that was encoded directly, be it of numbers or of strings,
/// has definition levels if and only if it has a mask. Read back, there is one level for each row,
/// 1 exactly where the mask says that the row has a value, and 0 elsewhere.
pub proof fn law_missing_values_are_told(
    array: ArrayView,
    layout: PhysicalType,
    encoding: Encoding,
    i: int,
)
    requires
        encoded_directly(array, layout, encoding) is Some,
        0 <= i < array.len(),
    ensures
        encoded_directly(array, layout, encoding) matches Some(encoded) && {
            &&& encoded.num_values == array.len()
            &&& encoded.def_levels is Some <==> array.validity is Some
            &&& array.validity matches Some(bits) ==> {
                &&& encoded.def_levels matches Some(levels)
                &&& levels_of_runs(levels).len() == encoded.num_values
                &&& levels_of_runs(levels)[i] == 1 <==> bits[i]
                &&& levels_of_runs(levels)[i] == 0 <==> !bits[i]
            }
        },
{
    law_levels_tell_missing_values(array.validity, array.len(), i);
}

/// A column is encoded directly if it is one of numbers or of strings of the long or the viewed
/// layout. It has a value for each row, the encoding that was asked for, and nothing is repeated.
pub proof fn law_who_is_encoded_directly(
    array: ArrayView,
    layout: PhysicalType,
    encoding: Encoding,
)
    ensures
        encoded_directly(array, layout, encoding) is Some <==> layout is Primitive
            || layout is BinaryView || layout is Utf8View || layout is LargeBinary
            || layout is LargeUtf8,
        encoded_directly(array, layout, encoding) matches Some(encoded) ==> {
            &&& encoded.num_values == array.len()
            &&& encoded.encoding == encoding
            &&& encoded.rep_levels is None
        },
{
}

/// Numbers that were encoded directly are there as they lie in memory: row `i` begins at the byte
/// that its boundary says, takes the bytes of its type, and has its digits there.
pub proof fn law_numbers_encoded_in_place(
    array: ArrayView,
    primitive: PrimitiveType,
    values: Seq<int>,
    encoding: Encoding,
    i: int,
    k: nat,
)
    requires
        array.values == ValuesView::Ints(primitive, values),
        !(primitive is Int256),
        !(primitive is Float16),
        even_starts_fit(array.len(), element_size(primitive)),
        0 <= i < values.len(),
        k < element_size(primitive),
    ensures
        encoded_directly(array, PhysicalType::Primitive(primitive), encoding) matches Some(encoded)
            && {
            let size = element_size(primitive);
            let start = encoded.value_boundaries[i];
            let digit = (values[i] / vstd::arithmetic::power::pow(256, k)) % 256;
            &&& encoded.value_boundaries.len() == values.len() + 1
            &&& encoded.value_boundaries[0] == 0
            &&& encoded.value_boundaries[i + 1] == start + size <= encoded.data.len()
            &&& endianness() is Little ==> encoded.data[start + k] == digit
            &&& endianness() is Big ==> encoded.data[start + (size - 1 - k)] == digit
        },
{
    let size = element_size(primitive);
    law_joined_numbers_in_place(values, size, i, k);
    assert(i * size <= values.len() * size && (i + 1) * size <= values.len() * size && 0 * size
        == 0) by (nonlinear_arith)
        requires
            0 <= i < values.len(),
    ;
}

/// Strings that were encoded directly lie one after the other: row `i` begins at the byte that its
/// boundary says. If it is there, it has four bytes more than its string, first the length and
/// then the contents; if it is missing, it has none.
pub proof fn law_strings_encoded_in_place(
    array: ArrayView,
    layout: PhysicalType,
    items: Seq<Seq<u8>>,
    encoding: Encoding,
    i: int,
)
    requires
        array.values == ValuesView::Bytes(layout, items),
        layout is BinaryView || layout is Utf8View || layout is LargeBinary || layout is LargeUtf8,
        fits_memory(string_images(items, array.validity)),
        0 <= i < items.len(),
    ensures
        encoded_directly(array, layout, encoding) matches Some(encoded) && {
            let start = encoded.value_boundaries[i];
            let end = encoded.value_boundaries[i + 1];
            let is_missing = array.validity matches Some(bits) && !bits[i];
            &&& encoded.value_boundaries.len() == items.len() + 1
            &&& encoded.value_boundaries[0] == 0
            &&& encoded.value_boundaries[items.len() as int] == encoded.data.len()
            &&& is_missing ==> end == start
            &&& !is_missing ==> {
                &&& end == start + 4 + items[i].len() <= encoded.data.len()
                &&& encoded.data.subrange(start + 4, end as int) == items[i]
                &&& forall|k: nat|
                    k < 4 ==> encoded.data[start + k] == (items[i].len() as int
                        / #[trigger] vstd::arithmetic::power::pow(256, k)) % 256
            }
        },
{
    law_joined_strings_in_place(items, array.validity, i);
}

/// A page that a writer has made is taken as it is: its bytes, as many values as it counts, each
/// of one byte, and no levels besides. A dictionary is refused.
pub proof fn law_wrapped_page_is_kept(page: Page, encoding: Encoding, i: int)
    requires
        page matches Page::Data(data_page) ==> 0 <= data_page.header.count() && 0 <= i
            <= data_page.header.count(),
    ensures
        page is Data <==> wrapped_page(page, encoding) is Ok,
        page matches Page::Data(data_page) ==> (wrapped_page(page, encoding) matches Ok(encoded)
            && {
            &&& encoded.data == data_page.buffer@
            &&& encoded.num_values == data_page.header.count()
            &&& encoded.encoding == encoding
            &&& encoded.def_levels is None
            &&& encoded.rep_levels is None
            &&& encoded.value_boundaries.len() == encoded.num_values + 1
            &&& encoded.value_boundaries[i] == i
        }),
        page is Dict ==> wrapped_page(page, encoding) == Err::<EncodedView, WriteErrorView>(
            WriteErrorView::DictionaryPage,
        ),
{
}

/// What comes from a writer is either what it said or what it wrote: a request that could not be
/// made is an error before anything is written, an error of the writer is handed on, and encoded
/// values are the bytes of a data page that the writer made for this request.
pub proof fn law_encoded_comes_from_a_page<E, W: Fn(PageRequest) -> Result<Page, E>>(
    write_page: W,
    request: Result<PageRequestView, WriteErrorView>,
    encoding: Encoding,
    encoded: Result<EncodedView, EncodeErrorView<E>>,
)
    requires
        comes_from_writer(write_page, request, encoding, encoded),
    ensures
        request matches Err(error) ==> encoded == Err::<EncodedView, EncodeErrorView<E>>(
            EncodeErrorView::Write(error),
        ),
        encoded is Err && encoded->Err_0 is Writer ==> request is Ok && exists|
            asked: PageRequest,
            page: Result<Page, E>,
        |
            asked@ == request->Ok_0 && #[trigger] call_ensures(write_page, (asked,), page) && page
                is Err && page->Err_0 == encoded->Err_0->Writer_0,
        encoded matches Ok(view) ==> request is Ok && exists|asked: PageRequest, page: DataPage|
            asked@ == request->Ok_0 && #[trigger] call_ensures(
                write_page,
                (asked,),
                Ok::<Page, E>(Page::Data(page)),
            ) && view.data == page.buffer@ && view.num_values == page.header.count() as nat
                && view.encoding == encoding && view.def_levels is None && view.rep_levels is None,
{
    if let Ok(request) = request {
        let (asked, page) = choose|asked: PageRequest, page: Result<Page, E>|
            asked@ == request && #[trigger] call_ensures(write_page, (asked,), page) && encoded
                == (match page {
                Err(error) => Err(EncodeErrorView::Writer(error)),
                Ok(page) => match wrapped_page(page, encoding) {
                    Ok(view) => Ok(view),
                    Err(error) => Err(EncodeErrorView::Write(error)),
                },
            });
        match page {
            Err(_) => {},
            Ok(Page::Data(data_page)) => {
                assert(call_ensures(write_page, (asked,), Ok::<Page, E>(Page::Data(data_page))));
            },
            Ok(Page::Dict(_)) => {},
        }
    }
}

/// Of a column of numbers that have no image in memory, there are no bytes, but the boundaries are
/// those of its type.
pub proof fn law_numbers_without_image(
    array: ArrayView,
    primitive: PrimitiveType,
    encoding: Encoding,
    i: int,
)
    requires
        match array.values {
            ValuesView::Ints(own, _) => own is Int256 || own is Float16,
            _ => true,
        },
        even_starts_fit(array.len(), element_size(primitive)),
        0 <= i <= array.len(),
    ensures
        encoded_directly(array, PhysicalType::Primitive(primitive), encoding) matches Some(encoded)
            && {
            &&& encoded.data.len() == 0
            &&& encoded.value_boundaries.len() == array.len() + 1
            &&& encoded.value_boundaries[i] == i * element_size(primitive)
        },
{
    let size = element_size(primitive);
    let len = array.len();
    assert(0 <= i * size <= len * size) by (nonlinear_arith)
        requires
            0 <= i <= len,
            size >= 0,
    ;
}

/// A column without strings of the layout that is asked for has no bytes, and only the first
/// boundary.
pub proof fn law_no_strings_no_bytes(array: ArrayView)
    ensures
        encoded_strings(array, false).0.len() == 0,
        encoded_strings(array, false).1 == seq![0usize],
        !(array.values is Bytes) ==> encoded_strings(array, true).0.len() == 0,
        !(array.values is Bytes) ==> encoded_strings(array, true).1 == seq![0usize],
        is_viewed(array.values) <==> array.values.has_layout(PhysicalType::BinaryView)
            || array.values.has_layout(PhysicalType::Utf8View),
{
}

} // verus!
