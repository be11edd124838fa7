//! The pages of a column.

use vstd::prelude::*;

use crate::array::{law_slice_keeps_items, ArrayView, ColumnArray, ValuesView};
use crate::columns::FieldWriteOptions;
use crate::datatype::{DataType, IntegerType, PhysicalType, PrimitiveType};
use crate::error::{WriteError, WriteErrorView};
use crate::images::{law_numbers_show_in_place, law_strings_show_joined, preview};
use crate::nested::{column_fits, copy_levels, law_adjacent_slices_join};
use crate::nested::{law_every_run_is_sliceable, law_leaf_slice_is_a_run, law_slice_has_rows};
use crate::nested::law_sliced_levels_keep_items;
use crate::nested::{nested_views, place_below, slice_parquet_array, sliceable, sliced_leaf};
use crate::nested::{sliced_levels, Nested, NestedView};
use crate::options::{ContentDefinedChunkingOptions, Encoding, WriteOptions};
use crate::page_laws::{is_column_of, law_encoding_is_told, law_pages_keep_missing_values};
use crate::page_laws::{takes_encoding, written_values};
use crate::pages::{array_to_page, digits_fit, page_of, request_view};
use crate::pages::{PageRequest, PageRequestView};
use crate::parquet::ParquetPrimitiveType;
use crate::rows::{average_row, can_divide, compute_cdc_row_ranges, compute_fixed_row_iter};
use crate::rows::{chunks_of_rows_hold, content_row_spans, law_content_covers_rows};
use crate::rows::{chunk_ends_in_row, chunk_reaches_row, law_fixed_pages_end_evenly};
use crate::rows::{law_fixed_pages_cover_rows, law_pages_end_with_chunks, rows_per_page};
use crate::rows::law_string_pages_end_with_chunks;
use crate::spans::{begin_of, ends_at, even_spans, is_partition, lemma_partition_bounds, span_end};
use crate::spans::span_ints;

verus! {

/// The size of a page where none is given.
pub const DEFAULT_PAGE_SIZE: usize = 1048576;

/// The size that no page exceeds, whatever is given: 2^31 - 2^25.
pub const LARGEST_PAGE_SIZE: usize = 2113929216;

/// One page to be made: its rows of the column, of the levels above it, and what is to be written.
#[derive(Debug, PartialEq, Eq)]
pub struct PageTask<'a> {
    pub array: ColumnArray<'a>,
    pub nested: Vec<Nested>,
    pub page: Result<PageRequest, WriteError<'a>>,
}

/// One page to be made.
#[verifier::ext_equal]
pub struct PageTaskView {
    pub dtype: DataType,
    pub array: ArrayView,
    pub nested: Seq<NestedView>,
    pub page: Result<PageRequestView, WriteErrorView>,
}

impl<'a> View for PageTask<'a> {
    type V = PageTaskView;

    open spec fn view(&self) -> PageTaskView {
        PageTaskView {
            dtype: *self.array.dtype,
            array: self.array@,
            nested: nested_views(self.nested@),
            page: request_view(self.page),
        }
    }
}

/// The pages to be made.
pub open spec fn task_views<'a>(tasks: Seq<PageTask<'a>>) -> Seq<PageTaskView> {
    tasks.map_values(|task: PageTask<'a>| task@)
}

/// How the pages of a column are made.
#[derive(Debug, PartialEq, Eq)]
pub enum PagePlan<'a, R> {
    /// By the writer of columns that are dictionaries with such keys.
    Dictionary(IntegerType),
    /// As the attempt to write a dictionary has made them.
    Attempted(R),
    /// One after the other.
    Pages(Vec<PageTask<'a>>),
}

/// The page with the rows of one span.
pub open spec fn task_of(
    dtype: DataType,
    array: ArrayView,
    nested: Seq<NestedView>,
    span: (int, int),
    type_: ParquetPrimitiveType,
    options: WriteOptions,
    encoding: Encoding,
) -> PageTaskView {
    let leaf = sliced_leaf(array, nested, span.0, span_end(span));
    PageTaskView {
        dtype,
        array: leaf,
        nested: sliced_levels(nested, span.0, span_end(span)),
        page: page_of(dtype, leaf, nested.len(), type_, options, encoding),
    }
}

/// The pages with the rows of all spans.
pub open spec fn tasks_of(
    dtype: DataType,
    array: ArrayView,
    nested: Seq<NestedView>,
    spans: Seq<(int, int)>,
    type_: ParquetPrimitiveType,
    options: WriteOptions,
    encoding: Encoding,
) -> Seq<PageTaskView> {
    spans.map_values(
        |span: (int, int)| task_of(dtype, array, nested, span, type_, options, encoding),
    )
}

/// Makes a page of the rows of each range.
fn tasks_for_ranges<'a>(
    primitive_array: &ColumnArray<'a>,
    type_: &'a ParquetPrimitiveType,
    nested: &[Nested],
    ranges: &Vec<(usize, usize)>,
    options: WriteOptions,
    encoding: Encoding,
) -> (tasks: Vec<PageTask<'a>>)
    requires
        primitive_array.wf(),
        digits_fit(*primitive_array.dtype),
        column_fits(primitive_array@, nested_views(nested@)),
        is_partition(span_ints(ranges@), nested_views(nested@)[0].len()),
    ensures
        task_views(tasks@) == tasks_of(
            *primitive_array.dtype,
            primitive_array@,
            nested_views(nested@),
            span_ints(ranges@),
            *type_,
            options,
            encoding,
        ),
        forall|k: int|
            0 <= k < tasks@.len() ==> (#[trigger] tasks@[k]).array.dtype == primitive_array.dtype,
{
    let ghost dtype = *primitive_array.dtype;
    let ghost array = primitive_array@;
    let ghost levels = nested_views(nested@);
    let ghost spans = span_ints(ranges@);
    let ghost rows = levels[0].len();
    let mut tasks: Vec<PageTask<'a>> = Vec::new();
    let mut i: usize = 0;
    while i < ranges.len()
        invariant
            i <= ranges@.len(),
            tasks@.len() == i,
            primitive_array.wf(),
            dtype == *primitive_array.dtype,
            array == primitive_array@,
            levels == nested_views(nested@),
            spans == span_ints(ranges@),
            rows == levels[0].len(),
            digits_fit(dtype),
            column_fits(array, levels),
            is_partition(spans, rows),
            forall|k: int|
                0 <= k < i ==> (#[trigger] tasks@[k]).array.dtype == primitive_array.dtype,
            forall|k: int|
                0 <= k < i ==> (#[trigger] tasks@[k])@ == task_of(
                    dtype,
                    array,
                    levels,
                    spans[k],
                    *type_,
                    options,
                    encoding,
                ),
        decreases ranges@.len() - i,
    {
        let (offset, length) = ranges[i];
        proof {
            lemma_partition_bounds(spans, rows, i as int);
            law_every_run_is_sliceable(array, levels, rows, offset as int, offset + length);
        }
        let mut sliced_array: ColumnArray<'a> = primitive_array.copy();
        let mut sliced_nested: Vec<Nested> = copy_levels(nested);
        slice_parquet_array(&mut sliced_array, sliced_nested.as_mut_slice(), offset, length);
        let page: Result<PageRequest, WriteError<'a>> = array_to_page(
            &sliced_array,
            type_,
            sliced_nested.as_slice(),
            options,
            encoding,
        );
        tasks.push(PageTask { array: sliced_array, nested: sliced_nested, page });
        i = i + 1;
    }
    assert(task_views(tasks@) =~= tasks_of(
        dtype,
        array,
        levels,
        spans,
        *type_,
        options,
        encoding,
    ));
    tasks
}

/// CDC-based page splitting: determine row boundaries via CDC, then use existing encoding.
/// This approach runs CDC on a preview of encoded bytes to find good split points,
/// then uses the standard slice-and-encode path to create valid pages.
pub fn array_to_pages_with_cdc<'a>(
    primitive_array: &ColumnArray<'a>,
    type_: &'a ParquetPrimitiveType,
    nested: &[Nested],
    options: WriteOptions,
    encoding: Encoding,
    byte_size: usize,
    max_page_size: usize,
    cdc_options: ContentDefinedChunkingOptions,
) -> (tasks: Vec<PageTask<'a>>)
    requires
        primitive_array.wf(),
        digits_fit(*primitive_array.dtype),
        column_fits(primitive_array@, nested_views(nested@)),
        can_divide(
            primitive_array@,
            nested_views(nested@)[0].len(),
            byte_size as int,
            cdc_options,
        ),
    ensures
        task_views(tasks@) == tasks_of(
            *primitive_array.dtype,
            primitive_array@,
            nested_views(nested@),
            content_row_spans(
                primitive_array@,
                nested_views(nested@)[0].len(),
                byte_size as int,
                max_page_size as int,
                cdc_options,
            ),
            *type_,
            options,
            encoding,
        ),
        forall|k: int|
            0 <= k < tasks@.len() ==> (#[trigger] tasks@[k]).array.dtype == primitive_array.dtype,
        chunks_of_rows_hold(primitive_array@, nested_views(nested@)[0].len(), cdc_options),
{
    let ghost levels = nested_views(nested@);
    assert(levels[0].wf() && levels[0] == nested@[0]@);
    let number_of_rows: usize = nested[0].len();
    // Get row boundaries from CDC analysis
    let row_ranges: Vec<(usize, usize)> = compute_cdc_row_ranges(
        primitive_array,
        number_of_rows,
        byte_size,
        max_page_size,
        cdc_options,
    );
    proof {
        law_content_covers_rows(
            primitive_array@,
            number_of_rows as int,
            byte_size as int,
            max_page_size as int,
            cdc_options,
        );
    }
    // Use the same slice-then-encode approach as the non-CDC path
    tasks_for_ranges(primitive_array, type_, nested, &row_ranges, options, encoding)
}

/// The size of a page under these options.
pub open spec fn max_page_size(options: WriteOptions) -> int {
    let size = match options.data_page_size {
        Some(size) => size as int,
        None => DEFAULT_PAGE_SIZE as int,
    };
    if size < LARGEST_PAGE_SIZE {
        size
    } else {
        LARGEST_PAGE_SIZE as int
    }
}

/// The rows of each page: divided by content where the options ask for it, and otherwise into
/// pages of one size.
pub open spec fn row_spans_of_pages(
    array: ArrayView,
    rows: int,
    byte_size: int,
    options: WriteOptions,
) -> Seq<(int, int)> {
    match options.content_defined_chunking {
        Some(cdc_options) => content_row_spans(
            array,
            rows,
            byte_size,
            max_page_size(options),
            cdc_options,
        ),
        None => even_spans(rows, rows_per_page(rows, byte_size, max_page_size(options))),
    }
}

/// Whether it is tried to write the column as a dictionary.
pub open spec fn tries_dictionary(nested: Seq<NestedView>, encoding: Encoding) -> bool {
    encoding is RleDictionary && nested.len() > 0 && nested[0].kind is Primitive
}

/// The encoding of the pages where no dictionary is written.
pub open spec fn encoding_of_pages(encoding: Encoding) -> Encoding {
    if encoding is RleDictionary {
        Encoding::Plain
    } else {
        encoding
    }
}

/// Whether all pages that are to be written have this encoding.
pub open spec fn are_encoded(tasks: Seq<PageTask<'_>>, encoding: Encoding) -> bool {
    forall|k: int|
        #![trigger tasks[k]]
        0 <= k < tasks.len() ==> (tasks[k].page matches Ok(page) ==> page.encoding == Some(
            encoding,
        ))
}

/// The pages of a flat column of integers, booleans, strings or byte strings have the encoding of
/// pages.
proof fn lemma_are_encoded(
    tasks: Seq<PageTask<'_>>,
    dtype: DataType,
    array: ArrayView,
    nested: Seq<NestedView>,
    byte_size: int,
    type_: ParquetPrimitiveType,
    options: WriteOptions,
    encoding: Encoding,
)
    requires
        array.is_whole(),
        column_fits(array, nested),
        nested.len() == 1,
        takes_encoding(dtype),
        task_views(tasks) == tasks_of(
            dtype,
            array,
            nested,
            row_spans_of_pages(array, nested[0].len(), byte_size, options),
            type_,
            options,
            encoding_of_pages(encoding),
        ),
    ensures
        are_encoded(
            tasks,
            if encoding is RleDictionary {
                Encoding::Plain
            } else {
                encoding
            },
        ),
{
    let rows = nested[0].len();
    let spans = row_spans_of_pages(array, rows, byte_size, options);
    assert(rows >= 0) by {
        assert(nested[0].wf());
    }
    law_pages_cover_rows(array, rows, byte_size, options);
    assert(task_views(tasks).len() == tasks.len() == spans.len());
    assert forall|k: int| #![trigger tasks[k]] 0 <= k < tasks.len() implies (
    tasks[k].page matches Ok(page) ==> page.encoding == Some(
        if encoding is RleDictionary {
            Encoding::Plain
        } else {
            encoding
        },
    )) by {
        assert(task_views(tasks)[k] == tasks[k]@);
        law_pages_have_asked_encoding(
            dtype,
            array,
            nested,
            spans,
            type_,
            options,
            encoding,
            k,
        );
    }
}

/// Makes the pages of a column.
///
/// `byte_size` is the estimated size of the column. `attempt` tries to write the column as a
/// dictionary and gives nothing where that does not pay.
pub fn array_to_pages<'a, R, A: Fn() -> Option<R>>(
    primitive_array: &ColumnArray<'a>,
    type_: &'a ParquetPrimitiveType,
    nested: &[Nested],
    options: WriteOptions,
    field_options: &FieldWriteOptions,
    byte_size: usize,
    attempt: A,
) -> (plan: PagePlan<'a, R>)
    requires
        !(primitive_array.dtype.storage() is Dictionary) ==> {
            &&& primitive_array.wf()
            &&& digits_fit(*primitive_array.dtype)
            &&& column_fits(primitive_array@, nested_views(nested@))
            &&& tries_dictionary(nested_views(nested@), field_options.encoding) ==> call_requires(
                attempt,
                (),
            )
            &&& match options.content_defined_chunking {
                Some(cdc_options) => can_divide(
                    primitive_array@,
                    nested_views(nested@)[0].len(),
                    byte_size as int,
                    cdc_options,
                ),
                None => average_row(nested_views(nested@)[0].len(), byte_size as int) < usize::MAX,
            }
        },
    ensures
        match (primitive_array.dtype.storage(), plan) {
            (DataType::Dictionary(key, _, _), PagePlan::Dictionary(told)) => told == key,
            (DataType::Dictionary(_, _, _), _) => false,
            (_, PagePlan::Dictionary(_)) => false,
            (_, PagePlan::Attempted(result)) => {
                &&& tries_dictionary(nested_views(nested@), field_options.encoding)
                &&& call_ensures(attempt, (), Some(result))
            },
            (_, PagePlan::Pages(tasks)) => {
                &&& tries_dictionary(nested_views(nested@), field_options.encoding) ==> call_ensures(
                    attempt,
                    (),
                    None,
                )
                &&& task_views(tasks@) == tasks_of(
                    *primitive_array.dtype,
                    primitive_array@,
                    nested_views(nested@),
                    row_spans_of_pages(
                        primitive_array@,
                        nested_views(nested@)[0].len(),
                        byte_size as int,
                        options,
                    ),
                    *type_,
                    options,
                    encoding_of_pages(field_options.encoding),
                )
                &&& forall|k: int|
                    0 <= k < tasks@.len() ==> (#[trigger] tasks@[k]).array.dtype
                        == primitive_array.dtype
                &&& options.content_defined_chunking matches Some(cdc_options)
                    ==> chunks_of_rows_hold(
                    primitive_array@,
                    nested_views(nested@)[0].len(),
                    cdc_options,
                )
            },
        },
        plan is Attempted ==> field_options.encoding is RleDictionary && nested@[0] is Primitive,
        plan is Pages && field_options.encoding is RleDictionary && nested@[0] is Primitive
            ==> call_ensures(attempt, (), None),
        plan matches PagePlan::Pages(tasks) ==> nested@.len() == 1 && takes_encoding(
            *primitive_array.dtype,
        ) ==> are_encoded(
            tasks@,
            if field_options.encoding is RleDictionary {
                Encoding::Plain
            } else {
                field_options.encoding
            },
        ),
{
    let mut encoding: Encoding = field_options.encoding;
    // Handle dictionary types first
    if let DataType::Dictionary(key_type, _, _) = primitive_array.dtype.to_storage() {
        return PagePlan::Dictionary(*key_type);
    }
    let ghost levels = nested_views(nested@);
    assert(levels[0].wf() && levels[0] == nested@[0]@);
    if let Encoding::RleDictionary = encoding {
        if let Nested::Primitive(_) = &nested[0] {
            if let Some(result) = attempt() {
                return PagePlan::Attempted(result);
            }
        }
        encoding = Encoding::Plain;
    }
    let number_of_rows: usize = nested[0].len();
    let max_page_size: usize = match options.data_page_size {
        Some(size) => size,
        None => DEFAULT_PAGE_SIZE,
    };
    let max_page_size: usize = if max_page_size < LARGEST_PAGE_SIZE {
        max_page_size
    } else {
        LARGEST_PAGE_SIZE
    };
    // Route to CDC or fixed-size chunking
    let tasks: Vec<PageTask<'a>> = match options.content_defined_chunking {
        Some(cdc_options) => array_to_pages_with_cdc(
            primitive_array,
            type_,
            nested,
            options,
            encoding,
            byte_size,
            max_page_size,
            cdc_options,
        ),
        None => {
            let row_ranges: Vec<(usize, usize)> = compute_fixed_row_iter(
                number_of_rows,
                byte_size,
                max_page_size,
            );
            proof {
                law_fixed_pages_cover_rows(
                    number_of_rows as int,
                    byte_size as int,
                    max_page_size as int,
                );
            }
            tasks_for_ranges(primitive_array, type_, nested, &row_ranges, options, encoding)
        },
    };
    proof {
        if nested@.len() == 1 && takes_encoding(*primitive_array.dtype) {
            lemma_are_encoded(
                tasks@,
                *primitive_array.dtype,
                primitive_array@,
                levels,
                byte_size as int,
                *type_,
                options,
                field_options.encoding,
            );
        }
    }
    PagePlan::Pages(tasks)
}

/// The pages of a column have all its rows, each in exactly one page, and no page is empty.
pub proof fn law_pages_cover_rows(
    array: ArrayView,
    rows: int,
    byte_size: int,
    options: WriteOptions,
)
    requires
        rows >= 0,
    ensures
        is_partition(row_spans_of_pages(array, rows, byte_size, options), rows),
{
    match options.content_defined_chunking {
        Some(cdc_options) => law_content_covers_rows(
            array,
            rows,
            byte_size,
            max_page_size(options),
            cdc_options,
        ),
        None => law_fixed_pages_cover_rows(rows, byte_size, max_page_size(options)),
    }
}

/// The leaf values of all pages, one page after the other.
pub open spec fn joined_leaves(tasks: Seq<PageTaskView>) -> ArrayView
    decreases tasks.len(),
{
    if tasks.len() <= 1 {
        tasks[0].array
    } else {
        joined_leaves(tasks.drop_last()).joined(tasks.last().array)
    }
}

/// The pages of a column hold it: however its rows are divided, the leaf values of the pages, one
/// page after the other, are the leaf values of all rows.
pub proof fn law_pages_hold_column(
    dtype: DataType,
    array: ArrayView,
    nested: Seq<NestedView>,
    spans: Seq<(int, int)>,
    type_: ParquetPrimitiveType,
    options: WriteOptions,
    encoding: Encoding,
)
    requires
        array.is_whole(),
        column_fits(array, nested),
        spans.len() > 0,
        is_partition(spans, nested[0].len()),
    ensures
        joined_leaves(tasks_of(dtype, array, nested, spans, type_, options, encoding))
            == sliced_leaf(array, nested, 0, nested[0].len()),
{
    lemma_pages_hold_rows(
        dtype,
        array,
        nested,
        spans,
        type_,
        options,
        encoding,
        spans.len() as int,
    );
    assert(spans.take(spans.len() as int) =~= spans);
}

/// The first pages hold the rows up to the end of the last one of them.
proof fn lemma_pages_hold_rows(
    dtype: DataType,
    array: ArrayView,
    nested: Seq<NestedView>,
    spans: Seq<(int, int)>,
    type_: ParquetPrimitiveType,
    options: WriteOptions,
    encoding: Encoding,
    n: int,
)
    requires
        array.is_whole(),
        column_fits(array, nested),
        is_partition(spans, nested[0].len()),
        0 < n <= spans.len(),
    ensures
        joined_leaves(tasks_of(dtype, array, nested, spans.take(n), type_, options, encoding))
            == sliced_leaf(array, nested, 0, begin_of(spans, n)),
    decreases n,
{
    let rows = nested[0].len();
    let tasks = tasks_of(dtype, array, nested, spans.take(n), type_, options, encoding);
    assert(spans[n - 1].0 == begin_of(spans, n - 1));
    lemma_partition_bounds(spans, rows, n - 1);
    if n == 1 {
        assert(tasks[0].array == sliced_leaf(array, nested, 0, span_end(spans[0])));
    } else {
        lemma_pages_hold_rows(dtype, array, nested, spans, type_, options, encoding, n - 1);
        let before = tasks_of(
            dtype,
            array,
            nested,
            spans.take(n - 1),
            type_,
            options,
            encoding,
        );
        assert(tasks.drop_last() =~= before);
        let middle = begin_of(spans, n - 1);
        let end = begin_of(spans, n);
        assert(tasks.last().array == sliced_leaf(array, nested, middle, end));
        law_every_run_is_sliceable(array, nested, rows, 0, middle);
        law_every_run_is_sliceable(array, nested, rows, middle, end);
        law_every_run_is_sliceable(array, nested, rows, 0, end);
        law_adjacent_slices_join(array, nested, 0, middle, end);
    }
}

/// Every page has as many rows as its span.
pub proof fn law_page_has_rows(
    dtype: DataType,
    array: ArrayView,
    nested: Seq<NestedView>,
    span: (int, int),
    type_: ParquetPrimitiveType,
    options: WriteOptions,
    encoding: Encoding,
)
    requires
        column_fits(array, nested),
        0 <= span.0,
        0 <= span.1,
        span_end(span) <= nested[0].len(),
    ensures
        task_of(dtype, array, nested, span, type_, options, encoding).nested[0].len() == span.1,
        task_of(dtype, array, nested, span, type_, options, encoding).nested.len()
            == nested.len(),
{
    law_every_run_is_sliceable(array, nested, nested[0].len(), span.0, span_end(span));
    assert(nested.take(0) =~= Seq::<NestedView>::empty());
    assert(nested[0].takes(
        place_below(nested.take(0), span.0),
        place_below(nested.take(0), span_end(span)),
    ));
    law_slice_has_rows(nested, span.0, span_end(span));
}

/// The pages of a flat column of integers, booleans, strings or byte strings have the encoding that
/// was asked for, unless that is a dictionary: then they are plain.
pub proof fn law_pages_have_asked_encoding(
    dtype: DataType,
    array: ArrayView,
    nested: Seq<NestedView>,
    spans: Seq<(int, int)>,
    type_: ParquetPrimitiveType,
    options: WriteOptions,
    encoding: Encoding,
    k: int,
)
    requires
        array.is_whole(),
        column_fits(array, nested),
        nested.len() == 1,
        is_partition(spans, nested[0].len()),
        takes_encoding(dtype),
        0 <= k < spans.len(),
    ensures
        ({
            let pages = tasks_of(
                dtype,
                array,
                nested,
                spans,
                type_,
                options,
                encoding_of_pages(encoding),
            );
            pages[k].page matches Ok(page) ==> {
                &&& !(encoding is RleDictionary) ==> page.encoding == Some(encoding)
                &&& encoding is RleDictionary ==> page.encoding == Some(Encoding::Plain)
            }
        }),
{
    lemma_leaf_of_page(array, nested, spans, k);
    let leaf = sliced_leaf(array, nested, spans[k].0, span_end(spans[k]));
    let told = encoding_of_pages(encoding);
    if let Ok(page) = page_of(dtype, leaf, 1, type_, options, told) {
        law_encoding_is_told(dtype, leaf, 1, type_, options, told, page);
    }
}

/// The leaf values of a page are those of its rows.
proof fn lemma_leaf_of_page(
    array: ArrayView,
    nested: Seq<NestedView>,
    spans: Seq<(int, int)>,
    k: int,
)
    requires
        array.is_whole(),
        column_fits(array, nested),
        is_partition(spans, nested[0].len()),
        0 <= k < spans.len(),
    ensures
        sliceable(array, nested, spans[k].0, span_end(spans[k])),
        sliced_leaf(array, nested, spans[k].0, span_end(spans[k])).is_whole(),
        sliced_leaf(array, nested, spans[k].0, span_end(spans[k])) == array.slice(
            place_below(nested, spans[k].0),
            place_below(nested, span_end(spans[k])),
        ),
{
    let rows = nested[0].len();
    lemma_partition_bounds(spans, rows, k);
    law_every_run_is_sliceable(array, nested, rows, spans[k].0, span_end(spans[k]));
    law_leaf_slice_is_a_run(array, nested, spans[k].0, span_end(spans[k]));
}

/// The pages of a column keep its missing values: what a page holds, converted or not, has as many
/// items as the leaf values of its rows, and item `j` is missing there if and only if it is
/// missing among the leaf values of the column, counted from the first row of the page.
pub proof fn law_pages_keep_mask_of_column(
    dtype: DataType,
    array: ArrayView,
    nested: Seq<NestedView>,
    spans: Seq<(int, int)>,
    type_: ParquetPrimitiveType,
    options: WriteOptions,
    encoding: Encoding,
    k: int,
    j: int,
)
    requires
        is_column_of(dtype, array),
        !(dtype.storage() is Null),
        column_fits(array, nested),
        is_partition(spans, nested[0].len()),
        0 <= k < spans.len(),
        0 <= j < place_below(nested, span_end(spans[k])) - place_below(nested, spans[k].0),
    ensures
        ({
            let task = tasks_of(dtype, array, nested, spans, type_, options, encoding)[k];
            let first = place_below(nested, spans[k].0);
            let count = place_below(nested, span_end(spans[k])) - first;
            task.page matches Ok(page) ==> {
                let written = written_values(page, task.array);
                &&& written.len() == task.array.len() == count
                &&& written.validity is Some <==> array.validity is Some
                &&& (array.validity matches Some(bits) ==> (written.validity matches Some(cut)
                    && cut.len() == count && cut[j] == bits[first + j]))
            }
        }),
{
    lemma_leaf_of_page(array, nested, spans, k);
    let start = spans[k].0;
    let end = span_end(spans[k]);
    law_leaf_slice_is_a_run(array, nested, start, end);
    let leaf = sliced_leaf(array, nested, start, end);
    law_slice_keeps_items(array, place_below(nested, start), place_below(nested, end), j);
    if let Ok(page) = page_of(dtype, leaf, nested.len(), type_, options, encoding) {
        law_pages_keep_missing_values(
            dtype,
            leaf,
            nested.len(),
            type_,
            options,
            encoding,
            page,
        );
    }
}

/// The size of a page is what is asked for, or 1 MiB where nothing is, but never more than 2^31
/// bytes less 2^25.
pub proof fn law_page_size_is_bounded(options: WriteOptions)
    ensures
        max_page_size(options) <= 0x8000_0000 - 0x200_0000,
        options.data_page_size is None ==> max_page_size(options) == 1024 * 1024,
        options.data_page_size matches Some(size) ==> {
            &&& max_page_size(options) <= size
            &&& max_page_size(options) < 0x8000_0000 - 0x200_0000 ==> max_page_size(options) == size
        },
{
}

/// Where nothing asks for chunks, pages end at equal distances: with every multiple of the rows
/// that a page takes.
pub proof fn law_pages_end_evenly(
    array: ArrayView,
    rows: int,
    byte_size: int,
    options: WriteOptions,
    row: int,
)
    requires
        options.content_defined_chunking is None,
        0 < row < rows,
    ensures
        ({
            let per_page = rows_per_page(rows, byte_size, max_page_size(options));
            let width = average_row(rows, byte_size) + 1;
            &&& ends_at(row_spans_of_pages(array, rows, byte_size, options), row) <==> row
                % per_page == 0
            &&& per_page >= 1
            &&& per_page > 1 ==> per_page * width <= max_page_size(options)
            &&& (per_page + 1) * width > max_page_size(options)
        }),
{
    law_fixed_pages_end_evenly(rows, byte_size, max_page_size(options), row);
}

/// Where chunks are asked for, pages of numbers end with the rows in which chunks of their bytes
/// end, but for the last one where fewer than a hundred rows are left.
pub proof fn law_pages_of_numbers_end_with_chunks(
    array: ArrayView,
    primitive: PrimitiveType,
    values: Seq<int>,
    bytes: Seq<u8>,
    width: int,
    byte_size: int,
    options: WriteOptions,
    cdc_options: ContentDefinedChunkingOptions,
    row: int,
)
    requires
        options.content_defined_chunking == Some(cdc_options),
        array.values == ValuesView::Ints(primitive, values),
        preview(array).0 == Some(bytes),
        match primitive {
            PrimitiveType::Int8
            | PrimitiveType::Int16
            | PrimitiveType::Int32
            | PrimitiveType::UInt8
            | PrimitiveType::UInt16
            | PrimitiveType::UInt32
            | PrimitiveType::Float32 => width == 4,
            PrimitiveType::Int64 | PrimitiveType::UInt64 | PrimitiveType::Float64 => width == 8,
            PrimitiveType::Int128 | PrimitiveType::UInt128 => width == 16,
            _ => false,
        },
        bytes.len() >= cdc_options.min_size,
        cdc_options.chunks_hold(bytes),
        0 < row < values.len(),
    ensures
        ends_at(
            row_spans_of_pages(array, values.len() as int, byte_size, options),
            row,
        ) <==> {
            &&& chunk_ends_in_row(cdc_options.chunks(bytes), width, row)
            &&& !(values.len() - row < 100 && forall|later: int|
                row < later < values.len() ==> !#[trigger] chunk_ends_in_row(
                    cdc_options.chunks(bytes),
                    width,
                    later,
                ))
        },
{
    law_numbers_show_in_place(array, primitive, values, width as nat, 0, 0);
    law_pages_end_with_chunks(
        array,
        bytes,
        width,
        values.len() as int,
        byte_size,
        max_page_size(options),
        cdc_options,
        row,
    );
}

/// Where chunks are asked for, pages of strings end with the rows that chunks of their bytes are
/// estimated to reach, but for the last one where fewer than a hundred rows are left.
pub proof fn law_pages_of_strings_end_with_chunks(
    array: ArrayView,
    layout: PhysicalType,
    items: Seq<Seq<u8>>,
    bytes: Seq<u8>,
    byte_size: int,
    options: WriteOptions,
    cdc_options: ContentDefinedChunkingOptions,
    row: int,
)
    requires
        options.content_defined_chunking == Some(cdc_options),
        array.values == ValuesView::Bytes(layout, items),
        layout is LargeBinary || layout is LargeUtf8 || layout is BinaryView || layout is Utf8View,
        preview(array).0 == Some(bytes),
        bytes.len() >= cdc_options.min_size,
        bytes.len() > 0,
        cdc_options.chunks_hold(bytes),
        0 < row < items.len(),
    ensures
        ends_at(
            row_spans_of_pages(array, items.len() as int, byte_size, options),
            row,
        ) <==> {
            let rows = items.len() as int;
            let chunks = cdc_options.chunks(bytes);
            &&& exists|k: int| #[trigger]
                chunk_reaches_row(chunks, bytes.len() as int, rows, k, row)
            &&& !(rows - row < 100 && forall|later: int, k: int|
                row < later < rows ==> !#[trigger] chunk_reaches_row(
                    chunks,
                    bytes.len() as int,
                    rows,
                    k,
                    later,
                ))
        },
{
    law_strings_show_joined(array, layout, items);
    law_string_pages_end_with_chunks(
        array,
        bytes,
        items.len() as int,
        byte_size,
        max_page_size(options),
        cdc_options,
        row,
    );
}

/// Each page is made of its own rows, for the type and with the options and the encoding that were
/// given.
pub proof fn law_pages_are_of_their_rows(
    dtype: DataType,
    array: ArrayView,
    nested: Seq<NestedView>,
    spans: Seq<(int, int)>,
    type_: ParquetPrimitiveType,
    options: WriteOptions,
    encoding: Encoding,
    k: int,
)
    requires
        0 <= k < spans.len(),
    ensures
        ({
            let tasks = tasks_of(dtype, array, nested, spans, type_, options, encoding);
            let task = tasks[k];
            &&& tasks.len() == spans.len()
            &&& task.dtype == dtype
            &&& task.nested.len() == nested.len()
            &&& task.page == page_of(
                dtype,
                task.array,
                task.nested.len(),
                type_,
                options,
                encoding,
            )
        }),
{
}

/// The pages of a column keep the items of every level above its leaf values, one by one: item `j`
/// of a level in a page is that many items after the one at which the first row of the page begins.
pub proof fn law_pages_keep_levels_of_column(
    dtype: DataType,
    array: ArrayView,
    nested: Seq<NestedView>,
    spans: Seq<(int, int)>,
    type_: ParquetPrimitiveType,
    options: WriteOptions,
    encoding: Encoding,
    k: int,
    i: int,
    j: int,
)
    requires
        array.is_whole(),
        column_fits(array, nested),
        is_partition(spans, nested[0].len()),
        0 <= k < spans.len(),
        0 <= i < nested.len(),
        0 <= j < place_below(nested.take(i), span_end(spans[k])) - place_below(
            nested.take(i),
            spans[k].0,
        ),
    ensures
        ({
            let level = nested[i];
            let task = tasks_of(dtype, array, nested, spans, type_, options, encoding)[k];
            let first = place_below(nested.take(i), spans[k].0);
            let count = place_below(nested.take(i), span_end(spans[k])) - first;
            let cut = task.nested[i];
            &&& cut.kind == level.kind
            &&& cut.is_optional == level.is_optional
            &&& cut.width == level.width
            &&& cut.len() == count
            &&& cut.validity is Some <==> level.validity is Some
            &&& (level.validity matches Some(bits) ==> (cut.validity matches Some(kept)
                && kept.len() == count && kept[j] == bits[first + j]))
            &&& level.kind is List || level.kind is LargeList ==> {
                &&& cut.offsets.len() == count + 1
                &&& cut.offsets[j] == level.offsets[first + j]
                &&& cut.offsets[j + 1] == level.offsets[first + j + 1]
            }
        }),
{
    lemma_leaf_of_page(array, nested, spans, k);
    law_sliced_levels_keep_items(array, nested, spans[k].0, span_end(spans[k]), i, j);
}

/// Where chunks are asked for, the content of the column decides where its pages end, whatever its
/// type; where none are, neither content nor type does.
pub proof fn law_options_decide_who_divides(
    array: ArrayView,
    other: ArrayView,
    rows: int,
    byte_size: int,
    options: WriteOptions,
)
    ensures
        options.content_defined_chunking matches Some(cdc_options) ==> row_spans_of_pages(
            array,
            rows,
            byte_size,
            options,
        ) == content_row_spans(array, rows, byte_size, max_page_size(options), cdc_options),
        options.content_defined_chunking is None ==> row_spans_of_pages(
            array,
            rows,
            byte_size,
            options,
        ) == row_spans_of_pages(other, rows, byte_size, options),
{
}

} // verus!
