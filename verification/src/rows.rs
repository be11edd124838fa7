//! The rows that go into each page.

use vstd::prelude::*;

use crate::array::{ArrayView, ColumnArray};
use crate::chunker::law_no_bytes_no_chunks;
use crate::float::{ceil_share, double_product, double_quotient, floor_quotient, saturated};
use crate::float::{law_quotient_of_doubles, law_share_is_rounded_up, PRECISION};
use crate::images::{get_cdc_byte_data_for_encoding, preview};
use crate::options::ContentDefinedChunkingOptions;
use crate::spans::{
    begin_of, cuts_first, ends_at, even_spans, is_partition, law_cuts_partition,
    ends_ascend, law_even_spans_are_even, law_even_spans_partition, law_spans_end_at_cuts,
    lemma_end_order, lemma_ends_ascend, lemma_first_cut, lemma_partition_bounds, lemma_reach, reach,
    span_end, span_ints, spans_of_cuts,
};

verus! {

/// A last page with fewer rows than this is merged with the page before it.
pub const SHORT_TAIL: usize = 100;

/// The row at which a chunk ends. Where all rows take the same number of bytes, it is the row in
/// which the end lies; otherwise it is estimated by the share of bytes up to the end.
pub open spec fn row_at(chunk_end: int, byte_len: int, bytes_per_row: Option<int>, rows: int) -> int {
    let row = match bytes_per_row {
        Some(width) => chunk_end / width,
        None => saturated(
            double_product(
                double_quotient(chunk_end as nat, byte_len as nat),
                rows as nat,
            ).ceil(),
        ) as int,
    };
    if row < rows {
        row
    } else {
        rows
    }
}

/// The rows at which chunks end, and after them the last row.
pub open spec fn row_cuts(
    chunks: Seq<(usize, usize)>,
    byte_len: int,
    bytes_per_row: Option<int>,
    rows: int,
) -> Seq<int> {
    Seq::new(
        chunks.len(),
        |i: int| row_at(chunks[i].0 + chunks[i].1, byte_len, bytes_per_row, rows),
    ).push(rows)
}

/// The spans, with a short last one joined to the one before it.
pub open spec fn merge_short_tail(spans: Seq<(int, int)>) -> Seq<(int, int)> {
    if spans.len() > 1 && spans.last().1 < SHORT_TAIL {
        let last = spans.len() - 1;
        spans.take(last).update(last - 1, (spans[last - 1].0, spans[last - 1].1 + spans[last].1))
    } else {
        spans
    }
}

/// The rows of each page, where chunks of bytes are to begin and end with pages.
pub open spec fn row_spans(
    chunks: Seq<(usize, usize)>,
    byte_len: int,
    bytes_per_row: Option<int>,
    rows: int,
) -> Seq<(int, int)> {
    merge_short_tail(spans_of_cuts(row_cuts(chunks, byte_len, bytes_per_row, rows)))
}

/// The optional number as a mathematical one.
pub open spec fn optional_int(n: Option<usize>) -> Option<int> {
    match n {
        Some(n) => Some(n as int),
        None => None,
    }
}

/// Divides rows where chunks of their bytes end.
pub fn row_ranges_from_chunks(
    chunks: &[(usize, usize)],
    byte_len: usize,
    bytes_per_row: Option<usize>,
    number_of_rows: usize,
) -> (ranges: Vec<(usize, usize)>)
    requires
        forall|i: int|
            0 <= i < chunks@.len() ==> chunks@[i].0 + (#[trigger] chunks@[i]).1 <= byte_len,
        bytes_per_row matches Some(width) ==> width > 0,
        bytes_per_row is None && chunks@.len() > 0 ==> byte_len > 0,
    ensures
        span_ints(ranges@) == row_spans(
            chunks@,
            byte_len as int,
            optional_int(bytes_per_row),
            number_of_rows as int,
        ),
{
    let ghost rows = number_of_rows as int;
    let ghost cuts = row_cuts(chunks@, byte_len as int, optional_int(bytes_per_row), rows);
    let mut row_ranges: Vec<(usize, usize)> = Vec::new();
    let mut current_row: usize = 0;
    let mut i: usize = 0;
    assert(span_ints(row_ranges@) =~= spans_of_cuts(cuts.take(0)));
    while i < chunks.len()
        invariant
            i <= chunks@.len(),
            forall|k: int|
                0 <= k < chunks@.len() ==> chunks@[k].0 + (#[trigger] chunks@[k]).1 <= byte_len,
            bytes_per_row matches Some(width) ==> width > 0,
            bytes_per_row is None && chunks@.len() > 0 ==> byte_len > 0,
            rows == number_of_rows,
            cuts == row_cuts(chunks@, byte_len as int, optional_int(bytes_per_row), rows),
            current_row == reach(cuts.take(i as int)),
            current_row <= number_of_rows,
            span_ints(row_ranges@) == spans_of_cuts(cuts.take(i as int)),
        decreases chunks@.len() - i,
    {
        let chunk: (usize, usize) = chunks[i];
        let chunk_end_byte: usize = chunk.0 + chunk.1;
        let end_row: usize = match bytes_per_row {
            // Fixed-size elements: direct calculation
            Some(width) => chunk_end_byte / width,
            // Variable-size: estimate based on chunk position
            None => ceil_share(chunk_end_byte as u64, byte_len as u64, number_of_rows as u64),
        };
        let end_row: usize = if end_row < number_of_rows {
            end_row
        } else {
            number_of_rows
        };
        assert(cuts[i as int] == end_row);
        assert(cuts.take(i + 1).drop_last() =~= cuts.take(i as int));
        if end_row > current_row {
            let ghost before = row_ranges@;
            row_ranges.push((current_row, end_row - current_row));
            assert(span_ints(row_ranges@) =~= span_ints(before).push(
                (current_row as int, end_row - current_row),
            ));
            current_row = end_row;
        }
        i = i + 1;
    }
    assert(cuts.drop_last() =~= cuts.take(i as int));
    // Ensure we cover all rows
    if current_row < number_of_rows {
        let ghost before = row_ranges@;
        row_ranges.push((current_row, number_of_rows - current_row));
        assert(span_ints(row_ranges@) =~= span_ints(before).push(
            (current_row as int, number_of_rows - current_row),
        ));
    }
    // Merge any tiny trailing chunks
    let ghost spans = span_ints(row_ranges@);
    assert(spans == spans_of_cuts(cuts));
    let len: usize = row_ranges.len();
    if len > 1 && row_ranges[len - 1].1 < SHORT_TAIL {
        proof {
            law_cuts_partition(cuts);
            lemma_row_cuts(chunks@, byte_len as int, optional_int(bytes_per_row), rows);
            assert(spans[len - 1].0 == begin_of(spans, len - 1));
            lemma_partition_bounds(spans, rows, len - 1);
            lemma_partition_bounds(spans, rows, len - 2);
        }
        let last: (usize, usize) = row_ranges[len - 1];
        let prev: (usize, usize) = row_ranges[len - 2];
        row_ranges.pop();
        row_ranges[len - 2] = (prev.0, prev.1 + last.1);
        assert(span_ints(row_ranges@) =~= merge_short_tail(spans));
    }
    row_ranges
}

/// The cuts stay within the rows and reach the last one.
proof fn lemma_row_cuts(
    chunks: Seq<(usize, usize)>,
    byte_len: int,
    bytes_per_row: Option<int>,
    rows: int,
)
    requires
        rows >= 0,
    ensures
        reach(row_cuts(chunks, byte_len, bytes_per_row, rows)) == rows,
{
    let cuts = row_cuts(chunks, byte_len, bytes_per_row, rows);
    lemma_reach(cuts, rows);
}

/// The rows of each page, divided by the content of the column. Where the column shows no bytes,
/// its rows are divided into pages of one size; where it shows too few, all go into one page.
pub open spec fn content_row_spans(
    array: ArrayView,
    rows: int,
    byte_size: int,
    max_page_size: int,
    cdc_options: ContentDefinedChunkingOptions,
) -> Seq<(int, int)> {
    if rows == 0 {
        Seq::empty()
    } else {
        match preview(array) {
            (Some(bytes), bytes_per_row) => if bytes.len() < cdc_options.min_size
                || cdc_options.chunks(bytes).len() == 0 {
                seq![(0, rows)]
            } else {
                row_spans(cdc_options.chunks(bytes), bytes.len() as int, bytes_per_row, rows)
            },
            (None, _) => even_spans(rows, rows_per_page(rows, byte_size, max_page_size)),
        }
    }
}

/// Whether the rows of the column can be divided: its bytes by these options, or where it shows
/// none, its rows by their average size.
pub open spec fn can_divide(
    array: ArrayView,
    rows: int,
    byte_size: int,
    cdc_options: ContentDefinedChunkingOptions,
) -> bool {
    rows > 0 ==> match preview(array).0 {
        Some(bytes) => bytes.len() >= cdc_options.min_size ==> cdc_options.chunkable(bytes.len()),
        None => average_row(rows, byte_size) < usize::MAX,
    }
}

/// Whether the chunks by which the rows of the column are divided, where it comes to that, are its
/// bytes cut into runs that keep to the sizes.
pub open spec fn chunks_of_rows_hold(
    array: ArrayView,
    rows: int,
    cdc_options: ContentDefinedChunkingOptions,
) -> bool {
    rows > 0 ==> (preview(array).0 matches Some(bytes) ==> bytes.len() >= cdc_options.min_size
        ==> cdc_options.chunks_hold(bytes))
}

/// Whether the rows of the column can be divided.
pub fn divides(
    array: &ColumnArray<'_>,
    number_of_rows: usize,
    byte_size: usize,
    cdc_options: ContentDefinedChunkingOptions,
) -> (can: bool)
    requires
        array@.is_whole(),
    ensures
        can == can_divide(array@, number_of_rows as int, byte_size as int, cdc_options),
{
    if number_of_rows == 0 {
        return true;
    }
    match get_cdc_byte_data_for_encoding(array).0 {
        Some(bytes) => bytes.len() < cdc_options.min_size || cdc_options.can_chunk(bytes.len()),
        None => average_row_fits(number_of_rows, byte_size),
    }
}

/// One range of all rows.
fn single_range(number_of_rows: usize) -> (ranges: Vec<(usize, usize)>)
    ensures
        span_ints(ranges@) == seq![(0int, number_of_rows as int)],
{
    let mut ranges: Vec<(usize, usize)> = Vec::new();
    ranges.push((0, number_of_rows));
    assert(span_ints(ranges@) =~= seq![(0int, number_of_rows as int)]);
    ranges
}

/// The whole number of bytes that a row takes on average.
pub open spec fn average_row(number_of_rows: int, byte_size: int) -> int {
    if number_of_rows == 0 {
        0
    } else {
        saturated(double_quotient(byte_size as nat, number_of_rows as nat).floor()) as int
    }
}

/// The number of rows for a page of at most `max_page_size` bytes, one at least.
pub open spec fn rows_per_page(number_of_rows: int, byte_size: int, max_page_size: int) -> int {
    let rows = max_page_size / (average_row(number_of_rows, byte_size) + 1);
    if rows > 1 {
        rows
    } else {
        1
    }
}

/// Whether one byte more than the average row can be counted.
pub fn average_row_fits(number_of_rows: usize, byte_size: usize) -> (fits: bool)
    ensures
        fits == (average_row(number_of_rows as int, byte_size as int) < usize::MAX),
{
    number_of_rows == 0 || floor_quotient(byte_size as u64, number_of_rows as u64) < usize::MAX
}

/// Divides rows into pages of one size.
pub fn compute_fixed_row_iter(
    number_of_rows: usize,
    byte_size: usize,
    max_page_size: usize,
) -> (ranges: Vec<(usize, usize)>)
    requires
        average_row(number_of_rows as int, byte_size as int) < usize::MAX,
    ensures
        span_ints(ranges@) == even_spans(
            number_of_rows as int,
            rows_per_page(number_of_rows as int, byte_size as int, max_page_size as int),
        ),
{
    let bytes_per_row: usize = if number_of_rows == 0 {
        0
    } else {
        floor_quotient(byte_size as u64, number_of_rows as u64)
    };
    let quotient: usize = max_page_size / (bytes_per_row + 1);
    let rows_per_page: usize = if quotient > 1 {
        quotient
    } else {
        1
    };
    let ghost total = number_of_rows as int;
    let ghost per_page = rows_per_page as int;
    let ghost spans = even_spans(total, per_page);
    proof {
        law_even_spans_partition(total, per_page);
    }
    let mut ranges: Vec<(usize, usize)> = Vec::new();
    let mut offset: usize = 0;
    assert(span_ints(ranges@) =~= spans.take(0));
    while offset < number_of_rows
        invariant
            total == number_of_rows,
            per_page == rows_per_page,
            per_page >= 1,
            spans == even_spans(total, per_page),
            is_partition(spans, total),
            ranges@.len() <= spans.len(),
            span_ints(ranges@) == spans.take(ranges@.len() as int),
            offset == begin_of(spans, ranges@.len() as int),
            offset <= number_of_rows,
        decreases number_of_rows - offset,
    {
        let ghost n = ranges@.len() as int;
        proof {
            lemma_partition_end(spans, total, n);
            lemma_partition_bounds(spans, total, n);
            assert(spans[n].0 == begin_of(spans, n));
        }
        let length: usize = if rows_per_page > number_of_rows - offset {
            number_of_rows - offset
        } else {
            rows_per_page
        };
        assert(spans[n] == (offset as int, length as int));
        let ghost before = ranges@;
        ranges.push((offset, length));
        assert(span_ints(ranges@) =~= span_ints(before).push((offset as int, length as int)));
        assert(spans.take(n + 1) =~= spans.take(n).push(spans[n]));
        offset = offset + length;
    }
    proof {
        if ranges@.len() < spans.len() {
            lemma_partition_bounds(spans, total, ranges@.len() as int);
            assert(spans[ranges@.len() as int].0 == begin_of(spans, ranges@.len() as int));
        }
        assert(spans.take(spans.len() as int) =~= spans);
    }
    ranges
}

/// Compute row ranges using CDC on encoded byte representation.
/// For types where we can predict the encoding, we analyze those bytes.
/// For others, we fall back to fixed-size chunking: `byte_size` is what the whole column takes,
/// and `max_page_size` what a page may take.
pub fn compute_cdc_row_ranges(
    array: &ColumnArray<'_>,
    number_of_rows: usize,
    byte_size: usize,
    max_page_size: usize,
    cdc_options: ContentDefinedChunkingOptions,
) -> (ranges: Vec<(usize, usize)>)
    requires
        array@.is_whole(),
        can_divide(array@, number_of_rows as int, byte_size as int, cdc_options),
    ensures
        span_ints(ranges@) == content_row_spans(
            array@,
            number_of_rows as int,
            byte_size as int,
            max_page_size as int,
            cdc_options,
        ),
        chunks_of_rows_hold(array@, number_of_rows as int, cdc_options),
{
    if number_of_rows == 0 {
        let ranges: Vec<(usize, usize)> = Vec::new();
        assert(span_ints(ranges@) =~= Seq::<(int, int)>::empty());
        return ranges;
    }
    // Try to get byte data suitable for CDC
    let (bytes, bytes_per_row) = get_cdc_byte_data_for_encoding(array);
    match bytes {
        // Fall back to fixed-size chunking if we can't get usable bytes
        None => compute_fixed_row_iter(number_of_rows, byte_size, max_page_size),
        Some(bytes) => {
            let len: usize = bytes.len();
            if len < cdc_options.min_size {
                // Data too small for CDC, single page
                return single_range(number_of_rows);
            }
            let chunks: Vec<(usize, usize)> = cdc_options.chunk(bytes.as_slice());
            if chunks.len() == 0 {
                return single_range(number_of_rows);
            }
            assert forall|i: int| 0 <= i < chunks@.len() implies chunks@[i].0 + (
            #[trigger] chunks@[i]).1 <= len by {
                lemma_partition_bounds(span_ints(chunks@), len as int, i);
            }
            proof {
                lemma_partition_bounds(span_ints(chunks@), len as int, 0);
            }
            row_ranges_from_chunks(chunks.as_slice(), len, bytes_per_row, number_of_rows)
        },
    }
}

/// The same, with pages that take no more than the largest chunk may where the column shows no
/// bytes.
pub fn compute_cdc_row_iter(
    array: &ColumnArray<'_>,
    number_of_rows: usize,
    byte_size: usize,
    cdc_options: ContentDefinedChunkingOptions,
) -> (ranges: Vec<(usize, usize)>)
    requires
        array@.is_whole(),
        can_divide(array@, number_of_rows as int, byte_size as int, cdc_options),
    ensures
        span_ints(ranges@) == content_row_spans(
            array@,
            number_of_rows as int,
            byte_size as int,
            cdc_options.max_size as int,
            cdc_options,
        ),
        chunks_of_rows_hold(array@, number_of_rows as int, cdc_options),
{
    compute_cdc_row_ranges(array, number_of_rows, byte_size, cdc_options.max_size, cdc_options)
}

/// A partition goes on as long as it has not reached the end.
proof fn lemma_partition_end(spans: Seq<(int, int)>, total: int, n: int)
    requires
        is_partition(spans, total),
        0 <= n <= spans.len(),
        begin_of(spans, n) < total,
    ensures
        n < spans.len(),
{
}

/// Merging a short tail loses no row.
pub proof fn law_merging_keeps_partition(spans: Seq<(int, int)>, total: int)
    requires
        is_partition(spans, total),
    ensures
        is_partition(merge_short_tail(spans), total),
        spans.len() > 0 ==> merge_short_tail(spans).len() > 0,
{
    let merged = merge_short_tail(spans);
    if spans.len() > 1 && spans.last().1 < SHORT_TAIL {
        let last = spans.len() - 1;
        assert(spans[last].0 == begin_of(spans, last) && spans[last].1 > 0);
        assert(spans[last - 1].1 > 0);
        assert forall|i: int| #![trigger merged[i]] 0 <= i < merged.len() implies merged[i].0
            == begin_of(merged, i) && merged[i].1 > 0 by {
            assert(spans[i].0 == begin_of(spans, i) && spans[i].1 > 0);
            if i > 0 {
                assert(merged[i - 1] == spans[i - 1]);
            }
        }
    }
}

/// Whatever the chunks are, each row goes into exactly one page, and no page is empty.
pub proof fn law_row_spans_cover(
    chunks: Seq<(usize, usize)>,
    byte_len: int,
    bytes_per_row: Option<int>,
    rows: int,
)
    requires
        rows >= 0,
    ensures
        is_partition(row_spans(chunks, byte_len, bytes_per_row, rows), rows),
{
    let cuts = row_cuts(chunks, byte_len, bytes_per_row, rows);
    lemma_row_cuts(chunks, byte_len, bytes_per_row, rows);
    law_cuts_partition(cuts);
    law_merging_keeps_partition(spans_of_cuts(cuts), rows);
}

/// Dividing by content covers all rows: each row goes into exactly one page, no page is empty,
/// and the pages follow one another.
pub proof fn law_content_covers_rows(
    array: ArrayView,
    rows: int,
    byte_size: int,
    max_page_size: int,
    cdc_options: ContentDefinedChunkingOptions,
)
    requires
        rows >= 0,
    ensures
        is_partition(content_row_spans(array, rows, byte_size, max_page_size, cdc_options), rows),
{
    match preview(array) {
        (Some(bytes), bytes_per_row) => {
            law_row_spans_cover(
                cdc_options.chunks(bytes),
                bytes.len() as int,
                bytes_per_row,
                rows,
            );
        },
        _ => law_fixed_pages_cover_rows(rows, byte_size, max_page_size),
    }
}

/// Identical content gives identical pages: columns that show the same bytes are divided at the
/// same rows, under the same options, whatever their sizes are estimated to be.
pub proof fn law_content_decides_rows(
    one: ArrayView,
    other: ArrayView,
    rows: int,
    one_size: int,
    other_size: int,
    max_page_size: int,
    cdc_options: ContentDefinedChunkingOptions,
)
    requires
        preview(one) == preview(other),
        preview(one).0 is Some,
    ensures
        content_row_spans(one, rows, one_size, max_page_size, cdc_options) == content_row_spans(
            other,
            rows,
            other_size,
            max_page_size,
            cdc_options,
        ),
{
}

/// Dividing into pages of one size covers all rows, each in exactly one page.
pub proof fn law_fixed_pages_cover_rows(number_of_rows: int, byte_size: int, max_page_size: int)
    requires
        number_of_rows >= 0,
    ensures
        is_partition(
            even_spans(number_of_rows, rows_per_page(number_of_rows, byte_size, max_page_size)),
            number_of_rows,
        ),
{
    law_even_spans_partition(
        number_of_rows,
        rows_per_page(number_of_rows, byte_size, max_page_size),
    );
}

/// Below the limit of double precision the average row is the exact quotient.
pub proof fn law_average_row_is_exact(number_of_rows: int, byte_size: int)
    requires
        0 < number_of_rows < PRECISION,
        0 <= byte_size < PRECISION,
        byte_size <= usize::MAX,
    ensures
        average_row(number_of_rows, byte_size) == byte_size / number_of_rows,
{
    law_quotient_of_doubles(byte_size as nat, number_of_rows as nat);
    assert(byte_size / number_of_rows <= byte_size) by (nonlinear_arith)
        requires
            byte_size >= 0,
            number_of_rows > 0,
    ;
}

/// A page of one size stays within the limit where one row does: so many rows of average size,
/// each with one byte to spare, take no more bytes than a page may have.
pub proof fn law_fixed_pages_keep_limit(number_of_rows: int, byte_size: int, max_page_size: int)
    requires
        max_page_size >= 0,
        number_of_rows >= 0,
        average_row(number_of_rows, byte_size) + 1 <= max_page_size,
    ensures
        rows_per_page(number_of_rows, byte_size, max_page_size) * (average_row(
            number_of_rows,
            byte_size,
        ) + 1) <= max_page_size,
{
    let width = average_row(number_of_rows, byte_size) + 1;
    let rows = max_page_size / width;
    vstd::arithmetic::div_mod::lemma_fundamental_div_mod(max_page_size, width);
    assert(rows >= 1) by (nonlinear_arith)
        requires
            rows == max_page_size / width,
            width <= max_page_size,
            width > 0,
    ;
    assert(rows * width == width * rows) by (nonlinear_arith);
}

/// Whether a chunk ends in this row, where each row takes `width` bytes.
pub open spec fn chunk_ends_in_row(chunks: Seq<(usize, usize)>, width: int, row: int) -> bool {
    exists|k: int| 0 <= k < chunks.len() && (#[trigger] chunks[k].0 + chunks[k].1) / width == row
}

/// The row up to which the share of bytes before `byte` reaches, in double precision.
pub open spec fn estimated_row(byte: int, byte_len: int, rows: int) -> int {
    saturated(
        double_product(double_quotient(byte as nat, byte_len as nat), rows as nat).ceil(),
    ) as int
}

/// Whether chunk `k` is estimated to end with this row, and every chunk before it with an earlier
/// one.
pub open spec fn chunk_reaches_row(
    chunks: Seq<(usize, usize)>,
    byte_len: int,
    rows: int,
    k: int,
    row: int,
) -> bool {
    &&& 0 <= k < chunks.len()
    &&& estimated_row(chunks[k].0 + chunks[k].1, byte_len, rows) == row
    &&& forall|j: int|
        0 <= j < k ==> estimated_row((#[trigger] chunks[j]).0 + chunks[j].1, byte_len, rows) < row
}

/// Merging a short tail takes away one end of a page at most: that before the last page, where
/// this has fewer than a hundred rows. All other ends stay, and none comes to them.
pub proof fn law_merging_takes_one_end(spans: Seq<(int, int)>, total: int, row: int)
    requires
        is_partition(spans, total),
        0 < row < total,
    ensures
        ends_at(merge_short_tail(spans), row) <==> ends_at(spans, row) && !(total - row < 100
            && forall|later: int| row < later < total ==> !#[trigger] ends_at(spans, later)),
{
    lemma_ends_ascend(spans, total);
    lemma_merged_ends(spans, total, row);
}

/// The ends of spans that end one after the other, once a short last one is merged.
proof fn lemma_merged_ends(spans: Seq<(int, int)>, total: int, row: int)
    requires
        ends_ascend(spans, total),
        0 < row < total,
    ensures
        ends_at(merge_short_tail(spans), row) <==> ends_at(spans, row) && !(total - row < 100
            && forall|later: int| row < later < total ==> !#[trigger] ends_at(spans, later)),
{
    let merged = merge_short_tail(spans);
    let n = spans.len() as int;
    let last = spans[n - 1];
    if n > 1 {
        assert(span_end(spans[n - 2]) == last.0);
        assert(ends_at(spans, last.0));
    }
    assert forall|any: int| 0 < any < total && #[trigger] ends_at(spans, any) implies n > 1 && any
        <= last.0 by {
        let i = choose|i: int| 0 <= i < spans.len() && #[trigger] span_end(spans[i]) == any;
        assert(span_end(spans[n - 1]) == total);
        if n > 1 && i < n - 2 {
            assert(span_end(spans[i]) < span_end(spans[n - 2]));
        }
    }
    if n > 1 && last.1 < 100 {
        assert(merged.len() == n - 1);
        assert(span_end(merged[n - 2]) == total);
        if ends_at(merged, row) {
            let i = choose|i: int| 0 <= i < merged.len() && #[trigger] span_end(merged[i]) == row;
            assert(i < n - 2);
            assert(merged[i] == spans[i]);
            assert(span_end(spans[i]) == row);
            assert(span_end(spans[i]) < span_end(spans[n - 2]));
            assert(row < last.0 < total);
        }
        if ends_at(spans, row) && row != last.0 {
            let i = choose|i: int| 0 <= i < spans.len() && #[trigger] span_end(spans[i]) == row;
            assert(i < n - 2);
            assert(merged[i] == spans[i]);
            assert(span_end(merged[i]) == row);
        }
    } else {
        assert(merged == spans);
    }
}

/// Pages end where chunks end: where each row takes `width` bytes, a row is the end of a page if
/// and only if it is the row in which a chunk of the bytes ends, but for the last such row where
/// fewer than a hundred rows are left.
pub proof fn law_pages_end_with_chunks(
    array: ArrayView,
    bytes: Seq<u8>,
    width: int,
    rows: int,
    byte_size: int,
    max_page_size: int,
    cdc_options: ContentDefinedChunkingOptions,
    row: int,
)
    requires
        preview(array) == (Some(bytes), Some(width)),
        width > 0,
        bytes.len() >= cdc_options.min_size,
        bytes.len() > 0,
        cdc_options.chunks_hold(bytes),
        0 < row < rows,
    ensures
        ends_at(
            content_row_spans(array, rows, byte_size, max_page_size, cdc_options),
            row,
        ) <==> {
            &&& chunk_ends_in_row(cdc_options.chunks(bytes), width, row)
            &&& !(rows - row < 100 && forall|later: int|
                row < later < rows ==> !#[trigger] chunk_ends_in_row(
                    cdc_options.chunks(bytes),
                    width,
                    later,
                ))
        },
{
    let chunks = cdc_options.chunks(bytes);
    let len = bytes.len() as int;
    let cuts = row_cuts(chunks, len, Some(width), rows);
    let spans = spans_of_cuts(cuts);
    assert(chunks.len() > 0) by {
        if chunks.len() == 0 {
            assert(span_ints(chunks).len() == 0);
        }
    }
    lemma_row_cuts(chunks, len, Some(width), rows);
    law_cuts_partition(cuts);
    law_merging_takes_one_end(spans, rows, row);
    assert forall|any: int| 0 < any < rows implies (#[trigger] ends_at(spans, any)
        <==> chunk_ends_in_row(chunks, width, any)) by {
        lemma_fixed_ends(chunks, len, width, rows, any);
    }
    if forall|later: int| row < later < rows ==> !#[trigger] ends_at(spans, later) {
        assert forall|later: int| row < later < rows implies !#[trigger] chunk_ends_in_row(
            chunks,
            width,
            later,
        ) by {
            assert(!ends_at(spans, later));
        }
    }
}

/// Before the merge of a short tail, pages end in the rows in which chunks end.
proof fn lemma_fixed_ends(
    chunks: Seq<(usize, usize)>,
    len: int,
    width: int,
    rows: int,
    row: int,
)
    requires
        is_partition(span_ints(chunks), len),
        width > 0,
        0 < row < rows,
    ensures
        ends_at(spans_of_cuts(row_cuts(chunks, len, Some(width), rows)), row)
            <==> chunk_ends_in_row(chunks, width, row),
{
    let cuts = row_cuts(chunks, len, Some(width), rows);
    law_spans_end_at_cuts(cuts, row);
    if chunk_ends_in_row(chunks, width, row) {
        let k = choose|k: int|
            0 <= k < chunks.len() && (#[trigger] chunks[k].0 + chunks[k].1) / width == row;
        assert(cuts[k] == row);
        lemma_first_cut(cuts, row, k);
    }
    if exists|k: int| #[trigger] cuts_first(cuts, k, row) {
        let k = choose|k: int| #[trigger] cuts_first(cuts, k, row);
        assert(k < chunks.len());
        assert((chunks[k].0 + chunks[k].1) / width == row);
    }
    if chunk_ends_in_row(chunks, width, row) {
        let k = choose|k: int|
            0 <= k < chunks.len() && (#[trigger] chunks[k].0 + chunks[k].1) / width == row;
        // the rows of the chunks ascend, so the first cut at the row comes before all later rows
        let first = choose|first: int|
            0 <= first <= k && #[trigger] cuts[first] == row && forall|j: int|
                0 <= j < first ==> #[trigger] cuts[j] != row;
        assert forall|j: int| 0 <= j < first implies #[trigger] cuts[j] < row by {
            lemma_end_order(span_ints(chunks), len, j, first);
            assert(span_end(span_ints(chunks)[j]) == chunks[j].0 + chunks[j].1);
            assert(span_end(span_ints(chunks)[first]) == chunks[first].0 + chunks[first].1);
            vstd::arithmetic::div_mod::lemma_div_is_ordered(
                chunks[j].0 + chunks[j].1,
                chunks[first].0 + chunks[first].1,
                width,
            );
        }
        assert(cuts_first(cuts, first, row));
    }
}

/// Pages of strings end where chunks are estimated to end: a row is the end of a page if and only
/// if the share of bytes up to the end of a chunk reaches to it, and that of no earlier chunk as
/// far, but for the last such row where fewer than a hundred rows are left.
pub proof fn law_string_pages_end_with_chunks(
    array: ArrayView,
    bytes: Seq<u8>,
    rows: int,
    byte_size: int,
    max_page_size: int,
    cdc_options: ContentDefinedChunkingOptions,
    row: int,
)
    requires
        preview(array) == (Some(bytes), None::<int>),
        bytes.len() >= cdc_options.min_size,
        bytes.len() > 0,
        cdc_options.chunks_hold(bytes),
        0 < row < rows,
    ensures
        ends_at(
            content_row_spans(array, rows, byte_size, max_page_size, cdc_options),
            row,
        ) <==> {
            &&& exists|k: int| #[trigger]
                chunk_reaches_row(cdc_options.chunks(bytes), bytes.len() as int, rows, k, row)
            &&& !(rows - row < 100 && forall|later: int, k: int|
                row < later < rows ==> !#[trigger] chunk_reaches_row(
                    cdc_options.chunks(bytes),
                    bytes.len() as int,
                    rows,
                    k,
                    later,
                ))
        },
{
    let chunks = cdc_options.chunks(bytes);
    let len = bytes.len() as int;
    let cuts = row_cuts(chunks, len, None, rows);
    let spans = spans_of_cuts(cuts);
    assert(chunks.len() > 0) by {
        if chunks.len() == 0 {
            assert(span_ints(chunks).len() == 0);
        }
    }
    lemma_row_cuts(chunks, len, None, rows);
    law_cuts_partition(cuts);
    law_merging_takes_one_end(spans, rows, row);
    assert forall|any: int| 0 < any < rows implies (#[trigger] ends_at(spans, any) <==> exists|
        k: int,
    | #[trigger] chunk_reaches_row(chunks, len, rows, k, any)) by {
        lemma_estimated_ends(chunks, len, rows, any);
    }
    if forall|later: int| row < later < rows ==> !#[trigger] ends_at(spans, later) {
        assert forall|later: int, k: int| row < later < rows implies !#[trigger] chunk_reaches_row(
            chunks,
            len,
            rows,
            k,
            later,
        ) by {
            assert(!ends_at(spans, later));
        }
    }
}

/// Before the merge of a short tail, pages of strings end in the rows that chunks reach.
proof fn lemma_estimated_ends(chunks: Seq<(usize, usize)>, len: int, rows: int, row: int)
    requires
        0 < row < rows,
    ensures
        ends_at(spans_of_cuts(row_cuts(chunks, len, None, rows)), row) <==> exists|k: int| #[trigger]
            chunk_reaches_row(chunks, len, rows, k, row),
{
    let cuts = row_cuts(chunks, len, None, rows);
    law_spans_end_at_cuts(cuts, row);
    if exists|k: int| #[trigger] cuts_first(cuts, k, row) {
        let k = choose|k: int| #[trigger] cuts_first(cuts, k, row);
        assert(k < chunks.len());
        assert forall|j: int| 0 <= j < k implies estimated_row(
            (#[trigger] chunks[j]).0 + chunks[j].1,
            len,
            rows,
        ) < row by {
            assert(cuts[j] < row);
        }
        assert(chunk_reaches_row(chunks, len, rows, k, row));
    }
    if exists|k: int| #[trigger] chunk_reaches_row(chunks, len, rows, k, row) {
        let k = choose|k: int| #[trigger] chunk_reaches_row(chunks, len, rows, k, row);
        assert forall|j: int| 0 <= j < k implies #[trigger] cuts[j] < row by {
            assert(estimated_row(chunks[j].0 + chunks[j].1, len, rows) < row);
        }
        assert(cuts_first(cuts, k, row));
    }
}

/// A column whose bytes are fewer than the least chunk is one page, and so is one of no bytes.
pub proof fn law_few_bytes_one_row_page(
    array: ArrayView,
    bytes: Seq<u8>,
    rows: int,
    byte_size: int,
    max_page_size: int,
    cdc_options: ContentDefinedChunkingOptions,
    row: int,
)
    requires
        preview(array).0 == Some(bytes),
        bytes.len() < cdc_options.min_size || (bytes.len() == 0 && cdc_options.chunks_hold(bytes)),
        0 < row < rows,
    ensures
        !ends_at(content_row_spans(array, rows, byte_size, max_page_size, cdc_options), row),
{
    let spans = content_row_spans(array, rows, byte_size, max_page_size, cdc_options);
    if bytes.len() == 0 && cdc_options.chunks_hold(bytes) {
        law_no_bytes_no_chunks(cdc_options, bytes);
    }
    if ends_at(spans, row) {
        let i = choose|i: int| 0 <= i < spans.len() && #[trigger] span_end(spans[i]) == row;
        assert(spans[i] == (0int, rows));
    }
}

/// The ends of fixed-size pages lie at equal distances: a row is the end of a page if and only if
/// it is a multiple of the number of rows that a page takes, and that is the greatest number of
/// rows of average size, each with one byte to spare, that a page may take, or one.
pub proof fn law_fixed_pages_end_evenly(
    number_of_rows: int,
    byte_size: int,
    max_page_size: int,
    row: int,
)
    requires
        max_page_size >= 0,
        0 < row < number_of_rows,
    ensures
        ({
            let per_page = rows_per_page(number_of_rows, byte_size, max_page_size);
            let width = average_row(number_of_rows, byte_size) + 1;
            &&& ends_at(even_spans(number_of_rows, per_page), row) <==> row % per_page == 0
            &&& per_page >= 1
            &&& per_page > 1 ==> per_page * width <= max_page_size
            &&& (per_page + 1) * width > max_page_size
        }),
{
    let per_page = rows_per_page(number_of_rows, byte_size, max_page_size);
    let width = average_row(number_of_rows, byte_size) + 1;
    let spans = even_spans(number_of_rows, per_page);
    let quotient = max_page_size / width;
    vstd::arithmetic::div_mod::lemma_fundamental_div_mod(max_page_size, width);
    assert(quotient * width == width * quotient) by (nonlinear_arith);
    assert((quotient + 1) * width == quotient * width + width) by (nonlinear_arith);
    assert((per_page + 1) * width >= (quotient + 1) * width) by (nonlinear_arith)
        requires
            per_page >= quotient,
            width > 0,
    ;
    law_even_spans_partition(number_of_rows, per_page);
    if ends_at(spans, row) {
        let i = choose|i: int| 0 <= i < spans.len() && #[trigger] span_end(spans[i]) == row;
        if i == spans.len() - 1 {
            assert(row == number_of_rows);
        }
        law_even_spans_are_even(number_of_rows, per_page, i);
        assert((i + 1) * per_page == i * per_page + per_page) by (nonlinear_arith);
        vstd::arithmetic::div_mod::lemma_mod_multiples_basic(i + 1, per_page);
    }
    if row % per_page == 0 {
        let i = row / per_page - 1;
        vstd::arithmetic::div_mod::lemma_fundamental_div_mod(row, per_page);
        assert((i + 1) * per_page == row && (i + 1) * per_page == i * per_page + per_page)
            by (nonlinear_arith)
            requires
                row == per_page * (i + 1) + row % per_page,
                row % per_page == 0,
        ;
        assert(i >= 0) by (nonlinear_arith)
            requires
                (i + 1) * per_page == row,
                row > 0,
                per_page > 0,
        ;
        let n = spans.len() as int;
        assert(i < n) by {
            vstd::arithmetic::div_mod::lemma_fundamental_div_mod(
                number_of_rows + per_page - 1,
                per_page,
            );
            assert(i < n) by (nonlinear_arith)
                requires
                    number_of_rows + per_page - 1 == per_page * n + (number_of_rows + per_page - 1)
                        % per_page,
                    (number_of_rows + per_page - 1) % per_page < per_page,
                    (i + 1) * per_page == row,
                    row < number_of_rows,
                    per_page > 0,
            ;
        }
        assert(spans[i] == (i * per_page, per_page));
        assert(span_end(spans[i]) == row);
    }
}

/// A column that shows no bytes has fixed-size pages.
pub proof fn law_no_bytes_fixed_pages(
    array: ArrayView,
    rows: int,
    byte_size: int,
    max_page_size: int,
    cdc_options: ContentDefinedChunkingOptions,
    row: int,
)
    requires
        preview(array).0 is None,
        max_page_size >= 0,
        0 < row < rows,
    ensures
        ends_at(content_row_spans(array, rows, byte_size, max_page_size, cdc_options), row) <==> row
            % rows_per_page(rows, byte_size, max_page_size) == 0,
{
    law_fixed_pages_end_evenly(rows, byte_size, max_page_size, row);
}

/// Pages are not small: where each row takes `width` bytes, no page but the last one has fewer
/// rows than fit wholly into the least chunk.
pub proof fn law_pages_are_not_small(
    array: ArrayView,
    bytes: Seq<u8>,
    width: int,
    rows: int,
    byte_size: int,
    max_page_size: int,
    cdc_options: ContentDefinedChunkingOptions,
    i: int,
)
    requires
        preview(array) == (Some(bytes), Some(width)),
        width > 0,
        bytes.len() >= cdc_options.min_size,
        bytes.len() > 0,
        cdc_options.chunks_hold(bytes),
        cdc_options.min_size <= cdc_options.max_size <= u32::MAX,
        rows > 0,
        rows * width <= bytes.len(),
        0 <= i < content_row_spans(array, rows, byte_size, max_page_size, cdc_options).len() - 1,
    ensures
        content_row_spans(array, rows, byte_size, max_page_size, cdc_options)[i].1 >= (
        cdc_options.min_size - cdc_options.min_size % 2) / width,
{
    let spans = content_row_spans(array, rows, byte_size, max_page_size, cdc_options);
    let chunks = cdc_options.chunks(bytes);
    law_content_covers_rows(array, rows, byte_size, max_page_size, cdc_options);
    lemma_partition_bounds(spans, rows, i);
    lemma_partition_bounds(spans, rows, i + 1);
    let start = spans[i].0;
    let end = span_end(spans[i]);
    assert(spans[i + 1].0 == end && end < rows) by {
        assert(spans[i + 1].0 == begin_of(spans, i + 1));
    }
    assert(ends_at(spans, end));
    law_pages_end_with_chunks(
        array,
        bytes,
        width,
        rows,
        byte_size,
        max_page_size,
        cdc_options,
        end,
    );
    if i > 0 {
        assert(span_end(spans[i - 1]) == start && start > 0) by {
            assert(spans[i].0 == begin_of(spans, i));
            lemma_partition_bounds(spans, rows, i - 1);
        }
        assert(ends_at(spans, start));
        law_pages_end_with_chunks(
            array,
            bytes,
            width,
            rows,
            byte_size,
            max_page_size,
            cdc_options,
            start,
        );
    } else {
        assert(start == 0) by {
            assert(spans[i].0 == begin_of(spans, i));
        }
    }
    lemma_rows_apart(cdc_options, bytes, width, rows, start, end);
}

/// Between two rows in which chunks end lie the rows of a whole chunk.
#[verifier::rlimit(40)]
proof fn lemma_rows_apart(
    cdc_options: ContentDefinedChunkingOptions,
    bytes: Seq<u8>,
    width: int,
    rows: int,
    start: int,
    end: int,
)
    requires
        cdc_options.chunks_hold(bytes),
        cdc_options.min_size <= cdc_options.max_size <= u32::MAX,
        width > 0,
        0 <= start < end < rows,
        rows * width <= bytes.len(),
        chunk_ends_in_row(cdc_options.chunks(bytes), width, end),
        start > 0 ==> chunk_ends_in_row(cdc_options.chunks(bytes), width, start),
    ensures
        end - start >= (cdc_options.min_size - cdc_options.min_size % 2) / width,
{
    let chunks = cdc_options.chunks(bytes);
    let spans = span_ints(chunks);
    let len = bytes.len() as int;
    let least = cdc_options.min_size - cdc_options.min_size % 2;
    let k = choose|k: int|
        0 <= k < chunks.len() && (#[trigger] chunks[k].0 + chunks[k].1) / width == end;
    let here = chunks[k].0 + chunks[k].1;
    assert(span_end(spans[k]) == here);
    assert(spans[k].0 == chunks[k].0 && spans[k].1 == chunks[k].1);
    vstd::arithmetic::div_mod::lemma_fundamental_div_mod(here, width);
    assert(here < len) by (nonlinear_arith)
        requires
            here == width * end + here % width,
            0 <= here % width < width,
            rows * width <= len,
            end < rows,
            width > 0,
    ;
    assert(k < chunks.len() - 1) by {
        if k == chunks.len() - 1 {
            assert(len == begin_of(spans, spans.len() as int));
        }
    }
    assert(chunks[k].1 >= least);
    let there = chunks[k].0 as int;
    assert(start <= there / width) by {
        assert(spans[k].0 == begin_of(spans, k));
        lemma_partition_bounds(spans, len, k);
        if start > 0 {
            let j = choose|j: int|
                0 <= j < chunks.len() && (#[trigger] chunks[j].0 + chunks[j].1) / width == start;
            assert(span_end(spans[j]) == chunks[j].0 + chunks[j].1);
            if j > k {
                lemma_end_order(spans, len, k, j);
            }
            if j >= k {
                vstd::arithmetic::div_mod::lemma_div_is_ordered(here, span_end(spans[j]), width);
                assert(false);
            }
            if j < k - 1 {
                lemma_end_order(spans, len, j, k - 1);
            }
            vstd::arithmetic::div_mod::lemma_div_is_ordered(span_end(spans[j]), there, width);
        } else {
            vstd::arithmetic::div_mod::lemma_div_is_ordered(0, there, width);
        }
    }
    vstd::arithmetic::div_mod::lemma_fundamental_div_mod(there, width);
    vstd::arithmetic::div_mod::lemma_fundamental_div_mod(least, width);
    let first = there / width;
    let few = least / width;
    assert(end >= first + few) by (nonlinear_arith)
        requires
            here >= there + least,
            here == width * end + here % width,
            there == width * first + there % width,
            least == width * few + least % width,
            0 <= here % width < width,
            0 <= there % width,
            0 <= least % width,
            width > 0,
    ;
}

/// A column that shows bytes can be divided if these are too few to be divided or the chunker takes
/// the sizes, and a column that shows none if the whole number of bytes in its average row can be
/// counted up from. No rows can always be divided.
pub proof fn law_what_can_be_divided(
    array: ArrayView,
    rows: int,
    byte_size: int,
    cdc_options: ContentDefinedChunkingOptions,
)
    requires
        cdc_options.min_size <= u32::MAX,
        cdc_options.avg_size <= u32::MAX,
        cdc_options.max_size <= u32::MAX,
    ensures
        rows == 0 ==> can_divide(array, rows, byte_size, cdc_options),
        rows > 0 ==> (preview(array).0 matches Some(bytes) ==> (can_divide(
            array,
            rows,
            byte_size,
            cdc_options,
        ) <==> bytes.len() < cdc_options.min_size || {
            &&& 64 <= cdc_options.min_size <= 1_048_576
            &&& 256 <= cdc_options.avg_size <= 4_194_304
            &&& 1024 <= cdc_options.max_size <= 16_777_216
            &&& cdc_options.avg_size <= cdc_options.max_size || bytes.len() <= cdc_options.max_size
        })),
        preview(array).0 is None && 0 < rows < PRECISION && 0 <= byte_size < PRECISION ==> (
        can_divide(array, rows, byte_size, cdc_options) <==> byte_size / rows < usize::MAX),
{
    if preview(array).0 is None && 0 < rows < PRECISION && 0 <= byte_size < PRECISION {
        law_quotient_of_doubles(byte_size as nat, rows as nat);
    }
}

/// The row that is estimated for a byte is the share of the rows up to it, raised to a whole row:
/// it is the row after the whole part of the share, where the numbers are small enough, and of a
/// share that is itself whole, that row or the next.
pub proof fn law_estimated_row_is_the_share(byte: int, byte_len: int, rows: int)
    requires
        0 < byte <= byte_len < 0x20_0000_0000_0000,
        0 <= rows < usize::MAX,
        byte * rows < 0x4_0000_0000_0000,
    ensures
        ({
            let whole_rows = (byte * rows) / byte_len;
            let row = estimated_row(byte, byte_len, rows);
            &&& whole_rows <= row <= whole_rows + 1
            &&& (byte * rows) % byte_len != 0 ==> row == whole_rows + 1
        }),
{
    let share = byte * rows;
    let floor = share / byte_len;
    assert(0 <= share && rows <= share) by (nonlinear_arith)
        requires
            share == byte * rows,
            byte >= 1,
            rows >= 0,
    ;
    vstd::arithmetic::div_mod::lemma_fundamental_div_mod(share, byte_len);
    vstd::arithmetic::div_mod::lemma_div_pos_is_pos(share, byte_len);
    assert(floor * byte_len == byte_len * floor && (floor + 1) * byte_len == byte_len * floor
        + byte_len) by (nonlinear_arith);
    assert(floor <= rows) by (nonlinear_arith)
        requires
            floor * byte_len <= share,
            share == byte * rows,
            byte <= byte_len,
            rows >= 0,
            byte_len > 0,
    ;
    law_share_is_rounded_up(byte as nat, byte_len as nat, rows as nat, floor as nat);
}

} // verus!
