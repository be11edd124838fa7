//! Content-defined chunking for Parquet page boundaries.
//!
//! CDC operates on encoded bytes (post-encoding, pre-compression) to ensure
//! identical content produces identical chunk boundaries across files.

use vstd::prelude::*;

use crate::bytes::{law_cut_numbers_keep_low_bits, low_i32, wrap_to_i32};
use crate::chunker::{law_few_bytes_one_chunk, law_no_bytes_no_chunks};
use crate::error::WriteError;
use crate::options::{ContentDefinedChunkingOptions, Encoding, Version, WriteOptions};
use crate::parquet::{
    DataPage, DataPageHeader, DataPageHeaderV1, DataPageHeaderV2, Descriptor, ParquetPrimitiveType,
    ParquetStatistics,
};
use crate::spans::{
    cuts_first, ends_at, is_partition, law_cuts_partition, law_spans_end_at_cuts, lemma_end_order,
    lemma_first_cut, lemma_partition_bounds, lemma_reach, reach, span_end, span_ints, spans_of_cuts,
};

verus! {

/// The contents of an optional buffer.
pub open spec fn contents(buffer: Option<Vec<u8>>) -> Option<Seq<u8>> {
    match buffer {
        Some(bytes) => Some(bytes@),
        None => None,
    }
}

/// The contents of an optional buffer, with nothing for none.
pub open spec fn bytes_or_none(buffer: Option<Seq<u8>>) -> Seq<u8> {
    match buffer {
        Some(bytes) => bytes,
        None => Seq::empty(),
    }
}

/// A copy of an optional buffer.
fn copy_buffer(buffer: &Option<Vec<u8>>) -> (copy: Option<Vec<u8>>)
    ensures
        contents(copy) == contents(*buffer),
{
    match buffer {
        Some(bytes) => Some(vstd::slice::slice_to_vec(bytes.as_slice())),
        None => None,
    }
}

/// Represents encoded column data before page splitting.
#[derive(Debug, PartialEq, Eq)]
pub struct EncodedColumnData {
    /// The encoded values (what would be written to a single page)
    pub data: Vec<u8>,
    /// Number of values encoded
    pub num_values: usize,
    /// The encoding used
    pub encoding: Encoding,
    /// Definition levels (already encoded)
    pub def_levels: Option<Vec<u8>>,
    /// Repetition levels (already encoded)
    pub rep_levels: Option<Vec<u8>>,
    /// Value boundary tracker for mapping byte offsets to value indices
    pub value_boundaries: ValueBoundaryTracker,
}

/// What encoded column data is.
#[verifier::ext_equal]
pub struct EncodedView {
    pub data: Seq<u8>,
    pub num_values: nat,
    pub encoding: Encoding,
    pub def_levels: Option<Seq<u8>>,
    pub rep_levels: Option<Seq<u8>>,
    pub value_boundaries: Seq<usize>,
}

impl View for EncodedColumnData {
    type V = EncodedView;

    open spec fn view(&self) -> EncodedView {
        EncodedView {
            data: self.data@,
            num_values: self.num_values as nat,
            encoding: self.encoding,
            def_levels: contents(self.def_levels),
            rep_levels: contents(self.rep_levels),
            value_boundaries: self.value_boundaries@,
        }
    }
}

/// Tracks byte offset → value index mapping during encoding.
#[derive(Debug, PartialEq, Eq)]
pub struct ValueBoundaryTracker {
    /// `offsets[i]` is the byte position where value i starts in the encoded buffer
    offsets: Vec<usize>,
}

impl View for ValueBoundaryTracker {
    type V = Seq<usize>;

    closed spec fn view(&self) -> Seq<usize> {
        self.offsets@
    }
}

/// Whether no offset lies before an earlier one.
pub open spec fn is_ascending(offsets: Seq<usize>) -> bool {
    forall|i: int, j: int| 0 <= i <= j < offsets.len() ==> offsets[i] <= offsets[j]
}

/// The number of offsets that are not after `byte_offset`.
pub open spec fn count_upto(offsets: Seq<usize>, byte_offset: usize) -> nat
    decreases offsets.len(),
{
    if offsets.len() == 0 {
        0
    } else {
        count_upto(offsets.drop_last(), byte_offset) + (if offsets.last() <= byte_offset {
            1nat
        } else {
            0nat
        })
    }
}

/// The number of values that lie between `offsets`.
pub open spec fn value_count(offsets: Seq<usize>) -> nat {
    if offsets.len() == 0 {
        0
    } else {
        (offsets.len() - 1) as nat
    }
}

/// The byte at which value `i` starts, and 0 for a value beyond the last offset.
pub open spec fn start_of(offsets: Seq<usize>, i: int) -> int {
    if 0 <= i < offsets.len() {
        offsets[i] as int
    } else {
        0
    }
}

/// The index of the value at or after `byte_offset`: the last one that starts there, or else the
/// first one that starts later, or else the end.
pub open spec fn value_index(offsets: Seq<usize>, byte_offset: usize) -> nat {
    let n = count_upto(offsets, byte_offset);
    if n > 0 && offsets[n - 1] == byte_offset {
        (n - 1) as nat
    } else if n <= value_count(offsets) {
        n
    } else {
        value_count(offsets)
    }
}

/// Of ascending offsets, those that are not after `byte_offset` come first.
proof fn lemma_count_upto(offsets: Seq<usize>, byte_offset: usize, n: nat)
    requires
        is_ascending(offsets),
        n <= offsets.len(),
        n > 0 ==> offsets[n - 1] <= byte_offset,
        n < offsets.len() ==> offsets[n as int] > byte_offset,
    ensures
        count_upto(offsets, byte_offset) == n,
    decreases offsets.len(),
{
    if offsets.len() > 0 {
        let before = offsets.drop_last();
        let k = offsets.len() - 1;
        if n <= k {
            assert(offsets[n as int] <= offsets[k]);
            lemma_count_upto(before, byte_offset, n);
        } else {
            assert(k > 0 ==> offsets[k - 1] <= offsets[k]);
            lemma_count_upto(before, byte_offset, k as nat);
        }
    }
}

/// There are no more offsets up to a byte than there are offsets.
proof fn lemma_count_upto_bound(offsets: Seq<usize>, byte_offset: usize)
    ensures
        count_upto(offsets, byte_offset) <= offsets.len(),
    decreases offsets.len(),
{
    if offsets.len() > 0 {
        lemma_count_upto_bound(offsets.drop_last(), byte_offset);
    }
}

impl Default for ValueBoundaryTracker {
    /// A tracker without a position, not even that of the first value.
    fn default() -> (tracker: Self)
        ensures
            tracker@ == Seq::<usize>::empty(),
    {
        Self { offsets: Vec::new() }
    }
}

impl Clone for ValueBoundaryTracker {
    fn clone(&self) -> (tracker: Self)
        ensures
            tracker@ == self@,
    {
        Self { offsets: vstd::slice::slice_to_vec(self.offsets.as_slice()) }
    }
}

impl ValueBoundaryTracker {
    /// A tracker for values of which the first starts at the first byte
    pub fn new() -> (tracker: Self)
        ensures
            tracker@ == seq![0usize],
    {
        let mut offsets: Vec<usize> = Vec::new();
        offsets.push(0);
        assert(offsets@ =~= seq![0usize]);
        Self { offsets }
    }

    /// Create a tracker for fixed-size elements
    pub fn for_fixed_size(num_values: usize, element_size: usize) -> (tracker: Self)
        requires
            num_values < usize::MAX,
            num_values * element_size <= usize::MAX,
        ensures
            tracker@ == Seq::new((num_values + 1) as nat, |i: int| (i * element_size) as usize),
    {
        let mut offsets: Vec<usize> = Vec::new();
        let mut i: usize = 0;
        while i <= num_values
            invariant
                i <= num_values + 1,
                num_values < usize::MAX,
                num_values * element_size <= usize::MAX,
                offsets@ == Seq::new(i as nat, |k: int| (k * element_size) as usize),
            decreases num_values + 1 - i,
        {
            assert(i * element_size <= num_values * element_size) by (nonlinear_arith)
                requires
                    i <= num_values,
                    0 <= element_size,
            ;
            offsets.push(i * element_size);
            i = i + 1;
            assert(offsets@ =~= Seq::new(i as nat, |k: int| (k * element_size) as usize));
        }
        Self { offsets }
    }

    /// Record the end position of the current value
    pub fn record(&mut self, current_byte_offset: usize)
        ensures
            final(self)@ == old(self)@.push(current_byte_offset),
    {
        self.offsets.push(current_byte_offset);
    }

    /// Get the byte offset where a given value starts
    pub fn byte_at_value(&self, value_idx: usize) -> (byte_offset: usize)
        ensures
            byte_offset == start_of(self@, value_idx as int),
            value_idx < self@.len() ==> byte_offset == self@[value_idx as int],
            value_idx >= self@.len() ==> byte_offset == 0,
    {
        if value_idx < self.offsets.len() {
            self.offsets[value_idx]
        } else {
            0
        }
    }

    /// Find the value index at or after a byte offset
    pub fn value_at_byte(&self, byte_offset: usize) -> (value_idx: usize)
        ensures
            value_idx <= value_count(self@),
            is_ascending(self@) ==> value_idx == value_index(self@, byte_offset),
    {
        let len: usize = self.offsets.len();
        if len == 0 {
            return 0;
        }
        let mut base: usize = 0;
        let mut size: usize = len;
        while size > 1
            invariant
                self.offsets@ == self@,
                self@.len() == len,
                size >= 1,
                base + size <= len,
                base > 0 ==> self@[base as int] <= byte_offset,
                is_ascending(self@) && base + size < len ==> self@[base + size] > byte_offset,
            decreases size,
        {
            let half: usize = size / 2;
            let mid: usize = base + half;
            if self.offsets[mid] <= byte_offset {
                base = mid;
                size = size - half;
            } else {
                assert(is_ascending(self@) && base + size - half < len ==> self@[mid as int]
                    <= self@[base + size - half]);
                size = size - half;
            }
        }
        let here: usize = self.offsets[base];
        proof {
            if is_ascending(self@) {
                if here <= byte_offset {
                    lemma_count_upto(self@, byte_offset, (base + 1) as nat);
                } else {
                    lemma_count_upto(self@, byte_offset, 0);
                }
            }
        }
        if here == byte_offset {
            base
        } else if here < byte_offset {
            if base + 1 < len {
                base + 1
            } else {
                len - 1
            }
        } else {
            base
        }
    }

    /// The number of values whose start and end are known
    pub fn num_values(&self) -> (count: usize)
        ensures
            count == value_count(self@),
            self@.len() == 0 ==> count == 0,
            self@.len() > 0 ==> count + 1 == self@.len(),
    {
        if self.offsets.len() == 0 {
            0
        } else {
            self.offsets.len() - 1
        }
    }
}

/// Information about a page's value range (for statistics computation)
#[derive(Debug, Clone, Copy, PartialEq, Eq, Structural)]
pub struct PageValueRange {
    pub start_value: usize,
    pub num_values: usize,
}

/// Data for a single CDC-split page, before statistics are attached
#[derive(Debug, PartialEq, Eq)]
pub struct CdcPageData {
    pub encoded_data: Vec<u8>,
    pub def_levels: Option<Vec<u8>>,
    pub rep_levels: Option<Vec<u8>>,
    pub value_range: PageValueRange,
}

/// What a page holds.
#[verifier::ext_equal]
pub struct CdcPageView {
    pub encoded_data: Seq<u8>,
    pub def_levels: Option<Seq<u8>>,
    pub rep_levels: Option<Seq<u8>>,
    pub start_value: int,
    pub num_values: int,
}

impl View for CdcPageData {
    type V = CdcPageView;

    open spec fn view(&self) -> CdcPageView {
        CdcPageView {
            encoded_data: self.encoded_data@,
            def_levels: contents(self.def_levels),
            rep_levels: contents(self.rep_levels),
            start_value: self.value_range.start_value as int,
            num_values: self.value_range.num_values as int,
        }
    }
}

/// What each of the pages holds.
pub open spec fn page_views(pages: Seq<CdcPageData>) -> Seq<CdcPageView> {
    pages.map_values(|page: CdcPageData| page@)
}

impl EncodedColumnData {
    /// The page with the values of `span` and the bytes from `start` to `end`. Each page has all
    /// levels of the column.
    pub open spec fn page(self, span: (int, int), start: int, end: int) -> CdcPageView {
        CdcPageView {
            encoded_data: self.data@.subrange(start, end),
            def_levels: contents(self.def_levels),
            rep_levels: contents(self.rep_levels),
            start_value: span.0,
            num_values: span.1,
        }
    }

    /// The page with the values of `span` and the bytes of these values.
    pub open spec fn page_of_span(self, span: (int, int)) -> CdcPageView {
        self.page(
            span,
            start_of(self.value_boundaries@, span.0),
            start_of(self.value_boundaries@, span_end(span)),
        )
    }

    /// Whether the value boundaries lie in the encoded bytes, in order.
    pub open spec fn boundaries_fit(self) -> bool {
        &&& is_ascending(self.value_boundaries@)
        &&& forall|i: int|
            0 <= i < self.value_boundaries@.len() ==> #[trigger] self.value_boundaries@[i]
                <= self.data@.len()
    }

    /// The page that holds the column as it is.
    pub open spec fn whole_page(self) -> CdcPageView {
        CdcPageView {
            encoded_data: self.data@,
            def_levels: contents(self.def_levels),
            rep_levels: contents(self.rep_levels),
            start_value: 0,
            num_values: self.num_values as int,
        }
    }
}

/// The values at which pages end: that at the end of each chunk, and the last value at the end of
/// the last chunk.
pub open spec fn value_cuts(offsets: Seq<usize>, chunks: Seq<(usize, usize)>) -> Seq<int> {
    Seq::new(
        chunks.len(),
        |i: int|
            if i == chunks.len() - 1 {
                value_count(offsets) as int
            } else {
                value_index(offsets, (chunks[i].0 + chunks[i].1) as usize) as int
            },
    )
}

/// The values of each page.
pub open spec fn value_spans(offsets: Seq<usize>, chunks: Seq<(usize, usize)>) -> Seq<(int, int)> {
    spans_of_cuts(value_cuts(offsets, chunks))
}

/// The pages into which chunks divide a column. Without a chunk, all values that there are go
/// into one page with the bytes from the first boundary on.
pub open spec fn chunked_pages(
    encoded: EncodedColumnData,
    chunks: Seq<(usize, usize)>,
) -> Seq<CdcPageView> {
    let offsets = encoded.value_boundaries@;
    if chunks.len() == 0 && value_count(offsets) > 0 {
        seq![
            encoded.page(
                (0, value_count(offsets) as int),
                start_of(offsets, 0),
                encoded.data@.len() as int,
            ),
        ]
    } else {
        value_spans(offsets, chunks).map_values(|span: (int, int)| encoded.page_of_span(span))
    }
}

/// The pages into which a column is divided by its content.
pub open spec fn content_pages(
    encoded: EncodedColumnData,
    cdc_options: ContentDefinedChunkingOptions,
) -> Seq<CdcPageView> {
    let chunks = cdc_options.chunks(encoded.data@);
    if chunks.len() == 0 {
        seq![encoded.whole_page()]
    } else {
        chunked_pages(encoded, chunks)
    }
}

/// Split encoded column data into page chunks using CDC.
/// Returns the raw page data and value ranges; caller is responsible for
/// computing statistics and creating final `DataPage` objects.
pub fn split_encoded_to_page_data(
    encoded: EncodedColumnData,
    cdc_options: ContentDefinedChunkingOptions,
) -> (pages: Vec<CdcPageData>)
    requires
        cdc_options.chunkable(encoded.data@.len()),
        encoded.data@.len() > 0 ==> encoded.boundaries_fit(),
    ensures
        page_views(pages@) == content_pages(encoded, cdc_options),
        cdc_options.chunks_hold(encoded.data@),
        encoded.data@.len() == 0 ==> page_views(pages@) == seq![encoded.whole_page()],
{
    let chunks: Vec<(usize, usize)> = cdc_options.chunk(encoded.data.as_slice());
    proof {
        if encoded.data@.len() == 0 {
            law_no_bytes_no_chunks(cdc_options, encoded.data@);
        }
    }
    if chunks.len() == 0 {
        let ghost whole = encoded.whole_page();
        let page = CdcPageData {
            encoded_data: encoded.data,
            def_levels: encoded.def_levels,
            rep_levels: encoded.rep_levels,
            value_range: PageValueRange { start_value: 0, num_values: encoded.num_values },
        };
        assert(page@ =~= whole);
        let mut pages: Vec<CdcPageData> = Vec::new();
        pages.push(page);
        assert(page_views(pages@) =~= seq![whole]);
        return pages;
    }
    let len: usize = encoded.data.len();
    assert forall|i: int| 0 <= i < chunks@.len() implies chunks@[i].0 + (#[trigger] chunks@[i]).1
        <= usize::MAX by {
        lemma_partition_bounds(span_ints(chunks@), len as int, i);
    }
    split_at_chunk_boundaries(&encoded, chunks.as_slice())
}

/// Divides the values of a column at the ends of `chunks`, each given by its offset and length.
pub fn split_at_chunk_boundaries(
    encoded: &EncodedColumnData,
    chunks: &[(usize, usize)],
) -> (pages: Vec<CdcPageData>)
    requires
        encoded.boundaries_fit(),
        forall|i: int|
            0 <= i < chunks@.len() ==> chunks@[i].0 + (#[trigger] chunks@[i]).1 <= usize::MAX,
    ensures
        page_views(pages@) == chunked_pages(*encoded, chunks@),
{
    let tracker: &ValueBoundaryTracker = &encoded.value_boundaries;
    let ghost offsets = tracker@;
    let ghost cuts = value_cuts(offsets, chunks@);
    let ghost make = |span: (int, int)| encoded.page_of_span(span);
    let mut pages: Vec<CdcPageData> = Vec::new();
    let mut current_value_start: usize = 0;
    let mut i: usize = 0;
    proof {
        assert(page_views(pages@) =~= spans_of_cuts(cuts.take(0)).map_values(make));
    }
    while i < chunks.len()
        invariant
            i <= chunks@.len(),
            encoded.boundaries_fit(),
            tracker@ == encoded.value_boundaries@,
            offsets == tracker@,
            cuts == value_cuts(offsets, chunks@),
            make == (|span: (int, int)| encoded.page_of_span(span)),
            forall|k: int|
                0 <= k < chunks@.len() ==> chunks@[k].0 + (#[trigger] chunks@[k]).1 <= usize::MAX,
            current_value_start == reach(cuts.take(i as int)),
            current_value_start <= value_count(offsets),
            i == chunks@.len() && i > 0 ==> current_value_start == value_count(offsets),
            page_views(pages@) == spans_of_cuts(cuts.take(i as int)).map_values(make),
        decreases chunks@.len() - i,
    {
        let chunk: (usize, usize) = chunks[i];
        let chunk_end_byte: usize = chunk.0 + chunk.1;
        let end_value: usize = if i == chunks.len() - 1 {
            tracker.num_values()
        } else {
            tracker.value_at_byte(chunk_end_byte)
        };
        assert(cuts[i as int] == end_value);
        assert(cuts.take(i + 1).drop_last() =~= cuts.take(i as int));
        assert(cuts.take(i + 1).last() == end_value);
        if end_value > current_value_start {
            let num_values: usize = end_value - current_value_start;
            let start_byte: usize = tracker.byte_at_value(current_value_start);
            let end_byte: usize = tracker.byte_at_value(end_value);
            proof {
                assert(offsets[current_value_start as int] <= offsets[end_value as int]);
                assert(offsets[end_value as int] <= encoded.data@.len());
            }
            let page = CdcPageData {
                encoded_data: vstd::slice::slice_to_vec(
                    vstd::slice::slice_subrange(encoded.data.as_slice(), start_byte, end_byte),
                ),
                def_levels: copy_buffer(&encoded.def_levels),
                rep_levels: copy_buffer(&encoded.rep_levels),
                value_range: PageValueRange { start_value: current_value_start, num_values },
            };
            let ghost span = (current_value_start as int, num_values as int);
            let ghost earlier = pages@;
            assert(page@ =~= make(span));
            pages.push(page);
            proof {
                assert(page_views(pages@) =~= page_views(earlier).push(page@));
                assert(spans_of_cuts(cuts.take(i + 1)) == spans_of_cuts(
                    cuts.take(i as int),
                ).push(span));
                assert(spans_of_cuts(cuts.take(i + 1)).map_values(make) =~= spans_of_cuts(
                    cuts.take(i as int),
                ).map_values(make).push(make(span)));
            }
            current_value_start = end_value;
        }
        i = i + 1;
    }
    assert(cuts.take(chunks@.len() as int) =~= cuts);
    // Handle remaining values
    if current_value_start < tracker.num_values() {
        let remaining_values: usize = tracker.num_values() - current_value_start;
        let start_byte: usize = tracker.byte_at_value(current_value_start);
        assert(offsets[0] <= encoded.data@.len());
        let page = CdcPageData {
            encoded_data: vstd::slice::slice_to_vec(
                vstd::slice::slice_subrange(
                    encoded.data.as_slice(),
                    start_byte,
                    encoded.data.len(),
                ),
            ),
            def_levels: copy_buffer(&encoded.def_levels),
            rep_levels: copy_buffer(&encoded.rep_levels),
            value_range: PageValueRange {
                start_value: current_value_start,
                num_values: remaining_values,
            },
        };
        pages.push(page);
        assert(page_views(pages@) =~= chunked_pages(*encoded, chunks@));
    }
    pages
}

/// Whether `page` holds what `page_data` holds: the repetition levels, the definition levels and
/// the values, in this order, under a header of the version that the options ask for.
pub open spec fn is_data_page_of(
    page: DataPage,
    page_data: CdcPageView,
    encoding: Encoding,
    type_: ParquetPrimitiveType,
    options: WriteOptions,
    statistics: Option<ParquetStatistics>,
) -> bool {
    let rep_levels = bytes_or_none(page_data.rep_levels);
    let def_levels = bytes_or_none(page_data.def_levels);
    let count = wrap_to_i32(page_data.num_values);
    &&& page.buffer@ == rep_levels + def_levels + page_data.encoded_data
    &&& page.num_rows == page_data.num_values
    &&& page.descriptor.primitive_type == type_
    &&& page.descriptor.max_def_level == (if def_levels.len() > 0 {
        1int
    } else {
        0int
    })
    &&& page.descriptor.max_rep_level == (if rep_levels.len() > 0 {
        1int
    } else {
        0int
    })
    &&& match options.version {
        Version::V1 => {
            &&& page.header matches DataPageHeader::V1(header)
            &&& header.num_values == count
            &&& header.encoding == encoding
            &&& header.definition_level_encoding == Encoding::Rle
            &&& header.repetition_level_encoding == Encoding::Rle
            &&& header.statistics == statistics
        },
        Version::V2 => {
            &&& page.header matches DataPageHeader::V2(header)
            &&& header.num_values == count
            &&& header.encoding == encoding
            &&& header.num_nulls == 0
            &&& header.num_rows == count
            &&& header.definition_levels_byte_length == wrap_to_i32(def_levels.len() as int)
            &&& header.repetition_levels_byte_length == wrap_to_i32(rep_levels.len() as int)
            &&& header.is_compressed == Some(false)
            &&& header.statistics == statistics
        },
    }
}

/// Create a `DataPage` from CDC-split encoded data with pre-computed statistics.
pub fn create_data_page(
    page_data: CdcPageData,
    encoding: Encoding,
    type_: ParquetPrimitiveType,
    options: WriteOptions,
    statistics: Option<ParquetStatistics>,
) -> (page: Result<DataPage, WriteError<'static>>)
    ensures
        page is Ok,
        is_data_page_of(page->Ok_0, page_data@, encoding, type_, options, statistics),
{
    let num_values: usize = page_data.value_range.num_values;
    let count: i32 = low_i32(num_values as u64);
    let mut buffer: Vec<u8> = Vec::new();
    let mut def_levels_byte_length: usize = 0;
    let mut rep_levels_byte_length: usize = 0;
    if let Some(rep) = &page_data.rep_levels {
        rep_levels_byte_length = rep.len();
        buffer.extend_from_slice(rep.as_slice());
    }
    assert(buffer@ =~= bytes_or_none(contents(page_data.rep_levels)));
    if let Some(def) = &page_data.def_levels {
        def_levels_byte_length = def.len();
        buffer.extend_from_slice(def.as_slice());
    }
    assert(buffer@ =~= bytes_or_none(contents(page_data.rep_levels)) + bytes_or_none(
        contents(page_data.def_levels),
    ));
    buffer.extend_from_slice(page_data.encoded_data.as_slice());
    assert(buffer@ =~= bytes_or_none(contents(page_data.rep_levels)) + bytes_or_none(
        contents(page_data.def_levels),
    ) + page_data.encoded_data@);
    let header = match options.version {
        Version::V1 => DataPageHeader::V1(
            DataPageHeaderV1 {
                num_values: count,
                encoding,
                definition_level_encoding: Encoding::Rle,
                repetition_level_encoding: Encoding::Rle,
                statistics,
            },
        ),
        Version::V2 => DataPageHeader::V2(
            DataPageHeaderV2 {
                num_values: count,
                encoding,
                num_nulls: 0,
                num_rows: count,
                definition_levels_byte_length: low_i32(def_levels_byte_length as u64),
                repetition_levels_byte_length: low_i32(rep_levels_byte_length as u64),
                is_compressed: Some(false),
                statistics,
            },
        ),
    };
    let descriptor = Descriptor {
        primitive_type: type_,
        max_def_level: if def_levels_byte_length > 0 {
            1
        } else {
            0
        },
        max_rep_level: if rep_levels_byte_length > 0 {
            1
        } else {
            0
        },
    };
    Ok(DataPage { header, buffer, descriptor, num_rows: num_values })
}

/// The values of each page.
pub open spec fn page_spans(pages: Seq<CdcPageView>) -> Seq<(int, int)> {
    pages.map_values(|page: CdcPageView| (page.start_value, page.num_values))
}

/// The encoded values of all pages, one page after the other.
pub open spec fn page_bytes(pages: Seq<CdcPageView>) -> Seq<u8> {
    pages.map_values(|page: CdcPageView| page.encoded_data).flatten()
}

/// The cuts of a column stay within its values, and with a chunk they reach the last one.
proof fn lemma_value_cuts(offsets: Seq<usize>, chunks: Seq<(usize, usize)>)
    ensures
        forall|i: int|
            0 <= i < chunks.len() ==> 0 <= #[trigger] value_cuts(offsets, chunks)[i] <= value_count(
                offsets,
            ),
        reach(value_cuts(offsets, chunks)) == (if chunks.len() > 0 {
            value_count(offsets) as int
        } else {
            0
        }),
{
    let cuts = value_cuts(offsets, chunks);
    assert forall|i: int| 0 <= i < chunks.len() implies 0 <= #[trigger] cuts[i] <= value_count(
        offsets,
    ) by {
        lemma_count_upto_bound(offsets, (chunks[i].0 + chunks[i].1) as usize);
    }
    lemma_reach(cuts, value_count(offsets) as int);
}

/// Each value goes into exactly one page: whatever the chunks are, the value ranges of the pages
/// are the values of the column cut into runs, none of them empty.
pub proof fn law_pages_cover_values(encoded: EncodedColumnData, chunks: Seq<(usize, usize)>)
    ensures
        is_partition(
            page_spans(chunked_pages(encoded, chunks)),
            value_count(encoded.value_boundaries@) as int,
        ),
{
    let offsets = encoded.value_boundaries@;
    let pages = chunked_pages(encoded, chunks);
    lemma_value_cuts(offsets, chunks);
    law_cuts_partition(value_cuts(offsets, chunks));
    if chunks.len() == 0 && value_count(offsets) > 0 {
        assert(page_spans(pages) =~= seq![(0int, value_count(offsets) as int)]);
    } else {
        assert(page_spans(pages) =~= value_spans(offsets, chunks));
    }
}

/// The bytes of pages that are cut at values are the bytes up to the furthest cut.
proof fn lemma_cut_bytes(encoded: EncodedColumnData, cuts: Seq<int>)
    requires
        encoded.boundaries_fit(),
        forall|i: int|
            0 <= i < cuts.len() ==> 0 <= #[trigger] cuts[i] <= value_count(
                encoded.value_boundaries@,
            ),
    ensures
        0 <= reach(cuts) <= value_count(encoded.value_boundaries@),
        page_bytes(
            spans_of_cuts(cuts).map_values(|span: (int, int)| encoded.page_of_span(span)),
        ) == encoded.data@.subrange(
            start_of(encoded.value_boundaries@, 0),
            start_of(encoded.value_boundaries@, reach(cuts)),
        ),
    decreases cuts.len(),
{
    let offsets = encoded.value_boundaries@;
    let make = |span: (int, int)| encoded.page_of_span(span);
    let bytes_of = |page: CdcPageView| page.encoded_data;
    let pages = spans_of_cuts(cuts).map_values(make);
    if cuts.len() == 0 {
        assert(pages.map_values(bytes_of) =~= Seq::<Seq<u8>>::empty());
        assert(page_bytes(pages) =~= encoded.data@.subrange(
            start_of(offsets, 0),
            start_of(offsets, 0),
        ));
    } else {
        let before = cuts.drop_last();
        lemma_cut_bytes(encoded, before);
        if cuts.last() > reach(before) {
            let earlier = spans_of_cuts(before).map_values(make);
            let span = (reach(before), cuts.last() - reach(before));
            assert(cuts[cuts.len() - 1] == cuts.last());
            assert(pages =~= earlier.push(make(span)));
            assert(pages.map_values(bytes_of) =~= earlier.map_values(bytes_of).push(
                make(span).encoded_data,
            ));
            earlier.map_values(bytes_of).lemma_flatten_push(make(span).encoded_data);
            assert(offsets[0] <= offsets[reach(before)] <= offsets[cuts.last()]);
            assert(page_bytes(pages) =~= encoded.data@.subrange(
                start_of(offsets, 0),
                start_of(offsets, cuts.last()),
            ));
        }
    }
}

/// Splitting loses no byte: where the boundaries begin at the first byte and end after the last
/// one, the encoded values of the pages, one after the other, are those of the column.
pub proof fn law_pages_hold_all_bytes(encoded: EncodedColumnData, chunks: Seq<(usize, usize)>)
    requires
        encoded.boundaries_fit(),
        encoded.value_boundaries@.len() > 0,
        encoded.value_boundaries@[0] == 0,
        encoded.value_boundaries@.last() == encoded.data@.len(),
    ensures
        page_bytes(chunked_pages(encoded, chunks)) == encoded.data@,
{
    let offsets = encoded.value_boundaries@;
    let pages = chunked_pages(encoded, chunks);
    assert(encoded.data@.subrange(0, encoded.data@.len() as int) =~= encoded.data@);
    if chunks.len() == 0 && value_count(offsets) > 0 {
        assert(pages.map_values(|page: CdcPageView| page.encoded_data) =~= seq![encoded.data@]);
        seq![encoded.data@].lemma_flatten_one_element();
    } else {
        lemma_value_cuts(offsets, chunks);
        lemma_cut_bytes(encoded, value_cuts(offsets, chunks));
    }
}

/// Splitting by content loses nothing: the pages of a column with at least one value have all its
/// values, each in exactly one page, and all its bytes in their order.
pub proof fn law_split_loses_nothing(
    encoded: EncodedColumnData,
    cdc_options: ContentDefinedChunkingOptions,
)
    requires
        encoded.boundaries_fit(),
        encoded.num_values > 0,
        encoded.num_values == value_count(encoded.value_boundaries@),
        encoded.value_boundaries@[0] == 0,
        encoded.value_boundaries@.last() == encoded.data@.len(),
    ensures
        is_partition(
            page_spans(content_pages(encoded, cdc_options)),
            encoded.num_values as int,
        ),
        page_bytes(content_pages(encoded, cdc_options)) == encoded.data@,
{
    let chunks = cdc_options.chunks(encoded.data@);
    let pages = content_pages(encoded, cdc_options);
    if chunks.len() == 0 {
        assert(page_spans(pages) =~= seq![(0int, encoded.num_values as int)]);
        assert(pages.map_values(|page: CdcPageView| page.encoded_data) =~= seq![encoded.data@]);
        seq![encoded.data@].lemma_flatten_one_element();
    } else {
        law_pages_cover_values(encoded, chunks);
        law_pages_hold_all_bytes(encoded, chunks);
    }
}

/// Identical content is divided at identical boundaries: columns with the same bytes, the same
/// value boundaries and the same levels are split into the same pages, under the same options.
pub proof fn law_identical_content_splits_alike(
    one: EncodedColumnData,
    other: EncodedColumnData,
    cdc_options: ContentDefinedChunkingOptions,
)
    requires
        one.data@ == other.data@,
        one.num_values == other.num_values,
        one.value_boundaries@ == other.value_boundaries@,
        contents(one.def_levels) == contents(other.def_levels),
        contents(one.rep_levels) == contents(other.rep_levels),
    ensures
        content_pages(one, cdc_options) == content_pages(other, cdc_options),
{
    assert(content_pages(one, cdc_options) =~= content_pages(other, cdc_options));
}

/// Identical bytes are divided at identical boundaries, whatever the levels are: columns with the
/// same bytes and the same value boundaries are split into as many pages, and page by page these
/// have the same encoded values and the same value range.
pub proof fn law_identical_bytes_same_boundaries(
    one: EncodedColumnData,
    other: EncodedColumnData,
    cdc_options: ContentDefinedChunkingOptions,
)
    requires
        one.data@ == other.data@,
        one.num_values == other.num_values,
        one.value_boundaries@ == other.value_boundaries@,
    ensures
        content_pages(one, cdc_options).len() == content_pages(other, cdc_options).len(),
        forall|i: int|
            #![trigger content_pages(one, cdc_options)[i]]
            #![trigger content_pages(other, cdc_options)[i]]
            0 <= i < content_pages(one, cdc_options).len() ==> {
                let page = content_pages(one, cdc_options)[i];
                let like = content_pages(other, cdc_options)[i];
                &&& page.encoded_data == like.encoded_data
                &&& page.start_value == like.start_value
                &&& page.num_values == like.num_values
            },
{
}

/// Few bytes make one page: where they are no more than the least chunk, all values of the column
/// go into one page.
pub proof fn law_few_bytes_one_page(
    encoded: EncodedColumnData,
    cdc_options: ContentDefinedChunkingOptions,
)
    requires
        cdc_options.chunks_hold(encoded.data@),
        cdc_options.min_size <= cdc_options.max_size <= u32::MAX,
        0 < encoded.data@.len() <= cdc_options.min_size - cdc_options.min_size % 2,
        value_count(encoded.value_boundaries@) > 0,
    ensures
        content_pages(encoded, cdc_options) == seq![
            encoded.page_of_span((0, value_count(encoded.value_boundaries@) as int)),
        ],
{
    law_few_bytes_one_chunk(cdc_options, encoded.data@);
    let offsets = encoded.value_boundaries@;
    let cuts = value_cuts(offsets, cdc_options.chunks(encoded.data@));
    assert(cuts.drop_last() =~= Seq::<int>::empty());
    assert(reach(cuts.drop_last()) == 0);
    assert(spans_of_cuts(cuts.drop_last()) =~= Seq::<(int, int)>::empty());
    assert(spans_of_cuts(cuts) =~= seq![(0int, value_count(offsets) as int)]);
    assert(content_pages(encoded, cdc_options) =~= seq![
        encoded.page_of_span((0, value_count(offsets) as int)),
    ]);
}

/// A page never begins or ends inside a value: its bytes begin where one value begins and end
/// where one begins or the last one ends.
pub proof fn law_pages_hold_whole_values(
    encoded: EncodedColumnData,
    chunks: Seq<(usize, usize)>,
    i: int,
)
    requires
        chunks.len() > 0,
        0 <= i < chunked_pages(encoded, chunks).len(),
    ensures
        ({
            let page = chunked_pages(encoded, chunks)[i];
            let offsets = encoded.value_boundaries@;
            let end = page.start_value + page.num_values;
            &&& 0 <= page.start_value < end < offsets.len()
            &&& page.encoded_data == encoded.data@.subrange(
                offsets[page.start_value] as int,
                offsets[end] as int,
            )
        }),
{
    law_pages_cover_values(encoded, chunks);
    let offsets = encoded.value_boundaries@;
    let spans = page_spans(chunked_pages(encoded, chunks));
    lemma_partition_bounds(spans, value_count(offsets) as int, i);
}

/// A tracker for values of one size has its boundaries in order and counts every value.
pub proof fn law_fixed_size_boundaries(
    offsets: Seq<usize>,
    num_values: usize,
    element_size: usize,
)
    requires
        num_values * element_size <= usize::MAX,
        offsets == Seq::new((num_values + 1) as nat, |i: int| (i * element_size) as usize),
    ensures
        is_ascending(offsets),
        value_count(offsets) == num_values,
        offsets[0] == 0,
        offsets.last() == num_values * element_size,
        forall|i: int| 0 <= i <= num_values ==> #[trigger] offsets[i] == i * element_size,
{
    assert forall|i: int| 0 <= i <= num_values implies #[trigger] offsets[i] == i * element_size by {
        assert(0 <= i * element_size <= num_values * element_size) by (nonlinear_arith)
            requires
                0 <= i <= num_values,
                0 <= element_size,
        ;
    }
    assert forall|i: int, j: int| 0 <= i <= j < offsets.len() implies offsets[i] <= offsets[j] by {
        assert(i * element_size <= j * element_size) by (nonlinear_arith)
            requires
                i <= j,
                0 <= element_size,
        ;
    }
    assert(0 * element_size == 0) by (nonlinear_arith);
}

/// Looking up the byte at which a value starts gives that value back, where no two values start
/// at one byte.
pub proof fn law_lookup_finds_value(offsets: Seq<usize>, i: int)
    requires
        forall|j: int, k: int| 0 <= j < k < offsets.len() ==> offsets[j] < offsets[k],
        0 <= i < offsets.len(),
    ensures
        value_index(offsets, offsets[i]) == i,
{
    lemma_count_upto(offsets, offsets[i], (i + 1) as nat);
}

/// A byte up to the last boundary is never after the value that its lookup gives, and before
/// that value lies no other that the byte could mean.
pub proof fn law_lookup_is_at_or_after(offsets: Seq<usize>, byte_offset: usize)
    requires
        is_ascending(offsets),
        offsets.len() > 0,
        byte_offset <= offsets.last(),
    ensures
        value_index(offsets, byte_offset) < offsets.len(),
        byte_offset <= offsets[value_index(offsets, byte_offset) as int],
        forall|i: int|
            0 <= i < value_index(offsets, byte_offset) ==> #[trigger] offsets[i] <= byte_offset,
{
    lemma_count_upto_position(offsets, byte_offset);
}

/// The offsets that are counted come first.
proof fn lemma_count_upto_position(offsets: Seq<usize>, byte_offset: usize)
    requires
        is_ascending(offsets),
    ensures
        count_upto(offsets, byte_offset) <= offsets.len(),
        forall|i: int|
            0 <= i < offsets.len() ==> (#[trigger] offsets[i] <= byte_offset <==> i < count_upto(
                offsets,
                byte_offset,
            )),
    decreases offsets.len(),
{
    if offsets.len() > 0 {
        let before = offsets.drop_last();
        let k = offsets.len() - 1;
        lemma_count_upto_position(before, byte_offset);
        assert forall|i: int| 0 <= i < offsets.len() implies (#[trigger] offsets[i] <= byte_offset
            <==> i < count_upto(offsets, byte_offset)) by {
            if i < k {
                assert(before[i] == offsets[i]);
                assert(offsets[i] <= offsets[k]);
            }
            if k > 0 && offsets[k] <= byte_offset {
                assert(before[k - 1] == offsets[k - 1]);
                assert(offsets[k - 1] <= offsets[k]);
            }
        }
    }
}

/// A byte means value `v` if it lies between the start of the value before it and its own start,
/// or at its own start where no other value starts there after it. A byte before all values means
/// the first one, and one after all starts means the end.
pub proof fn law_lookup_by_boundaries(offsets: Seq<usize>, byte_offset: usize, v: int)
    requires
        is_ascending(offsets),
        offsets.len() >= 2,
        0 <= v < offsets.len(),
    ensures
        value_index(offsets, byte_offset) == v <==> means_value(offsets, byte_offset as int, v),
{
    lemma_count_upto_position(offsets, byte_offset);
    let n = count_upto(offsets, byte_offset);
    let last = offsets.len() - 1;
    if 0 < v {
        assert(offsets[v - 1] <= offsets[v]);
        assert(offsets[v - 1] <= byte_offset <==> v - 1 < n);
    }
    if v < last {
        assert(offsets[v] <= offsets[v + 1]);
        assert(offsets[v + 1] <= byte_offset <==> v + 1 < n);
    }
    assert(offsets[v] <= byte_offset <==> v < n);
    if 0 < n < offsets.len() {
        assert(offsets[n - 1] <= byte_offset && offsets[n as int] > byte_offset);
    }
    assert(offsets[last] <= byte_offset <==> last < n);
    assert(offsets[last - 1] <= byte_offset <==> last - 1 < n);
}

/// Whether a byte means value `v`, of values that start at `offsets`, the last of which is where
/// all of them end.
pub open spec fn means_value(offsets: Seq<usize>, byte: int, v: int) -> bool {
    let last = offsets.len() - 1;
    ||| offsets[v] == byte && (v == last || byte < offsets[v + 1])
    ||| byte < offsets[v] && (v == 0 || offsets[v - 1] < byte)
    ||| v == last && offsets[v] < byte
}

/// Whether a chunk other than the last one ends at a byte that means value `v`.
pub open spec fn chunk_ends_at_value(
    offsets: Seq<usize>,
    chunks: Seq<(usize, usize)>,
    v: int,
) -> bool {
    exists|k: int|
        0 <= k < chunks.len() - 1 && means_value(
            offsets,
            #[trigger] chunks[k].0 + chunks[k].1,
            v,
        )
}

/// A later byte never means an earlier value.
proof fn lemma_lookup_ascends(offsets: Seq<usize>, one: usize, other: usize)
    requires
        is_ascending(offsets),
        one <= other,
    ensures
        value_index(offsets, one) <= value_index(offsets, other),
{
    lemma_count_upto_position(offsets, one);
    lemma_count_upto_position(offsets, other);
    let few = count_upto(offsets, one);
    let more = count_upto(offsets, other);
    if few > 0 {
        assert(offsets[few - 1] <= one);
    }
    if few > more {
        assert(offsets[few - 1] <= other);
    }
    if more > 0 && offsets[more - 1] == other && one < other {
        assert(!(offsets[more - 1] <= one));
    }
}

/// Pages end where chunks end: a value that is not the last one is the first after the end of a
/// page if and only if a chunk other than the last one ends at a byte that means it.
pub proof fn law_value_pages_end_with_chunks(
    encoded: EncodedColumnData,
    cdc_options: ContentDefinedChunkingOptions,
    v: int,
)
    requires
        encoded.boundaries_fit(),
        encoded.data@.len() > 0,
        encoded.data@.len() <= usize::MAX,
        cdc_options.chunks_hold(encoded.data@),
        0 < v < encoded.value_boundaries@.len() - 1,
    ensures
        ends_at(page_spans(content_pages(encoded, cdc_options)), v) <==> chunk_ends_at_value(
            encoded.value_boundaries@,
            cdc_options.chunks(encoded.data@),
            v,
        ),
{
    let offsets = encoded.value_boundaries@;
    let chunks = cdc_options.chunks(encoded.data@);
    let len = encoded.data@.len() as int;
    assert(chunks.len() > 0) by {
        if chunks.len() == 0 {
            assert(span_ints(chunks).len() == 0);
        }
    }
    let cuts = value_cuts(offsets, chunks);
    assert(page_spans(content_pages(encoded, cdc_options)) =~= spans_of_cuts(cuts));
    law_spans_end_at_cuts(cuts, v);
    lemma_value_ends(offsets, chunks, len, v);
}

/// A cut lies at a value for the first time if and only if a chunk other than the last one ends at
/// a byte that means it.
proof fn lemma_value_ends(offsets: Seq<usize>, chunks: Seq<(usize, usize)>, len: int, v: int)
    requires
        is_ascending(offsets),
        len <= usize::MAX,
        is_partition(span_ints(chunks), len),
        chunks.len() > 0,
        0 < v < offsets.len() - 1,
    ensures
        (exists|k: int| #[trigger] cuts_first(value_cuts(offsets, chunks), k, v))
            <==> chunk_ends_at_value(offsets, chunks, v),
{
    let cuts = value_cuts(offsets, chunks);
    let spans = span_ints(chunks);
    let last = chunks.len() - 1;
    assert forall|k: int| 0 <= k < last implies means_value(
        offsets,
        #[trigger] chunks[k].0 + chunks[k].1,
        v,
    ) == (cuts[k] == v) by {
        lemma_partition_bounds(spans, len, k);
        law_lookup_by_boundaries(offsets, (chunks[k].0 + chunks[k].1) as usize, v);
    }
    if exists|k: int| #[trigger] cuts_first(cuts, k, v) {
        let k = choose|k: int| #[trigger] cuts_first(cuts, k, v);
        assert(k < last);
        assert(means_value(offsets, chunks[k].0 + chunks[k].1, v));
    }
    if chunk_ends_at_value(offsets, chunks, v) {
        let k = choose|k: int|
            0 <= k < chunks.len() - 1 && means_value(
                offsets,
                #[trigger] chunks[k].0 + chunks[k].1,
                v,
            );
        assert(cuts[k] == v);
        lemma_first_cut(cuts, v, k);
        let first = choose|first: int|
            0 <= first <= k && #[trigger] cuts[first] == v && forall|j: int|
                0 <= j < first ==> #[trigger] cuts[j] != v;
        assert forall|j: int| 0 <= j < first implies #[trigger] cuts[j] < v by {
            lemma_end_order(spans, len, j, first);
            lemma_partition_bounds(spans, len, j);
            lemma_partition_bounds(spans, len, first);
            assert(span_end(spans[j]) == chunks[j].0 + chunks[j].1);
            assert(span_end(spans[first]) == chunks[first].0 + chunks[first].1);
            lemma_lookup_ascends(
                offsets,
                (chunks[j].0 + chunks[j].1) as usize,
                (chunks[first].0 + chunks[first].1) as usize,
            );
        }
        assert(cuts_first(cuts, first, v));
    }
}

/// Every page has the levels of the column, as they are.
pub proof fn law_pages_have_all_levels(
    encoded: EncodedColumnData,
    cdc_options: ContentDefinedChunkingOptions,
    i: int,
)
    requires
        0 <= i < content_pages(encoded, cdc_options).len(),
    ensures
        match (encoded.def_levels, content_pages(encoded, cdc_options)[i].def_levels) {
            (Some(levels), Some(kept)) => kept == levels@,
            (None, None) => true,
            _ => false,
        },
        match (encoded.rep_levels, content_pages(encoded, cdc_options)[i].rep_levels) {
            (Some(levels), Some(kept)) => kept == levels@,
            (None, None) => true,
            _ => false,
        },
{
}

/// Whether a number of 32 bits is what they hold of `n`: `n` itself where they can hold it.
pub open spec fn is_low_part(low: int, n: int) -> bool {
    &&& i32::MIN <= low <= i32::MAX
    &&& (n - low) % 0x1_0000_0000 == 0
    &&& i32::MIN <= n <= i32::MAX ==> low == n
}

proof fn lemma_low_part(n: int)
    ensures
        is_low_part(wrap_to_i32(n), n),
{
    law_cut_numbers_keep_low_bits(n);
    if i32::MIN <= n <= i32::MAX {
        vstd::arithmetic::div_mod::lemma_small_mod((n + 0x8000_0000) as nat, 0x1_0000_0000);
    }
}

/// A data page holds what it was made of: first the repetition levels, then the definition levels
/// and then the values. Its header counts them, in 32 bits: where there are more, it has the low
/// bits of the number, and where there are fewer, the number. The page has levels to be read if and
/// only if it holds bytes of them, and it has the encoding and the statistics that it
/// was given, and the version that was asked for.
pub proof fn law_data_page_reads_back(
    page: DataPage,
    page_data: CdcPageView,
    encoding: Encoding,
    type_: ParquetPrimitiveType,
    options: WriteOptions,
    statistics: Option<ParquetStatistics>,
)
    requires
        is_data_page_of(page, page_data, encoding, type_, options, statistics),
    ensures
        ({
            let rep_len = match page_data.rep_levels {
                Some(levels) => levels.len() as int,
                None => 0,
            };
            let def_len = match page_data.def_levels {
                Some(levels) => levels.len() as int,
                None => 0,
            };
            let buffer = page.buffer@;
            &&& buffer.len() == rep_len + def_len + page_data.encoded_data.len()
            &&& page_data.rep_levels matches Some(levels) ==> buffer.subrange(0, rep_len) == levels
            &&& page_data.def_levels matches Some(levels) ==> buffer.subrange(
                rep_len,
                rep_len + def_len,
            ) == levels
            &&& buffer.subrange(rep_len + def_len, buffer.len() as int) == page_data.encoded_data
            &&& is_low_part(page.header.count() as int, page_data.num_values)
            &&& page.num_rows == page_data.num_values
            &&& page.descriptor.primitive_type == type_
            &&& page.descriptor.max_rep_level == 1 <==> rep_len > 0
            &&& page.descriptor.max_def_level == 1 <==> def_len > 0
            &&& 0 <= page.descriptor.max_rep_level <= 1
            &&& 0 <= page.descriptor.max_def_level <= 1
            &&& page.header is V1 <==> options.version is V1
            &&& page.header matches DataPageHeader::V1(header) ==> {
                &&& header.encoding == encoding
                &&& header.statistics == statistics
                &&& header.definition_level_encoding is Rle
                &&& header.repetition_level_encoding is Rle
            }
            &&& page.header matches DataPageHeader::V2(header) ==> {
                &&& header.encoding == encoding
                &&& header.statistics == statistics
                &&& is_low_part(header.num_rows as int, page_data.num_values)
                &&& is_low_part(header.repetition_levels_byte_length as int, rep_len)
                &&& is_low_part(header.definition_levels_byte_length as int, def_len)
                &&& header.is_compressed == Some(false)
                &&& header.num_nulls == 0
            }
        }),
{
    let rep = bytes_or_none(page_data.rep_levels);
    let def = bytes_or_none(page_data.def_levels);
    let buffer = page.buffer@;
    let rep_end = rep.len() as int;
    let def_end = rep_end + def.len();
    assert(buffer.subrange(0, rep_end) =~= rep);
    assert(buffer.subrange(rep_end, def_end) =~= def);
    assert(buffer.subrange(def_end, buffer.len() as int) =~= page_data.encoded_data);
    lemma_low_part(page_data.num_values);
    lemma_low_part(rep.len() as int);
    lemma_low_part(def.len() as int);
}

/// Without a chunk nothing is divided: all values go into one page. A column that is divided by its
/// content goes into it as it is; of one that is divided at given chunks, it has the bytes from the
/// first boundary on.
pub proof fn law_no_chunks_one_page(
    encoded: EncodedColumnData,
    cdc_options: ContentDefinedChunkingOptions,
)
    ensures
        cdc_options.chunks(encoded.data@).len() == 0 ==> {
            let pages = content_pages(encoded, cdc_options);
            &&& pages.len() == 1
            &&& pages[0].encoded_data == encoded.data@
            &&& pages[0].start_value == 0
            &&& pages[0].num_values == encoded.num_values
        },
        encoded.value_boundaries@.len() > 1 && encoded.boundaries_fit() ==> {
            let pages = chunked_pages(encoded, Seq::empty());
            &&& pages.len() == 1
            &&& pages[0].encoded_data == encoded.data@.skip(encoded.value_boundaries@[0] as int)
            &&& pages[0].start_value == 0
            &&& pages[0].num_values == encoded.value_boundaries@.len() - 1
        },
{
    if encoded.value_boundaries@.len() > 1 && encoded.boundaries_fit() {
        let start = encoded.value_boundaries@[0] as int;
        assert(encoded.data@.skip(start) =~= encoded.data@.subrange(
            start,
            encoded.data@.len() as int,
        ));
    }
}

} // verus!
