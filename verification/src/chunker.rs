//! Content-defined chunks of bytes.

use vstd::prelude::*;

use crate::options::ContentDefinedChunkingOptions;
use crate::spans::{begin_of, is_partition, lemma_partition_bounds, span_ints};

verus! {

/// The chunks into which the FastCDC algorithm of 2020, at its first level of normalization,
/// divides `source`: the offset and the length of each.
pub uninterp spec fn fastcdc_chunks(
    source: Seq<u8>,
    min_size: u32,
    avg_size: u32,
    max_size: u32,
) -> Seq<(usize, usize)>;

/// Whether the chunker takes these sizes for `len` bytes.
pub open spec fn chunker_takes(len: nat, min_size: u32, avg_size: u32, max_size: u32) -> bool {
    &&& 64 <= min_size <= 1_048_576
    &&& 256 <= avg_size <= 4_194_304
    &&& 1024 <= max_size <= 16_777_216
    &&& avg_size <= max_size || len <= max_size
}

/// Whether the lengths of chunks keep to these sizes: none is above the maximum, and none but the
/// last one is below the minimum, taken down to an even number.
pub open spec fn keep_sizes(chunks: Seq<(usize, usize)>, min_size: int, max_size: int) -> bool {
    &&& forall|i: int| 0 <= i < chunks.len() ==> (#[trigger] chunks[i]).1 <= max_size
    &&& forall|i: int|
        0 <= i < chunks.len() - 1 ==> (#[trigger] chunks[i]).1 >= min_size - min_size % 2
}

/// Divides `source` into chunks by its content.
///
/// Calls `fastcdc::v2020::FastCDC::new` and runs the iterator that it gives to the end. The
/// contract claims that the offsets and lengths of the chunks are a function of the bytes and
/// the sizes alone, that the chunks are the source cut into runs that are not empty, and that
/// they keep to the sizes where the minimum is not above the maximum: the chunker looks at two
/// bytes at a time, so it can end a chunk one byte before an odd minimum. The chunker checks the sizes by assertions; with an average above the maximum it can look past
/// the end of a source that is longer than the maximum. `requires` leaves these cases out.
#[verifier::external_body]
pub(crate) fn chunk_bytes(
    source: &[u8],
    min_size: u32,
    avg_size: u32,
    max_size: u32,
) -> (chunks: Vec<(usize, usize)>)
    requires
        chunker_takes(source@.len(), min_size, avg_size, max_size),
    ensures
        chunks@ == fastcdc_chunks(source@, min_size, avg_size, max_size),
        is_partition(span_ints(chunks@), source@.len() as int),
        min_size <= max_size ==> keep_sizes(chunks@, min_size as int, max_size as int),
{
    fastcdc::v2020::FastCDC::new(source, min_size, avg_size, max_size)
        .map(|chunk| (chunk.offset, chunk.length))
        .collect()
}

/// The 32 low-order bits of a size.
pub open spec fn low_u32(size: usize) -> u32 {
    (size as int % 0x1_0000_0000) as u32
}

fn to_u32(size: usize) -> (low: u32)
    ensures
        low == low_u32(size),
{
    (size as u64 % 0x1_0000_0000) as u32
}

impl ContentDefinedChunkingOptions {
    /// Whether `len` bytes can be divided with these options. Only the 32 low-order bits of
    /// each size count.
    pub open spec fn chunkable(self, len: nat) -> bool {
        chunker_takes(len, low_u32(self.min_size), low_u32(self.avg_size), low_u32(self.max_size))
    }

    /// The chunks into which these options divide `source`.
    pub open spec fn chunks(self, source: Seq<u8>) -> Seq<(usize, usize)> {
        fastcdc_chunks(
            source,
            low_u32(self.min_size),
            low_u32(self.avg_size),
            low_u32(self.max_size),
        )
    }

    /// Whether the chunks of `source` are `source` cut into runs that are not empty and that keep
    /// to the sizes, where the minimum is not above the maximum.
    pub open spec fn chunks_hold(self, source: Seq<u8>) -> bool {
        &&& is_partition(span_ints(self.chunks(source)), source.len() as int)
        &&& self.min_size <= self.max_size <= u32::MAX ==> keep_sizes(
            self.chunks(source),
            self.min_size as int,
            self.max_size as int,
        )
    }

    /// Whether `len` bytes can be divided with these options.
    pub fn can_chunk(&self, len: usize) -> (can: bool)
        ensures
            can == self.chunkable(len as nat),
    {
        let min_size: u32 = to_u32(self.min_size);
        let avg_size: u32 = to_u32(self.avg_size);
        let max_size: u32 = to_u32(self.max_size);
        64 <= min_size && min_size <= 1_048_576 && 256 <= avg_size && avg_size <= 4_194_304 && 1024
            <= max_size && max_size <= 16_777_216 && (avg_size <= max_size || len as u64
            <= max_size as u64)
    }

    /// Divides `source` into chunks by its content: the offset and the length of each.
    pub fn chunk(&self, source: &[u8]) -> (chunks: Vec<(usize, usize)>)
        requires
            self.chunkable(source@.len()),
        ensures
            chunks@ == self.chunks(source@),
            self.chunks_hold(source@),
    {
        chunk_bytes(source, to_u32(self.min_size), to_u32(self.avg_size), to_u32(self.max_size))
    }
}

/// Options that pass validation and keep to the upper limits of the chunker divide any bytes.
pub proof fn law_valid_options_chunk(options: ContentDefinedChunkingOptions, len: nat)
    requires
        options.is_valid(),
        options.min_size <= 1_048_576,
        options.avg_size <= 4_194_304,
        1024 <= options.max_size <= 16_777_216,
    ensures
        options.chunkable(len),
{
}

/// No bytes have no chunks.
pub proof fn law_no_bytes_no_chunks(options: ContentDefinedChunkingOptions, source: Seq<u8>)
    requires
        options.chunks_hold(source),
        source.len() == 0,
    ensures
        options.chunks(source).len() == 0,
{
    let spans = span_ints(options.chunks(source));
    if spans.len() > 0 {
        lemma_partition_bounds(spans, 0, 0);
    }
}

/// Bytes that are no more than the minimum, taken down to an even number, are one chunk.
pub proof fn law_few_bytes_one_chunk(options: ContentDefinedChunkingOptions, source: Seq<u8>)
    requires
        options.chunks_hold(source),
        options.min_size <= options.max_size <= u32::MAX,
        0 < source.len() <= options.min_size - options.min_size % 2,
    ensures
        options.chunks(source) == seq![(0usize, source.len() as usize)],
{
    let chunks = options.chunks(source);
    let spans = span_ints(chunks);
    let total = source.len() as int;
    assert(spans.len() > 0);
    lemma_partition_bounds(spans, total, 0);
    assert(spans[0].0 == begin_of(spans, 0));
    if chunks.len() > 1 {
        assert(chunks[0].1 >= options.min_size - options.min_size % 2);
        lemma_partition_bounds(spans, total, 1);
        assert(spans[1].0 == begin_of(spans, 1));
    }
    assert(chunks =~= seq![(0usize, source.len() as usize)]);
}

/// The chunker gets the sizes of the options as they are, where they have no more than 32 bits.
pub proof fn law_chunker_gets_sizes(options: ContentDefinedChunkingOptions, source: Seq<u8>)
    requires
        options.min_size <= u32::MAX,
        options.avg_size <= u32::MAX,
        options.max_size <= u32::MAX,
    ensures
        options.chunks(source) == fastcdc_chunks(
            source,
            options.min_size as u32,
            options.avg_size as u32,
            options.max_size as u32,
        ),
        options.chunkable(source.len()) <==> {
            &&& 64 <= options.min_size <= 1_048_576
            &&& 256 <= options.avg_size <= 4_194_304
            &&& 1024 <= options.max_size <= 16_777_216
            &&& options.avg_size <= options.max_size || source.len() <= options.max_size
        },
{
}

/// Of a size that has more than 32 bits, the chunker gets the low ones.
pub proof fn law_chunker_gets_low_bits(
    options: ContentDefinedChunkingOptions,
    source: Seq<u8>,
    min_size: u32,
    avg_size: u32,
    max_size: u32,
)
    requires
        (options.min_size - min_size) % 0x1_0000_0000 == 0,
        (options.avg_size - avg_size) % 0x1_0000_0000 == 0,
        (options.max_size - max_size) % 0x1_0000_0000 == 0,
    ensures
        options.chunks(source) == fastcdc_chunks(source, min_size, avg_size, max_size),
        options.chunkable(source.len()) == chunker_takes(
            source.len(),
            min_size,
            avg_size,
            max_size,
        ),
{
    assert(low_u32(options.min_size) == min_size);
    assert(low_u32(options.avg_size) == avg_size);
    assert(low_u32(options.max_size) == max_size);
}

} // verus!
