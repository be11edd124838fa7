//! What to write, and how.

use vstd::prelude::*;
use vstd::string::*;

use crate::text::{decimal, push_decimal};

verus! {

/// The statistics to write
#[derive(Debug, Clone, Copy, PartialEq, Eq, Hash, Structural)]
pub struct StatisticsOptions {
    pub min_value: bool,
    pub max_value: bool,
    pub distinct_count: bool,
    pub null_count: bool,
}

impl Default for StatisticsOptions {
    fn default() -> (options: Self)
        ensures
            options == (StatisticsOptions {
                min_value: true,
                max_value: true,
                distinct_count: false,
                null_count: true,
            }),
    {
        Self { min_value: true, max_value: true, distinct_count: false, null_count: true }
    }
}

impl StatisticsOptions {
    /// Whether no statistic is asked for.
    pub open spec fn none_asked(self) -> bool {
        !self.min_value && !self.max_value && !self.distinct_count && !self.null_count
    }

    /// Whether every statistic is asked for.
    pub open spec fn all_asked(self) -> bool {
        self.min_value && self.max_value && self.distinct_count && self.null_count
    }

    /// No statistic at all.
    pub fn empty() -> (options: Self)
        ensures
            options.none_asked(),
            options == (StatisticsOptions {
                min_value: false,
                max_value: false,
                distinct_count: false,
                null_count: false,
            }),
    {
        Self { min_value: false, max_value: false, distinct_count: false, null_count: false }
    }

    /// Every statistic.
    pub fn full() -> (options: Self)
        ensures
            options.all_asked(),
            options == (StatisticsOptions {
                min_value: true,
                max_value: true,
                distinct_count: true,
                null_count: true,
            }),
    {
        Self { min_value: true, max_value: true, distinct_count: true, null_count: true }
    }

    pub fn is_empty(&self) -> (empty: bool)
        ensures
            empty == self.none_asked(),
            empty == !(self.min_value || self.max_value || self.distinct_count || self.null_count),
    {
        !(self.min_value || self.max_value || self.distinct_count || self.null_count)
    }

    pub fn is_full(&self) -> (full: bool)
        ensures
            full == self.all_asked(),
            full == (self.min_value && self.max_value && self.distinct_count && self.null_count),
    {
        self.min_value && self.max_value && self.distinct_count && self.null_count
    }
}

/// Options for content-defined chunking of Parquet pages.
///
/// When enabled, page boundaries are determined by content hashing rather than
/// fixed sizes, enabling efficient deduplication on content-addressable storage.
#[derive(Debug, Clone, Copy, PartialEq, Eq, Hash, Structural)]
pub struct ContentDefinedChunkingOptions {
    /// Minimum chunk size in bytes.
    pub min_size: usize,
    /// Average/target chunk size in bytes.
    pub avg_size: usize,
    /// Maximum chunk size in bytes.
    pub max_size: usize,
}

/// The text that says that a size is below its floor.
pub open spec fn floor_text(head: Seq<char>, size: nat, floor: nat) -> Seq<char> {
    head + decimal(size) + ") must be >= "@ + decimal(floor)
}

/// The text that says that a size is above another one.
pub open spec fn order_text(
    head: Seq<char>,
    size: nat,
    middle: Seq<char>,
    other: nat,
) -> Seq<char> {
    head + decimal(size) + middle + decimal(other) + ")"@
}

impl ContentDefinedChunkingOptions {
    /// Minimum allowed avg_size (a requirement of the chunker)
    pub const MIN_AVG_SIZE: usize = 256;

    /// Minimum allowed min_size (a requirement of the chunker)
    pub const MIN_MIN_SIZE: usize = 64;

    /// Whether the sizes are at least as large as the chunker asks, and in order.
    pub open spec fn is_valid(self) -> bool {
        Self::MIN_MIN_SIZE <= self.min_size && Self::MIN_AVG_SIZE <= self.avg_size && self.min_size
            <= self.avg_size <= self.max_size
    }

    /// What is wrong with the sizes, in words: the first rule that they break.
    pub open spec fn complaint(self) -> Seq<char> {
        if self.min_size < Self::MIN_MIN_SIZE {
            floor_text("min_size ("@, self.min_size as nat, Self::MIN_MIN_SIZE as nat)
        } else if self.avg_size < Self::MIN_AVG_SIZE {
            floor_text("avg_size ("@, self.avg_size as nat, Self::MIN_AVG_SIZE as nat)
        } else if self.min_size > self.avg_size {
            order_text(
                "min_size ("@,
                self.min_size as nat,
                ") must be <= avg_size ("@,
                self.avg_size as nat,
            )
        } else {
            order_text(
                "avg_size ("@,
                self.avg_size as nat,
                ") must be <= max_size ("@,
                self.max_size as nat,
            )
        }
    }

    /// Checks the sizes.
    pub fn validate(&self) -> (checked: Result<(), String>)
        ensures
            checked is Ok <==> self.is_valid(),
            checked is Ok <==> 64 <= self.min_size <= self.avg_size <= self.max_size && 256
                <= self.avg_size,
            checked matches Err(text) ==> text@ == self.complaint(),
    {
        if self.min_size < Self::MIN_MIN_SIZE {
            return Err(floor_message("min_size (", self.min_size, Self::MIN_MIN_SIZE));
        }
        if self.avg_size < Self::MIN_AVG_SIZE {
            return Err(floor_message("avg_size (", self.avg_size, Self::MIN_AVG_SIZE));
        }
        if self.min_size > self.avg_size {
            return Err(
                order_message(
                    "min_size (",
                    self.min_size,
                    ") must be <= avg_size (",
                    self.avg_size,
                ),
            );
        }
        if self.avg_size > self.max_size {
            return Err(
                order_message(
                    "avg_size (",
                    self.avg_size,
                    ") must be <= max_size (",
                    self.max_size,
                ),
            );
        }
        Ok(())
    }
}

fn floor_message(head: &str, size: usize, floor: usize) -> (text: String)
    ensures
        text@ == floor_text(head@, size as nat, floor as nat),
{
    let mut text: String = head.to_owned();
    push_decimal(&mut text, size);
    text.append(") must be >= ");
    push_decimal(&mut text, floor);
    text
}

fn order_message(head: &str, size: usize, middle: &str, other: usize) -> (text: String)
    ensures
        text@ == order_text(head@, size as nat, middle@, other as nat),
{
    let mut text: String = head.to_owned();
    push_decimal(&mut text, size);
    text.append(middle);
    push_decimal(&mut text, other);
    text.append(")");
    text
}

impl Default for ContentDefinedChunkingOptions {
    fn default() -> (options: Self)
        ensures
            options == (ContentDefinedChunkingOptions {
                min_size: 262144,
                avg_size: 524288,
                max_size: 1048576,
            }),
            options.is_valid(),
    {
        Self {
            min_size: 256 * 1024,  // 256 KiB
            avg_size: 512 * 1024,  // 512 KiB
            max_size: 1024 * 1024,  // 1 MiB
        }
    }
}

/// Options to encode an array
#[derive(Debug, Clone, Copy, PartialEq, Eq, Structural)]
pub enum EncodeNullability {
    Required,
    Optional,
}

impl EncodeNullability {
    pub fn new(is_optional: bool) -> (nullability: Self)
        ensures
            nullability == (if is_optional {
                EncodeNullability::Optional
            } else {
                EncodeNullability::Required
            }),
    {
        if is_optional {
            Self::Optional
        } else {
            Self::Required
        }
    }

    pub fn is_optional(self) -> (optional: bool)
        ensures
            optional == (self is Optional),
    {
        matches!(self, Self::Optional)
    }
}

/// The version of the pages and of the file.
#[derive(Debug, Clone, Copy, PartialEq, Eq, Hash, Structural)]
pub enum Version {
    V1,
    V2,
}

/// How the values of a page are written.
#[derive(Debug, Clone, Copy, PartialEq, Eq, Hash, Structural)]
pub enum Encoding {
    Plain,
    PlainDictionary,
    Rle,
    BitPacked,
    DeltaBinaryPacked,
    DeltaLengthByteArray,
    DeltaByteArray,
    RleDictionary,
    ByteStreamSplit,
}

/// The compression of a page, with its level where it has one.
#[derive(Debug, Clone, Copy, PartialEq, Eq, Hash, Structural)]
pub enum CompressionOptions {
    Uncompressed,
    Snappy,
    Gzip(Option<u8>),
    Brotli(Option<u32>),
    Zstd(Option<i32>),
    Lz4Raw,
}

/// Currently supported options to write to parquet
#[derive(Debug, Clone, Copy, PartialEq, Eq, Structural)]
pub struct WriteOptions {
    /// Whether to write statistics
    pub statistics: StatisticsOptions,
    /// The page and file version to use
    pub version: Version,
    /// The compression to apply to every page
    pub compression: CompressionOptions,
    /// The size to flush a page, defaults to 1024 * 1024 if None
    pub data_page_size: Option<usize>,
    /// Content-defined chunking options. When Some, uses CDC for page boundaries.
    /// When None, uses traditional fixed-size chunking.
    pub content_defined_chunking: Option<ContentDefinedChunkingOptions>,
}

impl WriteOptions {
    pub fn has_statistics(&self) -> (has: bool)
        ensures
            has == !self.statistics.none_asked(),
            has == (self.statistics.min_value || self.statistics.max_value
                || self.statistics.distinct_count || self.statistics.null_count),
    {
        !self.statistics.is_empty()
    }
}

} // verus!
