use parquet_cdc::cdc::{
    create_data_page, split_at_chunk_boundaries, split_encoded_to_page_data, CdcPageData,
    EncodedColumnData, PageValueRange, ValueBoundaryTracker,
};
use parquet_cdc::options::{
    CompressionOptions, ContentDefinedChunkingOptions, Encoding, StatisticsOptions, Version,
    WriteOptions,
};
use parquet_cdc::parquet::{
    DataPageHeader, FieldInfo, ParquetPhysicalType, ParquetPrimitiveType, ParquetStatistics,
    Repetition,
};

fn options(version: Version) -> WriteOptions {
    WriteOptions {
        statistics: StatisticsOptions::default(),
        version,
        compression: CompressionOptions::Uncompressed,
        data_page_size: None,
        content_defined_chunking: None,
    }
}

fn column_type() -> ParquetPrimitiveType {
    ParquetPrimitiveType {
        field_info: FieldInfo {
            name: "c".to_string(),
            repetition: Repetition::Optional,
            id: None,
        },
        physical_type: ParquetPhysicalType::Int32,
    }
}

fn tracker(offsets: &[usize]) -> ValueBoundaryTracker {
    let mut tracker = ValueBoundaryTracker::default();
    for offset in offsets {
        tracker.record(*offset);
    }
    tracker
}

fn encoded(data: Vec<u8>, value_boundaries: ValueBoundaryTracker) -> EncodedColumnData {
    EncodedColumnData {
        data,
        num_values: value_boundaries.num_values(),
        encoding: Encoding::Plain,
        def_levels: Some(vec![1, 1, 0]),
        rep_levels: None,
        value_boundaries,
    }
}

fn noise(len: usize) -> Vec<u8> {
    let mut state: u64 = 0x9E37_79B9_7F4A_7C15;
    let mut bytes = Vec::new();
    for _ in 0..len {
        state ^= state << 13;
        state ^= state >> 7;
        state ^= state << 17;
        bytes.push((state >> 32) as u8);
    }
    bytes
}

#[test]
fn new_tracker_starts_at_zero() {
    let tracker = ValueBoundaryTracker::new();
    assert_eq!(tracker.num_values(), 0);
    assert_eq!(tracker.byte_at_value(0), 0);
    assert_eq!(tracker.value_at_byte(0), 0);
    assert_eq!(tracker.value_at_byte(7), 0);
}

#[test]
fn default_tracker_knows_no_position() {
    let tracker = ValueBoundaryTracker::default();
    assert_eq!(tracker.num_values(), 0);
    assert_eq!(tracker.byte_at_value(0), 0);
    assert_eq!(tracker.value_at_byte(3), 0);
    assert_eq!(tracker.clone(), tracker);
}

#[test]
fn fixed_size_tracker() {
    let tracker = ValueBoundaryTracker::for_fixed_size(4, 8);
    assert_eq!(tracker.num_values(), 4);
    assert_eq!(tracker.byte_at_value(0), 0);
    assert_eq!(tracker.byte_at_value(3), 24);
    assert_eq!(tracker.byte_at_value(4), 32);
    assert_eq!(tracker.byte_at_value(5), 0);
    assert_eq!(tracker.value_at_byte(16), 2);
    assert_eq!(tracker.value_at_byte(17), 3);
    assert_eq!(tracker.value_at_byte(31), 4);
    assert_eq!(tracker.value_at_byte(32), 4);
    assert_eq!(tracker.value_at_byte(1000), 4);
}

#[test]
fn lookup_finds_every_value() {
    let tracker = tracker(&[0, 3, 4, 9, 20, 21]);
    for value in 0..6 {
        assert_eq!(tracker.value_at_byte(tracker.byte_at_value(value)), value);
    }
    assert_eq!(tracker.value_at_byte(1), 1);
    assert_eq!(tracker.value_at_byte(10), 4);
}

#[test]
fn lookup_agrees_with_binary_search() {
    let offsets: Vec<usize> = vec![2, 5, 5, 5, 8, 13, 13, 21];
    let tracker = tracker(&offsets);
    for byte in 0..30 {
        let expected = match offsets.binary_search(&byte) {
            Ok(_) => offsets.iter().rposition(|offset| *offset == byte).unwrap(),
            Err(index) => index.min(offsets.len() - 1),
        };
        assert_eq!(tracker.value_at_byte(byte), expected);
    }
}

#[test]
fn recorded_positions_are_kept() {
    let mut tracker = ValueBoundaryTracker::new();
    tracker.record(5);
    tracker.record(5);
    tracker.record(11);
    assert_eq!(tracker.num_values(), 3);
    assert_eq!(tracker.byte_at_value(1), 5);
    assert_eq!(tracker.byte_at_value(2), 5);
    assert_eq!(tracker.byte_at_value(3), 11);
    assert_eq!(tracker.clone(), tracker);
}

#[test]
fn pages_end_at_values() {
    let column = encoded((0..20).collect(), ValueBoundaryTracker::for_fixed_size(5, 4));
    // the first chunk ends inside the second value, the second one inside the fourth
    let pages = split_at_chunk_boundaries(&column, &[(0, 6), (6, 7), (13, 7)]);
    assert_eq!(pages.len(), 3);
    assert_eq!(pages[0].encoded_data, (0..8).collect::<Vec<u8>>());
    assert_eq!(pages[0].value_range, PageValueRange { start_value: 0, num_values: 2 });
    assert_eq!(pages[1].encoded_data, (8..16).collect::<Vec<u8>>());
    assert_eq!(pages[1].value_range, PageValueRange { start_value: 2, num_values: 2 });
    assert_eq!(pages[2].encoded_data, (16..20).collect::<Vec<u8>>());
    assert_eq!(pages[2].value_range, PageValueRange { start_value: 4, num_values: 1 });
    for page in &pages {
        assert_eq!(page.def_levels, Some(vec![1, 1, 0]));
        assert_eq!(page.rep_levels, None);
    }
}

#[test]
fn chunks_within_one_value_make_one_page() {
    let column = encoded((0..20).collect(), tracker(&[0, 18, 20]));
    let pages = split_at_chunk_boundaries(&column, &[(0, 5), (5, 5), (10, 10)]);
    assert_eq!(pages.len(), 2);
    assert_eq!(pages[0].value_range, PageValueRange { start_value: 0, num_values: 1 });
    assert_eq!(pages[0].encoded_data.len(), 18);
    assert_eq!(pages[1].value_range, PageValueRange { start_value: 1, num_values: 1 });
    assert_eq!(pages[1].encoded_data, vec![18, 19]);
}

#[test]
fn without_chunks_the_rest_is_one_page() {
    let column = encoded((0..10).collect(), tracker(&[2, 4, 10]));
    let pages = split_at_chunk_boundaries(&column, &[]);
    assert_eq!(pages.len(), 1);
    assert_eq!(pages[0].encoded_data, (2..10).collect::<Vec<u8>>());
    assert_eq!(pages[0].value_range, PageValueRange { start_value: 0, num_values: 2 });
}

#[test]
fn empty_column_is_one_page() {
    let column = EncodedColumnData {
        data: vec![],
        num_values: 7,
        encoding: Encoding::Plain,
        def_levels: Some(vec![0; 7]),
        rep_levels: Some(vec![3]),
        value_boundaries: tracker(&[0, 0]),
    };
    let pages = split_encoded_to_page_data(column, ContentDefinedChunkingOptions::default());
    assert_eq!(pages.len(), 1);
    assert_eq!(pages[0].encoded_data, Vec::<u8>::new());
    assert_eq!(pages[0].def_levels, Some(vec![0; 7]));
    assert_eq!(pages[0].rep_levels, Some(vec![3]));
    assert_eq!(pages[0].value_range, PageValueRange { start_value: 0, num_values: 7 });
}

#[test]
fn splitting_by_content_loses_nothing() {
    let data = noise(60_000);
    let cdc = ContentDefinedChunkingOptions { min_size: 1024, avg_size: 4096, max_size: 8192 };
    let column = encoded(data.clone(), ValueBoundaryTracker::for_fixed_size(7_500, 8));
    let pages = split_encoded_to_page_data(column, cdc);
    assert!(pages.len() >= 7);
    let mut joined = Vec::new();
    let mut next = 0;
    for page in &pages {
        assert_eq!(page.value_range.start_value, next);
        assert!(page.value_range.num_values > 0);
        assert_eq!(page.encoded_data.len(), 8 * page.value_range.num_values);
        next += page.value_range.num_values;
        joined.extend_from_slice(&page.encoded_data);
    }
    assert_eq!(next, 7_500);
    assert_eq!(joined, data);
}

#[test]
fn pages_follow_the_chunker() {
    let data = noise(60_000);
    let cdc = ContentDefinedChunkingOptions { min_size: 1024, avg_size: 4096, max_size: 8192 };
    let column = encoded(data.clone(), ValueBoundaryTracker::for_fixed_size(60_000, 1));
    let pages = split_encoded_to_page_data(column, cdc);
    let chunks: Vec<(usize, usize)> = fastcdc::v2020::FastCDC::new(&data, 1024, 4096, 8192)
        .map(|chunk| (chunk.offset, chunk.length))
        .collect();
    let ranges: Vec<(usize, usize)> = pages
        .iter()
        .map(|page| (page.value_range.start_value, page.value_range.num_values))
        .collect();
    assert_eq!(ranges, chunks);
}

#[test]
fn chunks_keep_to_the_sizes() {
    let data = noise(200_000);
    for (min_size, avg_size, max_size) in
        [(64, 256, 1024), (65, 256, 1024), (1024, 4096, 8192), (255, 2048, 2048), (500, 256, 1024)]
    {
        let cdc = ContentDefinedChunkingOptions { min_size, avg_size, max_size };
        let chunks = cdc.chunk(&data);
        let mut next = 0;
        for (index, (offset, length)) in chunks.iter().enumerate() {
            assert_eq!(*offset, next);
            assert!(*length <= max_size);
            assert!(*length >= min_size - min_size % 2 || index == chunks.len() - 1);
            next += length;
        }
        assert_eq!(next, data.len());
    }
    assert_eq!(ContentDefinedChunkingOptions::default().chunk(&[]), vec![]);
    assert_eq!(ContentDefinedChunkingOptions::default().chunk(&data), vec![(0, 200_000)]);
}

#[test]
fn identical_content_splits_alike() {
    let data = noise(30_000);
    let cdc = ContentDefinedChunkingOptions { min_size: 64, avg_size: 256, max_size: 1024 };
    let one = encoded(data.clone(), ValueBoundaryTracker::for_fixed_size(3_000, 10));
    let mut other = encoded(data, ValueBoundaryTracker::for_fixed_size(3_000, 10));
    other.encoding = Encoding::DeltaBinaryPacked;
    assert_eq!(split_encoded_to_page_data(one, cdc), split_encoded_to_page_data(other, cdc));
}

#[test]
fn levels_do_not_move_boundaries() {
    let data = noise(30_000);
    let cdc = ContentDefinedChunkingOptions { min_size: 64, avg_size: 256, max_size: 1024 };
    let one = encoded(data.clone(), ValueBoundaryTracker::for_fixed_size(3_000, 10));
    let mut other = encoded(data, ValueBoundaryTracker::for_fixed_size(3_000, 10));
    other.def_levels = None;
    other.rep_levels = Some(vec![7]);
    let one = split_encoded_to_page_data(one, cdc);
    let other = split_encoded_to_page_data(other, cdc);
    assert_eq!(one.len(), other.len());
    for (page, like) in one.iter().zip(&other) {
        assert_eq!(page.encoded_data, like.encoded_data);
        assert_eq!(page.value_range, like.value_range);
        assert_eq!(like.rep_levels, Some(vec![7]));
    }
}

#[test]
fn few_bytes_are_one_page() {
    let cdc = ContentDefinedChunkingOptions { min_size: 64, avg_size: 256, max_size: 1024 };
    let column = encoded(noise(64), ValueBoundaryTracker::for_fixed_size(16, 4));
    let pages = split_encoded_to_page_data(column, cdc);
    assert_eq!(pages.len(), 1);
    assert_eq!(pages[0].encoded_data, noise(64));
    assert_eq!(pages[0].value_range, PageValueRange { start_value: 0, num_values: 16 });
}

#[test]
fn chunker_sizes_are_cut_to_32_bits() {
    let data = noise(20_000);
    let cdc = ContentDefinedChunkingOptions { min_size: 64, avg_size: 256, max_size: 1024 };
    let wide = ContentDefinedChunkingOptions {
        min_size: 64 + (1usize << 32),
        avg_size: 256 + (1usize << 32),
        max_size: 1024 + (1usize << 32),
    };
    assert!(wide.can_chunk(data.len()));
    let one = encoded(data.clone(), ValueBoundaryTracker::for_fixed_size(20_000, 1));
    let other = encoded(data, ValueBoundaryTracker::for_fixed_size(20_000, 1));
    assert_eq!(split_encoded_to_page_data(one, cdc), split_encoded_to_page_data(other, wide));
}

fn page_data() -> CdcPageData {
    CdcPageData {
        encoded_data: vec![7, 8, 9],
        def_levels: Some(vec![1, 0]),
        rep_levels: Some(vec![4]),
        value_range: PageValueRange { start_value: 5, num_values: 2 },
    }
}

#[test]
fn data_page_of_the_first_version() {
    let statistics = ParquetStatistics {
        null_count: Some(1),
        distinct_count: None,
        min_value: Some(vec![1]),
        max_value: None,
    };
    let page = create_data_page(
        page_data(),
        Encoding::Plain,
        column_type(),
        options(Version::V1),
        Some(statistics),
    )
    .unwrap();
    assert_eq!(page.buffer, vec![4, 1, 0, 7, 8, 9]);
    assert_eq!(page.num_rows, 2);
    assert_eq!(page.num_values(), 2);
    assert_eq!(page.descriptor.primitive_type, column_type());
    assert_eq!(page.descriptor.max_def_level, 1);
    assert_eq!(page.descriptor.max_rep_level, 1);
    match page.header {
        DataPageHeader::V1(header) => {
            assert_eq!(header.num_values, 2);
            assert_eq!(header.encoding, Encoding::Plain);
            assert_eq!(header.definition_level_encoding, Encoding::Rle);
            assert_eq!(header.repetition_level_encoding, Encoding::Rle);
            assert_eq!(header.statistics.unwrap().null_count, Some(1));
        }
        DataPageHeader::V2(_) => panic!("wrong version"),
    }
}

#[test]
fn data_page_of_the_second_version() {
    let mut data = page_data();
    data.rep_levels = None;
    let page = create_data_page(
        data,
        Encoding::DeltaByteArray,
        column_type(),
        options(Version::V2),
        None,
    )
    .unwrap();
    assert_eq!(page.buffer, vec![1, 0, 7, 8, 9]);
    assert_eq!(page.descriptor.max_def_level, 1);
    assert_eq!(page.descriptor.max_rep_level, 0);
    match page.header {
        DataPageHeader::V2(header) => {
            assert_eq!(header.num_values, 2);
            assert_eq!(header.encoding, Encoding::DeltaByteArray);
            assert_eq!(header.num_nulls, 0);
            assert_eq!(header.num_rows, 2);
            assert_eq!(header.definition_levels_byte_length, 2);
            assert_eq!(header.repetition_levels_byte_length, 0);
            assert_eq!(header.is_compressed, Some(false));
            assert_eq!(header.statistics, None);
        }
        DataPageHeader::V1(_) => panic!("wrong version"),
    }
}

#[test]
fn header_counts_are_cut_to_32_bits() {
    let mut data = page_data();
    data.value_range.num_values = 0x1_8000_0001;
    let page =
        create_data_page(data, Encoding::Plain, column_type(), options(Version::V1), None).unwrap();
    assert_eq!(page.num_rows, 0x1_8000_0001);
    match page.header {
        DataPageHeader::V1(header) => assert_eq!(header.num_values, 0x1_8000_0001u64 as i32),
        DataPageHeader::V2(_) => panic!("wrong version"),
    }
}
