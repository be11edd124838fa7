use parquet_cdc::options::{
    CompressionOptions, ContentDefinedChunkingOptions, EncodeNullability, StatisticsOptions,
    Version, WriteOptions,
};

fn sizes(min_size: usize, avg_size: usize, max_size: usize) -> ContentDefinedChunkingOptions {
    ContentDefinedChunkingOptions { min_size, avg_size, max_size }
}

#[test]
fn test_cdc_options_default() {
    let opts = ContentDefinedChunkingOptions::default();
    assert_eq!(opts.min_size, 256 * 1024);
    assert_eq!(opts.avg_size, 512 * 1024);
    assert_eq!(opts.max_size, 1024 * 1024);
}

#[test]
fn limits_of_the_sizes() {
    assert_eq!(ContentDefinedChunkingOptions::MIN_AVG_SIZE, 256);
    assert_eq!(ContentDefinedChunkingOptions::MIN_MIN_SIZE, 64);
}

#[test]
fn default_options_are_valid() {
    assert_eq!(ContentDefinedChunkingOptions::default().validate(), Ok(()));
    assert_eq!(sizes(64, 256, 256).validate(), Ok(()));
    assert_eq!(sizes(256, 256, 256).validate(), Ok(()));
}

#[test]
fn too_small_minimum_is_refused() {
    assert_eq!(sizes(63, 256, 1024).validate(), Err("min_size (63) must be >= 64".to_string()));
    assert_eq!(sizes(0, 0, 0).validate(), Err("min_size (0) must be >= 64".to_string()));
}

#[test]
fn too_small_average_is_refused() {
    assert_eq!(sizes(64, 255, 1024).validate(), Err("avg_size (255) must be >= 256".to_string()));
}

#[test]
fn minimum_above_average_is_refused() {
    assert_eq!(
        sizes(300, 256, 1024).validate(),
        Err("min_size (300) must be <= avg_size (256)".to_string())
    );
}

#[test]
fn average_above_maximum_is_refused() {
    assert_eq!(
        sizes(64, 2048, 1024).validate(),
        Err("avg_size (2048) must be <= max_size (1024)".to_string())
    );
    assert_eq!(
        sizes(64, usize::MAX, 1024).validate(),
        Err(format!("avg_size ({}) must be <= max_size (1024)", usize::MAX))
    );
}

#[test]
fn sizes_that_can_divide_bytes() {
    assert!(ContentDefinedChunkingOptions::default().can_chunk(usize::MAX));
    assert!(sizes(64, 256, 1024).can_chunk(10));
    // valid, but below the least maximum of the chunker
    assert!(!sizes(64, 256, 1023).can_chunk(10));
    assert!(!sizes(63, 256, 1024).can_chunk(10));
    assert!(!sizes(64, 255, 1024).can_chunk(10));
    assert!(!sizes(1_048_577, 4_194_304, 16_777_216).can_chunk(10));
    assert!(!sizes(64, 4_194_305, 16_777_216).can_chunk(10));
    assert!(!sizes(64, 256, 16_777_217).can_chunk(10));
    assert!(sizes(64, 2048, 1024).can_chunk(1024));
    assert!(!sizes(64, 2048, 1024).can_chunk(1025));
}

#[test]
fn statistics_by_default() {
    let stats = StatisticsOptions::default();
    assert!(stats.min_value);
    assert!(stats.max_value);
    assert!(!stats.distinct_count);
    assert!(stats.null_count);
    assert!(!stats.is_empty());
    assert!(!stats.is_full());
}

#[test]
fn empty_and_full_statistics() {
    assert!(StatisticsOptions::empty().is_empty());
    assert!(!StatisticsOptions::empty().is_full());
    assert!(StatisticsOptions::full().is_full());
    assert!(!StatisticsOptions::full().is_empty());
    let one = StatisticsOptions { distinct_count: true, ..StatisticsOptions::empty() };
    assert!(!one.is_empty());
    assert!(!one.is_full());
}

#[test]
fn options_with_and_without_statistics() {
    let mut options = WriteOptions {
        statistics: StatisticsOptions::empty(),
        version: Version::V1,
        compression: CompressionOptions::Uncompressed,
        data_page_size: None,
        content_defined_chunking: None,
    };
    assert!(!options.has_statistics());
    options.statistics.null_count = true;
    assert!(options.has_statistics());
}

#[test]
fn nullability() {
    assert!(EncodeNullability::new(true).is_optional());
    assert!(!EncodeNullability::new(false).is_optional());
    assert_eq!(EncodeNullability::new(true), EncodeNullability::Optional);
    assert_eq!(EncodeNullability::new(false), EncodeNullability::Required);
}
