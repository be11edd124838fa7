use parquet_cdc::array::{ColumnArray, Values};
use parquet_cdc::datatype::DataType;
use parquet_cdc::float::{ceil_share, floor_quotient};
use parquet_cdc::images::get_cdc_byte_data_for_encoding;
use parquet_cdc::options::ContentDefinedChunkingOptions;
use parquet_cdc::rows::{
    average_row_fits, compute_cdc_row_iter, compute_cdc_row_ranges, compute_fixed_row_iter,
    divides, row_ranges_from_chunks,
};

const SMALL: ContentDefinedChunkingOptions =
    ContentDefinedChunkingOptions { min_size: 1024, avg_size: 4096, max_size: 8192 };

fn total(ranges: &[(usize, usize)]) -> usize {
    let mut next = 0;
    for (start, length) in ranges {
        assert_eq!(*start, next);
        assert!(*length > 0);
        next += length;
    }
    next
}

fn next_random(state: &mut u64) -> u64 {
    *state ^= *state << 13;
    *state ^= *state >> 7;
    *state ^= *state << 17;
    *state
}

fn words(count: usize) -> Vec<Vec<u8>> {
    let mut state = 88172645463325252u64;
    (0..count)
        .map(|_| {
            let len = (next_random(&mut state) % 40) as usize;
            (0..len).map(|_| next_random(&mut state) as u8).collect()
        })
        .collect()
}

#[test]
fn test_fixed_row_iter() {
    let iter: Vec<_> = compute_fixed_row_iter(100, 1000, 100);
    assert!(!iter.is_empty());
    // Verify all rows covered
    let total: usize = iter.iter().map(|(_, len)| len).sum();
    assert_eq!(total, 100);
}

#[test]
fn test_cdc_primitive_array() {
    // Need enough data to exceed min chunk size
    // 50000 i64 values = 400KB, enough for CDC with default settings
    let values: Vec<i64> = (0..50000).collect();
    let array =
        ColumnArray { dtype: &DataType::Int64, values: Values::Int64(values), validity: None };

    let cdc_opts = ContentDefinedChunkingOptions {
        min_size: 64 * 1024,  // 64 KB
        avg_size: 128 * 1024, // 128 KB
        max_size: 256 * 1024, // 256 KB
    };

    let iter: Vec<_> = compute_cdc_row_iter(&array, array.len(), array.len() * 8, cdc_opts);

    // Verify all rows covered
    let total: usize = iter.iter().map(|(_, len)| len).sum();
    assert_eq!(total, 50000);

    // Should have multiple chunks with 400KB data and 128KB avg
    assert!(iter.len() >= 2, "Expected multiple chunks, got {}", iter.len());

    let ranges = compute_cdc_row_ranges(&array, array.len(), 0, 1 << 20, cdc_opts);
    assert_eq!(iter, ranges);
}

#[test]
fn fixed_rows_of_known_size() {
    // ten bytes a row, and one to spare: nine rows in a page of a hundred bytes
    let ranges = compute_fixed_row_iter(100, 1000, 100);
    assert_eq!(ranges.len(), 12);
    assert_eq!(ranges[0], (0, 9));
    assert_eq!(ranges[10], (90, 9));
    assert_eq!(ranges[11], (99, 1));
    assert_eq!(total(&ranges), 100);
}

#[test]
fn fixed_rows_at_the_edges() {
    assert_eq!(compute_fixed_row_iter(0, 1000, 100), vec![]);
    assert_eq!(compute_fixed_row_iter(3, 1000, 0), vec![(0, 1), (1, 1), (2, 1)]);
    assert_eq!(compute_fixed_row_iter(3, 0, usize::MAX), vec![(0, 3)]);
    assert_eq!(compute_fixed_row_iter(6, 12, 9), vec![(0, 3), (3, 3)]);
    assert!(average_row_fits(0, usize::MAX));
    assert!(average_row_fits(2, usize::MAX));
    assert!(!average_row_fits(1, usize::MAX));
}

#[test]
fn quotient_is_that_of_doubles() {
    let mut state = 0x1234_5678_9ABC_DEF1u64;
    let mut samples: Vec<u64> = vec![0, 1, 2, 3, 7, 10, u64::MAX, u64::MAX - 1, 1 << 53];
    for shift in 0..64 {
        samples.push(next_random(&mut state) >> shift);
        samples.push((1u64 << shift) - 1);
        samples.push((1u64 << shift) + 1);
    }
    for num in &samples {
        for den in &samples {
            if *den > 0 {
                let expected = ((*num as f64) / (*den as f64)) as usize;
                assert_eq!(floor_quotient(*num, *den), expected, "{} / {}", num, den);
            }
        }
    }
}

#[test]
fn share_is_that_of_doubles() {
    let mut state = 0xDEAD_BEEF_CAFE_F00Du64;
    for round in 0..20_000u32 {
        let den = (next_random(&mut state) >> (round % 64)).max(1);
        let num = next_random(&mut state) % den + u64::from(round % 3 == 0);
        let num = num.min(den);
        let n = next_random(&mut state) >> (round % 61);
        let expected = ((num as f64 / den as f64) * n as f64).ceil() as usize;
        assert_eq!(ceil_share(num, den, n), expected, "{} / {} * {}", num, den, n);
    }
    assert_eq!(ceil_share(1, 3, 3), 1);
    assert_eq!(ceil_share(1, 3, 100), 34);
    assert_eq!(ceil_share(0, 3, 100), 0);
    assert_eq!(ceil_share(3, 3, 100), 100);
}

#[test]
fn rows_of_fixed_size_chunks() {
    // rows of eight bytes, chunks that end inside a row
    let ranges = row_ranges_from_chunks(&[(0, 1204), (1204, 1196), (2400, 1600)], 4000, Some(8), 500);
    assert_eq!(ranges, vec![(0, 150), (150, 150), (300, 200)]);
}

#[test]
fn rows_of_estimated_chunks() {
    let ranges = row_ranges_from_chunks(&[(0, 10), (10, 20)], 30, None, 1000);
    assert_eq!(ranges, vec![(0, 334), (334, 666)]);
}

#[test]
fn short_tails_are_merged() {
    let ranges = row_ranges_from_chunks(&[(0, 150), (150, 99)], 249, Some(1), 249);
    assert_eq!(ranges, vec![(0, 249)]);
    let ranges = row_ranges_from_chunks(&[(0, 150), (150, 100)], 250, Some(1), 250);
    assert_eq!(ranges, vec![(0, 150), (150, 100)]);
    // a single short page stays
    let ranges = row_ranges_from_chunks(&[(0, 5)], 5, Some(1), 5);
    assert_eq!(ranges, vec![(0, 5)]);
}

#[test]
fn rows_beyond_the_chunks_are_kept() {
    let ranges = row_ranges_from_chunks(&[(0, 400)], 400, Some(4), 300);
    assert_eq!(ranges, vec![(0, 100), (100, 200)]);
    assert_eq!(row_ranges_from_chunks(&[], 0, None, 300), vec![(0, 300)]);
    assert_eq!(row_ranges_from_chunks(&[], 0, None, 0), vec![]);
}

#[test]
fn small_columns_are_one_page() {
    let array = ColumnArray {
        dtype: &DataType::Int32,
        values: Values::Int32((0..100).collect()),
        validity: None,
    };
    assert!(divides(&array, 100, 400, SMALL));
    assert_eq!(compute_cdc_row_ranges(&array, 100, 400, 1000, SMALL), vec![(0, 100)]);
    assert_eq!(compute_cdc_row_ranges(&array, 0, 400, 1000, SMALL), vec![]);
}

#[test]
fn columns_without_bytes_have_pages_of_one_size() {
    let array = ColumnArray {
        dtype: &DataType::Boolean,
        values: Values::Boolean(vec![true; 5000]),
        validity: None,
    };
    // four bytes a row and one to spare: 2000 rows in a page of 10000 bytes
    assert_eq!(
        compute_cdc_row_ranges(&array, 5000, 20_000, 10_000, SMALL),
        vec![(0, 2000), (2000, 2000), (4000, 1000)]
    );
    // and 1638 rows in a page of the largest chunk
    assert_eq!(
        compute_cdc_row_iter(&array, 5000, 20_000, SMALL),
        vec![(0, 1638), (1638, 1638), (3276, 1638), (4914, 86)]
    );
    assert!(divides(&array, 5000, 20_000, SMALL));
    assert!(!divides(&array, 1, usize::MAX, SMALL));
}

#[test]
fn options_that_cannot_divide() {
    let bad = ContentDefinedChunkingOptions { min_size: 64, avg_size: 256, max_size: 512 };
    let array = ColumnArray {
        dtype: &DataType::Int32,
        values: Values::Int32((0..100).collect()),
        validity: None,
    };
    assert!(!divides(&array, 100, 400, bad));
    assert!(divides(&array, 0, 0, bad));
    let small = array.slice(0, 10);
    assert!(divides(&small, 10, 40, bad));
}

#[test]
fn strings_are_divided_by_content() {
    let items = words(4000);
    let array = ColumnArray {
        dtype: &DataType::Utf8View,
        values: Values::Utf8View(items.clone()),
        validity: None,
    };
    let ranges = compute_cdc_row_ranges(&array, 4000, 0, 1000, SMALL);
    assert!(ranges.len() >= 3);
    assert_eq!(total(&ranges), 4000);
    let other = ColumnArray {
        dtype: &DataType::LargeBinary,
        values: Values::LargeBinary(items),
        validity: Some(vec![true; 4000]),
    };
    assert_eq!(compute_cdc_row_ranges(&other, 4000, 99, 1000, SMALL), ranges);
}

#[test]
fn small_integers_divide_alike() {
    let mut state = 99u64;
    let bytes: Vec<u8> = (0..20_000).map(|_| next_random(&mut state) as u8).collect();
    let narrow = ColumnArray {
        dtype: &DataType::UInt8,
        values: Values::UInt8(bytes.clone()),
        validity: None,
    };
    let wide = ColumnArray {
        dtype: &DataType::Int32,
        values: Values::Int32(bytes.iter().map(|byte| i32::from(*byte)).collect()),
        validity: None,
    };
    let ranges = compute_cdc_row_ranges(&narrow, 20_000, 20_000, 1000, SMALL);
    assert!(ranges.len() >= 9);
    assert_eq!(total(&ranges), 20_000);
    assert_eq!(compute_cdc_row_ranges(&wide, 20_000, 80_000, 1000, SMALL), ranges);
}

fn preview(dtype: &DataType, values: Values, validity: Option<Vec<bool>>) -> (Option<Vec<u8>>, Option<usize>) {
    get_cdc_byte_data_for_encoding(&ColumnArray { dtype, values, validity })
}

#[test]
fn previews_of_integers() {
    let bytes = vec![255, 255, 255, 255, 2, 0, 0, 0];
    assert_eq!(preview(&DataType::Int8, Values::Int8(vec![-1, 2]), None), (Some(bytes.clone()), Some(4)));
    assert_eq!(preview(&DataType::Int16, Values::Int16(vec![-1, 2]), None), (Some(bytes.clone()), Some(4)));
    assert_eq!(preview(&DataType::Int32, Values::Int32(vec![-1, 2]), None), (Some(bytes.clone()), Some(4)));
    assert_eq!(preview(&DataType::UInt32, Values::UInt32(vec![u32::MAX, 2]), None), (Some(bytes), Some(4)));
    assert_eq!(preview(&DataType::UInt8, Values::UInt8(vec![255]), None), (Some(vec![255, 0, 0, 0]), Some(4)));
    assert_eq!(
        preview(&DataType::UInt16, Values::UInt16(vec![0x1234]), None),
        (Some(vec![0x34, 0x12, 0, 0]), Some(4))
    );
    assert_eq!(
        preview(&DataType::Int64, Values::Int64(vec![-2]), None),
        (Some(vec![254, 255, 255, 255, 255, 255, 255, 255]), Some(8))
    );
    assert_eq!(
        preview(&DataType::UInt64, Values::UInt64(vec![0x0102_0304_0506_0708]), None),
        (Some(vec![8, 7, 6, 5, 4, 3, 2, 1]), Some(8))
    );
}

#[test]
fn previews_of_sixteen_byte_integers() {
    assert_eq!(
        preview(&DataType::Int128, Values::Int128(vec![1, -2]), None),
        (Some([1i128.to_le_bytes(), (-2i128).to_le_bytes()].concat()), Some(16))
    );
    assert_eq!(
        preview(&DataType::Decimal(20, 2), Values::Int128(vec![1]), None),
        (Some(1i128.to_le_bytes().to_vec()), Some(16))
    );
    assert_eq!(
        preview(&DataType::UInt128, Values::UInt128(vec![u128::MAX - 1]), None),
        (Some((u128::MAX - 1).to_le_bytes().to_vec()), Some(16))
    );
}

#[test]
fn previews_of_floats() {
    let single = 1.5f32;
    let double = -2.25f64;
    assert_eq!(
        preview(&DataType::Float32, Values::Float32(vec![single.to_bits()]), None),
        (Some(single.to_ne_bytes().to_vec()), Some(4))
    );
    assert_eq!(
        preview(&DataType::Float64, Values::Float64(vec![double.to_bits()]), None),
        (Some(double.to_ne_bytes().to_vec()), Some(8))
    );
}

#[test]
fn previews_of_strings() {
    let items = vec![b"ab".to_vec(), b"lost".to_vec(), vec![]];
    let validity = Some(vec![true, false, true]);
    let bytes = vec![2, 0, 0, 0, b'a', b'b', 0, 0, 0, 0];
    assert_eq!(
        preview(&DataType::BinaryView, Values::BinaryView(items.clone()), validity.clone()),
        (Some(bytes.clone()), None)
    );
    assert_eq!(
        preview(&DataType::LargeUtf8, Values::LargeUtf8(items.clone()), validity.clone()),
        (Some(bytes), None)
    );
    // short offsets have no preview
    assert_eq!(preview(&DataType::Binary, Values::Binary(items), validity), (None, None));
}

#[test]
fn columns_without_preview() {
    assert_eq!(preview(&DataType::Float16, Values::Float16(vec![1]), None), (None, None));
    assert_eq!(preview(&DataType::Null, Values::Opaque(3), None), (None, None));
}
