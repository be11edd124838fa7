use parquet_cdc::array::{ColumnArray, Values};
use parquet_cdc::cdc::{split_encoded_to_page_data, EncodedColumnData};
use parquet_cdc::columns::FieldWriteOptions;
use parquet_cdc::datatype::PrimitiveType::{
    DaysMs, Float16, Float32, Float64, Int128, Int16, Int256, Int32, Int64, Int8, MonthDayMillis,
    MonthDayNano, UInt128, UInt16, UInt32, UInt64, UInt8,
};
use parquet_cdc::datatype::{DataType, IntegerType, PrimitiveType};
use parquet_cdc::encode::{
    encode_array_for_cdc, encode_binary_for_cdc, encode_binview_for_cdc, encode_primitive_for_cdc,
    encode_validity_as_def_levels, wrap_page, EncodeError,
};
use parquet_cdc::error::WriteError;
use parquet_cdc::images::primitive_element_size;
use parquet_cdc::levels::encode_levels;
use parquet_cdc::nested::{is_column, ListNested, Nested, PrimitiveNested};
use parquet_cdc::options::{
    CompressionOptions, ContentDefinedChunkingOptions, Encoding, StatisticsOptions, Version,
    WriteOptions,
};
use parquet_cdc::pages::{PageRequest, PageWriter};
use parquet_cdc::parquet::{
    DataPage, DataPageHeader, DataPageHeaderV1, Descriptor, FieldInfo, Page, ParquetPhysicalType,
    ParquetPrimitiveType, Repetition,
};
use parquet_cdc::plan::{array_to_pages, PagePlan, PageTask};
use parquet_cdc::rows::{compute_cdc_row_ranges, divides};

fn options() -> WriteOptions {
    WriteOptions {
        statistics: StatisticsOptions::default(),
        version: Version::V1,
        compression: CompressionOptions::Uncompressed,
        data_page_size: Some(100),
        content_defined_chunking: None,
    }
}

fn column_type() -> ParquetPrimitiveType {
    ParquetPrimitiveType {
        field_info: FieldInfo {
            name: "c".to_string(),
            repetition: Repetition::Optional,
            id: None,
        },
        physical_type: ParquetPhysicalType::Int32,
    }
}

fn leaf(length: usize) -> Nested {
    Nested::Primitive(PrimitiveNested { is_optional: false, validity: None, length })
}

fn ints(values: Vec<i32>) -> ColumnArray<'static> {
    ColumnArray { dtype: &DataType::Int32, values: Values::Int32(values), validity: None }
}

fn no_attempt() -> Option<()> {
    panic!("no dictionary is tried")
}

fn pages<R>(plan: PagePlan<'_, R>) -> Vec<PageTask<'_>> {
    match plan {
        PagePlan::Pages(tasks) => tasks,
        _ => panic!("no pages"),
    }
}

fn joined(tasks: &[PageTask<'_>]) -> Vec<i32> {
    let mut joined = Vec::new();
    for task in tasks {
        match &task.array.values {
            Values::Int32(values) => joined.extend_from_slice(values),
            other => panic!("{:?}", other),
        }
    }
    joined
}

#[test]
fn pages_of_one_size() {
    let type_ = column_type();
    let array = ints((0..50).collect());
    let nested = [leaf(50)];
    assert!(is_column(&array, &nested));
    let field = FieldWriteOptions::default_with_encoding(Encoding::Plain);
    // four bytes a row and one to spare: twenty rows in a page of a hundred bytes
    let plan = array_to_pages(&array, &type_, &nested, options(), &field, 200, no_attempt);
    let tasks = pages(plan);
    let rows: Vec<usize> = tasks.iter().map(|task| task.nested[0].len()).collect();
    assert_eq!(rows, vec![20, 20, 10]);
    assert_eq!(joined(&tasks), (0..50).collect::<Vec<i32>>());
    for task in &tasks {
        let page = task.page.as_ref().unwrap();
        assert_eq!(page.writer, PageWriter::Integer(PrimitiveType::Int32, PrimitiveType::Int32));
        assert_eq!(page.encoding, Some(Encoding::Plain));
    }
}

#[test]
fn default_and_largest_page_size() {
    let type_ = column_type();
    let array = ints((0..1000).collect());
    let nested = [leaf(1000)];
    let field = FieldWriteOptions::default_with_encoding(Encoding::Plain);
    let mut opts = options();
    opts.data_page_size = None;
    // a kilobyte and one byte a row: 1023 rows in a page of a megabyte
    let plan =
        array_to_pages(&array, &type_, &nested, opts, &field, 1_024_000, no_attempt);
    assert_eq!(pages(plan).len(), 1);
    // 2 GiB in two thousand rows: no page is above 2^31 - 2^25 bytes
    opts.data_page_size = Some(usize::MAX);
    let plan =
        array_to_pages(&array, &type_, &nested, opts, &field, 1 << 31, no_attempt);
    let rows: Vec<usize> = pages(plan).iter().map(|task| task.nested[0].len()).collect();
    assert_eq!(rows, vec![984, 16]);
}

#[test]
fn dictionary_columns_have_their_own_writer() {
    let type_ = column_type();
    let dtype = DataType::Dictionary(IntegerType::UInt16, Box::new(DataType::Utf8View), false);
    let array = ColumnArray { dtype: &dtype, values: Values::Opaque(3), validity: None };
    let field = FieldWriteOptions::default_with_encoding(Encoding::RleDictionary);
    let plan =
        array_to_pages(&array, &type_, &[leaf(3)], options(), &field, 10, no_attempt);
    assert_eq!(plan, PagePlan::Dictionary(IntegerType::UInt16));
}

#[test]
fn dictionaries_are_tried() {
    let type_ = column_type();
    let array = ints((0..3).collect());
    let field = FieldWriteOptions::default_with_encoding(Encoding::RleDictionary);
    let plan =
        array_to_pages(&array, &type_, &[leaf(3)], options(), &field, 12, || Some(5u8));
    assert_eq!(plan, PagePlan::Attempted(5));
    let plan = array_to_pages(&array, &type_, &[leaf(3)], options(), &field, 12, || {
        None::<u8>
    });
    let tasks = pages(plan);
    assert_eq!(tasks.len(), 1);
    assert_eq!(tasks[0].page.as_ref().unwrap().encoding, Some(Encoding::Plain));
}

#[test]
fn nested_columns_try_no_dictionary() {
    let type_ = column_type();
    let array = ints((0..4).collect());
    let nested = [
        Nested::List(ListNested { is_optional: false, offsets: vec![0, 1, 4], validity: None }),
        leaf(4),
    ];
    let field = FieldWriteOptions::default_with_encoding(Encoding::RleDictionary);
    let plan = array_to_pages(&array, &type_, &nested, options(), &field, 16, no_attempt);
    let tasks = pages(plan);
    assert_eq!(tasks.len(), 1);
    assert_eq!(tasks[0].nested[0].len(), 2);
    assert_eq!(
        tasks[0].page.as_ref().unwrap().writer,
        PageWriter::NestedPrimitive(PrimitiveType::Int32, PrimitiveType::Int32)
    );
}

#[test]
fn pages_by_content() {
    let type_ = column_type();
    let mut state = 7u32;
    let values: Vec<i32> = (0..20_000)
        .map(|_| {
            state = state.wrapping_mul(1_664_525).wrapping_add(1_013_904_223);
            (state >> 8) as i32
        })
        .collect();
    let array = ints(values.clone());
    let nested = [leaf(20_000)];
    let cdc = ContentDefinedChunkingOptions { min_size: 1024, avg_size: 4096, max_size: 8192 };
    assert!(divides(&array, 20_000, 80_000, cdc));
    let opts = WriteOptions { content_defined_chunking: Some(cdc), ..options() };
    let field = FieldWriteOptions::default_with_encoding(Encoding::Plain);
    let plan = array_to_pages(&array, &type_, &nested, opts, &field, 80_000, no_attempt);
    let tasks = pages(plan);
    let ranges = compute_cdc_row_ranges(&array, 20_000, 80_000, 100, cdc);
    assert!(ranges.len() >= 9);
    let rows: Vec<usize> = tasks.iter().map(|task| task.nested[0].len()).collect();
    assert_eq!(rows, ranges.iter().map(|range| range.1).collect::<Vec<usize>>());
    assert_eq!(joined(&tasks), values);
}

#[test]
fn pages_of_one_size_where_there_is_no_content() {
    let type_ = column_type();
    let array = ColumnArray {
        dtype: &DataType::Boolean,
        values: Values::Boolean(vec![true; 50]),
        validity: None,
    };
    let opts = WriteOptions {
        content_defined_chunking: Some(ContentDefinedChunkingOptions::default()),
        ..options()
    };
    let field = FieldWriteOptions::default_with_encoding(Encoding::Rle);
    let plan =
        array_to_pages(&array, &type_, &[leaf(50)], opts, &field, 200, no_attempt);
    let rows: Vec<usize> = pages(plan).iter().map(|task| task.nested[0].len()).collect();
    assert_eq!(rows, vec![20, 20, 10]);
}

#[test]
fn no_rows_make_no_pages() {
    let type_ = column_type();
    let array = ints(vec![]);
    let nested = [leaf(0)];
    let field = FieldWriteOptions::default_with_encoding(Encoding::Plain);
    let cdc = WriteOptions {
        content_defined_chunking: Some(ContentDefinedChunkingOptions::default()),
        ..options()
    };
    for opts in [options(), cdc] {
        let plan = array_to_pages(&array, &type_, &nested, opts, &field, 0, no_attempt);
        assert_eq!(pages(plan), vec![]);
    }
}

#[test]
fn errors_are_those_of_the_pages() {
    let type_ = column_type();
    let array =
        ColumnArray { dtype: &DataType::Utf8, values: Values::Utf8(vec![vec![1]]), validity: None };
    let field = FieldWriteOptions::default_with_encoding(Encoding::Plain);
    let plan =
        array_to_pages(&array, &type_, &[leaf(1)], options(), &field, 1, no_attempt);
    assert_eq!(pages(plan)[0].page, Err(WriteError::UnsupportedType(&DataType::Utf8)));
}

#[test]
fn element_sizes() {
    let size = |types: &[PrimitiveType]| -> Vec<usize> {
        types.iter().map(|primitive| primitive_element_size(*primitive)).collect()
    };
    assert_eq!(size(&[Int8, UInt8]), vec![1, 1]);
    assert_eq!(size(&[Int16, UInt16, Float16]), vec![2, 2, 2]);
    assert_eq!(size(&[Int32, UInt32, Float32]), vec![4, 4, 4]);
    assert_eq!(
        size(&[Int64, UInt64, Float64, DaysMs, MonthDayMillis]),
        vec![8, 8, 8, 8, 8]
    );
    assert_eq!(size(&[Int128, UInt128, MonthDayNano]), vec![16, 16, 16]);
    assert_eq!(size(&[Int256]), vec![32]);
}

#[test]
fn numbers_are_encoded_as_they_lie_in_memory() {
    let array = ColumnArray {
        dtype: &DataType::Int16,
        values: Values::Int16(vec![-2, 0x0102]),
        validity: None,
    };
    let (bytes, tracker) = encode_primitive_for_cdc(&array, 2).unwrap();
    let expected: Vec<u8> = [-2i16, 0x0102].iter().flat_map(|x| x.to_ne_bytes()).collect();
    assert_eq!(bytes, expected);
    assert_eq!(tracker.num_values(), 2);
    assert_eq!(tracker.byte_at_value(2), 4);
    // half precision numbers have no bytes, but boundaries
    let array = ColumnArray {
        dtype: &DataType::Float16,
        values: Values::Float16(vec![1, 2]),
        validity: None,
    };
    let (bytes, tracker) = encode_primitive_for_cdc(&array, 2).unwrap();
    assert_eq!(bytes, Vec::<u8>::new());
    assert_eq!(tracker.byte_at_value(2), 4);
}

#[test]
fn strings_are_encoded_with_their_length() {
    let items = vec![b"xyz".to_vec(), b"gone".to_vec(), b"q".to_vec()];
    let validity = Some(vec![true, false, true]);
    let view = ColumnArray {
        dtype: &DataType::Utf8View,
        values: Values::Utf8View(items.clone()),
        validity: validity.clone(),
    };
    let bytes = vec![3, 0, 0, 0, b'x', b'y', b'z', 1, 0, 0, 0, b'q'];
    let (data, tracker) = encode_binview_for_cdc(&view).unwrap();
    assert_eq!(data, bytes);
    assert_eq!(tracker.num_values(), 3);
    assert_eq!(tracker.byte_at_value(1), 7);
    assert_eq!(tracker.byte_at_value(2), 7);
    assert_eq!(tracker.byte_at_value(3), 12);
    // another layout has no strings here
    let (data, tracker) = encode_binary_for_cdc(&view).unwrap();
    assert_eq!(data, Vec::<u8>::new());
    assert_eq!(tracker.num_values(), 0);
    let short =
        ColumnArray { dtype: &DataType::Binary, values: Values::Binary(items), validity };
    let (data, _) = encode_binary_for_cdc(&short).unwrap();
    assert_eq!(data, bytes);
}

/// The levels that runs of one repeated level hold.
fn read_runs(bytes: &[u8]) -> Vec<u8> {
    let mut levels = Vec::new();
    let mut at = 0;
    while at < bytes.len() {
        let mut header = 0usize;
        let mut shift = 0;
        loop {
            let byte = bytes[at];
            at += 1;
            header |= usize::from(byte & 127) << shift;
            shift += 7;
            if byte < 128 {
                break;
            }
        }
        assert_eq!(header & 1, 0);
        levels.resize(levels.len() + header / 2, bytes[at]);
        at += 1;
    }
    levels
}

#[test]
fn definition_levels_are_runs() {
    assert_eq!(
        encode_validity_as_def_levels(&Some(vec![true, false, true]), 3),
        vec![2, 1, 2, 0, 2, 1]
    );
    assert_eq!(encode_validity_as_def_levels(&Some(vec![true, true, false]), 2), vec![4, 1]);
    assert_eq!(encode_validity_as_def_levels(&None, 2), vec![4, 1]);
    assert_eq!(encode_validity_as_def_levels(&None, 0), Vec::<u8>::new());
    // a header of two bytes
    assert_eq!(encode_validity_as_def_levels(&None, 100), vec![200, 1, 1]);
    let mask: Vec<bool> = (0..5000u32).map(|i| i % 700 < 650 && i % 13 != 5).collect();
    let levels: Vec<u8> = mask.iter().map(|bit| u8::from(*bit)).collect();
    assert_eq!(read_runs(&encode_validity_as_def_levels(&Some(mask), 5000)), levels);
}

#[test]
fn no_mask_is_a_full_mask() {
    for count in [0, 1, 63, 64, 5000] {
        assert_eq!(
            encode_validity_as_def_levels(&None, count),
            encode_validity_as_def_levels(&Some(vec![true; count]), count)
        );
    }
}

#[test]
fn any_levels_read_back() {
    let levels: Vec<u8> = (0..1000u32).map(|i| (i * i / 37 % 2) as u8).collect();
    assert_eq!(read_runs(&encode_levels(&levels)), levels);
}

fn no_writer(_: PageRequest) -> Result<Page, String> {
    panic!("no page is written")
}

#[test]
fn flat_columns_are_encoded_directly() {
    let type_ = column_type();
    let array = ColumnArray {
        dtype: &DataType::UInt8,
        values: Values::UInt8(vec![5, 6, 7]),
        validity: Some(vec![true, true, false]),
    };
    let encoded = encode_array_for_cdc(
        &array,
        &type_,
        &[leaf(3)],
        options(),
        Encoding::Plain,
        no_writer,
    )
    .unwrap();
    assert_eq!(encoded.data, vec![5, 6, 7]);
    assert_eq!(encoded.num_values, 3);
    assert_eq!(encoded.encoding, Encoding::Plain);
    assert_eq!(encoded.def_levels, Some(vec![4, 1, 2, 0]));
    assert_eq!(encoded.rep_levels, None);
    let cdc = ContentDefinedChunkingOptions::default();
    let pages = split_encoded_to_page_data(encoded, cdc);
    assert_eq!(pages.len(), 1);
    assert_eq!(pages[0].encoded_data, vec![5, 6, 7]);
}

#[test]
fn strings_are_encoded_directly() {
    let type_ = column_type();
    let array = ColumnArray {
        dtype: &DataType::LargeUtf8,
        values: Values::LargeUtf8(vec![b"hi".to_vec()]),
        validity: None,
    };
    let encoded = encode_array_for_cdc(
        &array,
        &type_,
        &[leaf(1)],
        options(),
        Encoding::Plain,
        no_writer,
    )
    .unwrap();
    assert_eq!(encoded.data, vec![2, 0, 0, 0, b'h', b'i']);
    assert_eq!(encoded.def_levels, None);
    assert_eq!(encoded.value_boundaries.byte_at_value(1), 6);
}

#[test]
fn encoded_strings_split_whole() {
    let type_ = column_type();
    let items: Vec<Vec<u8>> = (0..3000u32).map(|i| i.to_string().repeat(3).into_bytes()).collect();
    let validity: Vec<bool> = (0..3000).map(|i| i % 7 != 0).collect();
    let array = ColumnArray {
        dtype: &DataType::BinaryView,
        values: Values::BinaryView(items),
        validity: Some(validity),
    };
    let encoded = encode_array_for_cdc(
        &array,
        &type_,
        &[leaf(3000)],
        options(),
        Encoding::Plain,
        no_writer,
    )
    .unwrap();
    let data = encoded.data.clone();
    let cdc = ContentDefinedChunkingOptions { min_size: 1024, avg_size: 4096, max_size: 8192 };
    let pages = split_encoded_to_page_data(encoded, cdc);
    assert!(pages.len() >= 4);
    let mut joined = Vec::new();
    let mut next = 0;
    for page in &pages {
        assert_eq!(page.value_range.start_value, next);
        next += page.value_range.num_values;
        joined.extend_from_slice(&page.encoded_data);
    }
    assert_eq!(next, 3000);
    assert_eq!(joined, data);
}

fn data_page(num_values: i32) -> Page {
    Page::Data(DataPage {
        header: DataPageHeader::V1(DataPageHeaderV1 {
            num_values,
            encoding: Encoding::Plain,
            definition_level_encoding: Encoding::Rle,
            repetition_level_encoding: Encoding::Rle,
            statistics: None,
        }),
        buffer: vec![9, 9, 9, 9],
        descriptor: Descriptor {
            primitive_type: column_type(),
            max_def_level: 0,
            max_rep_level: 0,
        },
        num_rows: 4,
    })
}

fn booleans() -> ColumnArray<'static> {
    ColumnArray {
        dtype: &DataType::Boolean,
        values: Values::Boolean(vec![true; 4]),
        validity: None,
    }
}

fn encode_booleans<W: Fn(PageRequest) -> Result<Page, String>>(
    type_: &ParquetPrimitiveType,
    write_page: W,
) -> Result<EncodedColumnData, EncodeError<'_, String>> {
    encode_array_for_cdc(
        &booleans(),
        type_,
        &[leaf(4)],
        options(),
        Encoding::Rle,
        write_page,
    )
}

#[test]
fn other_columns_are_encoded_by_their_writer() {
    let type_ = column_type();
    let encoded = encode_booleans(&type_, |request: PageRequest| {
        assert_eq!(request.writer, PageWriter::Boolean);
        Ok(data_page(4))
    })
    .unwrap();
    assert_eq!(encoded.data, vec![9, 9, 9, 9]);
    assert_eq!(encoded.num_values, 4);
    assert_eq!(encoded.encoding, Encoding::Rle);
    assert_eq!(encoded.def_levels, None);
    assert_eq!(encoded.value_boundaries.byte_at_value(3), 3);
}

#[test]
fn errors_of_encoding() {
    let type_ = column_type();
    assert_eq!(
        encode_booleans(&type_, |_: PageRequest| Err("broken".to_string())),
        Err(EncodeError::Writer("broken".to_string()))
    );
    assert_eq!(
        encode_booleans(&type_, |_: PageRequest| Ok(Page::Dict(vec![]))),
        Err(EncodeError::Write(WriteError::DictionaryPage))
    );
    let array =
        ColumnArray { dtype: &DataType::Utf8, values: Values::Utf8(vec![vec![1]]), validity: None };
    let encoded = encode_array_for_cdc(
        &array,
        &type_,
        &[leaf(1)],
        options(),
        Encoding::Plain,
        no_writer,
    );
    assert_eq!(encoded, Err(EncodeError::Write(WriteError::UnsupportedType(&DataType::Utf8))));
}

#[test]
fn pages_are_wrapped() {
    let encoded = wrap_page(data_page(3), Encoding::Plain).unwrap();
    assert_eq!(encoded.num_values, 3);
    assert_eq!(encoded.value_boundaries.num_values(), 3);
    assert_eq!(
        wrap_page(Page::Dict(vec![1]), Encoding::Plain),
        Err(WriteError::DictionaryPage)
    );
}
