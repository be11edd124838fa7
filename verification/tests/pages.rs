use parquet_cdc::array::{ColumnArray, DaysMs, Values, I256};
use parquet_cdc::datatype::PrimitiveType::{
    Float32, Float64, Int16, Int32, Int64, Int8, UInt16, UInt32, UInt64, UInt8,
};
use parquet_cdc::datatype::{DataType, ExtensionType, Field, IntervalUnit, TimeUnit};
use parquet_cdc::decimal::decimal_length_from_precision;
use parquet_cdc::error::WriteError;
use parquet_cdc::nested::{Nested, PrimitiveNested, StructNested};
use parquet_cdc::options::{
    CompressionOptions, Encoding, StatisticsOptions, Version, WriteOptions,
};
use parquet_cdc::pages::{
    array_to_page, array_to_page_nested, array_to_page_simple, has_fitting_digits, PageInput,
    PageRequest, PageWriter, StatisticsRequest, StatisticsSource,
};
use parquet_cdc::parquet::{FieldInfo, ParquetPhysicalType, ParquetPrimitiveType, Repetition};

fn options() -> WriteOptions {
    WriteOptions {
        statistics: StatisticsOptions::default(),
        version: Version::V1,
        compression: CompressionOptions::Snappy,
        data_page_size: None,
        content_defined_chunking: None,
    }
}

fn without_statistics() -> WriteOptions {
    WriteOptions { statistics: StatisticsOptions::empty(), ..options() }
}

fn column_type(repetition: Repetition) -> ParquetPrimitiveType {
    ParquetPrimitiveType {
        field_info: FieldInfo { name: "c".to_string(), repetition, id: None },
        physical_type: ParquetPhysicalType::ByteArray,
    }
}

fn flat<'a>(
    type_: &'a ParquetPrimitiveType,
    dtype: &'a DataType,
    values: Values,
    validity: Option<Vec<bool>>,
) -> Result<PageRequest, WriteError<'a>> {
    let array = ColumnArray { dtype, values, validity };
    assert!(array.is_wf());
    assert!(has_fitting_digits(dtype));
    array_to_page_simple(&array, type_, options(), Encoding::Plain)
}

fn nested<'a>(
    type_: &'a ParquetPrimitiveType,
    dtype: &'a DataType,
    values: Values,
    validity: Option<Vec<bool>>,
) -> Result<PageRequest, WriteError<'a>> {
    let array = ColumnArray { dtype, values, validity };
    assert!(array.is_wf());
    array_to_page_nested(&array, type_, options(), Encoding::Plain)
}

fn plain(writer: PageWriter, encoding: Option<Encoding>) -> PageRequest {
    PageRequest { writer, input: PageInput::Array, options: options(), encoding, statistics: None }
}

fn fixed(
    writer: PageWriter,
    size: usize,
    bytes: Vec<u8>,
    validity: Option<Vec<bool>>,
    source: StatisticsSource,
) -> PageRequest {
    PageRequest {
        writer,
        input: PageInput::Converted(Values::FixedSizeBinary { size, bytes }, validity),
        options: options(),
        encoding: None,
        statistics: Some(StatisticsRequest { source, options: StatisticsOptions::default() }),
    }
}

#[test]
fn integers_are_stored_in_four_or_eight_bytes() {
    let cases = vec![
        (DataType::UInt8, Values::UInt8(vec![1]), UInt8, Int32),
        (DataType::UInt16, Values::UInt16(vec![1]), UInt16, Int32),
        (DataType::UInt32, Values::UInt32(vec![1]), UInt32, Int32),
        (DataType::UInt64, Values::UInt64(vec![1]), UInt64, Int64),
        (DataType::Int8, Values::Int8(vec![1]), Int8, Int32),
        (DataType::Int16, Values::Int16(vec![1]), Int16, Int32),
        (DataType::Int32, Values::Int32(vec![1]), Int32, Int32),
        (DataType::Date32, Values::Int32(vec![1]), Int32, Int32),
        (DataType::Time32(TimeUnit::Second), Values::Int32(vec![1]), Int32, Int32),
        (DataType::Int64, Values::Int64(vec![1]), Int64, Int64),
        (DataType::Date64, Values::Int64(vec![1]), Int64, Int64),
        (DataType::Time64(TimeUnit::Nanosecond), Values::Int64(vec![1]), Int64, Int64),
        (DataType::Timestamp(TimeUnit::Millisecond, None), Values::Int64(vec![1]), Int64, Int64),
        (DataType::Duration(TimeUnit::Microsecond), Values::Int64(vec![1]), Int64, Int64),
    ];
    for (dtype, values, from, to) in cases {
        let array = ColumnArray { dtype: &dtype, values, validity: None };
        let type_ = column_type(Repetition::Optional);
        assert_eq!(
            array_to_page_simple(&array, &type_, options(), Encoding::DeltaBinaryPacked),
            Ok(plain(PageWriter::Integer(from, to), Some(Encoding::DeltaBinaryPacked)))
        );
        assert_eq!(
            array_to_page_nested(&array, &type_, options(), Encoding::DeltaBinaryPacked),
            Ok(plain(PageWriter::NestedPrimitive(from, to), None))
        );
    }
}

#[test]
fn booleans_and_floats() {
    assert_eq!(
        flat(&column_type(Repetition::Optional), &DataType::Boolean, Values::Boolean(vec![true]), None),
        Ok(plain(PageWriter::Boolean, Some(Encoding::Plain)))
    );
    assert_eq!(
        nested(&column_type(Repetition::Optional), &DataType::Boolean, Values::Boolean(vec![true]), None),
        Ok(plain(PageWriter::NestedBoolean, None))
    );
    assert_eq!(
        flat(&column_type(Repetition::Optional), &DataType::Float32, Values::Float32(vec![1]), None),
        Ok(plain(PageWriter::Plain(Float32, Float32), None))
    );
    assert_eq!(
        nested(&column_type(Repetition::Optional), &DataType::Float64, Values::Float64(vec![1]), None),
        Ok(plain(PageWriter::NestedPrimitive(Float64, Float64), None))
    );
}

#[test]
fn half_precision_numbers_are_byte_strings() {
    let bytes: Vec<u8> = [0x3C00u16, 0xC000].iter().flat_map(|bits| bits.to_ne_bytes()).collect();
    assert_eq!(
        flat(&column_type(Repetition::Optional), &DataType::Float16, Values::Float16(vec![0x3C00, 0xC000]), Some(vec![true, false])),
        Ok(fixed(
            PageWriter::FixedSizeBinary,
            2,
            bytes,
            Some(vec![true, false]),
            StatisticsSource::Float16
        ))
    );
}

#[test]
fn strings_are_written_as_bytes() {
    let items = || vec![b"a".to_vec(), vec![]];
    assert_eq!(
        flat(&column_type(Repetition::Optional), &DataType::LargeBinary, Values::LargeBinary(items()), None),
        Ok(plain(PageWriter::Binary, Some(Encoding::Plain)))
    );
    assert_eq!(
        flat(&column_type(Repetition::Optional), &DataType::LargeUtf8, Values::LargeUtf8(items()), Some(vec![true, false])),
        Ok(PageRequest {
            input: PageInput::Converted(Values::LargeBinary(items()), Some(vec![true, false])),
            ..plain(PageWriter::Binary, Some(Encoding::Plain))
        })
    );
    assert_eq!(
        nested(&column_type(Repetition::Optional), &DataType::Utf8View, Values::Utf8View(items()), None),
        Ok(PageRequest {
            input: PageInput::Converted(Values::BinaryView(items()), None),
            ..plain(PageWriter::NestedBinaryView, None)
        })
    );
    assert_eq!(
        nested(&column_type(Repetition::Optional), &DataType::BinaryView, Values::BinaryView(items()), None),
        Ok(plain(PageWriter::NestedBinaryView, None))
    );
}

#[test]
fn columns_without_values() {
    let input = || PageInput::Converted(Values::Int32(vec![0, 0]), Some(vec![false, false]));
    assert_eq!(
        flat(&column_type(Repetition::Optional), &DataType::Null, Values::Opaque(2), None),
        Ok(PageRequest { input: input(), ..plain(PageWriter::Plain(Int32, Int32), None) })
    );
    assert_eq!(
        nested(&column_type(Repetition::Optional), &DataType::Null, Values::Opaque(2), None),
        Ok(PageRequest { input: input(), ..plain(PageWriter::NestedPrimitive(Int32, Int32), None) })
    );
}

#[test]
fn empty_structs_are_booleans() {
    assert_eq!(
        flat(&column_type(Repetition::Optional), &DataType::Struct(vec![]), Values::Opaque(2), Some(vec![true, false])),
        Ok(PageRequest {
            input: PageInput::Converted(
                Values::Boolean(vec![false, false]),
                Some(vec![true, false])
            ),
            ..plain(PageWriter::Boolean, Some(Encoding::Plain))
        })
    );
}

#[test]
fn intervals_take_twelve_bytes() {
    assert_eq!(
        flat(&column_type(Repetition::Optional), &DataType::Interval(IntervalUnit::YearMonth), Values::Int32(vec![14, -1]), None),
        Ok(fixed(
            PageWriter::FixedSizeBinary,
            12,
            vec![
                14, 0, 0, 0, 0, 0, 0, 0, 0, 0, 0, 0, 255, 255, 255, 255, 0, 0, 0, 0, 0, 0, 0, 0
            ],
            None,
            StatisticsSource::FixedSizeBinary
        ))
    );
    assert_eq!(
        flat(
            &column_type(Repetition::Optional), &DataType::Interval(IntervalUnit::DayTime),
            Values::DaysMs(vec![DaysMs { days: 3, ms: -2 }]),
            None
        ),
        Ok(fixed(
            PageWriter::FixedSizeBinary,
            12,
            vec![0, 0, 0, 0, 3, 0, 0, 0, 254, 255, 255, 255],
            None,
            StatisticsSource::FixedSizeBinary
        ))
    );
}

#[test]
fn byte_strings_of_one_size() {
    let values = Values::FixedSizeBinary { size: 3, bytes: vec![1, 2, 3] };
    assert_eq!(
        flat(&column_type(Repetition::Optional), &DataType::FixedSizeBinary(3), values, None),
        Ok(PageRequest {
            statistics: Some(StatisticsRequest {
                source: StatisticsSource::FixedSizeBinary,
                options: StatisticsOptions::default()
            }),
            ..plain(PageWriter::FixedSizeBinary, None)
        })
    );
}

#[test]
fn decimals_by_precision() {
    let values = || Values::Int128(vec![-5, 1234]);
    assert_eq!(
        flat(&column_type(Repetition::Optional), &DataType::Decimal(9, 2), values(), None),
        Ok(PageRequest {
            input: PageInput::Converted(Values::Int32(vec![-5, 1234]), None),
            ..plain(PageWriter::Integer(Int32, Int32), Some(Encoding::Plain))
        })
    );
    assert_eq!(
        nested(&column_type(Repetition::Optional), &DataType::Decimal(18, 2), values(), None),
        Ok(PageRequest {
            input: PageInput::Converted(Values::Int64(vec![-5, 1234]), None),
            ..plain(PageWriter::NestedPrimitive(Int64, Int64), None)
        })
    );
    assert_eq!(
        flat(&column_type(Repetition::Optional), &DataType::Decimal(19, 2), values(), None),
        Ok(fixed(
            PageWriter::FixedSizeBinary,
            9,
            vec![255, 255, 255, 255, 255, 255, 255, 255, 251, 0, 0, 0, 0, 0, 0, 0, 4, 210],
            None,
            StatisticsSource::Decimal(9)
        ))
    );
    let full = (-5i128).to_be_bytes().iter().chain(1234i128.to_be_bytes().iter()).copied().collect();
    assert_eq!(
        nested(&column_type(Repetition::Optional), &DataType::Decimal(38, 2), values(), None),
        Ok(fixed(
            PageWriter::NestedFixedSizeBinary,
            16,
            full,
            None,
            StatisticsSource::Decimal(16)
        ))
    );
    assert!(!has_fitting_digits(&DataType::Decimal(39, 2)));
}

#[test]
fn narrow_decimals_are_cut_to_their_low_bits() {
    let values = Values::Int128(vec![(1i128 << 40) + 7, i128::MIN]);
    match flat(&column_type(Repetition::Optional), &DataType::Decimal(9, 0), values, None).unwrap().input {
        PageInput::Converted(Values::Int32(values), None) => {
            assert_eq!(values, vec![((1i128 << 40) + 7) as i32, i128::MIN as i32])
        }
        other => panic!("{:?}", other),
    }
    let values = Values::Int128(vec![(1i128 << 70) - 3, -(1i128 << 63) - 1]);
    match flat(&column_type(Repetition::Optional), &DataType::Decimal(18, 0), values, None).unwrap().input {
        PageInput::Converted(Values::Int64(values), None) => assert_eq!(
            values,
            vec![((1i128 << 70) - 3) as i64, (-(1i128 << 63) - 1) as i64]
        ),
        other => panic!("{:?}", other),
    }
}

#[test]
fn wide_decimals_by_precision() {
    // -5 and 1234
    let values = || {
        Values::Int256(vec![
            I256 { high: -1, low: (-5i128) as u128 },
            I256 { high: 0, low: 1234 },
        ])
    };
    assert_eq!(
        flat(&column_type(Repetition::Optional), &DataType::Decimal256(9, 0), values(), None),
        Ok(PageRequest {
            input: PageInput::Converted(Values::Int32(vec![-5, 1234]), None),
            ..plain(PageWriter::Integer(Int32, Int32), Some(Encoding::Plain))
        })
    );
    assert_eq!(
        flat(&column_type(Repetition::Optional), &DataType::Decimal256(10, 0), values(), None),
        Ok(PageRequest {
            input: PageInput::Converted(Values::Int64(vec![-5, 1234]), None),
            ..plain(PageWriter::Integer(Int64, Int64), Some(Encoding::Plain))
        })
    );
    assert_eq!(
        nested(&column_type(Repetition::Optional), &DataType::Decimal256(19, 0), values(), None),
        Ok(fixed(
            PageWriter::NestedFixedSizeBinary,
            9,
            vec![255, 255, 255, 255, 255, 255, 255, 255, 251, 0, 0, 0, 0, 0, 0, 0, 4, 210],
            None,
            StatisticsSource::Decimal256WithI128(9)
        ))
    );
    let mut bytes = vec![255u8; 31];
    bytes.push(251);
    bytes.extend(vec![0u8; 30]);
    bytes.extend([4, 210]);
    assert_eq!(
        flat(&column_type(Repetition::Optional), &DataType::Decimal256(39, 0), values(), None),
        Ok(fixed(
            PageWriter::FixedSizeBinary,
            32,
            bytes,
            None,
            StatisticsSource::Decimal256(32)
        ))
    );
}

#[test]
fn sixteen_byte_integers() {
    let signed = Values::Int128(vec![-2]);
    assert_eq!(
        flat(&column_type(Repetition::Optional), &DataType::Int128, signed, None),
        Ok(fixed(
            PageWriter::FixedSizeBinary,
            16,
            (-2i128).to_ne_bytes().to_vec(),
            None,
            StatisticsSource::Decimal(16)
        ))
    );
    assert_eq!(
        nested(&column_type(Repetition::Optional), &DataType::UInt128, Values::UInt128(vec![7]), None),
        Ok(fixed(
            PageWriter::NestedFixedSizeBinary,
            16,
            7u128.to_ne_bytes().to_vec(),
            None,
            StatisticsSource::Decimal(16)
        ))
    );
}

#[test]
fn nested_signed_integers_have_no_extremes() {
    let request = nested(&column_type(Repetition::Optional), &DataType::Int128, Values::Int128(vec![1]), None).unwrap();
    let left = StatisticsOptions { min_value: false, max_value: false, ..StatisticsOptions::default() };
    assert_eq!(request.options.statistics, left);
    assert_eq!(
        request.statistics,
        Some(StatisticsRequest { source: StatisticsSource::Decimal(16), options: left })
    );
    let array = ColumnArray {
        dtype: &DataType::Int128,
        values: Values::Int128(vec![1]),
        validity: None,
    };
    let only_extremes = WriteOptions {
        statistics: StatisticsOptions { null_count: false, ..StatisticsOptions::default() },
        ..options()
    };
    let type_ = column_type(Repetition::Optional);
    let request = array_to_page_nested(&array, &type_, only_extremes, Encoding::Plain).unwrap();
    assert_eq!(request.statistics, None);
}

#[test]
fn statistics_only_where_asked_for() {
    let array = ColumnArray {
        dtype: &DataType::Int128,
        values: Values::Int128(vec![1]),
        validity: None,
    };
    let type_ = column_type(Repetition::Optional);
    let request =
        array_to_page_simple(&array, &type_, without_statistics(), Encoding::Plain).unwrap();
    assert_eq!(request.statistics, None);
}

#[test]
fn unsupported_types() {
    let field = || Field { name: "f".to_string(), dtype: DataType::Int8, is_nullable: true };
    let type_ = column_type(Repetition::Optional);
    let list = DataType::List(Box::new(field()));
    let group = DataType::Struct(vec![field()]);
    let interval = DataType::Interval(IntervalUnit::YearMonth);
    let fixed = DataType::FixedSizeBinary(1);
    assert_eq!(
        flat(&type_, &DataType::Binary, Values::Binary(vec![]), None),
        Err(WriteError::UnsupportedType(&DataType::Binary))
    );
    assert_eq!(
        flat(&type_, &list, Values::Opaque(1), None),
        Err(WriteError::UnsupportedType(&list))
    );
    assert_eq!(
        flat(&type_, &group, Values::Opaque(1), None),
        Err(WriteError::UnsupportedType(&group))
    );
    assert_eq!(
        nested(&type_, &interval, Values::Int32(vec![1]), None),
        Err(WriteError::UnsupportedNestedType(&interval))
    );
    let bytes = Values::FixedSizeBinary { size: 1, bytes: vec![1] };
    assert_eq!(
        nested(&type_, &fixed, bytes, None),
        Err(WriteError::UnsupportedNestedType(&fixed))
    );
    // below an extension it is the type below that is named
    let extension = DataType::Extension(Box::new(ExtensionType {
        name: "e".to_string(),
        inner: DataType::Utf8,
        metadata: None,
    }));
    assert_eq!(
        flat(&type_, &extension, Values::Utf8(vec![]), None),
        Err(WriteError::UnsupportedType(&DataType::Utf8))
    );
}

#[test]
fn required_columns_need_all_values() {
    let required = column_type(Repetition::Required);
    let some = ColumnArray {
        dtype: &DataType::Int32,
        values: Values::Int32(vec![1, 2]),
        validity: Some(vec![true, false]),
    };
    let all = ColumnArray {
        dtype: &DataType::Int32,
        values: Values::Int32(vec![1, 2]),
        validity: Some(vec![true, true]),
    };
    let none = ColumnArray { dtype: &DataType::Null, values: Values::Opaque(1), validity: None };
    let simple = |array| array_to_page_simple(array, &required, options(), Encoding::Plain);
    let below = |array| array_to_page_nested(array, &required, options(), Encoding::Plain);
    assert_eq!(simple(&some), Err(WriteError::MissingValue("c")));
    assert_eq!(below(&some), Err(WriteError::MissingValue("c")));
    assert!(simple(&all).is_ok());
    assert!(below(&all).is_ok());
    assert_eq!(simple(&none), Err(WriteError::MissingValue("c")));
    assert!(below(&none).is_ok());
}

#[test]
fn extensions_are_transparent() {
    let extension = DataType::Extension(Box::new(ExtensionType {
        name: "outer".to_string(),
        inner: DataType::Extension(Box::new(ExtensionType {
            name: "inner".to_string(),
            inner: DataType::Decimal(20, 1),
            metadata: None,
        })),
        metadata: Some("m".to_string()),
    }));
    let values = || Values::Int128(vec![5]);
    assert_eq!(
        flat(&column_type(Repetition::Optional), &extension, values(), Some(vec![true])),
        flat(&column_type(Repetition::Optional), &DataType::Decimal(20, 1), values(), Some(vec![true]))
    );
    assert_eq!(
        nested(&column_type(Repetition::Optional), &extension, values(), None),
        nested(&column_type(Repetition::Optional), &DataType::Decimal(20, 1), values(), None)
    );
}

#[test]
fn levels_decide_the_writer() {
    let array = ColumnArray {
        dtype: &DataType::Boolean,
        values: Values::Boolean(vec![true]),
        validity: None,
    };
    let leaf = Nested::Primitive(PrimitiveNested { is_optional: false, validity: None, length: 1 });
    let group = Nested::Struct(StructNested { is_optional: false, validity: None, length: 1 });
    let type_ = column_type(Repetition::Optional);
    let one = [leaf.clone()];
    let two = [group, leaf];
    assert_eq!(
        array_to_page(&array, &type_, &one, options(), Encoding::Rle).unwrap().writer,
        PageWriter::Boolean
    );
    assert_eq!(
        array_to_page(&array, &type_, &two, options(), Encoding::Rle).unwrap().writer,
        PageWriter::NestedBoolean
    );
}

#[test]
fn decimal_sizes_are_those_of_the_formula() {
    for precision in 1..=38usize {
        let formula =
            (((10.0_f64.powi(precision as i32) + 1.0).log2() + 1.0) / 8.0).ceil() as usize;
        assert_eq!(decimal_length_from_precision(precision), formula, "{}", precision);
    }
    assert_eq!(decimal_length_from_precision(2), 1);
    assert_eq!(decimal_length_from_precision(3), 2);
    assert_eq!(decimal_length_from_precision(38), 16);
}

#[test]
fn decimals_read_back() {
    for precision in 19..=38usize {
        let size = decimal_length_from_precision(precision);
        let limit = 10i128.pow(precision as u32) - 1;
        for value in [limit, -limit, 0, 1, -1] {
            let request =
                flat(&column_type(Repetition::Optional), &DataType::Decimal(precision, 0), Values::Int128(vec![value]), None).unwrap();
            match request.input {
                PageInput::Converted(Values::FixedSizeBinary { bytes, .. }, _) => {
                    assert_eq!(bytes.len(), size);
                    let mut full = [if value < 0 { 255u8 } else { 0 }; 16];
                    full[16 - size..].copy_from_slice(&bytes);
                    assert_eq!(i128::from_be_bytes(full), value);
                }
                other => panic!("{:?}", other),
            }
        }
    }
}

#[test]
fn errors_in_words() {
    let missing = WriteError::MissingValue("c");
    assert_eq!(missing.message(""), "writing a missing value to required parquet column 'c'");
    assert_eq!(missing.dtype(), None);
    let flat = WriteError::UnsupportedType(&DataType::Binary);
    assert_eq!(flat.message("Binary"), "Writing parquet pages for data type Binary");
    assert_eq!(flat.dtype(), Some(&DataType::Binary));
    let nested = WriteError::UnsupportedNestedType(&DataType::Binary);
    assert_eq!(nested.message("Binary"), "Writing nested parquet pages for data type Binary");
    assert_eq!(nested.dtype(), Some(&DataType::Binary));
    assert_eq!(WriteError::DictionaryPage.message(""), "CDC not supported for dictionary pages");
    assert_eq!(WriteError::DictionaryPage.dtype(), None);
}
