use parquet_cdc::array::{ColumnArray, Values};
use parquet_cdc::datatype::DataType;
use parquet_cdc::nested::{
    get_max_length, is_column, slice_nested_leaf, slice_parquet_array, FixedSizeListNested,
    ListNested, Nested, PrimitiveNested, StructNested,
};

fn primitive(length: usize, validity: Option<Vec<bool>>) -> Nested {
    Nested::Primitive(PrimitiveNested { is_optional: validity.is_some(), validity, length })
}

fn list(offsets: Vec<i32>) -> Nested {
    Nested::List(ListNested { is_optional: false, offsets, validity: None })
}

fn large_list(offsets: Vec<i64>, validity: Option<Vec<bool>>) -> Nested {
    Nested::LargeList(ListNested { is_optional: true, offsets, validity })
}

fn fixed_size_list(width: usize, length: usize) -> Nested {
    Nested::FixedSizeList(FixedSizeListNested { is_optional: false, validity: None, width, length })
}

fn group(length: usize, validity: Option<Vec<bool>>) -> Nested {
    Nested::Struct(StructNested { is_optional: true, validity, length })
}

fn ints(values: Vec<i32>) -> ColumnArray<'static> {
    ColumnArray { dtype: &DataType::Int32, values: Values::Int32(values), validity: None }
}

#[test]
fn lengths_of_levels() {
    assert_eq!(primitive(3, None).len(), 3);
    assert_eq!(list(vec![0, 2, 5]).len(), 2);
    assert_eq!(large_list(vec![4], None).len(), 0);
    assert_eq!(fixed_size_list(3, 4).len(), 4);
    assert_eq!(group(6, None).len(), 6);
}

#[test]
fn offsets_are_checked() {
    assert!(list(vec![0, 2, 2, 5]).is_wf());
    assert!(!list(vec![]).is_wf());
    assert!(!list(vec![-1, 2]).is_wf());
    assert!(!large_list(vec![0, 3, 2], None).is_wf());
    assert!(primitive(3, None).is_wf());
}

#[test]
fn leaf_window_of_lists() {
    assert_eq!(slice_nested_leaf(&[list(vec![3, 5, 9]), primitive(9, None)]), (3, 6));
    assert_eq!(
        slice_nested_leaf(&[list(vec![0, 2]), large_list(vec![1, 4, 10], None), primitive(9, None)]),
        (1, 9)
    );
    assert_eq!(
        slice_nested_leaf(&[list(vec![0, 4]), fixed_size_list(3, 4), primitive(12, None)]),
        (0, 12)
    );
    // the deepest list decides, also below it
    assert_eq!(
        slice_nested_leaf(&[list(vec![2, 4]), group(2, None), primitive(2, None)]),
        (2, 2)
    );
}

#[test]
fn leaf_window_without_lists() {
    assert_eq!(slice_nested_leaf(&[primitive(5, None)]), (0, 5));
    assert_eq!(slice_nested_leaf(&[group(4, None), primitive(5, None)]), (0, 5));
    assert_eq!(slice_nested_leaf(&[group(4, None)]), (0, 0));
    assert_eq!(slice_nested_leaf(&[]), (0, 0));
    // of two leaf levels the first one
    assert_eq!(slice_nested_leaf(&[primitive(7, None), primitive(5, None)]), (0, 7));
}

#[test]
fn longest_length() {
    assert_eq!(get_max_length(&[]), 0);
    assert_eq!(get_max_length(&[primitive(5, None)]), 0);
    assert_eq!(get_max_length(&[list(vec![3, 5, 9]), primitive(9, None)]), 6);
    assert_eq!(
        get_max_length(&[
            list(vec![3, 5, 9]),
            large_list(vec![0, 10], None),
            fixed_size_list(3, 4),
            group(5, None),
            primitive(9, None),
        ]),
        28
    );
}

#[test]
fn slicing_a_flat_column() {
    let mut array = ColumnArray {
        dtype: &DataType::Int32,
        values: Values::Int32(vec![10, 11, 12, 13]),
        validity: Some(vec![true, false, true, true]),
    };
    let mut nested = vec![primitive(4, Some(vec![true, false, true, true]))];
    slice_parquet_array(&mut array, &mut nested, 1, 2);
    assert_eq!(array.values, Values::Int32(vec![11, 12]));
    assert_eq!(array.validity, Some(vec![false, true]));
    assert_eq!(nested, vec![primitive(2, Some(vec![false, true]))]);
}

#[test]
fn slicing_lists_of_lists() {
    let mut array = ints((0..20).collect());
    let mut nested = vec![
        large_list(vec![0, 1, 3, 4], Some(vec![true, true, false])),
        list(vec![0, 2, 7, 9, 20]),
        primitive(20, None),
    ];
    assert!(is_column(&array, &nested));
    slice_parquet_array(&mut array, &mut nested, 1, 2);
    assert_eq!(
        nested,
        vec![
            large_list(vec![1, 3, 4], Some(vec![true, false])),
            list(vec![2, 7, 9, 20]),
            primitive(18, None),
        ]
    );
    assert_eq!(array.values, Values::Int32((2..20).collect()));
    assert_eq!(slice_nested_leaf(&nested), (2, 18));
}

#[test]
fn slicing_fixed_size_lists_of_structs() {
    let mut array = ints((0..12).collect());
    let mut nested = vec![
        group(4, Some(vec![true, false, true, true])),
        fixed_size_list(3, 4),
        primitive(12, None),
    ];
    assert!(is_column(&array, &nested));
    slice_parquet_array(&mut array, &mut nested, 1, 2);
    assert_eq!(
        nested,
        vec![group(2, Some(vec![false, true])), fixed_size_list(3, 2), primitive(6, None)]
    );
    assert_eq!(array.values, Values::Int32((3..9).collect()));
    assert_eq!(slice_nested_leaf(&nested).1, array.len());
}

#[test]
fn adjacent_slices_join() {
    let levels = || vec![list(vec![0, 0, 3, 7, 9]), primitive(9, None)];
    let leaf = |start: usize, length: usize| {
        let mut array = ints((0..9).collect());
        let mut nested = levels();
        slice_parquet_array(&mut array, &mut nested, start, length);
        assert_eq!(nested[0].len(), length);
        match array.values {
            Values::Int32(values) => values,
            _ => panic!("wrong layout"),
        }
    };
    for middle in 0..5 {
        let mut joined = leaf(0, middle);
        joined.extend(leaf(middle, 4 - middle));
        assert_eq!(joined, leaf(0, 4));
    }
}

#[test]
fn every_layout_is_sliced() {
    let slice = |values: Values| {
        let array = ColumnArray { dtype: &DataType::Null, values, validity: None };
        array.slice(1, 2).values
    };
    assert_eq!(slice(Values::Boolean(vec![true, false, true])), Values::Boolean(vec![false, true]));
    assert_eq!(slice(Values::Float64(vec![1, 2, 3])), Values::Float64(vec![2, 3]));
    assert_eq!(
        slice(Values::FixedSizeBinary { size: 2, bytes: vec![1, 2, 3, 4, 5, 6, 7, 8] }),
        Values::FixedSizeBinary { size: 2, bytes: vec![3, 4, 5, 6] }
    );
    assert_eq!(
        slice(Values::Utf8(vec![vec![1], vec![2, 3], vec![]])),
        Values::Utf8(vec![vec![2, 3], vec![]])
    );
    assert_eq!(slice(Values::Opaque(9)), Values::Opaque(2));
}

#[test]
fn columns_that_do_not_fit() {
    let array = ints((0..5).collect());
    assert!(!is_column(&array, &[]));
    assert!(!is_column(&array, &[list(vec![0, 5])]));
    assert!(!is_column(&array, &[primitive(6, None)]));
    assert!(!is_column(&array, &[primitive(5, Some(vec![true; 4]))]));
    assert!(!is_column(&array, &[list(vec![0, 6]), primitive(6, None)]));
    assert!(!is_column(&array, &[primitive(5, None), primitive(5, None)]));
    assert!(!is_column(&array, &[fixed_size_list(usize::MAX, 2), primitive(5, None)]));
    assert!(is_column(&array, &[primitive(5, Some(vec![true; 5]))]));
    assert!(is_column(&array, &[list(vec![0, 2, 5]), primitive(5, None)]));
}

#[test]
fn layouts_are_checked() {
    let fits = |dtype: &DataType, values: Values, validity: Option<Vec<bool>>| {
        ColumnArray { dtype, values, validity }.is_wf()
    };
    assert!(fits(&DataType::Int32, Values::Int32(vec![1]), None));
    assert!(fits(&DataType::Date32, Values::Int32(vec![1]), Some(vec![true])));
    assert!(!fits(&DataType::Date32, Values::Int32(vec![1]), Some(vec![])));
    assert!(!fits(&DataType::Int32, Values::UInt32(vec![1]), None));
    assert!(!fits(&DataType::Utf8View, Values::BinaryView(vec![]), None));
    assert!(fits(&DataType::Null, Values::Opaque(3), None));
    assert!(!fits(&DataType::Boolean, Values::Opaque(3), None));
    assert!(!fits(&DataType::Unknown, Values::Opaque(3), None));
    let odd = Values::FixedSizeBinary { size: 2, bytes: vec![1] };
    assert!(!fits(&DataType::FixedSizeBinary(2), odd, None));
}
