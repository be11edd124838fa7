use parquet_cdc::columns::{
    ChildWriteOptions, ColumnWriteOptions, FieldWriteOptions, KeyValue, ListLikeFieldWriteOptions,
    StructFieldWriteOptions,
};
use parquet_cdc::datatype::{DataType, ExtensionType, Field, PhysicalType, PrimitiveType};
use parquet_cdc::options::Encoding;
use parquet_cdc::schema::to_parquet_schema;
use parquet_cdc::transverse::transverse;

fn leaf(encoding: Encoding) -> ColumnWriteOptions {
    FieldWriteOptions::default_with_encoding(encoding).into_default_column_write_options()
}

fn field(name: &str, dtype: DataType) -> Field {
    Field { name: name.to_string(), dtype, is_nullable: true }
}

fn tree() -> ColumnWriteOptions {
    let list = ColumnWriteOptions::default_with(ChildWriteOptions::ListLike(Box::new(
        ListLikeFieldWriteOptions { child: leaf(Encoding::DeltaByteArray) },
    )));
    let mut group = ColumnWriteOptions::default_with(ChildWriteOptions::Struct(Box::new(
        StructFieldWriteOptions { children: vec![leaf(Encoding::Plain), list, leaf(Encoding::Rle)] },
    )));
    group.field_id = Some(4);
    group.required = Some(true);
    group.metadata.push(KeyValue { key: "k".to_string(), value: Some("v".to_string()) });
    group
}

fn encodings(options: &ColumnWriteOptions) -> Vec<Encoding> {
    let mut leaves = Vec::new();
    options.to_leaves(&mut leaves);
    leaves.iter().map(|leaf| leaf.encoding).collect()
}

#[test]
fn default_columns() {
    let options = leaf(Encoding::Plain);
    assert_eq!(options.field_id, None);
    assert_eq!(options.metadata, vec![]);
    assert_eq!(options.required, None);
    assert_eq!(encodings(&options), vec![Encoding::Plain]);
}

#[test]
fn leaves_come_in_order() {
    assert_eq!(
        encodings(&tree()),
        vec![Encoding::Plain, Encoding::DeltaByteArray, Encoding::Rle]
    );
    let options = tree();
    let other = leaf(Encoding::BitPacked);
    let mut leaves = Vec::new();
    other.to_leaves(&mut leaves);
    options.to_leaves(&mut leaves);
    assert_eq!(leaves.len(), 4);
    assert_eq!(leaves[0].encoding, Encoding::BitPacked);
}

#[test]
fn copies_have_the_same_leaves() {
    let options = tree();
    let copy = options.clone();
    assert_eq!(encodings(&copy), encodings(&options));
    assert_eq!(copy.field_id, Some(4));
    assert_eq!(copy.required, Some(true));
    assert_eq!(copy.metadata, options.metadata);
}

#[test]
fn columns_of_a_type() {
    let dtype = DataType::Struct(vec![
        field("a", DataType::Int32),
        field("b", DataType::LargeList(Box::new(field("item", DataType::Utf8View)))),
        field("c", DataType::FixedSizeList(Box::new(field("item", DataType::Float64)), 3)),
    ]);
    let columns = transverse(&dtype, |dtype: &DataType| dtype.to_physical_type());
    assert_eq!(
        columns,
        vec![
            PhysicalType::Primitive(PrimitiveType::Int32),
            PhysicalType::Utf8View,
            PhysicalType::Primitive(PrimitiveType::Float64),
        ]
    );
}

#[test]
fn columns_of_pairs_and_extensions() {
    let entries = DataType::Struct(vec![
        field("key", DataType::LargeUtf8),
        field("value", DataType::List(Box::new(field("item", DataType::Boolean)))),
    ]);
    let dtype = DataType::MapEntries(Box::new(field("entries", entries)), false);
    let encoding = |dtype: &DataType| match dtype.to_physical_type() {
        PhysicalType::LargeUtf8 => Encoding::DeltaLengthByteArray,
        _ => Encoding::Plain,
    };
    assert_eq!(
        transverse(&dtype, encoding),
        vec![Encoding::DeltaLengthByteArray, Encoding::Plain]
    );
    let extension = DataType::Extension(Box::new(ExtensionType {
        name: "e".to_string(),
        inner: DataType::Int8,
        metadata: None,
    }));
    // the column is shown with its extension
    assert_eq!(
        transverse(&extension, |dtype: &DataType| matches!(dtype, DataType::Extension(_))),
        vec![true]
    );
}

#[test]
fn schema_pairs_fields_and_options() {
    let fields = [field("a", DataType::Int32), field("b", DataType::Boolean)];
    let options = [leaf(Encoding::Plain), leaf(Encoding::Rle), leaf(Encoding::Plain)];
    let convert = |field: &Field, options: &ColumnWriteOptions| -> Result<String, String> {
        Ok(format!("{} {:?}", field.name, encodings(options)[0]))
    };
    let schema = to_parquet_schema(&fields, &options, convert).unwrap();
    assert_eq!(schema.name, "root");
    assert_eq!(schema.fields, vec!["a Plain", "b Rle"]);
    let schema = to_parquet_schema(&fields, &options[..1], convert).unwrap();
    assert_eq!(schema.fields, vec!["a Plain"]);
}

#[test]
fn schema_stops_at_the_first_error() {
    let fields = [field("a", DataType::Int32), field("b", DataType::Null), field("c", DataType::Null)];
    let options = [leaf(Encoding::Plain), leaf(Encoding::Plain), leaf(Encoding::Plain)];
    let convert = |field: &Field, _: &ColumnWriteOptions| match field.dtype {
        DataType::Null => Err(field.name.clone()),
        _ => Ok(()),
    };
    assert_eq!(to_parquet_schema(&fields, &options, convert), Err("b".to_string()));
}
