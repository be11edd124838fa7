//! The schema of a file.

use vstd::prelude::*;
use vstd::string::*;

use crate::columns::ColumnWriteOptions;
use crate::datatype::Field;

verus! {

/// The schema of a file: its name and the types of its columns.
#[derive(Debug, PartialEq, Eq)]
pub struct SchemaDescriptor<P> {
    pub name: String,
    pub fields: Vec<P>,
}

/// The number of columns that have both a field and options.
pub open spec fn paired(fields: Seq<Field>, options: Seq<ColumnWriteOptions>) -> int {
    if fields.len() < options.len() {
        fields.len() as int
    } else {
        options.len() as int
    }
}

/// Whether the field can be given a type.
pub open spec fn may_have_type<P, E, F: Fn(&Field, &ColumnWriteOptions) -> Result<P, E>>(
    to_parquet_type: F,
    field: Field,
    options: ColumnWriteOptions,
) -> bool {
    exists|parquet_type: P|
        call_ensures(to_parquet_type, (&field, &options), Ok::<P, E>(parquet_type))
}

/// Whether column `i` is the first one that cannot be given a type, for this reason.
pub open spec fn fails_first_at<P, E, F: Fn(&Field, &ColumnWriteOptions) -> Result<P, E>>(
    to_parquet_type: F,
    fields: Seq<Field>,
    options: Seq<ColumnWriteOptions>,
    i: int,
    error: E,
) -> bool {
    &&& 0 <= i < paired(fields, options)
    &&& call_ensures(to_parquet_type, (&fields[i], &options[i]), Err::<P, E>(error))
    &&& forall|k: int|
        0 <= k < i ==> #[trigger] may_have_type(to_parquet_type, fields[k], options[k])
}

/// Creates a parquet schema from the fields of a column schema: each field, together with its
/// options, gets the type that `to_parquet_type` gives it.
pub fn to_parquet_schema<P, E, F: Fn(&Field, &ColumnWriteOptions) -> Result<P, E>>(
    schema: &[Field],
    column_options: &[ColumnWriteOptions],
    to_parquet_type: F,
) -> (descriptor: Result<SchemaDescriptor<P>, E>)
    requires
        forall|i: int|
            0 <= i < paired(schema@, column_options@) ==> #[trigger] call_requires(
                to_parquet_type,
                (&schema@[i], &column_options@[i]),
            ),
    ensures
        descriptor matches Ok(made) ==> {
            &&& made.name@ == "root"@
            &&& made.fields@.len() == paired(schema@, column_options@)
            &&& made.fields@.len() <= schema@.len()
            &&& made.fields@.len() <= column_options@.len()
            &&& made.fields@.len() == schema@.len() || made.fields@.len() == column_options@.len()
            &&& forall|i: int|
                0 <= i < made.fields@.len() ==> call_ensures(
                    to_parquet_type,
                    (&schema@[i], &column_options@[i]),
                    Ok(#[trigger] made.fields@[i]),
                )
        },
        descriptor matches Err(error) ==> exists|i: int|
            #[trigger] fails_first_at(to_parquet_type, schema@, column_options@, i, error),
{
    let mut fields: Vec<P> = Vec::new();
    let mut i: usize = 0;
    while i < schema.len() && i < column_options.len()
        invariant
            i <= schema@.len(),
            i <= column_options@.len(),
            fields@.len() == i,
            forall|k: int|
                0 <= k < paired(schema@, column_options@) ==> #[trigger] call_requires(
                    to_parquet_type,
                    (&schema@[k], &column_options@[k]),
                ),
            forall|k: int|
                0 <= k < i ==> call_ensures(
                    to_parquet_type,
                    (&schema@[k], &column_options@[k]),
                    Ok(#[trigger] fields@[k]),
                ),
        decreases schema@.len() - i,
    {
        assert(call_requires(to_parquet_type, (&schema@[i as int], &column_options@[i as int])));
        match to_parquet_type(&schema[i], &column_options[i]) {
            Ok(parquet_type) => {
                fields.push(parquet_type);
            },
            Err(error) => {
                assert forall|k: int| 0 <= k < i implies #[trigger] may_have_type(
                    to_parquet_type,
                    schema@[k],
                    column_options@[k],
                ) by {
                    assert(call_ensures(
                        to_parquet_type,
                        (&schema@[k], &column_options@[k]),
                        Ok(fields@[k]),
                    ));
                }
                let refused: Result<SchemaDescriptor<P>, E> = Err(error);
                assert(fails_first_at(
                    to_parquet_type,
                    schema@,
                    column_options@,
                    i as int,
                    refused->Err_0,
                ));
                return refused;
            },
        }
        i = i + 1;
    }
    Ok(SchemaDescriptor { name: "root".to_owned(), fields })
}

/// The column that is named by a failure has both a field and options, cannot be given a type for
/// this reason, and every column before it can be given one.
pub proof fn law_first_failure<P, E, F: Fn(&Field, &ColumnWriteOptions) -> Result<P, E>>(
    to_parquet_type: F,
    fields: Seq<Field>,
    options: Seq<ColumnWriteOptions>,
    i: int,
    error: E,
    k: int,
)
    requires
        fails_first_at(to_parquet_type, fields, options, i, error),
    ensures
        0 <= i < fields.len(),
        i < options.len(),
        call_ensures(to_parquet_type, (&fields[i], &options[i]), Err::<P, E>(error)),
        0 <= k < i ==> exists|parquet_type: P|
            call_ensures(
                to_parquet_type,
                (&fields[k], &options[k]),
                Ok::<P, E>(parquet_type),
            ),
{
    if 0 <= k < i {
        assert(may_have_type(to_parquet_type, fields[k], options[k]));
    }
}

} // verus!
