//! From a type to its Parquet columns.

use vstd::prelude::*;

use crate::datatype::{DataType, Field};

verus! {

/// The Parquet columns of `dtype`, each by its type, in order. A type that is itself a column
/// is listed as `shown`: that is how it appears with the extensions around it.
pub open spec fn columns_shown_as(dtype: DataType, shown: DataType) -> Seq<DataType>
    decreases dtype, 0nat,
{
    match dtype {
        DataType::Extension(ext) => columns_shown_as(ext.inner, shown),
        DataType::List(field) => columns_shown_as(field.dtype, field.dtype),
        DataType::LargeList(field) => columns_shown_as(field.dtype, field.dtype),
        DataType::FixedSizeList(field, _) => columns_shown_as(field.dtype, field.dtype),
        DataType::Struct(fields) => columns_of_fields(fields@, fields@.len()),
        DataType::MapEntries(field, _) => columns_of_entries(field.dtype),
        _ => seq![shown],
    }
}

/// The Parquet columns of the first `n` of `fields`, in order.
pub open spec fn columns_of_fields(fields: Seq<Field>, n: nat) -> Seq<DataType>
    decreases fields, n,
{
    if n == 0 || n > fields.len() {
        Seq::empty()
    } else {
        let field = fields[n - 1];
        columns_of_fields(fields, (n - 1) as nat) + columns_shown_as(field.dtype, field.dtype)
    }
}

/// The Parquet columns of the entries of a map.
pub open spec fn columns_of_entries(dtype: DataType) -> Seq<DataType>
    decreases dtype, 0nat,
{
    match dtype {
        DataType::Extension(ext) => columns_of_entries(ext.inner),
        DataType::Struct(fields) => columns_of_fields(fields@, fields@.len()),
        _ => Seq::empty(),
    }
}

/// The Parquet columns of `dtype`, each by its type, in order.
pub open spec fn columns(dtype: DataType) -> Seq<DataType> {
    columns_shown_as(dtype, dtype)
}

/// Whether `dtype` has Parquet columns: no union and no unknown type stands in it, and the
/// entries of each map are a struct.
pub open spec fn has_columns(dtype: DataType) -> bool
    decreases dtype, 0nat,
{
    match dtype {
        DataType::Extension(ext) => has_columns(ext.inner),
        DataType::List(field) => has_columns(field.dtype),
        DataType::LargeList(field) => has_columns(field.dtype),
        DataType::FixedSizeList(field, _) => has_columns(field.dtype),
        DataType::Struct(fields) => fields_have_columns(fields@, fields@.len()),
        DataType::MapEntries(field, _) => entries_have_columns(field.dtype),
        DataType::Union(_) | DataType::Unknown => false,
        _ => true,
    }
}

/// Whether the first `n` of `fields` have Parquet columns.
pub open spec fn fields_have_columns(fields: Seq<Field>, n: nat) -> bool
    decreases fields, n,
{
    if n == 0 || n > fields.len() {
        true
    } else {
        fields_have_columns(fields, (n - 1) as nat) && has_columns(fields[n - 1].dtype)
    }
}

/// Whether `dtype` is a struct, below its extensions, whose members have Parquet columns.
pub open spec fn entries_have_columns(dtype: DataType) -> bool
    decreases dtype, 0nat,
{
    match dtype {
        DataType::Extension(ext) => entries_have_columns(ext.inner),
        DataType::Struct(fields) => fields_have_columns(fields@, fields@.len()),
        _ => false,
    }
}

/// Whether `map` takes each type of `types`.
pub open spec fn takes_all<T, F: Fn(&DataType) -> T>(map: F, types: Seq<DataType>) -> bool {
    forall|i: int| 0 <= i < types.len() ==> call_requires(map, (&#[trigger] types[i],))
}

/// Whether `items` are what `map` gives for `types`, one for one.
pub open spec fn are_images<T, F: Fn(&DataType) -> T>(
    map: F,
    types: Seq<DataType>,
    items: Seq<T>,
) -> bool {
    &&& items.len() == types.len()
    &&& forall|i: int|
        0 <= i < types.len() ==> call_ensures(map, (&types[i],), #[trigger] items[i])
}

/// Whether `after` is `before` followed by what `map` gives for `types`.
pub open spec fn extends_by_images<T, F: Fn(&DataType) -> T>(
    map: F,
    types: Seq<DataType>,
    before: Seq<T>,
    after: Seq<T>,
) -> bool {
    &&& after.len() == before.len() + types.len()
    &&& after.take(before.len() as int) == before
    &&& are_images(map, types, after.skip(before.len() as int))
}

proof fn lemma_extend_twice<T, F: Fn(&DataType) -> T>(
    map: F,
    types: Seq<DataType>,
    more_types: Seq<DataType>,
    before: Seq<T>,
    middle: Seq<T>,
    after: Seq<T>,
)
    requires
        extends_by_images(map, types, before, middle),
        extends_by_images(map, more_types, middle, after),
    ensures
        extends_by_images(map, types + more_types, before, after),
{
    assert(after.take(before.len() as int) =~= after.take(middle.len() as int).take(
        before.len() as int,
    ));
    let all = after.skip(before.len() as int);
    assert forall|i: int| 0 <= i < types.len() + more_types.len() implies call_ensures(
        map,
        (&(types + more_types)[i],),
        #[trigger] all[i],
    ) by {
        if i < types.len() {
            assert(all[i] == after.take(middle.len() as int)[before.len() + i]);
            assert(all[i] == middle.skip(before.len() as int)[i]);
        } else {
            assert(all[i] == after.skip(middle.len() as int)[i - types.len()]);
        }
    }
}

/// The columns of some leading members are a beginning of the columns of all.
proof fn lemma_columns_of_fields_prefix(fields: Seq<Field>, m: nat, n: nat)
    requires
        m <= n <= fields.len(),
        fields_have_columns(fields, n),
    ensures
        fields_have_columns(fields, m),
        columns_of_fields(fields, m).len() <= columns_of_fields(fields, n).len(),
        columns_of_fields(fields, m) == columns_of_fields(fields, n).take(
            columns_of_fields(fields, m).len() as int,
        ),
    decreases n,
{
    if m < n {
        lemma_columns_of_fields_prefix(fields, m, (n - 1) as nat);
    }
    assert(columns_of_fields(fields, m) =~= columns_of_fields(fields, n).take(
        columns_of_fields(fields, m).len() as int,
    ));
}

fn transverse_fields<T, F: Fn(&DataType) -> T>(
    fields: &Vec<Field>,
    map: &F,
    encodings: &mut Vec<T>,
)
    requires
        fields_have_columns(fields@, fields@.len()),
        takes_all(*map, columns_of_fields(fields@, fields@.len())),
    ensures
        extends_by_images(
            *map,
            columns_of_fields(fields@, fields@.len()),
            old(encodings)@,
            final(encodings)@,
        ),
    decreases fields@, 1nat,
{
    let mut i: usize = 0;
    assert(encodings@.take(encodings@.len() as int) =~= encodings@);
    while i < fields.len()
        invariant
            i <= fields@.len(),
            fields_have_columns(fields@, fields@.len()),
            takes_all(*map, columns_of_fields(fields@, fields@.len())),
            extends_by_images(
                *map,
                columns_of_fields(fields@, i as nat),
                old(encodings)@,
                encodings@,
            ),
        decreases fields@.len() - i,
    {
        let ghost middle = encodings@;
        let ghost here = columns(fields@[i as int].dtype);
        proof {
            lemma_columns_of_fields_prefix(fields@, (i + 1) as nat, fields@.len());
            let upto = columns_of_fields(fields@, (i + 1) as nat);
            let all = columns_of_fields(fields@, fields@.len());
            let earlier = columns_of_fields(fields@, i as nat);
            assert forall|k: int| 0 <= k < here.len() implies call_requires(
                *map,
                (&#[trigger] here[k],),
            ) by {
                assert(here[k] == upto[earlier.len() + k]);
                assert(here[k] == all[earlier.len() + k]);
            }
        }
        transverse_recursive(&fields[i].dtype, &fields[i].dtype, map, encodings);
        proof {
            lemma_extend_twice(
                *map,
                columns_of_fields(fields@, i as nat),
                here,
                old(encodings)@,
                middle,
                encodings@,
            );
        }
        i = i + 1;
    }
}

fn transverse_entries<T, F: Fn(&DataType) -> T>(
    dtype: &DataType,
    map: &F,
    encodings: &mut Vec<T>,
)
    requires
        entries_have_columns(*dtype),
        takes_all(*map, columns_of_entries(*dtype)),
    ensures
        extends_by_images(
            *map,
            columns_of_entries(*dtype),
            old(encodings)@,
            final(encodings)@,
        ),
    decreases dtype, 0nat,
{
    match dtype {
        DataType::Extension(ext) => transverse_entries(&ext.inner, map, encodings),
        DataType::Struct(fields) => transverse_fields(fields, map, encodings),
        _ => {},
    }
}

/// Appends what `map` gives for each column of `dtype`. Where `dtype` is itself a column, `map`
/// is asked about `shown`.
fn transverse_recursive<T, F: Fn(&DataType) -> T>(
    dtype: &DataType,
    shown: &DataType,
    map: &F,
    encodings: &mut Vec<T>,
)
    requires
        has_columns(*dtype),
        takes_all(*map, columns_shown_as(*dtype, *shown)),
    ensures
        extends_by_images(
            *map,
            columns_shown_as(*dtype, *shown),
            old(encodings)@,
            final(encodings)@,
        ),
    decreases dtype, 0nat,
{
    match dtype {
        DataType::Extension(ext) => transverse_recursive(&ext.inner, shown, map, encodings),
        DataType::List(field)
        | DataType::LargeList(field) => transverse_recursive(
            &field.dtype,
            &field.dtype,
            map,
            encodings,
        ),
        DataType::FixedSizeList(field, _) => transverse_recursive(
            &field.dtype,
            &field.dtype,
            map,
            encodings,
        ),
        DataType::Struct(fields) => transverse_fields(fields, map, encodings),
        DataType::MapEntries(field, _) => transverse_entries(&field.dtype, map, encodings),
        _ => {
            let ghost only = columns_shown_as(*dtype, *shown);
            assert(only[0] == *shown);
            encodings.push(map(shown));
            assert(encodings@.take(old(encodings)@.len() as int) =~= old(encodings)@);
        },
    }
}

/// Traverses the `dtype` up to its (Parquet) columns and returns a vector of items based on
/// `map`.
///
/// This is used to assign an encoding to every Parquet column based on the column's type.
pub fn transverse<T, F: Fn(&DataType) -> T>(dtype: &DataType, map: F) -> (encodings: Vec<T>)
    requires
        has_columns(*dtype),
        takes_all(map, columns(*dtype)),
    ensures
        are_images(map, columns(*dtype), encodings@),
        encodings@.len() == columns(*dtype).len(),
        forall|i: int|
            0 <= i < encodings@.len() ==> call_ensures(
                map,
                (&columns(*dtype)[i],),
                #[trigger] encodings@[i],
            ),
{
    let mut encodings: Vec<T> = Vec::new();
    transverse_recursive(dtype, dtype, &map, &mut encodings);
    assert(encodings@.skip(0) =~= encodings@);
    encodings
}

/// A type that holds others is no column: the columns of lists are those of their items, an
/// extension of a type that holds others has the columns of that, and any other type is its own
/// only column.
pub proof fn law_columns_by_type(dtype: DataType)
    ensures
        match dtype {
            DataType::List(field) => columns(dtype) == columns(field.dtype),
            DataType::LargeList(field) => columns(dtype) == columns(field.dtype),
            DataType::FixedSizeList(field, _) => columns(dtype) == columns(field.dtype),
            DataType::Struct(_) | DataType::MapEntries(_, _) => true,
            DataType::Extension(ext) => if is_leaf(dtype.storage()) {
                columns(dtype) == seq![dtype]
            } else {
                columns(dtype) == columns(ext.inner)
            },
            _ => columns(dtype) == seq![dtype],
        },
{
    if let DataType::Extension(ext) = dtype {
        lemma_columns_below_extensions(ext.inner, dtype);
        lemma_columns_below_extensions(ext.inner, ext.inner);
    }
}

/// Whether a type below all extensions holds no others.
pub open spec fn is_leaf(dtype: DataType) -> bool {
    !(dtype is List || dtype is LargeList || dtype is FixedSizeList || dtype is Struct || dtype
        is MapEntries)
}

/// What stands around a type that holds others does not show in its columns, and a type that holds
/// none is shown as what stands around it.
proof fn lemma_columns_below_extensions(dtype: DataType, shown: DataType)
    ensures
        is_leaf(dtype.storage()) ==> columns_shown_as(dtype, shown) == seq![shown],
        !is_leaf(dtype.storage()) ==> columns_shown_as(dtype, shown) == columns(dtype.storage()),
    decreases dtype,
{
    if let DataType::Extension(ext) = dtype {
        lemma_columns_below_extensions(ext.inner, shown);
    }
}

/// Every column of a type holds no others below its extensions.
pub proof fn law_columns_are_leaves(dtype: DataType, i: int)
    requires
        0 <= i < columns(dtype).len(),
    ensures
        is_leaf(columns(dtype)[i].storage()),
{
    lemma_columns_are_leaves(dtype, dtype, i);
}

proof fn lemma_columns_are_leaves(dtype: DataType, shown: DataType, i: int)
    requires
        dtype.storage() == shown.storage(),
        0 <= i < columns_shown_as(dtype, shown).len(),
    ensures
        is_leaf(columns_shown_as(dtype, shown)[i].storage()),
    decreases dtype, 0nat,
{
    match dtype {
        DataType::Extension(ext) => lemma_columns_are_leaves(ext.inner, shown, i),
        DataType::List(field) => lemma_columns_are_leaves(field.dtype, field.dtype, i),
        DataType::LargeList(field) => lemma_columns_are_leaves(field.dtype, field.dtype, i),
        DataType::FixedSizeList(field, _) => lemma_columns_are_leaves(field.dtype, field.dtype, i),
        DataType::Struct(fields) => lemma_member_columns_are_leaves(fields@, fields@.len(), i),
        DataType::MapEntries(field, _) => lemma_entry_columns_are_leaves(field.dtype, i),
        _ => {},
    }
}

proof fn lemma_entry_columns_are_leaves(dtype: DataType, i: int)
    requires
        0 <= i < columns_of_entries(dtype).len(),
    ensures
        is_leaf(columns_of_entries(dtype)[i].storage()),
    decreases dtype, 0nat,
{
    match dtype {
        DataType::Extension(ext) => lemma_entry_columns_are_leaves(ext.inner, i),
        DataType::Struct(fields) => lemma_member_columns_are_leaves(fields@, fields@.len(), i),
        _ => {},
    }
}

proof fn lemma_member_columns_are_leaves(fields: Seq<Field>, n: nat, i: int)
    requires
        0 <= i < columns_of_fields(fields, n).len(),
    ensures
        is_leaf(columns_of_fields(fields, n)[i].storage()),
    decreases fields, n,
{
    if n > 0 && n <= fields.len() {
        let before = columns_of_fields(fields, (n - 1) as nat);
        let field = fields[n - 1];
        if i < before.len() {
            lemma_member_columns_are_leaves(fields, (n - 1) as nat, i);
        } else {
            lemma_columns_are_leaves(field.dtype, field.dtype, i - before.len());
        }
    }
}

/// The columns of a struct, and of a map whose entries are one, are those of its members, one
/// member after the other and none left out: the columns of member `i` begin where those of the
/// members before it end.
pub proof fn law_members_have_their_columns(fields: Vec<Field>, i: int)
    requires
        0 <= i < fields@.len(),
    ensures
        ({
            let all = columns(DataType::Struct(fields));
            let start = columns_of_fields(fields@, i as nat).len() as int;
            let end = columns_of_fields(fields@, (i + 1) as nat).len() as int;
            &&& 0 <= start <= end <= all.len()
            &&& all.subrange(start, end) == columns(fields@[i].dtype)
            &&& i == 0 ==> start == 0
            &&& i == fields@.len() - 1 ==> end == all.len()
        }),
{
    lemma_members_columns(fields@, i, fields@.len());
}

proof fn lemma_members_columns(fields: Seq<Field>, i: int, n: nat)
    requires
        0 <= i < n <= fields.len(),
    ensures
        ({
            let all = columns_of_fields(fields, n);
            let start = columns_of_fields(fields, i as nat).len() as int;
            let end = columns_of_fields(fields, (i + 1) as nat).len() as int;
            &&& 0 <= start <= end <= all.len()
            &&& all.subrange(start, end) == columns(fields[i].dtype)
        }),
    decreases n,
{
    let all = columns_of_fields(fields, n);
    let start = columns_of_fields(fields, i as nat).len() as int;
    let end = columns_of_fields(fields, (i + 1) as nat).len() as int;
    if i < n - 1 {
        lemma_members_columns(fields, i, (n - 1) as nat);
        let before = columns_of_fields(fields, (n - 1) as nat);
        assert(all.subrange(start, end) =~= before.subrange(start, end));
    } else {
        assert(all.subrange(start, end) =~= columns(fields[i].dtype));
    }
}

/// A map has the columns of its entries.
pub proof fn law_maps_have_columns_of_entries(dtype: DataType, field: Field, sorted: bool)
    requires
        dtype == DataType::MapEntries(Box::new(field), sorted),
        field.dtype.storage() is Struct,
    ensures
        columns(dtype) == columns(field.dtype.storage()),
{
    lemma_entries_below_extensions(field.dtype);
}

proof fn lemma_entries_below_extensions(dtype: DataType)
    requires
        dtype.storage() is Struct,
    ensures
        columns_of_entries(dtype) == columns(dtype.storage()),
    decreases dtype,
{
    if let DataType::Extension(ext) = dtype {
        lemma_entries_below_extensions(ext.inner);
    }
}

} // verus!
