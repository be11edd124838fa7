//! Write options of a column and of the fields below it.

use vstd::prelude::*;

use crate::options::Encoding;

verus! {

/// An entry of the metadata of a column.
#[derive(Debug, PartialEq, Eq)]
pub struct KeyValue {
    pub key: String,
    pub value: Option<String>,
}

/// How to write a column.
#[derive(Debug)]
pub struct ColumnWriteOptions {
    pub field_id: Option<i32>,
    pub metadata: Vec<KeyValue>,
    pub required: Option<bool>,
    pub children: ChildWriteOptions,
}

/// How to write what lies below a column.
#[derive(Debug)]
pub enum ChildWriteOptions {
    Leaf(FieldWriteOptions),
    ListLike(Box<ListLikeFieldWriteOptions>),
    Struct(Box<StructFieldWriteOptions>),
}

/// How to write the values of a leaf.
#[derive(Debug, Clone, Copy, PartialEq, Eq, Structural)]
pub struct FieldWriteOptions {
    pub encoding: Encoding,
}

/// How to write the items of a list.
#[derive(Debug)]
pub struct ListLikeFieldWriteOptions {
    pub child: ColumnWriteOptions,
}

/// How to write the members of a struct.
#[derive(Debug)]
pub struct StructFieldWriteOptions {
    pub children: Vec<ColumnWriteOptions>,
}

/// The leaves below `options`, in order.
pub open spec fn leaves<'a>(options: &ColumnWriteOptions) -> Seq<&'a FieldWriteOptions>
    decreases options, 0nat,
{
    match options.children {
        ChildWriteOptions::Leaf(leaf) => seq![&leaf],
        ChildWriteOptions::ListLike(list) => leaves(&list.child),
        ChildWriteOptions::Struct(group) => leaves_of(group.children@, group.children@.len()),
    }
}

/// The leaves below the first `n` of `columns`, in order.
pub open spec fn leaves_of<'a>(
    columns: Seq<ColumnWriteOptions>,
    n: nat,
) -> Seq<&'a FieldWriteOptions>
    decreases columns, n,
{
    if n == 0 || n > columns.len() {
        Seq::empty()
    } else {
        leaves_of(columns, (n - 1) as nat) + leaves(&columns[n - 1])
    }
}

/// Appends the leaves below `columns`.
fn push_leaves_of<'a>(columns: &'a Vec<ColumnWriteOptions>, out: &mut Vec<&'a FieldWriteOptions>)
    ensures
        final(out)@ == old(out)@ + leaves_of(columns@, columns@.len()),
    decreases columns@, 1nat,
{
    let mut i: usize = 0;
    assert(out@ =~= old(out)@ + leaves_of(columns@, 0));
    while i < columns.len()
        invariant
            i <= columns@.len(),
            out@ == old(out)@ + leaves_of(columns@, i as nat),
        decreases columns@.len() - i,
    {
        columns[i].to_leaves(out);
        i = i + 1;
        assert(out@ =~= old(out)@ + leaves_of(columns@, i as nat));
    }
}

impl ColumnWriteOptions {
    /// Appends the leaves below the column.
    pub fn to_leaves<'a>(&'a self, out: &mut Vec<&'a FieldWriteOptions>)
        ensures
            final(out)@ == old(out)@ + leaves(self),
        decreases self, 0nat,
    {
        match &self.children {
            ChildWriteOptions::Leaf(o) => {
                out.push(o);
                assert(out@ =~= old(out)@ + leaves(self));
            },
            ChildWriteOptions::ListLike(o) => o.child.to_leaves(out),
            ChildWriteOptions::Struct(o) => push_leaves_of(&o.children, out),
        }
    }

    /// A column with nothing set but what lies below it.
    pub fn default_with(children: ChildWriteOptions) -> (options: Self)
        ensures
            options.field_id is None,
            options.metadata@.len() == 0,
            options.required is None,
            options.children == children,
    {
        Self { field_id: None, metadata: Vec::new(), required: None, children }
    }
}

impl FieldWriteOptions {
    pub fn default_with_encoding(encoding: Encoding) -> (options: Self)
        ensures
            options.encoding == encoding,
    {
        Self { encoding }
    }

    /// A column of one leaf, with nothing else set.
    pub fn into_default_column_write_options(self) -> (options: ColumnWriteOptions)
        ensures
            options.field_id is None,
            options.metadata@.len() == 0,
            options.required is None,
            options.children == ChildWriteOptions::Leaf(self),
    {
        ColumnWriteOptions::default_with(ChildWriteOptions::Leaf(self))
    }
}

/// Whether two entries say the same.
pub open spec fn same_entry(one: KeyValue, other: KeyValue) -> bool {
    one.key@ == other.key@ && match (one.value, other.value) {
        (Some(value), Some(more)) => value@ == more@,
        (None, None) => true,
        _ => false,
    }
}

/// Whether two columns have the same options, all the way down.
pub open spec fn same_column(one: ColumnWriteOptions, other: ColumnWriteOptions) -> bool
    decreases one, 0nat,
{
    &&& one.field_id == other.field_id
    &&& one.required == other.required
    &&& one.metadata@.len() == other.metadata@.len()
    &&& forall|i: int|
        #![trigger one.metadata@[i]]
        0 <= i < one.metadata@.len() ==> same_entry(one.metadata@[i], other.metadata@[i])
    &&& same_child(one.children, other.children)
}

/// Whether what lies below two columns has the same options, all the way down.
pub open spec fn same_child(one: ChildWriteOptions, other: ChildWriteOptions) -> bool
    decreases one, 0nat,
{
    match (one, other) {
        (ChildWriteOptions::Leaf(leaf), ChildWriteOptions::Leaf(more)) => leaf == more,
        (ChildWriteOptions::ListLike(list), ChildWriteOptions::ListLike(more)) => same_column(
            list.child,
            more.child,
        ),
        (ChildWriteOptions::Struct(group), ChildWriteOptions::Struct(more)) => {
            &&& group.children@.len() == more.children@.len()
            &&& same_columns(group.children@, more.children@, group.children@.len())
        },
        _ => false,
    }
}

/// Whether the first `n` columns have the same options.
pub open spec fn same_columns(
    one: Seq<ColumnWriteOptions>,
    other: Seq<ColumnWriteOptions>,
    n: nat,
) -> bool
    decreases one, n,
{
    if n == 0 || n > one.len() {
        true
    } else {
        same_columns(one, other, (n - 1) as nat) && same_column(one[n - 1], other[n - 1])
    }
}

/// Copies of entries.
fn copy_metadata(metadata: &Vec<KeyValue>) -> (copy: Vec<KeyValue>)
    ensures
        copy@.len() == metadata@.len(),
        forall|i: int|
            #![trigger metadata@[i]]
            0 <= i < metadata@.len() ==> same_entry(metadata@[i], copy@[i]),
{
    let mut copy: Vec<KeyValue> = Vec::new();
    let mut i: usize = 0;
    while i < metadata.len()
        invariant
            i <= metadata@.len(),
            copy@.len() == i,
            forall|k: int|
                #![trigger metadata@[k]]
                0 <= k < i ==> same_entry(metadata@[k], copy@[k]),
        decreases metadata@.len() - i,
    {
        let value: Option<String> = match &metadata[i].value {
            Some(value) => Some(value.clone()),
            None => None,
        };
        copy.push(KeyValue { key: metadata[i].key.clone(), value });
        i = i + 1;
    }
    copy
}

/// A copy of the options of a column.
fn copy_column(column: &ColumnWriteOptions) -> (copy: ColumnWriteOptions)
    ensures
        same_column(*column, copy),
    decreases column, 0nat,
{
    ColumnWriteOptions {
        field_id: column.field_id,
        metadata: copy_metadata(&column.metadata),
        required: column.required,
        children: copy_child(&column.children),
    }
}

/// A copy of the options of what lies below a column.
fn copy_child(child: &ChildWriteOptions) -> (copy: ChildWriteOptions)
    ensures
        same_child(*child, copy),
    decreases child, 0nat,
{
    match child {
        ChildWriteOptions::Leaf(leaf) => ChildWriteOptions::Leaf(*leaf),
        ChildWriteOptions::ListLike(list) => ChildWriteOptions::ListLike(
            Box::new(ListLikeFieldWriteOptions { child: copy_column(&list.child) }),
        ),
        ChildWriteOptions::Struct(group) => ChildWriteOptions::Struct(
            Box::new(StructFieldWriteOptions { children: copy_columns(&group.children) }),
        ),
    }
}

/// Copies of the options of columns.
fn copy_columns(columns: &Vec<ColumnWriteOptions>) -> (copy: Vec<ColumnWriteOptions>)
    ensures
        copy@.len() == columns@.len(),
        same_columns(columns@, copy@, columns@.len()),
    decreases columns@, 1nat,
{
    let mut copy: Vec<ColumnWriteOptions> = Vec::new();
    let mut i: usize = 0;
    while i < columns.len()
        invariant
            i <= columns@.len(),
            copy@.len() == i,
            same_columns(columns@, copy@, i as nat),
        decreases columns@.len() - i,
    {
        let ghost before = copy@;
        copy.push(copy_column(&columns[i]));
        proof {
            lemma_same_columns_prefix(columns@, before, copy@, i as nat);
        }
        i = i + 1;
    }
    copy
}

/// What follows the first `n` columns does not matter to them.
proof fn lemma_same_columns_prefix(
    one: Seq<ColumnWriteOptions>,
    other: Seq<ColumnWriteOptions>,
    more: Seq<ColumnWriteOptions>,
    n: nat,
)
    requires
        n <= other.len() <= more.len(),
        n <= one.len(),
        forall|i: int| 0 <= i < n ==> #[trigger] other[i] == more[i],
        same_columns(one, other, n),
    ensures
        same_columns(one, more, n),
    decreases n,
{
    if n > 0 {
        assert(other[n - 1] == more[n - 1]);
        lemma_same_columns_prefix(one, other, more, (n - 1) as nat);
    }
}

impl Clone for ColumnWriteOptions {
    fn clone(&self) -> (copy: Self)
        ensures
            same_column(*self, copy),
    {
        copy_column(self)
    }
}

impl Clone for ChildWriteOptions {
    fn clone(&self) -> (copy: Self)
        ensures
            same_child(*self, copy),
    {
        copy_child(self)
    }
}

impl Clone for ListLikeFieldWriteOptions {
    fn clone(&self) -> (copy: Self)
        ensures
            same_column(self.child, copy.child),
    {
        Self { child: copy_column(&self.child) }
    }
}

impl Clone for StructFieldWriteOptions {
    fn clone(&self) -> (copy: Self)
        ensures
            copy.children@.len() == self.children@.len(),
            same_columns(self.children@, copy.children@, self.children@.len()),
    {
        Self { children: copy_columns(&self.children) }
    }
}

/// Columns with the same options have the same leaves: a copy keeps them.
pub proof fn law_same_options_same_leaves(one: ColumnWriteOptions, other: ColumnWriteOptions)
    requires
        same_column(one, other),
    ensures
        leaves(&one) == leaves(&other),
    decreases one, 0nat,
{
    match (one.children, other.children) {
        (ChildWriteOptions::ListLike(list), ChildWriteOptions::ListLike(more)) => {
            law_same_options_same_leaves(list.child, more.child);
        },
        (ChildWriteOptions::Struct(group), ChildWriteOptions::Struct(more)) => {
            lemma_same_leaves(group.children@, more.children@, group.children@.len());
        },
        _ => {},
    }
}

proof fn lemma_same_leaves(
    one: Seq<ColumnWriteOptions>,
    other: Seq<ColumnWriteOptions>,
    n: nat,
)
    requires
        one.len() == other.len(),
        n <= one.len(),
        same_columns(one, other, n),
    ensures
        leaves_of(one, n) == leaves_of(other, n),
    decreases one, n,
{
    if n > 0 {
        lemma_same_leaves(one, other, (n - 1) as nat);
        law_same_options_same_leaves(one[n - 1], other[n - 1]);
    }
}

/// A leaf is its own only leaf, and a list has the leaves of its items.
pub proof fn law_leaves_by_kind(options: ColumnWriteOptions)
    ensures
        options.children matches ChildWriteOptions::Leaf(leaf) ==> leaves(&options).len() == 1
            && leaves(&options)[0] == &leaf,
        options.children matches ChildWriteOptions::ListLike(list) ==> leaves(&options) == leaves(
            &list.child,
        ),
{
}

/// The leaves of a struct are those of its members, one member after the other and none left out:
/// the leaves of member `i` begin where those of the members before it end.
pub proof fn law_members_have_their_leaves(
    options: ColumnWriteOptions,
    group: Box<StructFieldWriteOptions>,
    i: int,
)
    requires
        options.children == ChildWriteOptions::Struct(group),
        0 <= i < group.children@.len(),
    ensures
        ({
            let all = leaves(&options);
            let start = leaves_of(group.children@, i as nat).len() as int;
            let end = leaves_of(group.children@, (i + 1) as nat).len() as int;
            &&& 0 <= start <= end <= all.len()
            &&& all.subrange(start, end) == leaves(&group.children@[i])
            &&& i == 0 ==> start == 0
            &&& i == group.children@.len() - 1 ==> end == all.len()
        }),
{
    lemma_members_leaves(group.children@, i, group.children@.len());
}

proof fn lemma_members_leaves(columns: Seq<ColumnWriteOptions>, i: int, n: nat)
    requires
        0 <= i < n <= columns.len(),
    ensures
        ({
            let all = leaves_of(columns, n);
            let start = leaves_of(columns, i as nat).len() as int;
            let end = leaves_of(columns, (i + 1) as nat).len() as int;
            &&& 0 <= start <= end <= all.len()
            &&& all.subrange(start, end) == leaves(&columns[i])
        }),
    decreases n,
{
    let all = leaves_of(columns, n);
    let start = leaves_of(columns, i as nat).len() as int;
    let end = leaves_of(columns, (i + 1) as nat).len() as int;
    if i < n - 1 {
        lemma_members_leaves(columns, i, (n - 1) as nat);
        let before = leaves_of(columns, (n - 1) as nat);
        assert(all.subrange(start, end) =~= before.subrange(start, end));
    } else {
        assert(all.subrange(start, end) =~= leaves(&columns[i]));
    }
}

/// A copy has all that the options of a column say: the same number of the field, the same entries
/// one by one, and the same below it, member by member.
pub proof fn law_copies_say_the_same(one: ColumnWriteOptions, other: ColumnWriteOptions, i: int)
    requires
        same_column(one, other),
    ensures
        one.field_id == other.field_id,
        one.required == other.required,
        one.metadata@.len() == other.metadata@.len(),
        0 <= i < one.metadata@.len() ==> {
            &&& one.metadata@[i].key@ == other.metadata@[i].key@
            &&& one.metadata@[i].value is Some <==> other.metadata@[i].value is Some
            &&& one.metadata@[i].value matches Some(value) ==> value@ == (
            other.metadata@[i].value->0)@
        },
        one.children matches ChildWriteOptions::Leaf(leaf) ==> (
        other.children matches ChildWriteOptions::Leaf(more) && more.encoding == leaf.encoding),
        one.children matches ChildWriteOptions::ListLike(list) ==> (
        other.children matches ChildWriteOptions::ListLike(more) && same_column(
            list.child,
            more.child,
        )),
        one.children matches ChildWriteOptions::Struct(group) ==> (
        other.children matches ChildWriteOptions::Struct(more) && {
            &&& group.children@.len() == more.children@.len()
            &&& 0 <= i < group.children@.len() ==> same_column(
                group.children@[i],
                more.children@[i],
            )
        }),
{
    if let ChildWriteOptions::Struct(group) = one.children {
        if let ChildWriteOptions::Struct(more) = other.children {
            if 0 <= i < group.children@.len() {
                lemma_same_member(group.children@, more.children@, group.children@.len(), i);
            }
        }
    }
}

proof fn lemma_same_member(
    one: Seq<ColumnWriteOptions>,
    other: Seq<ColumnWriteOptions>,
    n: nat,
    i: int,
)
    requires
        0 <= i < n <= one.len(),
        same_columns(one, other, n),
    ensures
        same_column(one[i], other[i]),
    decreases n,
{
    if i < n - 1 {
        lemma_same_member(one, other, (n - 1) as nat, i);
    }
}

} // verus!
