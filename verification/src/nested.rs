//! The levels of nesting above a leaf column.

use vstd::prelude::*;

use crate::array::{copy_mask, copy_range, mask, mask_slice, slice_mask};
use crate::array::{law_slices_join, lemma_slice_is_whole, ArrayView, ColumnArray};

verus! {

/// The level of the leaf values.
#[derive(Debug, PartialEq, Eq)]
pub struct PrimitiveNested {
    pub is_optional: bool,
    pub validity: Option<Vec<bool>>,
    pub length: usize,
}

/// A level of lists. List `i` has the items from `offsets[i]` up to `offsets[i + 1]`.
#[derive(Debug, PartialEq, Eq)]
pub struct ListNested<O> {
    pub is_optional: bool,
    pub offsets: Vec<O>,
    pub validity: Option<Vec<bool>>,
}

/// A level of lists of `width` items each.
#[derive(Debug, PartialEq, Eq)]
pub struct FixedSizeListNested {
    pub is_optional: bool,
    pub validity: Option<Vec<bool>>,
    pub width: usize,
    pub length: usize,
}

/// A level of structs.
#[derive(Debug, PartialEq, Eq)]
pub struct StructNested {
    pub is_optional: bool,
    pub validity: Option<Vec<bool>>,
    pub length: usize,
}

/// One level of nesting.
#[derive(Debug, PartialEq, Eq)]
pub enum Nested {
    Primitive(PrimitiveNested),
    List(ListNested<i32>),
    LargeList(ListNested<i64>),
    FixedSizeList(FixedSizeListNested),
    Struct(StructNested),
}

/// What tells the levels apart.
#[derive(Debug, Clone, Copy, PartialEq, Eq, Structural)]
pub enum NestedKind {
    Primitive,
    List,
    LargeList,
    FixedSizeList,
    Struct,
}

/// What a level of nesting is: `offsets` is empty for a level without them, and `width` and
/// `length` are 0 for a level that has offsets or, of the width, that has none.
#[verifier::ext_equal]
pub struct NestedView {
    pub kind: NestedKind,
    pub is_optional: bool,
    pub validity: Option<Seq<bool>>,
    pub offsets: Seq<int>,
    pub width: nat,
    pub length: nat,
}

impl View for Nested {
    type V = NestedView;

    open spec fn view(&self) -> NestedView {
        match self {
            Nested::Primitive(n) => NestedView {
                kind: NestedKind::Primitive,
                is_optional: n.is_optional,
                validity: mask(n.validity),
                offsets: Seq::empty(),
                width: 0,
                length: n.length as nat,
            },
            Nested::List(n) => NestedView {
                kind: NestedKind::List,
                is_optional: n.is_optional,
                validity: mask(n.validity),
                offsets: n.offsets@.map_values(|offset: i32| offset as int),
                width: 0,
                length: 0,
            },
            Nested::LargeList(n) => NestedView {
                kind: NestedKind::LargeList,
                is_optional: n.is_optional,
                validity: mask(n.validity),
                offsets: n.offsets@.map_values(|offset: i64| offset as int),
                width: 0,
                length: 0,
            },
            Nested::FixedSizeList(n) => NestedView {
                kind: NestedKind::FixedSizeList,
                is_optional: n.is_optional,
                validity: mask(n.validity),
                offsets: Seq::empty(),
                width: n.width as nat,
                length: n.length as nat,
            },
            Nested::Struct(n) => NestedView {
                kind: NestedKind::Struct,
                is_optional: n.is_optional,
                validity: mask(n.validity),
                offsets: Seq::empty(),
                width: 0,
                length: n.length as nat,
            },
        }
    }
}

/// What each level is.
pub open spec fn nested_views(nested: Seq<Nested>) -> Seq<NestedView> {
    nested.map_values(|level: Nested| level@)
}

/// Whether these are the offsets of lists: there is one at least, none is negative, and none is
/// less than the one before it.
pub open spec fn are_offsets(offsets: Seq<int>) -> bool {
    &&& offsets.len() > 0
    &&& forall|i: int| 0 <= i < offsets.len() ==> 0 <= #[trigger] offsets[i] <= usize::MAX
    &&& forall|i: int, j: int| 0 <= i <= j < offsets.len() ==> offsets[i] <= offsets[j]
}

impl NestedView {
    /// Whether the level has offsets.
    pub open spec fn has_offsets(self) -> bool {
        self.kind is List || self.kind is LargeList
    }

    /// Whether the level is one of lists.
    pub open spec fn is_list(self) -> bool {
        self.has_offsets() || self.kind is FixedSizeList
    }

    /// Whether the offsets of the level, where it has them, are those of lists.
    pub open spec fn wf(self) -> bool {
        self.has_offsets() ==> are_offsets(self.offsets)
    }

    /// The number of items of the level.
    pub open spec fn len(self) -> int {
        if self.has_offsets() {
            self.offsets.len() - 1
        } else {
            self.length as int
        }
    }

    /// The item of the next level with which item `i` begins.
    pub open spec fn place(self, i: int) -> int {
        if self.has_offsets() {
            self.offsets[i]
        } else if self.kind is FixedSizeList {
            i * self.width
        } else {
            i
        }
    }

    /// Whether the items from `start` up to `end` can be cut out.
    pub open spec fn takes(self, start: int, end: int) -> bool {
        &&& 0 <= start <= end <= usize::MAX
        &&& self.validity matches Some(bits) ==> end <= bits.len()
        &&& self.has_offsets() ==> end < self.offsets.len()
        &&& self.kind is FixedSizeList ==> end * self.width <= usize::MAX
    }

    /// The items from `start` up to `end`.
    pub open spec fn slice(self, start: int, end: int) -> NestedView {
        NestedView {
            validity: mask_slice(self.validity, start, end),
            offsets: if self.has_offsets() {
                self.offsets.subrange(start, end + 1)
            } else {
                self.offsets
            },
            length: if self.has_offsets() {
                self.length
            } else {
                (end - start) as nat
            },
            ..self
        }
    }

    /// The first item of the next level that belongs to this one, and the number of them.
    pub open spec fn window(self) -> (int, int) {
        if self.has_offsets() {
            (self.offsets[0], self.offsets.last() - self.offsets[0])
        } else {
            (0, (self.length * self.width) as int)
        }
    }
}

/// Whether every level is as it has to be.
pub open spec fn levels_wf(nested: Seq<NestedView>) -> bool {
    forall|i: int| 0 <= i < nested.len() ==> (#[trigger] nested[i]).wf()
}

/// The item below all levels with which item `i` of the first one begins.
pub open spec fn place_below(nested: Seq<NestedView>, i: int) -> int
    decreases nested.len(),
{
    if nested.len() == 0 {
        i
    } else {
        nested.last().place(place_below(nested.drop_last(), i))
    }
}

/// The levels with only the rows from `start` up to `end`.
pub open spec fn sliced_levels(nested: Seq<NestedView>, start: int, end: int) -> Seq<NestedView> {
    Seq::new(
        nested.len(),
        |i: int|
            nested[i].slice(
                place_below(nested.take(i), start),
                place_below(nested.take(i), end),
            ),
    )
}

/// The leaf values of the rows from `start` up to `end`.
pub open spec fn sliced_leaf(
    array: ArrayView,
    nested: Seq<NestedView>,
    start: int,
    end: int,
) -> ArrayView
    decreases nested.len(),
{
    if nested.len() == 0 {
        array
    } else {
        let before = nested.drop_last();
        let above = sliced_leaf(array, before, start, end);
        if nested.last().kind is Primitive {
            above.slice(place_below(before, start), place_below(before, end))
        } else {
            above
        }
    }
}

/// Whether the items of level `i` that lie in the rows from `start` up to `end` can be cut out.
pub open spec fn level_sliceable(
    array: ArrayView,
    nested: Seq<NestedView>,
    start: int,
    end: int,
    i: int,
) -> bool {
    let above = nested.take(i);
    &&& nested[i].takes(place_below(above, start), place_below(above, end))
    &&& nested[i].kind is Primitive ==> place_below(above, end) <= sliced_leaf(
        array,
        above,
        start,
        end,
    ).len()
}

/// Whether the rows from `start` up to `end` can be cut out of the levels and the leaf values.
pub open spec fn sliceable(
    array: ArrayView,
    nested: Seq<NestedView>,
    start: int,
    end: int,
) -> bool {
    &&& 0 <= start <= end <= usize::MAX
    &&& forall|i: int|
        #![trigger nested[i]]
        0 <= i < nested.len() ==> level_sliceable(array, nested, start, end, i)
}

impl Nested {
    /// The number of items of the level.
    pub fn len(&self) -> (len: usize)
        requires
            self@.wf(),
        ensures
            len == self@.len(),
    {
        match self {
            Nested::Primitive(n) => n.length,
            Nested::List(n) => n.offsets.len() - 1,
            Nested::LargeList(n) => n.offsets.len() - 1,
            Nested::FixedSizeList(n) => n.length,
            Nested::Struct(n) => n.length,
        }
    }

    /// The items of the level from `offset` on.
    fn slice(&self, offset: usize, length: usize) -> (slice: Nested)
        requires
            self@.takes(offset as int, offset + length),
        ensures
            slice@ == self@.slice(offset as int, offset + length),
    {
        match self {
            Nested::Primitive(n) => Nested::Primitive(
                PrimitiveNested {
                    is_optional: n.is_optional,
                    validity: slice_mask(&n.validity, offset, length),
                    length,
                },
            ),
            Nested::List(n) => {
                assert(self@.offsets.len() == n.offsets.len());
                let offsets: Vec<i32> = copy_range(&n.offsets, offset, length + 1);
                let slice = Nested::List(
                    ListNested {
                        is_optional: n.is_optional,
                        offsets,
                        validity: slice_mask(&n.validity, offset, length),
                    },
                );
                assert(slice@ =~= self@.slice(offset as int, offset + length));
                slice
            },
            Nested::LargeList(n) => {
                assert(self@.offsets.len() == n.offsets.len());
                let offsets: Vec<i64> = copy_range(&n.offsets, offset, length + 1);
                let slice = Nested::LargeList(
                    ListNested {
                        is_optional: n.is_optional,
                        offsets,
                        validity: slice_mask(&n.validity, offset, length),
                    },
                );
                assert(slice@ =~= self@.slice(offset as int, offset + length));
                slice
            },
            Nested::FixedSizeList(n) => Nested::FixedSizeList(
                FixedSizeListNested {
                    is_optional: n.is_optional,
                    validity: slice_mask(&n.validity, offset, length),
                    width: n.width,
                    length,
                },
            ),
            Nested::Struct(n) => Nested::Struct(
                StructNested {
                    is_optional: n.is_optional,
                    validity: slice_mask(&n.validity, offset, length),
                    length,
                },
            ),
        }
    }

    /// Whether the offsets of the level, where it has them, are those of lists.
    pub fn is_wf(&self) -> (is_wf: bool)
        ensures
            is_wf == self@.wf(),
    {
        match self {
            Nested::List(n) => {
                let mut offsets: Vec<i64> = Vec::new();
                let mut i: usize = 0;
                while i < n.offsets.len()
                    invariant
                        i <= n.offsets@.len(),
                        offsets@.len() == i,
                        forall|k: int| 0 <= k < i ==> #[trigger] offsets@[k] == n.offsets@[k],
                    decreases n.offsets@.len() - i,
                {
                    offsets.push(n.offsets[i] as i64);
                    i = i + 1;
                }
                assert(self@.offsets =~= offsets@.map_values(|offset: i64| offset as int));
                check_offsets(&offsets)
            },
            Nested::LargeList(n) => check_offsets(&n.offsets),
            _ => true,
        }
    }

    /// Whether the items from `start` up to `end` can be cut out.
    fn can_take(&self, start: usize, end: usize) -> (can: bool)
        ensures
            can == self@.takes(start as int, end as int),
    {
        let validity: &Option<Vec<bool>> = match self {
            Nested::Primitive(n) => &n.validity,
            Nested::List(n) => &n.validity,
            Nested::LargeList(n) => &n.validity,
            Nested::FixedSizeList(n) => &n.validity,
            Nested::Struct(n) => &n.validity,
        };
        let mask_reaches: bool = match validity {
            Some(bits) => end <= bits.len(),
            None => true,
        };
        let items_reach: bool = match self {
            Nested::List(n) => end < n.offsets.len(),
            Nested::LargeList(n) => end < n.offsets.len(),
            Nested::FixedSizeList(n) => end.checked_mul(n.width).is_some(),
            _ => true,
        };
        start <= end && mask_reaches && items_reach
    }

    /// The item of the next level with which item `i` begins.
    fn place(&self, i: usize) -> (place: usize)
        requires
            self@.wf(),
            self@.has_offsets() ==> i < self@.offsets.len(),
            self@.kind is FixedSizeList ==> i * self@.width <= usize::MAX,
        ensures
            place == self@.place(i as int),
    {
        match self {
            Nested::List(n) => {
                assert(self@.offsets[i as int] == n.offsets@[i as int]);
                n.offsets[i] as usize
            },
            Nested::LargeList(n) => {
                assert(self@.offsets[i as int] == n.offsets@[i as int]);
                n.offsets[i] as usize
            },
            Nested::FixedSizeList(n) => i * n.width,
            _ => i,
        }
    }
}

impl Clone for Nested {
    fn clone(&self) -> (copy: Nested)
        ensures
            copy@ == self@,
    {
        match self {
            Nested::Primitive(n) => Nested::Primitive(
                PrimitiveNested {
                    is_optional: n.is_optional,
                    validity: copy_mask(&n.validity),
                    length: n.length,
                },
            ),
            Nested::List(n) => Nested::List(
                ListNested {
                    is_optional: n.is_optional,
                    offsets: vstd::slice::slice_to_vec(n.offsets.as_slice()),
                    validity: copy_mask(&n.validity),
                },
            ),
            Nested::LargeList(n) => Nested::LargeList(
                ListNested {
                    is_optional: n.is_optional,
                    offsets: vstd::slice::slice_to_vec(n.offsets.as_slice()),
                    validity: copy_mask(&n.validity),
                },
            ),
            Nested::FixedSizeList(n) => Nested::FixedSizeList(
                FixedSizeListNested {
                    is_optional: n.is_optional,
                    validity: copy_mask(&n.validity),
                    width: n.width,
                    length: n.length,
                },
            ),
            Nested::Struct(n) => Nested::Struct(
                StructNested {
                    is_optional: n.is_optional,
                    validity: copy_mask(&n.validity),
                    length: n.length,
                },
            ),
        }
    }
}

/// Copies of the levels.
pub(crate) fn copy_levels(nested: &[Nested]) -> (copy: Vec<Nested>)
    ensures
        nested_views(copy@) == nested_views(nested@),
{
    let mut copy: Vec<Nested> = Vec::new();
    let mut i: usize = 0;
    while i < nested.len()
        invariant
            i <= nested@.len(),
            copy@.len() == i,
            forall|k: int| 0 <= k < i ==> (#[trigger] copy@[k])@ == nested@[k]@,
        decreases nested@.len() - i,
    {
        copy.push(nested[i].clone());
        i = i + 1;
    }
    assert(nested_views(copy@) =~= nested_views(nested@));
    copy
}

/// Whether these are the offsets of lists.
fn check_offsets(offsets: &Vec<i64>) -> (ascend: bool)
    ensures
        ascend == are_offsets(offsets@.map_values(|offset: i64| offset as int)),
{
    let ghost places = offsets@.map_values(|offset: i64| offset as int);
    if offsets.len() == 0 {
        return false;
    }
    let mut i: usize = 0;
    while i < offsets.len()
        invariant
            i <= offsets@.len(),
            places == offsets@.map_values(|offset: i64| offset as int),
            forall|k: int| 0 <= k < i ==> 0 <= #[trigger] places[k] <= usize::MAX,
            forall|j: int, k: int| 0 <= j <= k < i ==> places[j] <= places[k],
        decreases offsets@.len() - i,
    {
        let offset: i64 = offsets[i];
        if offset < 0 || offset as u64 > usize::MAX as u64 {
            assert(!(0 <= places[i as int] <= usize::MAX));
            return false;
        }
        if i > 0 && offsets[i - 1] > offset {
            assert(places[i - 1] > places[i as int]);
            return false;
        }
        i = i + 1;
    }
    true
}

/// Slices the leaf values and the levels above them to `current_length` rows from
/// `current_offset` on.
pub fn slice_parquet_array(
    primitive_array: &mut ColumnArray<'_>,
    nested: &mut [Nested],
    current_offset: usize,
    current_length: usize,
)
    requires
        old(primitive_array)@.is_whole(),
        levels_wf(nested_views(old(nested)@)),
        sliceable(
            old(primitive_array)@,
            nested_views(old(nested)@),
            current_offset as int,
            current_offset + current_length,
        ),
    ensures
        final(primitive_array).dtype == old(primitive_array).dtype,
        final(primitive_array)@ == sliced_leaf(
            old(primitive_array)@,
            nested_views(old(nested)@),
            current_offset as int,
            current_offset + current_length,
        ),
        final(primitive_array)@.is_whole(),
        old(primitive_array).wf() ==> final(primitive_array).wf(),
        final(nested)@.len() == old(nested)@.len(),
        nested_views(final(nested)@) == sliced_levels(
            nested_views(old(nested)@),
            current_offset as int,
            current_offset + current_length,
        ),
{
    let ghost levels = nested_views(nested@);
    let ghost array = primitive_array@;
    let ghost dtype = primitive_array.dtype;
    let ghost was_wf = primitive_array.wf();
    let ghost start = current_offset as int;
    let ghost end = current_offset + current_length;
    let mut begin: usize = current_offset;
    let mut limit: usize = current_offset + current_length;
    let count: usize = nested.len();
    let mut i: usize = 0;
    assert(levels.take(0) =~= Seq::<NestedView>::empty());
    while i < count
        invariant
            i <= count == nested@.len() == levels.len(),
            levels_wf(levels),
            sliceable(array, levels, start, end),
            begin == place_below(levels.take(i as int), start),
            limit == place_below(levels.take(i as int), end),
            primitive_array.dtype == dtype,
            primitive_array@ == sliced_leaf(array, levels.take(i as int), start, end),
            primitive_array@.is_whole(),
            was_wf ==> primitive_array.wf(),
            forall|k: int|
                0 <= k < i ==> (#[trigger] nested@[k])@ == sliced_levels(levels, start, end)[k],
            forall|k: int| i <= k < levels.len() ==> (#[trigger] nested@[k])@ == levels[k],
        decreases count - i,
    {
        proof {
            assert(levels.take(i + 1).drop_last() =~= levels.take(i as int));
            assert(levels.take(i + 1).last() == levels[i as int]);
            assert(levels[i as int].wf());
            assert(nested@[i as int]@ == levels[i as int]);
            if levels[i as int].kind is FixedSizeList {
                let width = levels[i as int].width;
                assert(begin * width <= limit * width) by (nonlinear_arith)
                    requires
                        begin <= limit,
                        0 <= width,
                ;
            }
        }
        let next_begin: usize = nested[i].place(begin);
        let next_limit: usize = nested[i].place(limit);
        if let Nested::Primitive(_) = &nested[i] {
            *primitive_array = primitive_array.slice(begin, limit - begin);
        }
        let slice: Nested = nested[i].slice(begin, limit - begin);
        assert(slice@ == sliced_levels(levels, start, end)[i as int]);
        nested[i] = slice;
        begin = next_begin;
        limit = next_limit;
        i = i + 1;
    }
    assert(levels.take(i as int) =~= levels);
    assert(nested_views(nested@) =~= sliced_levels(levels, start, end));
}

/// The deepest level of lists.
pub open spec fn deepest_list(nested: Seq<NestedView>) -> Option<int>
    decreases nested.len(),
{
    if nested.len() == 0 {
        None
    } else if nested.last().is_list() {
        Some(nested.len() - 1)
    } else {
        deepest_list(nested.drop_last())
    }
}

/// The first level of leaf values.
pub open spec fn first_primitive(nested: Seq<NestedView>) -> Option<int>
    decreases nested.len(),
{
    if nested.len() == 0 {
        None
    } else if first_primitive(nested.drop_last()) is Some {
        first_primitive(nested.drop_last())
    } else if nested.last().kind is Primitive {
        Some(nested.len() - 1)
    } else {
        None
    }
}

/// The first leaf value that belongs to the levels, and the number of them: the deepest level of
/// lists decides, or else the level of the leaf values.
pub open spec fn leaf_window(nested: Seq<NestedView>) -> (int, int) {
    match deepest_list(nested) {
        Some(i) => nested[i].window(),
        None => match first_primitive(nested) {
            Some(i) => (0, nested[i].len()),
            None => (0, 0),
        },
    }
}

/// Whether the leaf values can be counted, where it is for a level of lists of one size to do so.
pub open spec fn window_fits(nested: Seq<NestedView>) -> bool {
    deepest_list(nested) matches Some(i) ==> nested[i].kind is FixedSizeList ==> nested[i].length
        * nested[i].width <= usize::MAX
}

impl Nested {
    /// The first item of the next level that belongs to this one, and the number of them.
    fn window(&self) -> (window: (usize, usize))
        requires
            self@.is_list(),
            self@.wf(),
            self@.kind is FixedSizeList ==> self@.length * self@.width <= usize::MAX,
        ensures
            (window.0 as int, window.1 as int) == self@.window(),
    {
        match self {
            Nested::List(n) => {
                let last: usize = n.offsets.len() - 1;
                assert(self@.offsets[0] == n.offsets@[0]);
                assert(self@.offsets[last as int] == n.offsets@[last as int]);
                let start: i32 = n.offsets[0];
                let end: i32 = n.offsets[last];
                (start as usize, (end - start) as usize)
            },
            Nested::LargeList(n) => {
                let last: usize = n.offsets.len() - 1;
                assert(self@.offsets[0] == n.offsets@[0]);
                assert(self@.offsets[last as int] == n.offsets@[last as int]);
                let start: i64 = n.offsets[0];
                let end: i64 = n.offsets[last];
                (start as usize, (end - start) as usize)
            },
            Nested::FixedSizeList(n) => (0, n.length * n.width),
            _ => (0, 0),
        }
    }

    /// Whether the level is one of lists.
    fn is_list(&self) -> (is_list: bool)
        ensures
            is_list == self@.is_list(),
    {
        matches!(self, Nested::List(_) | Nested::LargeList(_) | Nested::FixedSizeList(_))
    }
}

/// returns offset and length to slice the leaf values
pub fn slice_nested_leaf(nested: &[Nested]) -> (window: (usize, usize))
    requires
        levels_wf(nested_views(nested@)),
        window_fits(nested_views(nested@)),
    ensures
        (window.0 as int, window.1 as int) == leaf_window(nested_views(nested@)),
{
    // find the deepest recursive dremel structure as that one determines how many values we must
    // take
    let ghost levels = nested_views(nested@);
    let mut out: (usize, usize) = (0, 0);
    let mut i: usize = nested.len();
    assert(levels.take(i as int) =~= levels);
    proof {
        lemma_first_primitive(levels);
    }
    while i > 0
        invariant
            i <= nested@.len(),
            levels == nested_views(nested@),
            levels_wf(levels),
            window_fits(levels),
            deepest_list(levels) == deepest_list(levels.take(i as int)),
            match first_primitive(levels.take(i as int)) {
                Some(k) => {
                    &&& 0 <= k < i
                    &&& levels[k].kind is Primitive
                    &&& first_primitive(levels) == Some(k)
                },
                None => (out.0 as int, out.1 as int) == (match first_primitive(levels) {
                    Some(k) => (0int, levels[k].len()),
                    None => (0int, 0int),
                }),
            },
        decreases i,
    {
        let ghost taken = levels.take(i as int);
        i = i - 1;
        proof {
            assert(taken.drop_last() =~= levels.take(i as int));
            assert(taken.last() == levels[i as int]);
            assert(levels[i as int].wf());
            lemma_first_primitive(taken.drop_last());
        }
        if nested[i].is_list() {
            return nested[i].window();
        }
        if let Nested::Primitive(level) = &nested[i] {
            out = (0, level.length);
        }
    }
    out
}

/// The first level of leaf values is such a level.
proof fn lemma_first_primitive(nested: Seq<NestedView>)
    ensures
        first_primitive(nested) matches Some(i) ==> 0 <= i < nested.len() && nested[i].kind
            is Primitive,
    decreases nested.len(),
{
    if nested.len() > 0 {
        lemma_first_primitive(nested.drop_last());
    }
}

/// The deepest level of lists is one, and none below it is.
proof fn lemma_deepest_list(nested: Seq<NestedView>)
    ensures
        deepest_list(nested) matches Some(k) ==> {
            &&& 0 <= k < nested.len()
            &&& nested[k].is_list()
            &&& forall|i: int| k < i < nested.len() ==> !(#[trigger] nested[i]).is_list()
        },
        deepest_list(nested) is None ==> forall|i: int|
            0 <= i < nested.len() ==> !(#[trigger] nested[i]).is_list(),
    decreases nested.len(),
{
    if nested.len() > 0 {
        let before = nested.drop_last();
        lemma_deepest_list(before);
        assert forall|i: int| 0 <= i < before.len() implies before[i] == nested[i] by {}
    }
}

/// The items below all levels of lists, level by level.
pub open spec fn max_length(nested: Seq<NestedView>) -> int
    decreases nested.len(),
{
    if nested.len() == 0 {
        0
    } else {
        max_length(nested.drop_last()) + (if nested.last().is_list() {
            nested.last().window().1
        } else {
            0
        })
    }
}

/// Leaving out levels never makes the length greater.
proof fn lemma_max_length_grows(nested: Seq<NestedView>, i: int)
    requires
        levels_wf(nested),
        0 <= i <= nested.len(),
    ensures
        0 <= max_length(nested.take(i)) <= max_length(nested),
        0 <= i < nested.len() && nested[i].is_list() ==> nested[i].window().1 <= max_length(nested),
    decreases nested.len(),
{
    if nested.len() == 0 {
        assert(nested.take(0) =~= nested);
    } else {
        let before = nested.drop_last();
        assert(levels_wf(before)) by {
            assert forall|k: int| 0 <= k < before.len() implies (#[trigger] before[k]).wf() by {
                assert(nested[k].wf());
            }
        }
        assert(nested[nested.len() - 1].wf());
        let last = nested.last();
        assert(last.is_list() ==> last.window().1 >= 0) by {
            if last.kind is FixedSizeList {
                assert(last.length * last.width >= 0) by (nonlinear_arith)
                    requires
                        last.length >= 0,
                        last.width >= 0,
                ;
            }
        }
        if i < nested.len() {
            lemma_max_length_grows(before, i);
            assert(nested.take(i) =~= before.take(i));
            if i < before.len() {
                assert(before[i] == nested[i]);
            }
        } else {
            lemma_max_length_grows(before, before.len() as int);
            assert(nested.take(i) =~= nested);
            assert(before.take(before.len() as int) =~= before);
        }
    }
}

/// Get the length of the array that should be sliced.
pub fn get_max_length(nested: &[Nested]) -> (length: usize)
    requires
        levels_wf(nested_views(nested@)),
        max_length(nested_views(nested@)) <= usize::MAX,
    ensures
        length == max_length(nested_views(nested@)),
{
    let ghost levels = nested_views(nested@);
    let mut length: usize = 0;
    let mut i: usize = 0;
    assert(max_length(levels.take(0)) == 0);
    while i < nested.len()
        invariant
            i <= nested@.len(),
            levels == nested_views(nested@),
            levels_wf(levels),
            max_length(levels) <= usize::MAX,
            length == max_length(levels.take(i as int)),
        decreases nested@.len() - i,
    {
        proof {
            lemma_max_length_grows(levels, i as int);
            lemma_max_length_grows(levels, i + 1);
            assert(levels.take(i + 1).drop_last() =~= levels.take(i as int));
            assert(levels.take(i + 1).last() == levels[i as int]);
            assert(levels[i as int].wf());
        }
        if nested[i].is_list() {
            length = length + nested[i].window().1;
        }
        i = i + 1;
    }
    assert(levels.take(i as int) =~= levels);
    length
}

/// Cut down to some rows, the levels have that many rows.
pub proof fn law_slice_has_rows(nested: Seq<NestedView>, start: int, end: int)
    requires
        nested.len() > 0,
        nested[0].takes(start, end),
    ensures
        sliced_levels(nested, start, end).len() == nested.len(),
        sliced_levels(nested, start, end)[0].len() == end - start,
{
    assert(nested.take(0) =~= Seq::<NestedView>::empty());
}

/// Whether the levels are those of one leaf column and all rows can be cut out of them and of the
/// leaf values.
pub open spec fn column_fits(array: ArrayView, nested: Seq<NestedView>) -> bool {
    &&& is_leaf_column(nested)
    &&& levels_wf(nested)
    &&& sliceable(array, nested, 0, nested[0].len())
}

/// No level before the last one touches the leaf values.
proof fn lemma_leaf_reached_untouched(
    array: ArrayView,
    nested: Seq<NestedView>,
    rows: int,
    i: int,
)
    requires
        is_leaf_column(nested),
        0 <= i < nested.len(),
    ensures
        sliced_leaf(array, nested.take(i), 0, rows) == array,
{
    let above = nested.take(i);
    assert forall|k: int| 0 <= k < above.len() implies !((#[trigger] above[k]).kind
        is Primitive) by {
        assert(above[k] == nested[k]);
    }
    lemma_leaf_untouched(array, above, 0, rows);
}

/// Whether the levels are those of the leaf column.
#[verifier::rlimit(40)]
pub fn is_column(primitive_array: &ColumnArray<'_>, nested: &[Nested]) -> (fits: bool)
    requires
        primitive_array@.is_whole(),
    ensures
        fits == column_fits(primitive_array@, nested_views(nested@)),
{
    let ghost levels = nested_views(nested@);
    let ghost array = primitive_array@;
    let count: usize = nested.len();
    if count == 0 {
        return false;
    }
    let mut i: usize = 0;
    while i < count
        invariant
            i <= count == nested@.len(),
            levels == nested_views(nested@),
            forall|k: int| 0 <= k < i ==> (#[trigger] levels[k]).wf(),
            forall|k: int| 0 <= k < i ==> ((#[trigger] levels[k]).kind is Primitive <==> k == count
                - 1),
        decreases count - i,
    {
        assert(levels[i as int] == nested@[i as int]@);
        if !nested[i].is_wf() {
            return false;
        }
        let is_leaf: bool = matches!(nested[i], Nested::Primitive(_));
        if is_leaf != (i == count - 1) {
            return false;
        }
        i = i + 1;
    }
    assert(levels[0] == nested@[0]@);
    let rows: usize = nested[0].len();
    let mut begin: usize = 0;
    let mut limit: usize = rows;
    i = 0;
    assert(levels.take(0) =~= Seq::<NestedView>::empty());
    while i < count
        invariant
            i <= count == nested@.len(),
            levels == nested_views(nested@),
            is_leaf_column(levels),
            levels_wf(levels),
            array == primitive_array@,
            array.is_whole(),
            rows == levels[0].len(),
            begin == place_below(levels.take(i as int), 0),
            limit == place_below(levels.take(i as int), rows as int),
            forall|k: int|
                #![trigger levels[k]]
                0 <= k < i ==> level_sliceable(array, levels, 0, rows as int, k),
        decreases count - i,
    {
        proof {
            assert(levels[i as int] == nested@[i as int]@ && levels[i as int].wf());
            lemma_leaf_reached_untouched(array, levels, rows as int, i as int);
            assert(levels.take(i + 1).drop_last() =~= levels.take(i as int));
            assert(levels.take(i + 1).last() == levels[i as int]);
        }
        let leaf_reaches: bool = !matches!(nested[i], Nested::Primitive(_)) || limit
            <= primitive_array.len();
        let level_fits: bool = nested[i].can_take(begin, limit) && leaf_reaches;
        assert(level_fits == level_sliceable(array, levels, 0, rows as int, i as int));
        if !level_fits {
            return false;
        }
        proof {
            if levels[i as int].kind is FixedSizeList {
                let width = levels[i as int].width;
                assert(begin * width <= limit * width) by (nonlinear_arith)
                    requires
                        begin <= limit,
                        0 <= width,
                ;
            }
        }
        begin = nested[i].place(begin);
        limit = nested[i].place(limit);
        i = i + 1;
    }
    true
}

/// Whether these are the levels of one leaf column: the last one, and no other, is the level of
/// the leaf values.
pub open spec fn is_leaf_column(nested: Seq<NestedView>) -> bool {
    &&& nested.len() > 0
    &&& nested.last().kind is Primitive
    &&& forall|i: int|
        0 <= i < nested.len() - 1 ==> !((#[trigger] nested[i]).kind is Primitive)
}

/// Levels without leaf values leave the array as it is.
proof fn lemma_leaf_untouched(array: ArrayView, nested: Seq<NestedView>, start: int, end: int)
    requires
        forall|i: int| 0 <= i < nested.len() ==> !((#[trigger] nested[i]).kind is Primitive),
    ensures
        sliced_leaf(array, nested, start, end) == array,
    decreases nested.len(),
{
    if nested.len() > 0 {
        assert(!(nested[nested.len() - 1].kind is Primitive));
        let before = nested.drop_last();
        assert forall|i: int| 0 <= i < before.len() implies !((#[trigger] before[i]).kind
            is Primitive) by {
            assert(before[i] == nested[i]);
        }
        lemma_leaf_untouched(array, before, start, end);
    }
}

/// The leaf values of a run of rows are one run of the leaf values: it begins where the first row
/// begins and ends where the row after the last one begins.
pub proof fn law_leaf_slice_is_a_run(
    array: ArrayView,
    nested: Seq<NestedView>,
    start: int,
    end: int,
)
    requires
        array.is_whole(),
        is_leaf_column(nested),
        sliceable(array, nested, start, end),
    ensures
        sliced_leaf(array, nested, start, end) == array.slice(
            place_below(nested, start),
            place_below(nested, end),
        ),
        0 <= place_below(nested, start) <= place_below(nested, end) <= array.len(),
        sliced_leaf(array, nested, start, end).len() == place_below(nested, end) - place_below(
            nested,
            start,
        ),
        sliced_leaf(array, nested, start, end).is_whole(),
{
    let before = nested.drop_last();
    let last = nested.len() - 1;
    assert forall|i: int| 0 <= i < before.len() implies !((#[trigger] before[i]).kind
        is Primitive) by {
        assert(before[i] == nested[i]);
    }
    lemma_leaf_untouched(array, before, start, end);
    assert(nested.take(last) =~= before);
    assert(nested[last].takes(
        place_below(nested.take(last), start),
        place_below(nested.take(last), end),
    ));
    lemma_slice_is_whole(array, place_below(nested, start), place_below(nested, end));
}

/// Pages that follow one another hold leaf values that follow one another: those of the rows from
/// `start` up to `middle` and those of the rows from there up to `end`, joined, are those of the
/// rows from `start` up to `end`.
pub proof fn law_adjacent_slices_join(
    array: ArrayView,
    nested: Seq<NestedView>,
    start: int,
    middle: int,
    end: int,
)
    requires
        array.is_whole(),
        is_leaf_column(nested),
        sliceable(array, nested, start, middle),
        sliceable(array, nested, middle, end),
        sliceable(array, nested, start, end),
    ensures
        sliced_leaf(array, nested, start, middle).joined(
            sliced_leaf(array, nested, middle, end),
        ) == sliced_leaf(array, nested, start, end),
{
    law_leaf_slice_is_a_run(array, nested, start, middle);
    law_leaf_slice_is_a_run(array, nested, middle, end);
    law_leaf_slice_is_a_run(array, nested, start, end);
    law_slices_join(
        array,
        place_below(nested, start),
        place_below(nested, middle),
        place_below(nested, end),
    );
}

/// A place is never before that of an earlier item, and what can be cut out of the levels can be
/// cut out in parts.
proof fn lemma_places_within(
    array: ArrayView,
    nested: Seq<NestedView>,
    rows: int,
    start: int,
    end: int,
    i: int,
)
    requires
        levels_wf(nested),
        sliceable(array, nested, 0, rows),
        0 <= start <= end <= rows,
        0 <= i <= nested.len(),
    ensures
        place_below(nested.take(i), 0) <= place_below(nested.take(i), start) <= place_below(
            nested.take(i),
            end,
        ) <= place_below(nested.take(i), rows),
        i < nested.len() ==> nested[i].takes(
            place_below(nested.take(i), start),
            place_below(nested.take(i), end),
        ),
    decreases i,
{
    if i == 0 {
        assert(nested.take(0) =~= Seq::<NestedView>::empty());
        if nested.len() > 0 {
            lemma_takes_part(nested[0], 0, rows, start, end);
        }
    } else {
        lemma_places_within(array, nested, rows, start, end, i - 1);
        let level = nested[i - 1];
        assert(level.wf());
        assert(nested.take(i).drop_last() =~= nested.take(i - 1));
        assert(nested.take(i).last() == level);
        let p0 = place_below(nested.take(i - 1), 0);
        let p1 = place_below(nested.take(i - 1), start);
        let p2 = place_below(nested.take(i - 1), end);
        let p3 = place_below(nested.take(i - 1), rows);
        assert(level.takes(p0, p3));
        if level.kind is FixedSizeList {
            let width = level.width as int;
            assert(p0 * width <= p1 * width <= p2 * width <= p3 * width) by (nonlinear_arith)
                requires
                    p0 <= p1 <= p2 <= p3,
                    width >= 0,
            ;
        }
        if i < nested.len() {
            lemma_takes_part(
                nested[i],
                place_below(nested.take(i), 0),
                place_below(nested.take(i), rows),
                place_below(nested.take(i), start),
                place_below(nested.take(i), end),
            );
        }
    }
}

/// What can be cut out of a level can be cut out in parts.
proof fn lemma_takes_part(level: NestedView, first: int, last: int, start: int, end: int)
    requires
        level.takes(first, last),
        first <= start <= end <= last,
    ensures
        level.takes(start, end),
{
    if level.kind is FixedSizeList {
        let width = level.width as int;
        assert(end * width <= last * width) by (nonlinear_arith)
            requires
                end <= last,
                width >= 0,
        ;
    }
}

/// Where all rows can be cut out, every run of them can.
pub proof fn law_every_run_is_sliceable(
    array: ArrayView,
    nested: Seq<NestedView>,
    rows: int,
    start: int,
    end: int,
)
    requires
        is_leaf_column(nested),
        levels_wf(nested),
        sliceable(array, nested, 0, rows),
        0 <= start <= end <= rows,
    ensures
        sliceable(array, nested, start, end),
{
    assert forall|i: int| #![trigger nested[i]] 0 <= i < nested.len() implies level_sliceable(
        array,
        nested,
        start,
        end,
        i,
    ) by {
        lemma_places_within(array, nested, rows, start, end, i);
        if nested[i].kind is Primitive {
            let above = nested.take(i);
            assert forall|k: int| 0 <= k < above.len() implies !((#[trigger] above[k]).kind
                is Primitive) by {
                assert(above[k] == nested[k]);
            }
            lemma_leaf_untouched(array, above, start, end);
            lemma_leaf_untouched(array, above, 0, rows);
        }
    }
}

/// Below the deepest level of lists nothing moves an item.
proof fn lemma_place_below_lists(nested: Seq<NestedView>, k: int, i: int)
    requires
        0 <= k <= nested.len(),
        forall|j: int| k <= j < nested.len() ==> !(#[trigger] nested[j]).is_list(),
    ensures
        place_below(nested, i) == place_below(nested.take(k), i),
    decreases nested.len(),
{
    if k < nested.len() {
        let before = nested.drop_last();
        assert(!nested[nested.len() - 1].is_list());
        assert forall|j: int| k <= j < before.len() implies !(#[trigger] before[j]).is_list() by {
            assert(before[j] == nested[j]);
        }
        lemma_place_below_lists(before, k, i);
        assert(before.take(k) =~= nested.take(k));
    } else {
        assert(nested.take(k) =~= nested);
    }
}

/// The deepest level of lists stays where it is when rows are cut out.
proof fn lemma_same_kinds(one: Seq<NestedView>, other: Seq<NestedView>)
    requires
        one.len() == other.len(),
        forall|i: int| 0 <= i < one.len() ==> (#[trigger] one[i]).kind == other[i].kind,
    ensures
        deepest_list(one) == deepest_list(other),
        first_primitive(one) == first_primitive(other),
    decreases one.len(),
{
    if one.len() > 0 {
        assert(one[one.len() - 1].kind == other[one.len() - 1].kind);
        assert forall|i: int| 0 <= i < one.len() - 1 implies (#[trigger] one.drop_last()[i]).kind
            == other.drop_last()[i].kind by {
            assert(one[i].kind == other[i].kind);
        }
        lemma_same_kinds(one.drop_last(), other.drop_last());
    }
}

/// The leaf window of sliced levels is that of the sliced leaf values: it counts exactly the leaf
/// values that were cut out, and below lists with offsets it says where they lay before.
pub proof fn law_leaf_window_fits_slice(
    array: ArrayView,
    nested: Seq<NestedView>,
    start: int,
    end: int,
)
    requires
        array.is_whole(),
        is_leaf_column(nested),
        levels_wf(nested),
        sliceable(array, nested, start, end),
    ensures
        leaf_window(sliced_levels(nested, start, end)).1 == sliced_leaf(
            array,
            nested,
            start,
            end,
        ).len(),
        deepest_list(nested) matches Some(k) ==> nested[k].has_offsets() ==> leaf_window(
            sliced_levels(nested, start, end),
        ).0 == place_below(nested, start),
{
    let sliced = sliced_levels(nested, start, end);
    law_leaf_slice_is_a_run(array, nested, start, end);
    lemma_same_kinds(nested, sliced);
    lemma_deepest_list(nested);
    match deepest_list(nested) {
        Some(k) => {
            let from = place_below(nested.take(k), start);
            let to = place_below(nested.take(k), end);
            assert(nested[k].takes(from, to));
            assert(nested[k].wf());
            lemma_place_through(nested, k, start);
            lemma_place_through(nested, k, end);
            lemma_window_of_slice(nested[k], from, to);
        },
        None => {
            let last = nested.len() - 1;
            lemma_only_primitive(nested);
            lemma_places_without_lists(nested, start);
            lemma_places_without_lists(nested, end);
            assert(sliced[last].len() == end - start);
        },
    }
}

/// Below the deepest level of lists lie the items in which its lists begin.
proof fn lemma_place_through(nested: Seq<NestedView>, k: int, i: int)
    requires
        0 <= k < nested.len(),
        forall|j: int| k < j < nested.len() ==> !(#[trigger] nested[j]).is_list(),
    ensures
        place_below(nested, i) == nested[k].place(place_below(nested.take(k), i)),
{
    lemma_place_below_lists(nested, k + 1, i);
    assert(nested.take(k + 1).drop_last() =~= nested.take(k));
    assert(nested.take(k + 1).last() == nested[k]);
}

/// Without lists every item stays in its place.
proof fn lemma_places_without_lists(nested: Seq<NestedView>, i: int)
    requires
        nested.len() > 0,
        forall|j: int| 0 <= j < nested.len() ==> !(#[trigger] nested[j]).is_list(),
    ensures
        place_below(nested, i) == i,
        place_below(nested.take(nested.len() - 1), i) == i,
{
    let before = nested.take(nested.len() - 1);
    assert forall|j: int| 0 <= j < before.len() implies !(#[trigger] before[j]).is_list() by {
        assert(before[j] == nested[j]);
    }
    lemma_place_below_lists(nested, 0, i);
    lemma_place_below_lists(before, 0, i);
}

/// The window of a run of lists is that between the places of its ends.
proof fn lemma_window_of_slice(level: NestedView, start: int, end: int)
    requires
        level.wf(),
        level.is_list(),
        level.takes(start, end),
    ensures
        level.slice(start, end).window().1 == level.place(end) - level.place(start),
        level.has_offsets() ==> level.slice(start, end).window().0 == level.place(start),
{
    if level.has_offsets() {
        let cut = level.offsets.subrange(start, end + 1);
        assert(cut[0] == level.offsets[start] && cut.last() == level.offsets[end]);
    } else {
        let width = level.width as int;
        assert((end - start) * width == end * width - start * width) by (nonlinear_arith);
    }
}

/// The level of the leaf values of one leaf column is the last one.
proof fn lemma_only_primitive(nested: Seq<NestedView>)
    requires
        is_leaf_column(nested),
    ensures
        first_primitive(nested) == Some(nested.len() - 1),
{
    let before = nested.drop_last();
    lemma_first_primitive(before);
    if first_primitive(before) is Some {
        assert(before[first_primitive(before)->0] == nested[first_primitive(before)->0]);
    }
}

/// A run of the items of a level is made of these items, one by one: item `j` of the run from
/// `start` on is item `start + j` of the level, with its bit of the mask and its list. All else
/// stays as it is.
pub proof fn law_level_slice_keeps_items(level: NestedView, start: int, end: int, j: int)
    requires
        level.takes(start, end),
        0 <= j < end - start,
    ensures
        ({
            let slice = level.slice(start, end);
            &&& slice.kind == level.kind
            &&& slice.is_optional == level.is_optional
            &&& slice.width == level.width
            &&& slice.len() == end - start
            &&& slice.validity is Some <==> level.validity is Some
            &&& (level.validity matches Some(bits) ==> (slice.validity matches Some(cut) && {
                &&& cut.len() == end - start
                &&& cut[j] == bits[start + j]
            }))
            &&& level.kind is List || level.kind is LargeList ==> {
                &&& slice.offsets.len() == end - start + 1
                &&& slice.offsets[j] == level.offsets[start + j]
                &&& slice.offsets[j + 1] == level.offsets[start + j + 1]
            }
        }),
{
}

/// Cutting out rows keeps the items of every level, one by one. The items of level `k` that lie in
/// the rows begin with the one at which row `start` begins: item `j` of the cut level has the bit
/// of the mask, and the list, of item `j` from there on.
pub proof fn law_sliced_levels_keep_items(
    array: ArrayView,
    nested: Seq<NestedView>,
    start: int,
    end: int,
    k: int,
    j: int,
)
    requires
        sliceable(array, nested, start, end),
        0 <= k < nested.len(),
        0 <= j < place_below(nested.take(k), end) - place_below(nested.take(k), start),
    ensures
        ({
            let first = place_below(nested.take(k), start);
            let count = place_below(nested.take(k), end) - first;
            let level = nested[k];
            let slice = sliced_levels(nested, start, end)[k];
            &&& sliced_levels(nested, start, end).len() == nested.len()
            &&& slice.kind == level.kind
            &&& slice.is_optional == level.is_optional
            &&& slice.width == level.width
            &&& slice.len() == count
            &&& slice.validity is Some <==> level.validity is Some
            &&& (level.validity matches Some(bits) ==> (slice.validity matches Some(cut) && {
                &&& cut.len() == count
                &&& cut[j] == bits[first + j]
            }))
            &&& level.kind is List || level.kind is LargeList ==> {
                &&& slice.offsets.len() == count + 1
                &&& slice.offsets[j] == level.offsets[first + j]
                &&& slice.offsets[j + 1] == level.offsets[first + j + 1]
            }
        }),
{
    let first = place_below(nested.take(k), start);
    let last = place_below(nested.take(k), end);
    lemma_takes_rows(array, nested, start, end, k);
    law_level_slice_keeps_items(nested[k], first, last, j);
}

/// The masks of a level in runs of rows that follow one another, joined, are its mask in all of
/// these rows.
pub proof fn law_sliced_masks_join(
    array: ArrayView,
    nested: Seq<NestedView>,
    start: int,
    middle: int,
    end: int,
    k: int,
)
    requires
        sliceable(array, nested, start, middle),
        sliceable(array, nested, middle, end),
        sliceable(array, nested, start, end),
        0 <= k < nested.len(),
    ensures
        match (
            sliced_levels(nested, start, middle)[k].validity,
            sliced_levels(nested, middle, end)[k].validity,
            sliced_levels(nested, start, end)[k].validity,
        ) {
            (Some(one), Some(more), Some(all)) => all == one + more && nested[k].validity is Some,
            (None, None, None) => nested[k].validity is None,
            _ => false,
        },
{
    lemma_takes_rows(array, nested, start, middle, k);
    lemma_takes_rows(array, nested, middle, end, k);
    lemma_takes_rows(array, nested, start, end, k);
    lemma_level_masks_join(
        nested[k],
        place_below(nested.take(k), start),
        place_below(nested.take(k), middle),
        place_below(nested.take(k), end),
    );
}

/// Where rows can be cut out, so can the items of a level that lie in them.
proof fn lemma_takes_rows(
    array: ArrayView,
    nested: Seq<NestedView>,
    start: int,
    end: int,
    k: int,
)
    requires
        sliceable(array, nested, start, end),
        0 <= k < nested.len(),
    ensures
        nested[k].takes(place_below(nested.take(k), start), place_below(nested.take(k), end)),
        sliced_levels(nested, start, end)[k] == nested[k].slice(
            place_below(nested.take(k), start),
            place_below(nested.take(k), end),
        ),
{
    assert(level_sliceable(array, nested, start, end, k));
}

/// The masks of runs of items that follow one another, joined, are that of all of them.
proof fn lemma_level_masks_join(level: NestedView, start: int, middle: int, end: int)
    requires
        level.takes(start, middle),
        level.takes(middle, end),
        level.takes(start, end),
    ensures
        match (
            level.slice(start, middle).validity,
            level.slice(middle, end).validity,
            level.slice(start, end).validity,
        ) {
            (Some(one), Some(more), Some(all)) => all == one + more && level.validity is Some,
            (None, None, None) => level.validity is None,
            _ => false,
        },
{
    if let Some(bits) = level.validity {
        assert(bits.subrange(start, end) =~= bits.subrange(start, middle) + bits.subrange(
            middle,
            end,
        ));
    }
}

/// Items of a level of lists of one size begin that many items apart, those of lists with offsets
/// where the offsets say, and those of any other level where they are.
pub proof fn law_places_of_a_level(level: NestedView, i: int)
    ensures
        level.kind is List || level.kind is LargeList ==> level.place(i) == level.offsets[i],
        level.kind is FixedSizeList ==> level.place(0) == 0 && level.place(i + 1) == level.place(i)
            + level.width,
        level.kind is Struct || level.kind is Primitive ==> level.place(i) == i,
{
    let width = level.width as int;
    assert((i + 1) * width == i * width + width && 0 * width == 0) by (nonlinear_arith);
}

/// A level has as many lists as lie between its offsets, and as many other items as it says.
pub proof fn law_items_of_a_level(level: NestedView)
    ensures
        level.kind is List || level.kind is LargeList ==> level.len() + 1 == level.offsets.len(),
        !(level.kind is List || level.kind is LargeList) ==> level.len() == level.length,
{
}

/// An item is found from the top down: below a level and others, it begins where the others have
/// the item with which it begins in the level. Below no levels it is where it is.
pub proof fn law_places_below_levels(level: NestedView, below: Seq<NestedView>, i: int)
    ensures
        place_below(seq![level] + below, i) == place_below(below, level.place(i)),
        place_below(Seq::empty(), i) == i,
    decreases below.len(),
{
    let all = seq![level] + below;
    if below.len() == 0 {
        assert(all.drop_last() =~= Seq::<NestedView>::empty());
        assert(place_below(all.drop_last(), i) == i);
        assert(all.last() == level);
    } else {
        law_places_below_levels(level, below.drop_last(), i);
        assert(all.drop_last() =~= seq![level] + below.drop_last());
        assert(all.last() == below.last());
    }
}

/// The items that belong to a level of lists are those from the beginning of its first list up to
/// the end of its last one.
pub proof fn law_window_of_a_level(level: NestedView)
    requires
        level.wf(),
        level.kind is List || level.kind is LargeList || level.kind is FixedSizeList,
    ensures
        level.window().0 == level.place(0),
        level.window().0 + level.window().1 == level.place(level.len()),
{
    if level.kind is FixedSizeList {
        let width = level.width as int;
        assert(level.length * width == level.length * width && 0 * width == 0) by (nonlinear_arith);
    }
}

/// The deepest level of lists decides which leaf values belong to the levels.
pub proof fn law_deepest_list_decides(nested: Seq<NestedView>, k: int)
    requires
        0 <= k < nested.len(),
        nested[k].wf(),
        nested[k].kind is List || nested[k].kind is LargeList || nested[k].kind is FixedSizeList,
        forall|j: int|
            k < j < nested.len() ==> (#[trigger] nested[j]).kind is Struct || nested[j].kind
                is Primitive,
    ensures
        leaf_window(nested).0 == nested[k].place(0),
        leaf_window(nested).0 + leaf_window(nested).1 == nested[k].place(nested[k].len()),
{
    lemma_deepest_list(nested);
    match deepest_list(nested) {
        Some(d) => {
            if d < k {
                assert(nested[k].is_list());
            } else if d > k {
                assert(nested[d].kind is Struct || nested[d].kind is Primitive);
            }
        },
        None => {
            assert(nested[k].is_list());
        },
    }
    law_window_of_a_level(nested[k]);
}

/// Without lists, all leaf values of the first level of leaf values belong to the levels, and none
/// where there is no such level.
pub proof fn law_leaf_values_without_lists(nested: Seq<NestedView>, k: int)
    requires
        0 <= k <= nested.len(),
        forall|j: int|
            0 <= j < nested.len() ==> (#[trigger] nested[j]).kind is Struct || nested[j].kind
                is Primitive,
        forall|j: int| 0 <= j < k ==> (#[trigger] nested[j]).kind is Struct,
        k < nested.len() ==> nested[k].kind is Primitive,
    ensures
        k < nested.len() ==> leaf_window(nested) == (0int, nested[k].length as int),
        k == nested.len() ==> leaf_window(nested) == (0int, 0int),
{
    lemma_deepest_list(nested);
    if let Some(d) = deepest_list(nested) {
        assert(nested[d].kind is Struct || nested[d].kind is Primitive);
    }
    lemma_first_primitive_at(nested, k);
}

/// The first level of leaf values is the first that is one.
proof fn lemma_first_primitive_at(nested: Seq<NestedView>, k: int)
    requires
        0 <= k <= nested.len(),
        forall|j: int| 0 <= j < k ==> !((#[trigger] nested[j]).kind is Primitive),
        k < nested.len() ==> nested[k].kind is Primitive,
    ensures
        first_primitive(nested) == (if k < nested.len() {
            Some(k)
        } else {
            None
        }),
    decreases nested.len(),
{
    if nested.len() > 0 {
        let before = nested.drop_last();
        let rest = if k < nested.len() {
            k
        } else {
            k - 1
        };
        assert forall|j: int| 0 <= j < rest implies !((#[trigger] before[j]).kind is Primitive) by {
            assert(before[j] == nested[j]);
        }
        if rest < before.len() {
            assert(before[rest] == nested[rest]);
        }
        lemma_first_primitive_at(before, rest);
        assert(nested.last() == nested[nested.len() - 1]);
    }
}

/// The length to be sliced is counted level by level: that of two groups of levels together is the
/// sum of theirs, a level of lists counts the items in its lists, and any other counts none.
pub proof fn law_max_length_adds_up(one: Seq<NestedView>, more: Seq<NestedView>)
    ensures
        max_length(one + more) == max_length(one) + max_length(more),
        max_length(Seq::empty()) == 0,
        one.len() == 1 && one[0].wf() && (one[0].kind is List || one[0].kind is LargeList
            || one[0].kind is FixedSizeList) ==> max_length(one) == one[0].place(one[0].len())
            - one[0].place(0),
        one.len() == 1 && (one[0].kind is Struct || one[0].kind is Primitive) ==> max_length(one)
            == 0,
    decreases more.len(),
{
    if one.len() == 1 {
        assert(max_length(one.drop_last()) == 0);
        assert(one.last() == one[0]);
        if one[0].wf() && one[0].is_list() {
            law_window_of_a_level(one[0]);
        }
    }
    if more.len() == 0 {
        assert(one + more =~= one);
    } else {
        law_max_length_adds_up(one, more.drop_last());
        assert((one + more).drop_last() =~= one + more.drop_last());
        assert((one + more).last() == more.last());
    }
}

/// The level of its values is all that a flat column needs, where the mask of the level, if there
/// is one, has a bit for each of them.
pub proof fn law_flat_columns_fit(array: ArrayView, level: NestedView)
    requires
        level.kind is Primitive,
        level.length == array.len() <= usize::MAX,
        level.validity matches Some(bits) ==> bits.len() == array.len(),
    ensures
        column_fits(array, seq![level]),
{
    let nested = seq![level];
    assert(nested.take(0) =~= Seq::<NestedView>::empty());
    assert(place_below(nested.take(0), 0) == 0);
    assert(place_below(nested.take(0), level.len()) == level.len());
    assert(sliced_leaf(array, nested.take(0), 0, level.len()) == array);
    assert(level_sliceable(array, nested, 0, level.len(), 0));
}

/// Where levels fit a column, the leaf values of all its rows are there, and the places of rows
/// ascend.
pub proof fn law_fitting_levels_have_places(
    array: ArrayView,
    nested: Seq<NestedView>,
    start: int,
    end: int,
)
    requires
        array.is_whole(),
        column_fits(array, nested),
        0 <= start <= end <= nested[0].len(),
    ensures
        0 <= place_below(nested, start) <= place_below(nested, end) <= array.len(),
{
    law_every_run_is_sliceable(array, nested, nested[0].len(), start, end);
    law_leaf_slice_is_a_run(array, nested, start, end);
}

/// Whether each offset is no less than the one before it.
pub open spec fn ascend_stepwise(offsets: Seq<int>) -> bool {
    forall|i: int| 0 < i < offsets.len() ==> offsets[i - 1] <= #[trigger] offsets[i]
}

/// Offsets are those of lists if there is one at least, the first is not negative, each is no less
/// than the one before it, and the last can be reached. Levels without offsets need none.
pub proof fn law_offsets_of_lists(level: NestedView)
    ensures
        level.kind is List || level.kind is LargeList ==> (level.wf() <==> {
            &&& level.offsets.len() > 0
            &&& 0 <= level.offsets[0]
            &&& ascend_stepwise(level.offsets)
            &&& level.offsets.last() <= usize::MAX
        }),
        !(level.kind is List || level.kind is LargeList) ==> level.wf(),
{
    let offsets = level.offsets;
    if offsets.len() > 0 && ascend_stepwise(offsets) {
        assert forall|i: int, j: int| 0 <= i <= j < offsets.len() implies offsets[i]
            <= offsets[j] by {
            lemma_steps(offsets, i, j);
        }
        assert forall|i: int| 0 <= i < offsets.len() implies offsets[0] <= #[trigger] offsets[i]
            <= offsets[offsets.len() - 1] by {
            lemma_steps(offsets, 0, i);
            lemma_steps(offsets, i, offsets.len() - 1);
        }
    }
}

proof fn lemma_steps(offsets: Seq<int>, i: int, j: int)
    requires
        ascend_stepwise(offsets),
        0 <= i <= j < offsets.len(),
    ensures
        offsets[i] <= offsets[j],
    decreases j - i,
{
    if i < j {
        lemma_steps(offsets, i, j - 1);
        assert(offsets[j - 1] <= offsets[j]);
    }
}

} // verus!
