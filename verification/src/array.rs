//! The values of one leaf column, in memory.

use vstd::prelude::*;

use crate::bytes::{ints, two_pow_128, PlainInt};
use crate::datatype::{DataType, PhysicalType, PrimitiveType};
use crate::sealed::Sealed;

verus! {

/// An integer of 256 bits: `high * 2^128 + low`.
#[derive(Debug, Clone, Copy, PartialEq, Eq, Structural)]
pub struct I256 {
    pub high: i128,
    pub low: u128,
}

impl Sealed for I256 {

}

impl PlainInt for I256 {
    open spec fn value(&self) -> int {
        self.high * two_pow_128() + self.low
    }

    open spec fn width() -> nat {
        32
    }

    fn low_bits(&self) -> (bits: u128) {
        proof {
            lemma_halves(*self);
        }
        self.low
    }
}

/// The halves of a wide integer are what is above and what is below 2^128.
pub proof fn lemma_halves(x: I256)
    ensures
        x.value() % two_pow_128() == x.low,
        x.value() / two_pow_128() == x.high,
{
    vstd::arithmetic::div_mod::lemma_fundamental_div_mod_converse(
        x.value(),
        two_pow_128(),
        x.high as int,
        x.low as int,
    );
}

/// A calendar interval of days and milliseconds.
#[derive(Debug, Clone, Copy, PartialEq, Eq, Structural)]
pub struct DaysMs {
    pub days: i32,
    pub ms: i32,
}

/// The values of a column. Those of missing items are there too, whatever they are. A
/// floating-point number is given by its bits.
#[derive(Debug, PartialEq, Eq)]
pub enum Values {
    Boolean(Vec<bool>),
    Int8(Vec<i8>),
    Int16(Vec<i16>),
    Int32(Vec<i32>),
    Int64(Vec<i64>),
    Int128(Vec<i128>),
    Int256(Vec<I256>),
    UInt8(Vec<u8>),
    UInt16(Vec<u16>),
    UInt32(Vec<u32>),
    UInt64(Vec<u64>),
    UInt128(Vec<u128>),
    Float16(Vec<u16>),
    Float32(Vec<u32>),
    Float64(Vec<u64>),
    DaysMs(Vec<DaysMs>),
    /// Items of `size` bytes each, one after the other.
    FixedSizeBinary { size: usize, bytes: Vec<u8> },
    Binary(Vec<Vec<u8>>),
    LargeBinary(Vec<Vec<u8>>),
    Utf8(Vec<Vec<u8>>),
    LargeUtf8(Vec<Vec<u8>>),
    BinaryView(Vec<Vec<u8>>),
    Utf8View(Vec<Vec<u8>>),
    /// So many items whose values are of no concern here.
    Opaque(usize),
}

/// What the values of a column are.
#[verifier::ext_equal]
pub enum ValuesView {
    Booleans(Seq<bool>),
    Ints(PrimitiveType, Seq<int>),
    Intervals(Seq<DaysMs>),
    FixedSizeBinary(nat, Seq<u8>),
    Bytes(PhysicalType, Seq<Seq<u8>>),
    Opaque(nat),
}

/// The contents of byte strings.
pub open spec fn byte_strings(items: Seq<Vec<u8>>) -> Seq<Seq<u8>> {
    items.map_values(|item: Vec<u8>| item@)
}

impl View for Values {
    type V = ValuesView;

    open spec fn view(&self) -> ValuesView {
        match self {
            Values::Boolean(v) => ValuesView::Booleans(v@),
            Values::Int8(v) => ValuesView::Ints(PrimitiveType::Int8, ints(v@)),
            Values::Int16(v) => ValuesView::Ints(PrimitiveType::Int16, ints(v@)),
            Values::Int32(v) => ValuesView::Ints(PrimitiveType::Int32, ints(v@)),
            Values::Int64(v) => ValuesView::Ints(PrimitiveType::Int64, ints(v@)),
            Values::Int128(v) => ValuesView::Ints(PrimitiveType::Int128, ints(v@)),
            Values::Int256(v) => ValuesView::Ints(PrimitiveType::Int256, ints(v@)),
            Values::UInt8(v) => ValuesView::Ints(PrimitiveType::UInt8, ints(v@)),
            Values::UInt16(v) => ValuesView::Ints(PrimitiveType::UInt16, ints(v@)),
            Values::UInt32(v) => ValuesView::Ints(PrimitiveType::UInt32, ints(v@)),
            Values::UInt64(v) => ValuesView::Ints(PrimitiveType::UInt64, ints(v@)),
            Values::UInt128(v) => ValuesView::Ints(PrimitiveType::UInt128, ints(v@)),
            Values::Float16(v) => ValuesView::Ints(PrimitiveType::Float16, ints(v@)),
            Values::Float32(v) => ValuesView::Ints(PrimitiveType::Float32, ints(v@)),
            Values::Float64(v) => ValuesView::Ints(PrimitiveType::Float64, ints(v@)),
            Values::DaysMs(v) => ValuesView::Intervals(v@),
            Values::FixedSizeBinary { size, bytes } => ValuesView::FixedSizeBinary(
                *size as nat,
                bytes@,
            ),
            Values::Binary(v) => ValuesView::Bytes(PhysicalType::Binary, byte_strings(v@)),
            Values::LargeBinary(v) => ValuesView::Bytes(
                PhysicalType::LargeBinary,
                byte_strings(v@),
            ),
            Values::Utf8(v) => ValuesView::Bytes(PhysicalType::Utf8, byte_strings(v@)),
            Values::LargeUtf8(v) => ValuesView::Bytes(PhysicalType::LargeUtf8, byte_strings(v@)),
            Values::BinaryView(v) => ValuesView::Bytes(PhysicalType::BinaryView, byte_strings(v@)),
            Values::Utf8View(v) => ValuesView::Bytes(PhysicalType::Utf8View, byte_strings(v@)),
            Values::Opaque(len) => ValuesView::Opaque(*len as nat),
        }
    }
}

impl ValuesView {
    /// The number of items.
    pub open spec fn len(self) -> nat {
        match self {
            ValuesView::Booleans(v) => v.len(),
            ValuesView::Ints(_, v) => v.len(),
            ValuesView::Intervals(v) => v.len(),
            ValuesView::FixedSizeBinary(size, bytes) => if size == 0 {
                0
            } else {
                bytes.len() / size
            },
            ValuesView::Bytes(_, v) => v.len(),
            ValuesView::Opaque(len) => len,
        }
    }

    /// Whether the values fill whole items.
    pub open spec fn is_whole(self) -> bool {
        self matches ValuesView::FixedSizeBinary(size, bytes) ==> size > 0 && bytes.len() % size
            == 0
    }

    /// Whether these are the values of a column with this layout.
    pub open spec fn has_layout(self, layout: PhysicalType) -> bool {
        match layout {
            PhysicalType::Boolean => self is Booleans,
            PhysicalType::Primitive(PrimitiveType::DaysMs) => self is Intervals,
            PhysicalType::Primitive(PrimitiveType::MonthDayNano) => self is Opaque,
            PhysicalType::Primitive(PrimitiveType::MonthDayMillis) => self is Opaque,
            PhysicalType::Primitive(primitive) => {
                &&& self matches ValuesView::Ints(own, _)
                &&& own == primitive
            },
            PhysicalType::FixedSizeBinary => self is FixedSizeBinary,
            PhysicalType::Binary
            | PhysicalType::LargeBinary
            | PhysicalType::Utf8
            | PhysicalType::LargeUtf8
            | PhysicalType::BinaryView
            | PhysicalType::Utf8View => {
                &&& self matches ValuesView::Bytes(own, _)
                &&& own == layout
            },
            _ => self is Opaque,
        }
    }

    /// The items from `start` up to `end`.
    pub open spec fn slice(self, start: int, end: int) -> ValuesView {
        match self {
            ValuesView::Booleans(v) => ValuesView::Booleans(v.subrange(start, end)),
            ValuesView::Ints(primitive, v) => ValuesView::Ints(primitive, v.subrange(start, end)),
            ValuesView::Intervals(v) => ValuesView::Intervals(v.subrange(start, end)),
            ValuesView::FixedSizeBinary(size, bytes) => ValuesView::FixedSizeBinary(
                size,
                bytes.subrange(start * size, end * size),
            ),
            ValuesView::Bytes(layout, v) => ValuesView::Bytes(layout, v.subrange(start, end)),
            ValuesView::Opaque(_) => ValuesView::Opaque((end - start) as nat),
        }
    }
}

/// The items from `offset` on.
pub(crate) fn copy_range<T: Copy>(items: &Vec<T>, offset: usize, length: usize) -> (copy: Vec<T>)
    requires
        offset + length <= items@.len(),
    ensures
        copy@ == items@.subrange(offset as int, offset + length),
{
    assert(offset + length <= items.len());
    vstd::slice::slice_to_vec(
        vstd::slice::slice_subrange(items.as_slice(), offset, offset + length),
    )
}

/// The integers from `offset` on.
fn copy_ints<T: PlainInt>(items: &Vec<T>, offset: usize, length: usize) -> (copy: Vec<T>)
    requires
        offset + length <= items@.len(),
    ensures
        ints(copy@) == ints(items@).subrange(offset as int, offset + length),
        copy@ == items@.subrange(offset as int, offset + length),
{
    let copy: Vec<T> = copy_range(items, offset, length);
    assert(ints(copy@) =~= ints(items@).subrange(offset as int, offset + length));
    copy
}

/// The byte strings from `offset` on.
pub(crate) fn copy_strings(items: &Vec<Vec<u8>>, offset: usize, length: usize) -> (copy: Vec<Vec<u8>>)
    requires
        offset + length <= items@.len(),
    ensures
        byte_strings(copy@) == byte_strings(items@).subrange(offset as int, offset + length),
{
    let total: usize = items.len();
    let mut copy: Vec<Vec<u8>> = Vec::new();
    let mut i: usize = 0;
    while i < length
        invariant
            i <= length,
            offset + length <= items@.len() == total,
            byte_strings(copy@) == byte_strings(items@).subrange(offset as int, offset + i),
        decreases length - i,
    {
        let ghost before = copy@;
        copy.push(vstd::slice::slice_to_vec(items[offset + i].as_slice()));
        i = i + 1;
        assert(byte_strings(copy@) =~= byte_strings(before).push(items@[offset + i - 1]@));
        assert(byte_strings(copy@) =~= byte_strings(items@).subrange(offset as int, offset + i));
    }
    copy
}

impl Values {
    /// The number of items.
    pub fn len(&self) -> (len: usize)
        requires
            self@.is_whole(),
        ensures
            len == self@.len(),
    {
        match self {
            Values::Boolean(v) => v.len(),
            Values::Int8(v) => v.len(),
            Values::Int16(v) => v.len(),
            Values::Int32(v) => v.len(),
            Values::Int64(v) => v.len(),
            Values::Int128(v) => v.len(),
            Values::Int256(v) => v.len(),
            Values::UInt8(v) => v.len(),
            Values::UInt16(v) => v.len(),
            Values::UInt32(v) => v.len(),
            Values::UInt64(v) => v.len(),
            Values::UInt128(v) => v.len(),
            Values::Float16(v) => v.len(),
            Values::Float32(v) => v.len(),
            Values::Float64(v) => v.len(),
            Values::DaysMs(v) => v.len(),
            Values::FixedSizeBinary { size, bytes } => bytes.len() / *size,
            Values::Binary(v) => v.len(),
            Values::LargeBinary(v) => v.len(),
            Values::Utf8(v) => v.len(),
            Values::LargeUtf8(v) => v.len(),
            Values::BinaryView(v) => v.len(),
            Values::Utf8View(v) => v.len(),
            Values::Opaque(len) => *len,
        }
    }

    /// Whether the values fill whole items.
    pub fn fill_items(&self) -> (whole: bool)
        ensures
            whole == self@.is_whole(),
    {
        match self {
            Values::FixedSizeBinary { size, bytes } => *size > 0 && bytes.len() % *size == 0,
            _ => true,
        }
    }

    /// The layout of a column with these values, where only one has such values.
    fn own_layout(&self) -> (layout: Option<PhysicalType>)
        ensures
            layout is None <==> self@ is Opaque,
            layout matches Some(own) ==> forall|other: PhysicalType|
                #[trigger] self@.has_layout(other) <==> other == own,
    {
        match self {
            Values::Boolean(_) => Some(PhysicalType::Boolean),
            Values::Int8(_) => Some(PhysicalType::Primitive(PrimitiveType::Int8)),
            Values::Int16(_) => Some(PhysicalType::Primitive(PrimitiveType::Int16)),
            Values::Int32(_) => Some(PhysicalType::Primitive(PrimitiveType::Int32)),
            Values::Int64(_) => Some(PhysicalType::Primitive(PrimitiveType::Int64)),
            Values::Int128(_) => Some(PhysicalType::Primitive(PrimitiveType::Int128)),
            Values::Int256(_) => Some(PhysicalType::Primitive(PrimitiveType::Int256)),
            Values::UInt8(_) => Some(PhysicalType::Primitive(PrimitiveType::UInt8)),
            Values::UInt16(_) => Some(PhysicalType::Primitive(PrimitiveType::UInt16)),
            Values::UInt32(_) => Some(PhysicalType::Primitive(PrimitiveType::UInt32)),
            Values::UInt64(_) => Some(PhysicalType::Primitive(PrimitiveType::UInt64)),
            Values::UInt128(_) => Some(PhysicalType::Primitive(PrimitiveType::UInt128)),
            Values::Float16(_) => Some(PhysicalType::Primitive(PrimitiveType::Float16)),
            Values::Float32(_) => Some(PhysicalType::Primitive(PrimitiveType::Float32)),
            Values::Float64(_) => Some(PhysicalType::Primitive(PrimitiveType::Float64)),
            Values::DaysMs(_) => Some(PhysicalType::Primitive(PrimitiveType::DaysMs)),
            Values::FixedSizeBinary { .. } => Some(PhysicalType::FixedSizeBinary),
            Values::Binary(_) => Some(PhysicalType::Binary),
            Values::LargeBinary(_) => Some(PhysicalType::LargeBinary),
            Values::Utf8(_) => Some(PhysicalType::Utf8),
            Values::LargeUtf8(_) => Some(PhysicalType::LargeUtf8),
            Values::BinaryView(_) => Some(PhysicalType::BinaryView),
            Values::Utf8View(_) => Some(PhysicalType::Utf8View),
            Values::Opaque(_) => None,
        }
    }

    /// Whether these are the values of a column with this layout.
    pub fn fit_layout(&self, layout: PhysicalType) -> (fit: bool)
        ensures
            fit == self@.has_layout(layout),
    {
        match self.own_layout() {
            Some(own) => own == layout,
            None => match layout {
                PhysicalType::Boolean
                | PhysicalType::FixedSizeBinary
                | PhysicalType::Binary
                | PhysicalType::LargeBinary
                | PhysicalType::Utf8
                | PhysicalType::LargeUtf8
                | PhysicalType::BinaryView
                | PhysicalType::Utf8View => false,
                PhysicalType::Primitive(primitive) => matches!(
                    primitive,
                    PrimitiveType::MonthDayNano | PrimitiveType::MonthDayMillis
                ),
                _ => true,
            },
        }
    }

    /// The items from `offset` on.
    pub fn slice(&self, offset: usize, length: usize) -> (slice: Values)
        requires
            self@.is_whole(),
            offset + length <= self@.len(),
        ensures
            slice@ == self@.slice(offset as int, offset + length),
            slice@.is_whole(),
            slice@.len() == length,
    {
        match self {
            Values::Boolean(v) => Values::Boolean(copy_range(v, offset, length)),
            Values::Int8(v) => Values::Int8(copy_ints(v, offset, length)),
            Values::Int16(v) => Values::Int16(copy_ints(v, offset, length)),
            Values::Int32(v) => Values::Int32(copy_ints(v, offset, length)),
            Values::Int64(v) => Values::Int64(copy_ints(v, offset, length)),
            Values::Int128(v) => Values::Int128(copy_ints(v, offset, length)),
            Values::Int256(v) => Values::Int256(copy_ints(v, offset, length)),
            Values::UInt8(v) => Values::UInt8(copy_ints(v, offset, length)),
            Values::UInt16(v) => Values::UInt16(copy_ints(v, offset, length)),
            Values::UInt32(v) => Values::UInt32(copy_ints(v, offset, length)),
            Values::UInt64(v) => Values::UInt64(copy_ints(v, offset, length)),
            Values::UInt128(v) => Values::UInt128(copy_ints(v, offset, length)),
            Values::Float16(v) => Values::Float16(copy_ints(v, offset, length)),
            Values::Float32(v) => Values::Float32(copy_ints(v, offset, length)),
            Values::Float64(v) => Values::Float64(copy_ints(v, offset, length)),
            Values::DaysMs(v) => Values::DaysMs(copy_range(v, offset, length)),
            Values::FixedSizeBinary { size, bytes } => {
                proof {
                    lemma_fixed_size_slice(
                        bytes.len() as int,
                        *size as int,
                        offset as int,
                        length as int,
                    );
                }
                Values::FixedSizeBinary {
                    size: *size,
                    bytes: copy_range(bytes, offset * *size, length * *size),
                }
            },
            Values::Binary(v) => Values::Binary(copy_strings(v, offset, length)),
            Values::LargeBinary(v) => Values::LargeBinary(copy_strings(v, offset, length)),
            Values::Utf8(v) => Values::Utf8(copy_strings(v, offset, length)),
            Values::LargeUtf8(v) => Values::LargeUtf8(copy_strings(v, offset, length)),
            Values::BinaryView(v) => Values::BinaryView(copy_strings(v, offset, length)),
            Values::Utf8View(v) => Values::Utf8View(copy_strings(v, offset, length)),
            Values::Opaque(_) => Values::Opaque(length),
        }
    }
}

/// Items of a fixed size are cut at bytes that exist.
proof fn lemma_fixed_size_slice(total: int, size: int, offset: int, length: int)
    requires
        size > 0,
        total >= 0,
        offset >= 0,
        length >= 0,
        offset + length <= total / size,
    ensures
        0 <= offset * size,
        0 <= length * size,
        offset * size + length * size == (offset + length) * size,
        (offset + length) * size <= total,
        (length * size) % size == 0,
        (length * size) / size == length,
{
    vstd::arithmetic::div_mod::lemma_fundamental_div_mod(total, size);
    assert((offset + length) * size <= total) by (nonlinear_arith)
        requires
            offset + length <= total / size,
            total == size * (total / size) + total % size,
            total % size >= 0,
            size > 0,
    ;
    assert(offset * size + length * size == (offset + length) * size) by (nonlinear_arith);
    assert(0 <= offset * size && 0 <= length * size) by (nonlinear_arith)
        requires
            offset >= 0,
            length >= 0,
            size > 0,
    ;
    vstd::arithmetic::div_mod::lemma_mod_multiples_basic(length, size);
    vstd::arithmetic::div_mod::lemma_div_by_multiple(length, size);
}

/// The contents of an optional validity mask.
pub open spec fn mask(validity: Option<Vec<bool>>) -> Option<Seq<bool>> {
    match validity {
        Some(bits) => Some(bits@),
        None => None,
    }
}

/// Whether item `i` is there.
pub open spec fn is_set(validity: Option<Seq<bool>>, i: int) -> bool {
    match validity {
        Some(bits) => bits[i],
        None => true,
    }
}

/// The number of bits that are not set.
pub open spec fn unset_bits(bits: Seq<bool>) -> nat
    decreases bits.len(),
{
    if bits.len() == 0 {
        0
    } else {
        unset_bits(bits.drop_last()) + (if bits.last() {
            0nat
        } else {
            1nat
        })
    }
}

/// The number of items that a mask marks as missing.
pub open spec fn missing(validity: Option<Seq<bool>>) -> nat {
    match validity {
        Some(bits) => unset_bits(bits),
        None => 0,
    }
}

/// Whether a mask fits items of this number.
pub open spec fn mask_fits(validity: Option<Seq<bool>>, len: int) -> bool {
    validity matches Some(bits) ==> bits.len() == len
}

/// The part of a mask from `start` up to `end`.
pub open spec fn mask_slice(validity: Option<Seq<bool>>, start: int, end: int) -> Option<Seq<bool>> {
    match validity {
        Some(bits) => Some(bits.subrange(start, end)),
        None => None,
    }
}

/// The part of a mask from `offset` on.
pub(crate) fn slice_mask(validity: &Option<Vec<bool>>, offset: usize, length: usize) -> (slice:
    Option<Vec<bool>>)
    requires
        mask(*validity) matches Some(bits) ==> offset + length <= bits.len(),
    ensures
        mask(slice) == mask_slice(mask(*validity), offset as int, offset + length),
{
    match validity {
        Some(bits) => Some(copy_range(bits, offset, length)),
        None => None,
    }
}

/// A copy of a mask.
pub(crate) fn copy_mask(validity: &Option<Vec<bool>>) -> (copy: Option<Vec<bool>>)
    ensures
        mask(copy) == mask(*validity),
{
    match validity {
        Some(bits) => Some(vstd::slice::slice_to_vec(bits.as_slice())),
        None => None,
    }
}

/// The number of items that a mask marks as missing.
pub(crate) fn count_missing(validity: &Option<Vec<bool>>) -> (count: usize)
    ensures
        count == missing(mask(*validity)),
{
    match validity {
        Some(bits) => {
            let mut count: usize = 0;
            let mut i: usize = 0;
            while i < bits.len()
                invariant
                    i <= bits@.len(),
                    count <= i,
                    count == unset_bits(bits@.take(i as int)),
                decreases bits@.len() - i,
            {
                assert(bits@.take(i + 1).drop_last() =~= bits@.take(i as int));
                if !bits[i] {
                    count = count + 1;
                }
                i = i + 1;
            }
            assert(bits@.take(i as int) =~= bits@);
            count
        },
        None => 0,
    }
}

/// The values of one leaf column, with the mask of those that are there.
#[derive(Debug, PartialEq, Eq)]
pub struct ColumnArray<'a> {
    pub dtype: &'a DataType,
    pub values: Values,
    pub validity: Option<Vec<bool>>,
}

/// What a column holds.
#[verifier::ext_equal]
pub struct ArrayView {
    pub values: ValuesView,
    pub validity: Option<Seq<bool>>,
}

impl<'a> View for ColumnArray<'a> {
    type V = ArrayView;

    open spec fn view(&self) -> ArrayView {
        ArrayView { values: self.values@, validity: mask(self.validity) }
    }
}

impl ArrayView {
    /// The number of items.
    pub open spec fn len(self) -> nat {
        self.values.len()
    }

    /// Whether the values fill whole items and the mask has a bit for each.
    pub open spec fn is_whole(self) -> bool {
        self.values.is_whole() && mask_fits(self.validity, self.len() as int)
    }

    /// The items from `start` up to `end`.
    pub open spec fn slice(self, start: int, end: int) -> ArrayView {
        ArrayView {
            values: self.values.slice(start, end),
            validity: mask_slice(self.validity, start, end),
        }
    }
}

impl ValuesView {
    /// These values, and after them those of a column of the same layout.
    pub open spec fn joined(self, other: ValuesView) -> ValuesView {
        match (self, other) {
            (ValuesView::Booleans(v), ValuesView::Booleans(w)) => ValuesView::Booleans(v + w),
            (ValuesView::Ints(primitive, v), ValuesView::Ints(_, w)) => ValuesView::Ints(
                primitive,
                v + w,
            ),
            (ValuesView::Intervals(v), ValuesView::Intervals(w)) => ValuesView::Intervals(v + w),
            (
                ValuesView::FixedSizeBinary(size, v),
                ValuesView::FixedSizeBinary(_, w),
            ) => ValuesView::FixedSizeBinary(size, v + w),
            (ValuesView::Bytes(layout, v), ValuesView::Bytes(_, w)) => ValuesView::Bytes(
                layout,
                v + w,
            ),
            (ValuesView::Opaque(v), ValuesView::Opaque(w)) => ValuesView::Opaque(v + w),
            _ => self,
        }
    }
}

impl ArrayView {
    /// These items, and after them those of a column of the same layout.
    pub open spec fn joined(self, other: ArrayView) -> ArrayView {
        ArrayView {
            values: self.values.joined(other.values),
            validity: match (self.validity, other.validity) {
                (Some(one), Some(more)) => Some(one + more),
                _ => None,
            },
        }
    }
}

/// A run of items has as many as lie between its ends.
pub proof fn lemma_slice_is_whole(array: ArrayView, start: int, end: int)
    requires
        array.is_whole(),
        0 <= start <= end <= array.len(),
    ensures
        array.slice(start, end).len() == end - start,
        array.slice(start, end).is_whole(),
{
    if let ValuesView::FixedSizeBinary(size, bytes) = array.values {
        lemma_fixed_size_slice(bytes.len() as int, size as int, start, end - start);
    }
}

/// Runs of items that follow one another join to one run.
pub proof fn law_slices_join(array: ArrayView, start: int, middle: int, end: int)
    requires
        array.is_whole(),
        0 <= start <= middle <= end <= array.len(),
    ensures
        array.slice(start, middle).joined(array.slice(middle, end)) == array.slice(start, end),
{
    if let ValuesView::FixedSizeBinary(size, bytes) = array.values {
        let size = size as int;
        lemma_fixed_size_slice(bytes.len() as int, size, start, middle - start);
        lemma_fixed_size_slice(bytes.len() as int, size, middle, end - middle);
    }
    assert(array.slice(start, middle).joined(array.slice(middle, end)) =~= array.slice(start, end));
}

/// The number of missing items of a column that is taken for this type: all of them where the
/// type is that of no values.
pub open spec fn null_count_as(dtype: DataType, array: ArrayView) -> nat {
    if dtype is Null {
        array.len()
    } else {
        missing(array.validity)
    }
}

impl<'a> ColumnArray<'a> {
    /// Whether the values have the layout of the type, and the mask a bit for each item.
    pub open spec fn wf(self) -> bool {
        &&& self@.is_whole()
        &&& self.dtype.physical() matches Some(layout)
        &&& self@.values.has_layout(layout)
    }

    /// Whether the values have the layout of the type, and the mask a bit for each item.
    pub fn is_wf(&self) -> (is_wf: bool)
        ensures
            is_wf == self.wf(),
            is_wf <==> {
                &&& self.validity matches Some(bits) ==> bits@.len() == self@.len()
                &&& self.values matches Values::FixedSizeBinary { size, bytes } ==> size > 0
                    && bytes@.len() % size as nat == 0
                &&& self.dtype.physical() matches Some(layout)
                &&& self@.values.has_layout(layout)
            },
    {
        if !self.values.fill_items() {
            return false;
        }
        let mask_fits: bool = match &self.validity {
            Some(bits) => bits.len() == self.values.len(),
            None => true,
        };
        mask_fits && self.dtype.has_layout() && self.values.fit_layout(
            self.dtype.to_physical_type(),
        )
    }

    /// The number of items.
    pub fn len(&self) -> (len: usize)
        requires
            self@.is_whole(),
        ensures
            len == self@.len(),
    {
        self.values.len()
    }

    /// The items from `offset` on.
    pub fn slice(&self, offset: usize, length: usize) -> (slice: ColumnArray<'a>)
        requires
            self@.is_whole(),
            offset + length <= self@.len(),
        ensures
            slice.dtype == self.dtype,
            slice@ == self@.slice(offset as int, offset + length),
            slice@.is_whole(),
            slice@.len() == length,
            self.wf() ==> slice.wf(),
    {
        ColumnArray {
            dtype: self.dtype,
            values: self.values.slice(offset, length),
            validity: slice_mask(&self.validity, offset, length),
        }
    }
}

impl<'a> ColumnArray<'a> {
    /// A copy of the column.
    pub(crate) fn copy(&self) -> (copy: ColumnArray<'a>)
        requires
            self@.is_whole(),
        ensures
            copy.dtype == self.dtype,
            copy@ == self@,
            self.wf() ==> copy.wf(),
    {
        proof {
            lemma_slice_of_all(self@);
        }
        self.slice(0, self.len())
    }
}

/// The run of all items is the column.
proof fn lemma_slice_of_all(array: ArrayView)
    requires
        array.is_whole(),
    ensures
        array.slice(0, array.len() as int) == array,
{
    if let ValuesView::FixedSizeBinary(size, bytes) = array.values {
        let size = size as int;
        vstd::arithmetic::div_mod::lemma_fundamental_div_mod(bytes.len() as int, size);
        let len = bytes.len() as int / size;
        assert(len * size == size * len && 0 * size == 0) by (nonlinear_arith);
    }
    assert(array.slice(0, array.len() as int) =~= array);
}

/// A run of items is made of the items of the column, one by one: item `j` of the run from `start`
/// on is item `start + j` of the column, with its bit of the mask.
pub proof fn law_slice_keeps_items(array: ArrayView, start: int, end: int, j: int)
    requires
        array.is_whole(),
        0 <= start,
        0 <= j < end - start,
        end <= array.len(),
    ensures
        ({
            let slice = array.slice(start, end);
            &&& slice.len() == end - start
            &&& slice.validity is Some <==> array.validity is Some
            &&& (array.validity matches Some(bits) ==> (slice.validity matches Some(cut) && {
                &&& cut.len() == end - start
                &&& cut[j] == bits[start + j]
            }))
            &&& match (array.values, slice.values) {
                (ValuesView::Booleans(all), ValuesView::Booleans(cut)) => cut[j] == all[start + j],
                (ValuesView::Ints(held, all), ValuesView::Ints(kept, cut)) => kept == held && cut[j]
                    == all[start + j],
                (ValuesView::Intervals(all), ValuesView::Intervals(cut)) => cut[j] == all[start
                    + j],
                (
                    ValuesView::FixedSizeBinary(size, all),
                    ValuesView::FixedSizeBinary(kept, cut),
                ) => kept == size && cut.subrange((j * size) as int, ((j + 1) * size) as int)
                    == all.subrange(
                    ((start + j) * size) as int,
                    ((start + j + 1) * size) as int,
                ),
                (ValuesView::Bytes(layout, all), ValuesView::Bytes(kept, cut)) => kept == layout
                    && cut[j] == all[start + j],
                (ValuesView::Opaque(_), ValuesView::Opaque(_)) => true,
                _ => false,
            }
        }),
{
    lemma_slice_is_whole(array, start, end);
    if let ValuesView::FixedSizeBinary(size, all) = array.values {
        let size = size as int;
        lemma_fixed_size_slice(all.len() as int, size, start, end - start);
        let cut = all.subrange(start * size, end * size);
        assert((start + j) * size == start * size + j * size && (start + j + 1) * size == start
            * size + (j + 1) * size && 0 <= j * size && j * size <= (j + 1) * size && (j + 1) * size
            <= (end - start) * size && end * size == start * size + (end - start) * size)
            by (nonlinear_arith)
            requires
                size > 0,
                0 <= j < end - start,
        ;
        assert(cut.subrange(j * size, (j + 1) * size) =~= all.subrange(
            (start + j) * size,
            (start + j + 1) * size,
        ));
    }
}

/// Missing items are counted one by one: in two masks, one after the other, as many are missing as
/// in both, a set bit counts none, and a bit that is not set counts one.
pub proof fn law_missing_items_add_up(one: Seq<bool>, more: Seq<bool>)
    ensures
        unset_bits(one + more) == unset_bits(one) + unset_bits(more),
        one.len() == 1 ==> unset_bits(one) == (if one[0] {
            0nat
        } else {
            1nat
        }),
    decreases more.len(),
{
    if one.len() == 1 {
        assert(unset_bits(one.drop_last()) == 0);
    }
    if more.len() == 0 {
        assert(one + more =~= one);
    } else {
        law_missing_items_add_up(one, more.drop_last());
        assert((one + more).drop_last() =~= one + more.drop_last());
        assert((one + more).last() == more.last());
    }
}

/// No item is missing if and only if each has its bit set; without a mask none is.
pub proof fn law_none_missing(validity: Option<Seq<bool>>)
    ensures
        validity is None ==> missing(validity) == 0,
        validity matches Some(bits) ==> (missing(validity) == 0 <==> forall|i: int|
            0 <= i < bits.len() ==> #[trigger] bits[i]),
{
    if let Some(bits) = validity {
        lemma_none_unset(bits);
    }
}

proof fn lemma_none_unset(bits: Seq<bool>)
    ensures
        unset_bits(bits) == 0 <==> forall|i: int| 0 <= i < bits.len() ==> #[trigger] bits[i],
    decreases bits.len(),
{
    if bits.len() > 0 {
        let before = bits.drop_last();
        lemma_none_unset(before);
        assert forall|i: int| 0 <= i < before.len() implies #[trigger] bits[i] == before[i] by {}
        if unset_bits(bits) == 0 {
            assert forall|i: int| 0 <= i < bits.len() implies #[trigger] bits[i] by {
                if i < before.len() {
                    assert(before[i]);
                }
            }
        } else if unset_bits(before) != 0 {
            let i = choose|i: int| 0 <= i < before.len() && !#[trigger] before[i];
            assert(!bits[i]);
        } else {
            assert(!bits[bits.len() - 1]);
        }
    }
}

} // verus!
