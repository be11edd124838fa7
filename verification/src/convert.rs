//! Conversions of column values to those that Parquet stores.

use vstd::prelude::*;

use crate::array::{lemma_halves, DaysMs, I256};
use crate::bytes::{be_bytes, be_concat, byte_span, ints, le_bytes, low_i32, low_i64};
use crate::bytes::{law_bytes_are_digits, law_cut_numbers_keep_low_bits};
use crate::bytes::{lemma_le_bytes_len, lemma_le_bytes_of_low_bits, lemma_le_bytes_split};
use crate::bytes::{push_be, push_le, two_pow_128, wrap_to_i32, wrap_to_i64, PlainInt};
use crate::images::{law_equal_images_in_place, lemma_join_next};

verus! {

/// So many zero bytes.
pub open spec fn zero_bytes(n: nat) -> Seq<u8> {
    Seq::new(n, |i: int| 0u8)
}

/// The twelve bytes of an interval of months: the months, no days and no milliseconds.
pub open spec fn months_image(months: int) -> Seq<u8> {
    le_bytes(months, 4) + zero_bytes(8)
}

/// The twelve bytes of an interval of days: no months, the days and the milliseconds.
pub open spec fn days_image(interval: DaysMs) -> Seq<u8> {
    zero_bytes(4) + le_bytes(interval.days as int, 4) + le_bytes(interval.ms as int, 4)
}

/// The bytes of intervals of months, one after the other.
pub open spec fn months_concat(values: Seq<int>) -> Seq<u8> {
    values.map_values(|x: int| months_image(x)).flatten()
}

/// The bytes of intervals of days, one after the other.
pub open spec fn days_concat(values: Seq<DaysMs>) -> Seq<u8> {
    values.map_values(|x: DaysMs| days_image(x)).flatten()
}

/// The values cut down to 32 bits.
pub open spec fn all_to_i32(values: Seq<int>) -> Seq<int> {
    values.map_values(|x: int| wrap_to_i32(x))
}

/// The values cut down to 64 bits.
pub open spec fn all_to_i64(values: Seq<int>) -> Seq<int> {
    values.map_values(|x: int| wrap_to_i64(x))
}

/// The integers cut down to 32 bits.
pub(crate) fn to_i32s<T: PlainInt>(values: &Vec<T>) -> (narrow: Vec<i32>)
    ensures
        ints(narrow@) == all_to_i32(ints(values@)),
{
    let mut narrow: Vec<i32> = Vec::new();
    let mut i: usize = 0;
    while i < values.len()
        invariant
            i <= values@.len(),
            narrow@.len() == i,
            forall|k: int| 0 <= k < i ==> #[trigger] narrow@[k] == wrap_to_i32(values@[k].value()),
        decreases values@.len() - i,
    {
        narrow.push(low_i32(values[i]));
        i = i + 1;
    }
    assert(ints(narrow@) =~= all_to_i32(ints(values@)));
    narrow
}

/// The integers cut down to 64 bits.
pub(crate) fn to_i64s<T: PlainInt>(values: &Vec<T>) -> (narrow: Vec<i64>)
    ensures
        ints(narrow@) == all_to_i64(ints(values@)),
{
    let mut narrow: Vec<i64> = Vec::new();
    let mut i: usize = 0;
    while i < values.len()
        invariant
            i <= values@.len(),
            narrow@.len() == i,
            forall|k: int| 0 <= k < i ==> #[trigger] narrow@[k] == wrap_to_i64(values@[k].value()),
        decreases values@.len() - i,
    {
        narrow.push(low_i64(values[i]));
        i = i + 1;
    }
    assert(ints(narrow@) =~= all_to_i64(ints(values@)));
    narrow
}

/// The `size` low-order bytes of each integer, most significant first.
pub(crate) fn to_be_images<T: PlainInt>(values: &Vec<T>, size: usize) -> (bytes: Vec<u8>)
    requires
        size <= 16,
    ensures
        bytes@ == be_concat(ints(values@), size as nat),
{
    let ghost images = ints(values@).map_values(|x: int| be_bytes(x, size as nat));
    let mut bytes: Vec<u8> = Vec::new();
    let mut i: usize = 0;
    assert(images.take(0).flatten() =~= Seq::<u8>::empty());
    while i < values.len()
        invariant
            i <= values@.len(),
            size <= 16,
            images == ints(values@).map_values(|x: int| be_bytes(x, size as nat)),
            bytes@ == images.take(i as int).flatten(),
        decreases values@.len() - i,
    {
        proof {
            lemma_join_next(images, i as int);
        }
        push_be(&mut bytes, values[i], size);
        i = i + 1;
    }
    assert(images.take(i as int) =~= images);
    bytes
}

/// All thirty-two bytes of a wide integer are those of its halves.
proof fn lemma_wide_bytes(x: I256)
    ensures
        be_bytes(x.value(), 32) == be_bytes(x.high as int, 16) + be_bytes(x.low as int, 16),
{
    lemma_halves(x);
    lemma_le_bytes_split(x.value(), 16, 16);
    lemma_le_bytes_of_low_bits(x.value(), 16);
    assert(byte_span(16) == two_pow_128()) by {
        reveal_with_fuel(byte_span, 17);
    }
    lemma_le_bytes_len(x.high as int, 16);
    lemma_le_bytes_len(x.low as int, 16);
    assert(be_bytes(x.value(), 32) =~= be_bytes(x.high as int, 16) + be_bytes(x.low as int, 16));
}

/// All bytes of each wide integer, most significant first.
pub(crate) fn wide_to_all_be_images(values: &Vec<I256>) -> (bytes: Vec<u8>)
    ensures
        bytes@ == be_concat(ints(values@), 32),
{
    let ghost images = ints(values@).map_values(|x: int| be_bytes(x, 32));
    let mut bytes: Vec<u8> = Vec::new();
    let mut i: usize = 0;
    assert(images.take(0).flatten() =~= Seq::<u8>::empty());
    while i < values.len()
        invariant
            i <= values@.len(),
            images == ints(values@).map_values(|x: int| be_bytes(x, 32)),
            bytes@ == images.take(i as int).flatten(),
        decreases values@.len() - i,
    {
        let ghost before = bytes@;
        proof {
            lemma_join_next(images, i as int);
            lemma_wide_bytes(values@[i as int]);
        }
        push_be(&mut bytes, values[i].high, 16);
        push_be(&mut bytes, values[i].low, 16);
        assert(bytes@ =~= before + images[i as int]);
        i = i + 1;
    }
    assert(images.take(i as int) =~= images);
    bytes
}

/// Appends `n` zero bytes.
fn push_zeros(out: &mut Vec<u8>, n: usize)
    ensures
        final(out)@ == old(out)@ + zero_bytes(n as nat),
{
    let mut i: usize = 0;
    assert(out@ =~= out@ + zero_bytes(0));
    while i < n
        invariant
            i <= n,
            out@ == old(out)@ + zero_bytes(i as nat),
        decreases n - i,
    {
        out.push(0);
        i = i + 1;
        assert(zero_bytes(i as nat) =~= zero_bytes((i - 1) as nat).push(0u8));
        assert(out@ =~= old(out)@ + zero_bytes(i as nat));
    }
}

/// The bytes of intervals of months.
pub(crate) fn to_months_images(values: &Vec<i32>) -> (bytes: Vec<u8>)
    ensures
        bytes@ == months_concat(ints(values@)),
{
    let ghost images = ints(values@).map_values(|x: int| months_image(x));
    let mut bytes: Vec<u8> = Vec::new();
    let mut i: usize = 0;
    assert(images.take(0).flatten() =~= Seq::<u8>::empty());
    while i < values.len()
        invariant
            i <= values@.len(),
            images == ints(values@).map_values(|x: int| months_image(x)),
            bytes@ == images.take(i as int).flatten(),
        decreases values@.len() - i,
    {
        let ghost before = bytes@;
        proof {
            lemma_join_next(images, i as int);
        }
        push_le(&mut bytes, values[i], 4);
        push_zeros(&mut bytes, 8);
        assert(bytes@ =~= before + images[i as int]);
        i = i + 1;
    }
    assert(images.take(i as int) =~= images);
    bytes
}

/// The bytes of intervals of days.
pub(crate) fn to_days_images(values: &Vec<DaysMs>) -> (bytes: Vec<u8>)
    ensures
        bytes@ == days_concat(values@),
{
    let ghost images = values@.map_values(|x: DaysMs| days_image(x));
    let mut bytes: Vec<u8> = Vec::new();
    let mut i: usize = 0;
    assert(images.take(0).flatten() =~= Seq::<u8>::empty());
    while i < values.len()
        invariant
            i <= values@.len(),
            images == values@.map_values(|x: DaysMs| days_image(x)),
            bytes@ == images.take(i as int).flatten(),
        decreases values@.len() - i,
    {
        let ghost before = bytes@;
        proof {
            lemma_join_next(images, i as int);
        }
        push_zeros(&mut bytes, 4);  // months
        push_le(&mut bytes, values[i].days, 4);
        push_le(&mut bytes, values[i].ms, 4);
        assert(bytes@ =~= before + images[i as int]);
        i = i + 1;
    }
    assert(images.take(i as int) =~= images);
    bytes
}

/// So many bits that are not set.
pub(crate) fn unset_mask(len: usize) -> (bits: Vec<bool>)
    ensures
        bits@ == Seq::new(len as nat, |i: int| false),
{
    let mut bits: Vec<bool> = Vec::new();
    let mut i: usize = 0;
    while i < len
        invariant
            i <= len,
            bits@ == Seq::new(i as nat, |k: int| false),
        decreases len - i,
    {
        bits.push(false);
        i = i + 1;
        assert(bits@ =~= Seq::new(i as nat, |k: int| false));
    }
    bits
}

/// So many zeros.
pub(crate) fn zeros(len: usize) -> (values: Vec<i32>)
    ensures
        ints(values@) == Seq::new(len as nat, |i: int| 0int),
{
    let mut values: Vec<i32> = Vec::new();
    let mut i: usize = 0;
    while i < len
        invariant
            i <= len,
            values@.len() == i,
            forall|k: int| 0 <= k < i ==> #[trigger] values@[k] == 0,
        decreases len - i,
    {
        values.push(0);
        i = i + 1;
    }
    assert(ints(values@) =~= Seq::new(len as nat, |i: int| 0int));
    values
}

/// An interval of months takes twelve bytes: the months, least significant byte first, and eight
/// that are zero.
pub proof fn law_months_in_place(values: Seq<int>, i: int, k: nat)
    requires
        0 <= i < values.len(),
        k < 4,
    ensures
        months_concat(values).len() == 12 * values.len(),
        months_concat(values)[12 * i + k] == (values[i] / vstd::arithmetic::power::pow(256, k))
            % 256,
        months_concat(values)[12 * i + 4 + k] == 0,
        months_concat(values)[12 * i + 8 + k] == 0,
{
    let images = values.map_values(|x: int| months_image(x));
    assert forall|j: int| 0 <= j < images.len() implies (#[trigger] images[j]).len() == 12 by {
        lemma_le_bytes_len(values[j], 4);
    }
    law_equal_images_in_place(images, 12, i);
    law_bytes_are_digits(values[i], 4, k);
    let image = months_concat(values).subrange(i * 12, (i + 1) * 12);
    assert(image == le_bytes(values[i], 4) + zero_bytes(8));
    assert(image[k as int] == le_bytes(values[i], 4)[k as int]);
    assert(image[4int + k] == 0 && image[8int + k] == 0);
}

/// An interval of days takes twelve bytes: four that are zero, the days and the milliseconds, each
/// with its least significant byte first.
pub proof fn law_days_in_place(values: Seq<DaysMs>, i: int, k: nat)
    requires
        0 <= i < values.len(),
        k < 4,
    ensures
        days_concat(values).len() == 12 * values.len(),
        days_concat(values)[12 * i + k] == 0,
        days_concat(values)[12 * i + 4 + k] == (values[i].days as int
            / vstd::arithmetic::power::pow(256, k)) % 256,
        days_concat(values)[12 * i + 8 + k] == (values[i].ms as int / vstd::arithmetic::power::pow(
            256,
            k,
        )) % 256,
{
    let images = values.map_values(|x: DaysMs| days_image(x));
    assert forall|j: int| 0 <= j < images.len() implies (#[trigger] images[j]).len() == 12 by {
        lemma_le_bytes_len(values[j].days as int, 4);
        lemma_le_bytes_len(values[j].ms as int, 4);
    }
    law_equal_images_in_place(images, 12, i);
    let days = values[i].days as int;
    let ms = values[i].ms as int;
    law_bytes_are_digits(days, 4, k);
    law_bytes_are_digits(ms, 4, k);
    let image = days_concat(values).subrange(i * 12, (i + 1) * 12);
    assert(image == zero_bytes(4) + le_bytes(days, 4) + le_bytes(ms, 4));
    assert(image[k as int] == 0);
    assert(image[4int + k] == le_bytes(days, 4)[k as int]);
    assert(image[8int + k] == le_bytes(ms, 4)[k as int]);
}

/// Intervals take twelve bytes each.
pub proof fn law_intervals_have_one_width(months: Seq<int>, days: Seq<DaysMs>)
    ensures
        months_concat(months).len() == 12 * months.len(),
        days_concat(days).len() == 12 * days.len(),
{
    if months.len() > 0 {
        law_months_in_place(months, 0, 0);
    } else {
        assert(months_concat(months) =~= Seq::empty());
    }
    if days.len() > 0 {
        law_days_in_place(days, 0, 0);
    } else {
        assert(days_concat(days) =~= Seq::empty());
    }
}

/// Cutting down integers keeps one for each, within the signed numbers of 32 or 64 bits, and each
/// that is one of these stays what it is.
pub proof fn law_cut_integers_in_place(values: Seq<int>, i: int)
    requires
        0 <= i < values.len(),
    ensures
        all_to_i32(values).len() == values.len(),
        i32::MIN <= all_to_i32(values)[i] <= i32::MAX,
        (values[i] - all_to_i32(values)[i]) % 0x1_0000_0000 == 0,
        i32::MIN <= values[i] <= i32::MAX ==> all_to_i32(values)[i] == values[i],
        all_to_i64(values).len() == values.len(),
        i64::MIN <= all_to_i64(values)[i] <= i64::MAX,
        (values[i] - all_to_i64(values)[i]) % 0x1_0000_0000_0000_0000 == 0,
        i64::MIN <= values[i] <= i64::MAX ==> all_to_i64(values)[i] == values[i],
{
    law_cut_numbers_keep_low_bits(values[i]);
    if i32::MIN <= values[i] <= i32::MAX {
        vstd::arithmetic::div_mod::lemma_small_mod((values[i] + 0x8000_0000) as nat, 0x1_0000_0000);
    }
    if i64::MIN <= values[i] <= i64::MAX {
        vstd::arithmetic::div_mod::lemma_small_mod(
            (values[i] + 0x8000_0000_0000_0000) as nat,
            0x1_0000_0000_0000_0000,
        );
    }
}

} // verus!
