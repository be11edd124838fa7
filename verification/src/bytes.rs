//! Byte images of integers.

use vstd::endian::{endianness, Endian};
use vstd::prelude::*;

use crate::sealed::Sealed;

verus! {

/// The number of values that sixteen bytes can hold.
#[verifier::inline]
pub open spec fn two_pow_128() -> int {
    0x1_0000_0000_0000_0000_0000_0000_0000_0000int
}

/// The `n` low-order bytes of `x` in two's complement, least significant first.
pub open spec fn le_bytes(x: int, n: nat) -> Seq<u8>
    decreases n,
{
    if n == 0 {
        Seq::empty()
    } else {
        seq![(x % 256) as u8] + le_bytes(x / 256, (n - 1) as nat)
    }
}

/// The `n` low-order bytes of `x` in two's complement, most significant first.
pub open spec fn be_bytes(x: int, n: nat) -> Seq<u8> {
    le_bytes(x, n).reverse()
}

/// The `n` low-order bytes of `x` in the order in which the machine keeps them.
pub open spec fn native_bytes(x: int, n: nat) -> Seq<u8> {
    match endianness() {
        Endian::Little => le_bytes(x, n),
        Endian::Big => be_bytes(x, n),
    }
}

/// The little-endian images of `values`, `n` bytes each, one after the other.
pub open spec fn le_concat(values: Seq<int>, n: nat) -> Seq<u8> {
    values.map_values(|x: int| le_bytes(x, n)).flatten()
}

/// The big-endian images of `values`, `n` bytes each, one after the other.
pub open spec fn be_concat(values: Seq<int>, n: nat) -> Seq<u8> {
    values.map_values(|x: int| be_bytes(x, n)).flatten()
}

/// The images of `values` in memory order, `n` bytes each, one after the other.
pub open spec fn native_concat(values: Seq<int>, n: nat) -> Seq<u8> {
    values.map_values(|x: int| native_bytes(x, n)).flatten()
}

/// The value that `x` has once only its low-order bits are kept, read as a signed
/// number between `-half` and `half - 1`.
pub open spec fn wrap_signed(x: int, half: int) -> int {
    (x + half) % (2 * half) - half
}

/// `x` cut down to 32 bits, read as a signed number.
pub open spec fn wrap_to_i32(x: int) -> int {
    wrap_signed(x, 0x8000_0000)
}

/// `x` cut down to 64 bits, read as a signed number.
pub open spec fn wrap_to_i64(x: int) -> int {
    wrap_signed(x, 0x8000_0000_0000_0000)
}

/// The mathematical values of a sequence of machine integers.
pub open spec fn ints<T: PlainInt>(values: Seq<T>) -> Seq<int> {
    values.map_values(|x: T| x.value())
}

/// A machine integer whose byte image is that of its mathematical value.
pub trait PlainInt: Sized + Copy + Sealed {
    /// The mathematical value.
    spec fn value(&self) -> int;

    /// The number of bytes in memory.
    spec fn width() -> nat;

    /// The sixteen low-order bytes, as an unsigned number.
    fn low_bits(&self) -> (bits: u128)
        ensures
            bits == self.value() % two_pow_128(),
    ;
}

impl Sealed for i8 {

}

impl PlainInt for i8 {
    open spec fn value(&self) -> int {
        *self as int
    }

    open spec fn width() -> nat {
        1
    }

    fn low_bits(&self) -> (bits: u128) {
        wrap_u128(*self as i128)
    }
}

impl Sealed for i16 {

}

impl PlainInt for i16 {
    open spec fn value(&self) -> int {
        *self as int
    }

    open spec fn width() -> nat {
        2
    }

    fn low_bits(&self) -> (bits: u128) {
        wrap_u128(*self as i128)
    }
}

impl Sealed for i32 {

}

impl PlainInt for i32 {
    open spec fn value(&self) -> int {
        *self as int
    }

    open spec fn width() -> nat {
        4
    }

    fn low_bits(&self) -> (bits: u128) {
        wrap_u128(*self as i128)
    }
}

impl Sealed for i64 {

}

impl PlainInt for i64 {
    open spec fn value(&self) -> int {
        *self as int
    }

    open spec fn width() -> nat {
        8
    }

    fn low_bits(&self) -> (bits: u128) {
        wrap_u128(*self as i128)
    }
}

impl Sealed for i128 {

}

impl PlainInt for i128 {
    open spec fn value(&self) -> int {
        *self as int
    }

    open spec fn width() -> nat {
        16
    }

    fn low_bits(&self) -> (bits: u128) {
        wrap_u128(*self)
    }
}

impl Sealed for u8 {

}

impl PlainInt for u8 {
    open spec fn value(&self) -> int {
        *self as int
    }

    open spec fn width() -> nat {
        1
    }

    fn low_bits(&self) -> (bits: u128) {
        *self as u128
    }
}

impl Sealed for u16 {

}

impl PlainInt for u16 {
    open spec fn value(&self) -> int {
        *self as int
    }

    open spec fn width() -> nat {
        2
    }

    fn low_bits(&self) -> (bits: u128) {
        *self as u128
    }
}

impl Sealed for u32 {

}

impl PlainInt for u32 {
    open spec fn value(&self) -> int {
        *self as int
    }

    open spec fn width() -> nat {
        4
    }

    fn low_bits(&self) -> (bits: u128) {
        *self as u128
    }
}

impl Sealed for u64 {

}

impl PlainInt for u64 {
    open spec fn value(&self) -> int {
        *self as int
    }

    open spec fn width() -> nat {
        8
    }

    fn low_bits(&self) -> (bits: u128) {
        *self as u128
    }
}

impl Sealed for u128 {

}

impl PlainInt for u128 {
    open spec fn value(&self) -> int {
        *self as int
    }

    open spec fn width() -> nat {
        16
    }

    fn low_bits(&self) -> (bits: u128) {
        *self
    }
}

/// The two's complement of `v` in sixteen bytes.
fn wrap_u128(v: i128) -> (bits: u128)
    ensures
        bits == (v as int) % two_pow_128(),
{
    if v >= 0 {
        v as u128
    } else {
        assert(((v as int) % two_pow_128()) == v + two_pow_128());
        u128::MAX - (-(v + 1)) as u128
    }
}

/// The number of values that `n` bytes can hold.
pub open spec fn byte_span(n: nat) -> int
    decreases n,
{
    if n == 0 {
        1
    } else {
        256 * byte_span((n - 1) as nat)
    }
}

/// `n` bytes are written for `n` bytes.
pub proof fn lemma_le_bytes_len(x: int, n: nat)
    ensures
        le_bytes(x, n).len() == n,
        be_bytes(x, n).len() == n,
        native_bytes(x, n).len() == n,
    decreases n,
{
    if n > 0 {
        lemma_le_bytes_len(x / 256, (n - 1) as nat);
    }
}

/// What lies above the low-order bytes does not show in them.
pub proof fn lemma_le_bytes_ignores_high_part(x: int, k: int, n: nat)
    ensures
        le_bytes(x + k * byte_span(n), n) == le_bytes(x, n),
    decreases n,
{
    if n > 0 {
        let rest: int = k * byte_span((n - 1) as nat);
        assert(k * byte_span(n) == 256 * rest) by (nonlinear_arith)
            requires
                byte_span(n) == 256 * byte_span((n - 1) as nat),
                rest == k * byte_span((n - 1) as nat),
        ;
        assert((x + 256 * rest) % 256 == x % 256);
        assert((x + 256 * rest) / 256 == x / 256 + rest);
        lemma_le_bytes_ignores_high_part(x / 256, k, (n - 1) as nat);
    }
}

proof fn lemma_byte_span_divides(n: nat)
    requires
        n <= 16,
    ensures
        two_pow_128() == byte_span((16 - n) as nat) * byte_span(n),
    decreases n,
{
    if n == 0 {
        reveal_with_fuel(byte_span, 17);
    } else {
        lemma_byte_span_divides((n - 1) as nat);
        let a: int = byte_span((16 - n) as nat);
        let b: int = byte_span((n - 1) as nat);
        assert((256 * a) * b == a * (256 * b)) by (nonlinear_arith);
    }
}

/// The sixteen low-order bytes are enough to write up to sixteen bytes.
pub proof fn lemma_le_bytes_of_low_bits(x: int, n: nat)
    requires
        n <= 16,
    ensures
        le_bytes(x % two_pow_128(), n) == le_bytes(x, n),
{
    lemma_byte_span_divides(n);
    let q: int = x / two_pow_128();
    let a: int = byte_span((16 - n) as nat);
    let b: int = byte_span(n);
    assert(x == x % two_pow_128() + two_pow_128() * q);
    assert((q * a) * b == (a * b) * q) by (nonlinear_arith);
    lemma_le_bytes_ignores_high_part(x % two_pow_128(), q * a, n);
}

/// Dividing twice is dividing by the product.
proof fn lemma_divide_twice(x: int, c: int, d: int)
    requires
        c > 0,
        d > 0,
    ensures
        c * d > 0,
        x / (c * d) == (x / c) / d,
        x % (c * d) == x % c + c * ((x / c) % d),
{
    let q = (x / c) / d;
    let r = x % c + c * ((x / c) % d);
    vstd::arithmetic::div_mod::lemma_fundamental_div_mod(x, c);
    vstd::arithmetic::div_mod::lemma_fundamental_div_mod(x / c, d);
    assert(x == q * (c * d) + r) by (nonlinear_arith)
        requires
            x == c * (x / c) + x % c,
            x / c == d * q + (x / c) % d,
            r == x % c + c * ((x / c) % d),
    ;
    assert(c * d > 0 && 0 <= r < c * d) by (nonlinear_arith)
        requires
            r == x % c + c * ((x / c) % d),
            0 <= x % c < c,
            0 <= (x / c) % d < d,
            c > 0,
            d > 0,
    ;
    vstd::arithmetic::div_mod::lemma_fundamental_div_mod_converse(x, c * d, q, r);
}

/// The low-order bytes come first, and after them come those above.
pub proof fn lemma_le_bytes_split(x: int, low: nat, high: nat)
    ensures
        le_bytes(x, low + high) == le_bytes(x, low) + le_bytes(x / byte_span(low), high),
        byte_span(low) > 0,
    decreases low,
{
    if low > 0 {
        let rest = (low - 1) as nat;
        lemma_le_bytes_split(x / 256, rest, high);
        lemma_divide_twice(x, 256, byte_span(rest));
        assert((low + high - 1) as nat == rest + high);
        assert(le_bytes(x, low + high) =~= le_bytes(x, low) + le_bytes(x / byte_span(low), high));
    } else {
        assert(le_bytes(x, high) =~= le_bytes(x, 0) + le_bytes(x, high));
    }
}

/// The number whose bytes these are, least significant first.
pub open spec fn le_value(bytes: Seq<u8>) -> int
    decreases bytes.len(),
{
    if bytes.len() == 0 {
        0
    } else {
        bytes[0] + 256 * le_value(bytes.drop_first())
    }
}

/// The signed number whose bytes these are, most significant first.
pub open spec fn be_signed_value(bytes: Seq<u8>) -> int {
    wrap_signed(le_value(bytes.reverse()), byte_span(bytes.len()) / 2)
}

/// Read back, the bytes of a number give it up to what lies above them.
proof fn lemma_le_value(x: int, n: nat)
    ensures
        le_value(le_bytes(x, n)) == x % byte_span(n),
        byte_span(n) > 0,
    decreases n,
{
    if n > 0 {
        let rest = (n - 1) as nat;
        lemma_le_value(x / 256, rest);
        assert(le_bytes(x, n).drop_first() =~= le_bytes(x / 256, rest));
        lemma_divide_twice(x, 256, byte_span(rest));
    }
}

/// A signed number that fits into `n` bytes is what reading these bytes gives back.
pub proof fn law_signed_bytes_read_back(x: int, n: nat)
    requires
        n > 0,
        -byte_span(n) <= 2 * x < byte_span(n),
    ensures
        be_signed_value(be_bytes(x, n)) == x,
{
    lemma_le_value(x, n);
    lemma_le_bytes_len(x, n);
    let span = byte_span(n);
    let half = span / 2;
    let rest = byte_span((n - 1) as nat);
    assert(span == 2 * half);
    assert(le_bytes(x, n).reverse().reverse() =~= le_bytes(x, n));
    let low = x % span;
    vstd::arithmetic::div_mod::lemma_add_mod_noop(x, half, span);
    vstd::arithmetic::div_mod::lemma_add_mod_noop(low, half, span);
    vstd::arithmetic::div_mod::lemma_mod_twice(x, span);
    assert((low + half) % span == (x + half) % span);
    vstd::arithmetic::div_mod::lemma_small_mod((x + half) as nat, span as nat);
}

/// Appends the `n` low-order bytes of `x`, least significant first.
pub(crate) fn push_le<T: PlainInt>(out: &mut Vec<u8>, x: T, n: usize)
    requires
        n <= 16,
    ensures
        final(out)@ == old(out)@ + le_bytes(x.value(), n as nat),
{
    let mut bits: u128 = x.low_bits();
    let mut i: usize = 0;
    proof {
        lemma_le_bytes_of_low_bits(x.value(), n as nat);
    }
    while i < n
        invariant
            i <= n <= 16,
            out@ + le_bytes(bits as int, (n - i) as nat) == old(out)@ + le_bytes(
                x.value(),
                n as nat,
            ),
        decreases n - i,
    {
        let ghost before = out@;
        out.push((bits % 256) as u8);
        proof {
            assert(before + le_bytes(bits as int, (n - i) as nat) =~= out@ + le_bytes(
                (bits / 256) as int,
                (n - i - 1) as nat,
            ));
        }
        bits = bits / 256;
        i = i + 1;
    }
    assert(out@ + le_bytes(bits as int, 0) =~= out@);
}

/// Appends the `n` low-order bytes of `x`, most significant first.
pub(crate) fn push_be<T: PlainInt>(out: &mut Vec<u8>, x: T, n: usize)
    requires
        n <= 16,
    ensures
        final(out)@ == old(out)@ + be_bytes(x.value(), n as nat),
{
    let mut low: Vec<u8> = Vec::new();
    push_le(&mut low, x, n);
    proof {
        lemma_le_bytes_len(x.value(), n as nat);
        assert(low@ =~= le_bytes(x.value(), n as nat));
    }
    let mut i: usize = 0;
    while i < n
        invariant
            i <= n,
            low@.len() == n,
            out@ == old(out)@ + low@.reverse().take(i as int),
        decreases n - i,
    {
        out.push(low[n - 1 - i]);
        i = i + 1;
        proof {
            assert(low@.reverse().take(i as int) =~= low@.reverse().take(i - 1).push(
                low@[n - i],
            ));
        }
    }
    assert(low@.reverse().take(n as int) =~= low@.reverse());
}

/// `x` cut down to 32 bits.
pub(crate) fn low_i32<T: PlainInt>(x: T) -> (r: i32)
    ensures
        r == wrap_to_i32(x.value()),
{
    let bits: u128 = x.low_bits();
    let low: u128 = bits % 0x1_0000_0000;
    proof {
        let v = x.value();
        let q = v / two_pow_128();
        assert(v == bits + two_pow_128() * q);
        assert((v + 0x8000_0000) % 0x1_0000_0000 == (bits + 0x8000_0000) % 0x1_0000_0000);
    }
    if low < 0x8000_0000 {
        low as i32
    } else {
        (low as i64 - 0x1_0000_0000) as i32
    }
}

/// `x` cut down to 64 bits.
pub(crate) fn low_i64<T: PlainInt>(x: T) -> (r: i64)
    ensures
        r == wrap_to_i64(x.value()),
{
    let bits: u128 = x.low_bits();
    let low: u128 = bits % 0x1_0000_0000_0000_0000;
    proof {
        let v = x.value();
        let q = v / two_pow_128();
        assert(v == bits + two_pow_128() * q);
        vstd::arithmetic::div_mod::lemma_mod_multiples_vanish(
            0x1_0000_0000_0000_0000 * q,
            bits + 0x8000_0000_0000_0000,
            0x1_0000_0000_0000_0000,
        );
        assert(v + 0x8000_0000_0000_0000 == 0x1_0000_0000_0000_0000 * (0x1_0000_0000_0000_0000 * q)
            + (bits + 0x8000_0000_0000_0000));
    }
    if low < 0x8000_0000_0000_0000 {
        low as i64
    } else {
        (low as i128 - 0x1_0000_0000_0000_0000) as i64
    }
}

/// The bytes of `values` as they lie in memory.
///
/// Calls `bytemuck::cast_slice` to see the integers as bytes, and copies what it shows.
/// The contract claims that the bytes of each integer, in the byte order of the machine,
/// follow one another.
#[verifier::external_body]
pub(crate) fn cast_bytes<T: PlainInt + bytemuck::NoUninit>(values: &[T]) -> (bytes: Vec<u8>)
    ensures
        bytes@ == native_concat(ints(values@), T::width()),
{
    bytemuck::cast_slice::<T, u8>(values).to_vec()
}

/// One byte more holds 256 times as many values.
pub proof fn law_byte_span_is_a_power(n: nat)
    ensures
        byte_span(n) == vstd::arithmetic::power::pow(256, n),
        byte_span(n) > 0,
    decreases n,
{
    if n > 0 {
        law_byte_span_is_a_power((n - 1) as nat);
    }
    reveal(vstd::arithmetic::power::pow);
}

/// The bytes of a number are its digits to the base 256: the least significant one comes first in
/// little-endian order and last in big-endian order. The order of the machine is one of the two.
pub proof fn law_bytes_are_digits(x: int, n: nat, k: nat)
    requires
        k < n,
    ensures
        le_bytes(x, n).len() == n,
        be_bytes(x, n).len() == n,
        native_bytes(x, n).len() == n,
        le_bytes(x, n)[k as int] == (x / vstd::arithmetic::power::pow(256, k)) % 256,
        be_bytes(x, n)[n - 1 - k] == (x / vstd::arithmetic::power::pow(256, k)) % 256,
        endianness() is Little ==> native_bytes(x, n)[k as int] == (x
            / vstd::arithmetic::power::pow(256, k)) % 256,
        endianness() is Big ==> native_bytes(x, n)[n - 1 - k] == (x
            / vstd::arithmetic::power::pow(256, k)) % 256,
{
    lemma_le_bytes_len(x, n);
    lemma_le_bytes_split(x, k, (n - k) as nat);
    lemma_le_bytes_len(x, k);
    law_byte_span_is_a_power(k);
    assert(k + (n - k) as nat == n);
}

/// Cut down to 32 or 64 bits, a number stays within the signed numbers of that size, and what is
/// lost is a multiple of the number of them.
pub proof fn law_cut_numbers_keep_low_bits(x: int)
    ensures
        i32::MIN <= wrap_to_i32(x) <= i32::MAX,
        (x - wrap_to_i32(x)) % 0x1_0000_0000 == 0,
        i64::MIN <= wrap_to_i64(x) <= i64::MAX,
        (x - wrap_to_i64(x)) % 0x1_0000_0000_0000_0000 == 0,
{
    lemma_cut_number(x, 0x8000_0000);
    lemma_cut_number(x, 0x8000_0000_0000_0000);
}

proof fn lemma_cut_number(x: int, half: int)
    requires
        half > 0,
    ensures
        -half <= wrap_signed(x, half) < half,
        (x - wrap_signed(x, half)) % (2 * half) == 0,
{
    let span = 2 * half;
    let y = x + half;
    vstd::arithmetic::div_mod::lemma_fundamental_div_mod(y, span);
    assert(x - wrap_signed(x, half) == (y / span) * span) by (nonlinear_arith)
        requires
            y == span * (y / span) + y % span,
            x - wrap_signed(x, half) == y - y % span,
    ;
    vstd::arithmetic::div_mod::lemma_mod_multiples_basic(y / span, span);
}

/// Read as mathematical ones, machine integers are what they are.
pub proof fn law_machine_integers_keep_values(
    a: i8,
    b: i16,
    c: i32,
    d: i64,
    e: i128,
    f: u8,
    g: u16,
    h: u32,
    i: u64,
    j: u128,
)
    ensures
        a.value() == a && b.value() == b && c.value() == c && d.value() == d && e.value() == e,
        f.value() == f && g.value() == g && h.value() == h && i.value() == i && j.value() == j,
{
}

} // verus!
