//! The bytes of decimal numbers.

use vstd::prelude::*;

use crate::bytes::{be_bytes, be_signed_value, byte_span, law_byte_span_is_a_power};
use crate::bytes::law_signed_bytes_read_back;
use crate::bytes::{wrap_to_i32, wrap_to_i64};

verus! {

/// The greatest number of digits that sixteen bytes can hold.
pub const MAX_PRECISION: usize = 38;

/// A power of ten.
pub open spec fn pow10(n: nat) -> int
    decreases n,
{
    if n == 0 {
        1
    } else {
        10 * pow10((n - 1) as nat)
    }
}

/// Whether signed numbers of `size` bytes reach beyond those of `precision` digits.
pub open spec fn size_suffices(precision: nat, size: nat) -> bool {
    2 * (pow10(precision) + 1) <= byte_span(size)
}

/// The first size from `size` on that suffices, sixteen at most.
pub open spec fn first_size_from(precision: nat, size: nat) -> nat
    decreases 16 - size,
{
    if size >= 16 || size_suffices(precision, size) {
        size
    } else {
        first_size_from(precision, size + 1)
    }
}

/// The number of bytes for decimal numbers of `precision` digits.
pub open spec fn decimal_size(precision: nat) -> nat {
    first_size_from(precision, 1)
}

proof fn lemma_pow10_grows(m: nat, n: nat)
    requires
        m <= n,
    ensures
        0 < pow10(m) <= pow10(n),
    decreases n,
{
    if m < n {
        lemma_pow10_grows(m, (n - 1) as nat);
    } else if n > 0 {
        lemma_pow10_grows((m - 1) as nat, (n - 1) as nat);
    }
}

proof fn lemma_greatest_precision()
    ensures
        pow10(38) == 100_000_000_000_000_000_000_000_000_000_000_000_000int,
        byte_span(16) == 0x1_0000_0000_0000_0000_0000_0000_0000_0000int,
        size_suffices(38, 16),
{
    reveal_with_fuel(pow10, 39);
    reveal_with_fuel(byte_span, 17);
}

/// The number of bytes for decimal numbers of `precision` digits.
pub fn decimal_length_from_precision(precision: usize) -> (size: usize)
    requires
        precision <= MAX_PRECISION,
    ensures
        size == decimal_size(precision as nat),
        1 <= size <= 16,
        size_suffices(precision as nat, size as nat),
        forall|n: nat| 1 <= n < size ==> !size_suffices(precision as nat, n),
{
    let mut power: u128 = 1;
    let mut i: usize = 0;
    proof {
        lemma_greatest_precision();
        lemma_pow10_grows(precision as nat, 38);
    }
    while i < precision
        invariant
            i <= precision <= 38,
            power == pow10(i as nat),
            pow10(38) == 100_000_000_000_000_000_000_000_000_000_000_000_000int,
        decreases precision - i,
    {
        proof {
            lemma_pow10_grows((i + 1) as nat, 38);
        }
        power = 10 * power;
        i = i + 1;
    }
    let mut size: usize = 1;
    let mut half_span: u128 = 128;
    proof {
        reveal_with_fuel(byte_span, 2);
    }
    while power + 1 > half_span
        invariant
            1 <= size <= 16,
            precision <= 38,
            power == pow10(precision as nat),
            power <= 100_000_000_000_000_000_000_000_000_000_000_000_000,
            2 * half_span == byte_span(size as nat),
            byte_span(16) == 0x1_0000_0000_0000_0000_0000_0000_0000_0000int,
            decimal_size(precision as nat) == first_size_from(precision as nat, size as nat),
            forall|n: nat| 1 <= n < size ==> !size_suffices(precision as nat, n),
        decreases 16 - size,
    {
        proof {
            lemma_byte_span_grows((size + 1) as nat, 16);
        }
        half_span = 256 * half_span;
        size = size + 1;
    }
    size
}

proof fn lemma_byte_span_grows(m: nat, n: nat)
    requires
        m <= n,
    ensures
        0 < byte_span(m) <= byte_span(n),
    decreases n,
{
    if m < n {
        lemma_byte_span_grows(m, (n - 1) as nat);
    } else if n > 0 {
        lemma_byte_span_grows((m - 1) as nat, (n - 1) as nat);
    }
}

/// A decimal number of `precision` digits is what reading its bytes gives back.
pub proof fn law_decimal_reads_back(precision: nat, x: int)
    requires
        precision <= MAX_PRECISION,
        -pow10(precision) < x < pow10(precision),
    ensures
        be_signed_value(be_bytes(x, decimal_size(precision))) == x,
        1 <= decimal_size(precision) <= 16,
{
    lemma_greatest_precision();
    lemma_pow10_grows(precision, 38);
    lemma_first_size(precision, 1);
    law_signed_bytes_read_back(x, decimal_size(precision));
}

proof fn lemma_first_size(precision: nat, size: nat)
    requires
        1 <= size <= 16,
        size_suffices(precision, 16),
    ensures
        size_suffices(precision, first_size_from(precision, size)),
        1 <= first_size_from(precision, size) <= 16,
    decreases 16 - size,
{
    if size < 16 && !size_suffices(precision, size) {
        lemma_first_size(precision, size + 1);
    }
}

/// Decimal numbers of up to nine digits fit into 32 bits, and those of up to eighteen into 64.
pub proof fn law_small_decimals_fit(precision: nat, x: int)
    requires
        -pow10(precision) < x < pow10(precision),
    ensures
        precision <= 9 ==> wrap_to_i32(x) == x,
        precision <= 18 ==> wrap_to_i64(x) == x,
{
    reveal_with_fuel(pow10, 19);
    if precision <= 9 {
        lemma_pow10_grows(precision, 9);
        assert(pow10(9) == 1_000_000_000);
        vstd::arithmetic::div_mod::lemma_small_mod((x + 0x8000_0000) as nat, 0x1_0000_0000);
    }
    if precision <= 18 {
        lemma_pow10_grows(precision, 18);
        assert(pow10(18) == 1_000_000_000_000_000_000);
        vstd::arithmetic::div_mod::lemma_small_mod(
            (x + 0x8000_0000_0000_0000) as nat,
            0x1_0000_0000_0000_0000,
        );
    }
}

/// A power of ten is one.
pub proof fn law_pow10_is_a_power(n: nat)
    ensures
        pow10(n) == vstd::arithmetic::power::pow(10, n),
    decreases n,
{
    if n > 0 {
        law_pow10_is_a_power((n - 1) as nat);
    }
    reveal(vstd::arithmetic::power::pow);
}

/// The size for decimal numbers is the least number of bytes whose signed numbers reach beyond
/// those of so many digits.
pub proof fn law_decimal_size_is_least(precision: nat)
    requires
        precision <= 38,
    ensures
        ({
            let size = decimal_size(precision);
            let numbers = 2 * (vstd::arithmetic::power::pow(10, precision) + 1);
            &&& 1 <= size <= 16
            &&& numbers <= vstd::arithmetic::power::pow(256, size)
            &&& forall|fewer: nat|
                1 <= fewer < size ==> #[trigger] vstd::arithmetic::power::pow(256, fewer) < numbers
        }),
{
    lemma_greatest_precision();
    lemma_pow10_grows(precision, 38);
    lemma_first_size(precision, 1);
    lemma_first_size_is_least(precision, 1);
    law_pow10_is_a_power(precision);
    law_byte_span_is_a_power(decimal_size(precision));
    assert forall|fewer: nat| 1 <= fewer < decimal_size(precision) implies
        #[trigger] vstd::arithmetic::power::pow(256, fewer) < 2 * (vstd::arithmetic::power::pow(
        10,
        precision,
    ) + 1) by {
        law_byte_span_is_a_power(fewer);
        assert(!size_suffices(precision, fewer));
    }
}

proof fn lemma_first_size_is_least(precision: nat, size: nat)
    requires
        1 <= size <= 16,
    ensures
        forall|fewer: nat|
            size <= fewer < first_size_from(precision, size) ==> !#[trigger] size_suffices(
                precision,
                fewer,
            ),
    decreases 16 - size,
{
    if size < 16 && !size_suffices(precision, size) {
        lemma_first_size_is_least(precision, size + 1);
    }
}

} // verus!
