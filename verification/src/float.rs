//! Arithmetic in double precision, carried out on integers.
//!
//! A positive double is a whole number of at most 53 bits times a power of two. Every operation
//! gives the double that lies nearest to the exact result, and of two that lie equally near the
//! one that is even.

use vstd::prelude::*;

verus! {

/// The whole numbers below this one are doubles.
pub const PRECISION: u128 = 0x20_0000_0000_0000;

/// Half of the limit up to which whole numbers are doubles.
pub const HALF_PRECISION: u128 = 0x10_0000_0000_0000;

/// A double that is not negative: `mantissa * times / over`, where the last two are powers of two.
#[verifier::ext_equal]
pub struct Double {
    pub mantissa: nat,
    pub times: nat,
    pub over: nat,
}

/// The whole number nearest to `num / den`, the even one of two that are equally near.
pub open spec fn nearest(num: nat, den: nat) -> nat {
    let quotient = num / den;
    let rest = num % den;
    if 2 * rest < den || (2 * rest == den && quotient % 2 == 0) {
        quotient
    } else {
        quotient + 1
    }
}

/// The least power of two by which `den` has to be multiplied for `num / den` to be less than
/// the limit of the precision.
pub open spec fn times_over(num: nat, den: nat) -> nat
    decreases num - den,
{
    if den == 0 || num < PRECISION * den {
        1
    } else {
        2 * times_over(num, 2 * den)
    }
}

/// The least power of two by which `num` has to be multiplied for `num / den` to have all bits of
/// the precision.
pub open spec fn times_under(num: nat, den: nat) -> nat
    decreases PRECISION * den - num,
{
    if num == 0 || num >= HALF_PRECISION * den {
        1
    } else {
        2 * times_under(2 * num, den)
    }
}

/// The double nearest to `num / den`.
pub open spec fn double(num: nat, den: nat) -> Double {
    if num >= PRECISION * den {
        let scale = times_over(num, den);
        Double { mantissa: nearest(num, den * scale), times: scale, over: 1 }
    } else {
        let scale = times_under(num, den);
        Double { mantissa: nearest(num * scale, den), times: 1, over: scale }
    }
}

/// The double nearest to the whole number `n`: itself a whole number.
pub open spec fn whole_double(n: nat) -> nat {
    nearest(n, times_over(n, 1)) * times_over(n, 1)
}

/// The quotient of the doubles of two whole numbers.
pub open spec fn double_quotient(num: nat, den: nat) -> Double {
    double(whole_double(num), whole_double(den))
}

/// The product of a double and the double of a whole number.
pub open spec fn double_product(x: Double, n: nat) -> Double {
    let product = x.mantissa * whole_double(n);
    let scale = times_over(product, 1);
    Double { mantissa: nearest(product, scale), times: x.times * scale, over: x.over }
}

impl Double {
    /// The greatest whole number that is not above the double.
    pub open spec fn floor(self) -> nat {
        self.mantissa * self.times / self.over
    }

    /// The least whole number that is not below the double.
    pub open spec fn ceil(self) -> nat {
        ((self.mantissa * self.times + self.over - 1) / self.over as int) as nat
    }
}

/// A whole number cut down to what the machine can index.
pub open spec fn saturated(n: nat) -> nat {
    if n <= usize::MAX {
        n
    } else {
        usize::MAX as nat
    }
}

/// The whole number nearest to `num / den`.
fn round(num: u128, den: u128) -> (rounded: u128)
    requires
        0 < den,
        den < 0x4000_0000_0000_0000_0000_0000_0000_0000,
        num < 0x4000_0000_0000_0000_0000_0000_0000_0000,
    ensures
        rounded == nearest(num as nat, den as nat),
        rounded <= num / den + 1,
        rounded >= num / den,
        rounded * den <= num + den,
{
    let quotient: u128 = num / den;
    let rest: u128 = num % den;
    proof {
        vstd::arithmetic::div_mod::lemma_fundamental_div_mod(num as int, den as int);
        assert(quotient <= num) by (nonlinear_arith)
            requires
                num == den * quotient + rest,
                den >= 1,
                rest >= 0,
                quotient >= 0,
        ;
        assert((quotient + 1) * den == den * quotient + den) by (nonlinear_arith);
        assert(quotient * den == den * quotient) by (nonlinear_arith);
    }
    if 2 * rest < den || (2 * rest == den && quotient % 2 == 0) {
        quotient
    } else {
        quotient + 1
    }
}

/// The least power of two by which `den` has to be multiplied for the quotient to fit.
fn scale_over(num: u128, den: u128) -> (scale: u128)
    requires
        0 < den,
        num < 0x100_0000_0000_0000_0000_0000_0000_0000,
        den < 0x100_0000_0000_0000_0000,
    ensures
        scale == times_over(num as nat, den as nat),
        0 < scale,
        num < PRECISION * (den * scale),
        scale == 1 || den * scale <= num,
{
    let mut scale: u128 = 1;
    let mut scaled: u128 = den;
    proof {
        assert(den * scale == den) by (nonlinear_arith)
            requires
                scale == 1,
        ;
    }
    while num / PRECISION >= scaled
        invariant
            0 < scale,
            0 < scaled,
            num < 0x100_0000_0000_0000_0000_0000_0000_0000,
            den < 0x100_0000_0000_0000_0000,
            scaled == den * scale,
            scale <= scaled,
            scale == 1 || scaled <= num,
            times_over(num as nat, den as nat) == scale * times_over(num as nat, scaled as nat),
        decreases num + 1 - scaled,
    {
        assert(num >= PRECISION * scaled) by (nonlinear_arith)
            requires
                num / PRECISION >= scaled,
                PRECISION == 0x20_0000_0000_0000,
        ;
        proof {
            let rest = times_over(num as nat, (2 * scaled) as nat);
            assert(times_over(num as nat, scaled as nat) == 2 * rest);
            assert(scale * (2 * rest) == (2 * scale) * rest) by (nonlinear_arith);
            assert(den * (2 * scale) == 2 * (den * scale)) by (nonlinear_arith);
        }
        scale = 2 * scale;
        scaled = 2 * scaled;
    }
    assert(num < PRECISION * scaled) by (nonlinear_arith)
        requires
            num / PRECISION < scaled,
            PRECISION == 0x20_0000_0000_0000,
    ;
    assert(scale * 1 == scale) by (nonlinear_arith);
    scale
}

/// The least power of two by which `num` has to be multiplied for the quotient to be precise.
fn scale_under(num: u128, den: u128) -> (scale: u128)
    requires
        0 < den,
        num < PRECISION * den,
        den < 0x100_0000_0000_0000_0000,
    ensures
        scale == times_under(num as nat, den as nat),
        0 < scale,
        num * scale < PRECISION * den,
        num > 0 ==> scale <= num * scale,
        num == 0 ==> scale == 1,
{
    let mut scale: u128 = 1;
    let mut scaled: u128 = num;
    proof {
        assert(num * scale == num) by (nonlinear_arith)
            requires
                scale == 1,
        ;
    }
    while scaled > 0 && scaled < HALF_PRECISION * den
        invariant
            0 < scale,
            0 < den,
            den < 0x100_0000_0000_0000_0000,
            scaled == num * scale,
            num > 0 ==> scale <= scaled,
            num == 0 ==> scale == 1,
            (scaled == 0) == (num == 0),
            scaled < PRECISION * den,
            times_under(num as nat, den as nat) == scale * times_under(scaled as nat, den as nat),
        decreases PRECISION * den - scaled,
    {
        proof {
            let rest = times_under((2 * scaled) as nat, den as nat);
            assert(times_under(scaled as nat, den as nat) == 2 * rest);
            assert(scale * (2 * rest) == (2 * scale) * rest) by (nonlinear_arith);
            assert(num * (2 * scale) == 2 * (num * scale)) by (nonlinear_arith);
        }
        scale = 2 * scale;
        scaled = 2 * scaled;
    }
    assert(scale * 1 == scale) by (nonlinear_arith);
    scale
}

/// The double nearest to a whole number.
fn to_whole_double(n: u64) -> (rounded: u128)
    ensures
        rounded == whole_double(n as nat),
        n > 0 ==> rounded > 0,
        rounded <= 2 * n,
        n <= 2 * rounded,
{
    let scale: u128 = scale_over(n as u128, 1);
    let mantissa: u128 = round(n as u128, scale);
    proof {
        if scale == 1 {
            assert(n as int / 1 == n);
        }
        vstd::arithmetic::div_mod::lemma_fundamental_div_mod(n as int, scale as int);
        if n > 0 {
            assert(n as int / scale as int >= 1) by (nonlinear_arith)
                requires
                    n >= scale,
                    scale > 0,
            ;
            assert(mantissa * scale > 0 && n <= 2 * (mantissa * scale)) by (nonlinear_arith)
                requires
                    mantissa >= n as int / scale as int,
                    n as int / scale as int >= 1,
                    n == scale * (n as int / scale as int) + n as int % scale as int,
                    scale > n as int % scale as int,
                    scale > 0,
            ;
        } else {
            assert(mantissa * scale == 0) by (nonlinear_arith)
                requires
                    mantissa == 0,
            ;
        }
        assert(n > 0 ==> mantissa * scale <= n + scale <= 2 * n);
    }
    mantissa * scale
}

/// The parts of the quotient of two whole numbers in double precision.
fn divide(num: u64, den: u64) -> (parts: (u128, u128, u128))
    requires
        den > 0,
    ensures
        (Double { mantissa: parts.0 as nat, times: parts.1 as nat, over: parts.2 as nat })
            == double_quotient(num as nat, den as nat),
        0 < parts.2 < 0x100_0000_0000_0000_0000_0000_0000_0000,
        parts.0 <= PRECISION,
        parts.0 * parts.1 < 0x100_0000_0000_0000_0000_0000_0000_0000,
        num <= den ==> parts.1 == 1,
{
    let num: u128 = to_whole_double(num);
    let den: u128 = to_whole_double(den);
    if num / PRECISION >= den {
        assert(num >= PRECISION * den) by (nonlinear_arith)
            requires
                num / PRECISION >= den,
                PRECISION == 0x20_0000_0000_0000,
        ;
        let scale: u128 = scale_over(num, den);
        assert(scale <= den * scale) by (nonlinear_arith)
            requires
                den >= 1,
                scale > 0,
        ;
        let mantissa: u128 = round(num, den * scale);
        proof {
            lemma_quotient_below(num as int, PRECISION as int, den * scale);
            assert(mantissa * scale <= mantissa * (den * scale)) by (nonlinear_arith)
                requires
                    mantissa >= 0,
                    scale <= den * scale,
            ;
        }
        (mantissa, scale, 1)
    } else {
        assert(num < PRECISION * den) by (nonlinear_arith)
            requires
                num / PRECISION < den,
                PRECISION == 0x20_0000_0000_0000,
        ;
        let scale: u128 = scale_under(num, den);
        let mantissa: u128 = round(num * scale, den);
        proof {
            lemma_quotient_below(num * scale, PRECISION as int, den as int);
        }
        (mantissa, 1, scale)
    }
}

proof fn lemma_quotient_below(num: int, limit: int, den: int)
    requires
        0 <= num < limit * den,
        0 < den,
    ensures
        num / den < limit,
{
    vstd::arithmetic::div_mod::lemma_fundamental_div_mod(num, den);
    assert(num / den < limit) by (nonlinear_arith)
        requires
            num == den * (num / den) + num % den,
            num % den >= 0,
            num < limit * den,
            den > 0,
    ;
}

/// `num / den` in double precision, without its fraction.
pub fn floor_quotient(num: u64, den: u64) -> (floor: usize)
    requires
        den > 0,
    ensures
        floor == saturated(double_quotient(num as nat, den as nat).floor()),
{
    let (mantissa, times, over) = divide(num, den);
    to_usize(mantissa * times / over)
}

/// `num / den * n` in double precision, raised to a whole number.
pub fn ceil_share(num: u64, den: u64, n: u64) -> (ceil: usize)
    requires
        num <= den,
        den > 0,
    ensures
        ceil == saturated(double_product(double_quotient(num as nat, den as nat), n as nat).ceil()),
{
    let (mantissa, times, over) = divide(num, den);
    let n: u128 = to_whole_double(n);
    assert(mantissa * n <= 0x20_0000_0000_0000 * 0x2_0000_0000_0000_0000) by (nonlinear_arith)
        requires
            mantissa <= 0x20_0000_0000_0000,
            n <= 0x2_0000_0000_0000_0000,
    ;
    let product: u128 = mantissa * n;
    let scale: u128 = scale_over(product, 1);
    let rounded: u128 = round(product, scale);
    assert(1 * scale == scale && times * scale == scale) by (nonlinear_arith)
        requires
            times == 1,
    ;
    assert(rounded * scale <= 2 * product + 1);
    to_usize((rounded * scale + (over - 1)) / over)
}

/// A number cut down to what the machine can index.
fn to_usize(n: u128) -> (low: usize)
    ensures
        low == saturated(n as nat),
{
    if n <= usize::MAX as u128 {
        n as usize
    } else {
        usize::MAX
    }
}

/// Scaled up, a number has all bits of the precision.
proof fn lemma_times_under(num: nat, den: nat)
    requires
        num > 0,
    ensures
        num * times_under(num, den) >= HALF_PRECISION * den,
        times_under(num, den) > 0,
    decreases PRECISION * den - num,
{
    if num < HALF_PRECISION * den {
        lemma_times_under(2 * num, den);
        let rest = times_under(2 * num, den);
        assert(num * (2 * rest) == (2 * num) * rest) by (nonlinear_arith);
    } else {
        assert(num * 1 == num) by (nonlinear_arith);
    }
}

/// Of whole numbers that are doubles themselves, the quotient in double precision has the same
/// whole part as the exact quotient.
pub proof fn law_quotient_of_doubles(num: nat, den: nat)
    requires
        num < PRECISION,
        0 < den < PRECISION,
    ensures
        double_quotient(num, den).floor() == num / den,
{
    assert(nearest(num, 1) == num && nearest(den, 1) == den);
    assert(num * 1 == num && den * 1 == den) by (nonlinear_arith);
    assert(num < PRECISION * den) by (nonlinear_arith)
        requires
            num < PRECISION,
            den >= 1,
    ;
    let scale = times_under(num, den);
    let mantissa = nearest(num * scale, den);
    assert(whole_double(num) == num && whole_double(den) == den);
    assert(double_quotient(num, den) == (Double { mantissa, times: 1, over: scale }));
    assert(mantissa * 1 == mantissa) by (nonlinear_arith);
    if num == 0 {
        assert(num * scale == 0) by (nonlinear_arith)
            requires
                num == 0,
        ;
        vstd::arithmetic::div_mod::lemma_div_basics(den as int);
        vstd::arithmetic::div_mod::lemma_small_mod(0, den);
    } else {
        lemma_times_under(num, den);
        assert(2 * scale > den) by (nonlinear_arith)
            requires
                num * scale >= HALF_PRECISION * den,
                num < 2 * HALF_PRECISION,
                HALF_PRECISION > 0,
                den > 0,
                scale > 0,
        ;
        let quotient = num / den;
        let rest = num % den;
        vstd::arithmetic::div_mod::lemma_fundamental_div_mod(num as int, den as int);
        let scaled = num * scale;
        let whole = scaled / den;
        let part = scaled % den;
        vstd::arithmetic::div_mod::lemma_fundamental_div_mod(scaled as int, den as int);
        assert(quotient * scale <= mantissa < (quotient + 1) * scale) by {
            assert(scaled == den * (quotient * scale) + rest * scale) by (nonlinear_arith)
                requires
                    scaled == num * scale,
                    num == den * quotient + rest,
            ;
            assert(quotient * scale <= whole) by (nonlinear_arith)
                requires
                    scaled == den * (quotient * scale) + rest * scale,
                    scaled == den * whole + part,
                    0 <= part < den,
                    rest >= 0,
                    scale > 0,
            ;
            assert((quotient + 1) * scale == quotient * scale + scale) by (nonlinear_arith);
            assert(rest * scale <= den * scale - scale) by (nonlinear_arith)
                requires
                    rest <= den - 1,
                    scale > 0,
            ;
            let end = (quotient + 1) * scale;
            assert(scaled + scale <= den * end) by (nonlinear_arith)
                requires
                    scaled == den * (quotient * scale) + rest * scale,
                    rest * scale <= den * scale - scale,
                    end == quotient * scale + scale,
            ;
            assert(2 * scaled + den < 2 * (den * end));
            assert(whole < end) by (nonlinear_arith)
                requires
                    scaled == den * whole + part,
                    part >= 0,
                    den > 0,
                    2 * scaled + den < 2 * (den * end),
            ;
            if 2 * part >= den {
                assert(whole + 1 < end) by (nonlinear_arith)
                    requires
                        scaled == den * whole + part,
                        2 * part >= den,
                        den > 0,
                        2 * scaled + den < 2 * (den * end),
                ;
            }
        }
        vstd::arithmetic::div_mod::lemma_fundamental_div_mod(mantissa as int, scale as int);
        let floor = mantissa / scale;
        assert(floor == quotient) by (nonlinear_arith)
            requires
                quotient * scale <= mantissa < (quotient + 1) * scale,
                mantissa == scale * floor + mantissa % scale,
                0 <= mantissa % scale < scale,
                scale > 0,
        ;
    }
}

/// Rounding gives the nearest whole number: it is off by no more than a half, and even where it is
/// off by exactly that.
pub proof fn law_rounding_is_to_nearest(num: nat, den: nat)
    requires
        den > 0,
    ensures
        -(den as int) <= 2 * (nearest(num, den) * den - num) <= den,
        2 * (nearest(num, den) * den - num) == den || 2 * (nearest(num, den) * den - num) == -(
        den as int) ==> nearest(num, den) % 2 == 0,
{
    let quotient = num / den;
    let rest = num % den;
    vstd::arithmetic::div_mod::lemma_fundamental_div_mod(num as int, den as int);
    assert(quotient * den == den * quotient && (quotient + 1) * den == den * quotient + den)
        by (nonlinear_arith);
}

/// Scaled down by the power of two, a number fits into the precision, and no less would do.
proof fn lemma_times_over(num: nat, den: nat)
    requires
        den > 0,
    ensures
        times_over(num, den) >= 1,
        num < PRECISION * (den * times_over(num, den)),
        num >= PRECISION * den ==> times_over(num, den) >= 2 && num >= HALF_PRECISION * (den
            * times_over(num, den)),
        num < PRECISION * den ==> times_over(num, den) == 1,
    decreases num - den,
{
    if num >= PRECISION * den {
        assert(num > den) by (nonlinear_arith)
            requires
                num >= 0x20_0000_0000_0000 * den,
                den > 0,
        ;
        lemma_times_over(num, 2 * den);
        let rest = times_over(num, 2 * den);
        assert(den * (2 * rest) == (2 * den) * rest) by (nonlinear_arith);
        if num < PRECISION * (2 * den) {
            assert((2 * den) * rest == 2 * den) by (nonlinear_arith)
                requires
                    rest == 1,
            ;
        }
    } else {
        assert(den * 1 == den) by (nonlinear_arith);
    }
}

/// Scaled up by the power of two, a number still fits into the precision.
proof fn lemma_times_under_fits(num: nat, den: nat)
    requires
        num < PRECISION * den,
    ensures
        num * times_under(num, den) < PRECISION * den,
    decreases PRECISION * den - num,
{
    if num > 0 && num < HALF_PRECISION * den {
        lemma_times_under_fits(2 * num, den);
        let rest = times_under(2 * num, den);
        assert(num * (2 * rest) == (2 * num) * rest) by (nonlinear_arith);
    } else {
        assert(num * 1 == num) by (nonlinear_arith);
    }
}

/// A rounded number that has all bits of the precision is off by no more than its share of them.
proof fn lemma_relative_error(num: nat, den: nat)
    requires
        den > 0,
        num >= HALF_PRECISION * den,
    ensures
        -(num as int) <= 0x20_0000_0000_0000 * (nearest(num, den) * den - num) <= num,
{
    law_rounding_is_to_nearest(num, den);
}

/// A number that the precision holds is rounded to one that is not above its limit.
proof fn lemma_mantissa(num: nat, den: nat)
    requires
        den > 0,
        num < PRECISION * den,
    ensures
        nearest(num, den) <= PRECISION,
{
    lemma_quotient_below(num as int, PRECISION as int, den as int);
}

/// The double of a quotient has no more than 53 bits and is off by no more than one part in 2^53.
pub proof fn law_double_is_near(num: nat, den: nat)
    requires
        num > 0,
        den > 0,
    ensures
        ({
            let x = double(num, den);
            let exact = num * x.over;
            &&& x.mantissa <= 0x20_0000_0000_0000
            &&& x.over >= 1
            &&& x.times >= 1
            &&& -(exact as int) <= 0x20_0000_0000_0000 * ((x.mantissa * x.times) * den - exact)
                <= exact
        }),
{
    if num >= PRECISION * den {
        let scale = times_over(num, den);
        let mantissa = nearest(num, den * scale);
        lemma_times_over(num, den);
        assert(den * scale > 0) by (nonlinear_arith)
            requires
                den > 0,
                scale > 0,
        ;
        lemma_relative_error(num, den * scale);
        lemma_mantissa(num, den * scale);
        assert((mantissa * scale) * den == mantissa * (den * scale)) by (nonlinear_arith);
        assert(num * 1 == num) by (nonlinear_arith);
    } else {
        let scale = times_under(num, den);
        let mantissa = nearest(num * scale, den);
        lemma_times_under(num, den);
        lemma_times_under_fits(num, den);
        lemma_relative_error(num * scale, den);
        lemma_mantissa(num * scale, den);
        assert((mantissa * 1) * den == mantissa * den) by (nonlinear_arith);
    }
}

/// Whole numbers of up to 53 bits are doubles, and the double of any other is off by no more than
/// one part in 2^53.
pub proof fn law_whole_double_is_near(n: nat)
    ensures
        n < 0x20_0000_0000_0000 ==> whole_double(n) == n,
        -(n as int) <= 0x20_0000_0000_0000 * (whole_double(n) - n) <= n,
{
    let scale = times_over(n, 1);
    lemma_times_over(n, 1);
    assert(1 * scale == scale) by (nonlinear_arith);
    if n >= PRECISION {
        lemma_relative_error(n, scale);
    } else {
        assert(nearest(n, 1) == n);
        assert(n * 1 == n) by (nonlinear_arith);
    }
}

/// The product of a double and the double of a whole number is off by no more than one part in
/// 2^53.
pub proof fn law_product_is_near(x: Double, n: nat)
    ensures
        ({
            let y = double_product(x, n);
            let exact = (x.mantissa * whole_double(n)) * x.times;
            &&& y.over == x.over
            &&& y.mantissa <= 0x20_0000_0000_0000
            &&& -(exact as int) <= 0x20_0000_0000_0000 * (y.mantissa * y.times - exact) <= exact
        }),
{
    let product = x.mantissa * whole_double(n);
    let scale = times_over(product, 1);
    let mantissa = nearest(product, scale);
    lemma_times_over(product, 1);
    assert(1 * scale == scale) by (nonlinear_arith);
    lemma_mantissa(product, scale);
    let error = mantissa * scale - product;
    if product >= PRECISION {
        lemma_relative_error(product, scale);
    } else {
        assert(nearest(product, 1) == product);
        assert(product * 1 == product) by (nonlinear_arith);
    }
    assert(-(product as int) <= 0x20_0000_0000_0000 * error <= product);
    let times = x.times;
    assert(mantissa * (times * scale) - product * times == error * times) by (nonlinear_arith)
        requires
            error == mantissa * scale - product,
    ;
    assert(-(product * times) <= 0x20_0000_0000_0000 * (error * times) <= product * times)
        by (nonlinear_arith)
        requires
            -(product as int) <= 0x20_0000_0000_0000 * error <= product,
            times >= 0,
    ;
}

/// The whole number below a double is the greatest that is not above it, and the one above it is
/// the least that is not below it.
pub proof fn law_whole_numbers_around(x: Double)
    requires
        x.over > 0,
    ensures
        x.floor() * x.over <= x.mantissa * x.times < (x.floor() + 1) * x.over,
        (x.ceil() - 1) * x.over < x.mantissa * x.times <= x.ceil() * x.over,
{
    let value = x.mantissa * x.times;
    let over = x.over as int;
    assert(value >= 0) by (nonlinear_arith)
        requires
            value == x.mantissa * x.times,
            x.mantissa >= 0,
            x.times >= 0,
    ;
    vstd::arithmetic::div_mod::lemma_fundamental_div_mod(value as int, over);
    vstd::arithmetic::div_mod::lemma_fundamental_div_mod(value + over - 1, over);
    let floor = value as int / over;
    let ceil = (value + over - 1) / over;
    vstd::arithmetic::div_mod::lemma_div_pos_is_pos(value + over - 1, over);
    assert(floor * over == over * floor && (floor + 1) * over == over * floor + over && ceil * over
        == over * ceil && (ceil - 1) * over == over * ceil - over) by (nonlinear_arith);
}

/// Cut down to what the machine can index, a number is the nearest that it can.
pub proof fn law_saturated_is_nearest(n: nat)
    ensures
        saturated(n) <= n,
        saturated(n) <= usize::MAX,
        saturated(n) == n || saturated(n) == usize::MAX,
{
}

/// Whether a number is a power of two.
pub open spec fn is_power_of_two(n: nat) -> bool {
    exists|k: nat| n == #[trigger] vstd::arithmetic::power2::pow2(k)
}

proof fn lemma_twice_a_power(n: nat)
    requires
        is_power_of_two(n),
    ensures
        is_power_of_two(2 * n),
{
    let k = choose|k: nat| n == #[trigger] vstd::arithmetic::power2::pow2(k);
    vstd::arithmetic::power2::lemma_pow2_unfold(k + 1);
    assert(2 * n == vstd::arithmetic::power2::pow2(k + 1));
}

/// What a double is scaled by is a power of two.
pub proof fn law_scales_are_powers_of_two(num: nat, den: nat)
    ensures
        is_power_of_two(times_over(num, den)),
        num < PRECISION * den ==> is_power_of_two(times_under(num, den)),
{
    lemma_times_over_is_power(num, den);
    if num < PRECISION * den {
        lemma_times_under_is_power(num, den);
    }
}

proof fn lemma_one_is_a_power()
    ensures
        is_power_of_two(1),
{
    vstd::arithmetic::power2::lemma2_to64();
    assert(vstd::arithmetic::power2::pow2(0) == 1);
}

proof fn lemma_times_over_is_power(num: nat, den: nat)
    ensures
        is_power_of_two(times_over(num, den)),
    decreases num - den,
{
    lemma_one_is_a_power();
    if den > 0 && num >= PRECISION * den {
        assert(num > den) by (nonlinear_arith)
            requires
                num >= 0x20_0000_0000_0000 * den,
                den > 0,
        ;
        lemma_times_over_is_power(num, 2 * den);
        lemma_twice_a_power(times_over(num, 2 * den));
    }
}

proof fn lemma_times_under_is_power(num: nat, den: nat)
    ensures
        is_power_of_two(times_under(num, den)),
    decreases PRECISION * den - num,
{
    lemma_one_is_a_power();
    if num > 0 && num < HALF_PRECISION * den {
        lemma_times_under_is_power(2 * num, den);
        lemma_twice_a_power(times_under(2 * num, den));
    }
}

/// The share of `part` in `whole`, of so many items, is the whole number above the exact share,
/// where the numbers are small enough; of a share that is itself whole, it is that or the next.
pub proof fn law_share_is_rounded_up(part: nat, whole: nat, items: nat, floor: nat)
    requires
        0 < part < 0x20_0000_0000_0000,
        0 < whole < 0x20_0000_0000_0000,
        items < 0x20_0000_0000_0000,
        part * items < 0x4_0000_0000_0000,
        floor * whole <= part * items < (floor + 1) * whole,
    ensures
        ({
            let share = double_product(double_quotient(part, whole), items).ceil();
            &&& floor <= share <= floor + 1
            &&& floor * whole < part * items ==> share == floor + 1
        }),
{
    law_whole_double_is_near(part);
    law_whole_double_is_near(whole);
    law_whole_double_is_near(items);
    let x = double_quotient(part, whole);
    let y = double_product(x, items);
    law_double_is_near(part, whole);
    law_product_is_near(x, items);
    law_whole_numbers_around(y);
    assert((x.mantissa * items) * x.times == (x.mantissa * x.times) * items) by (nonlinear_arith);
    lemma_share(
        part as int,
        whole as int,
        items as int,
        floor as int,
        x.over as int,
        (x.mantissa * x.times) as int,
        (y.mantissa * y.times) as int,
        y.ceil() as int,
    );
}

/// Two roundings that are each off by no more than one part in 2^53 do not move a share past a
/// whole number.
proof fn lemma_share(
    part: int,
    whole: int,
    items: int,
    floor: int,
    over: int,
    quotient: int,
    product: int,
    ceil: int,
)
    requires
        0 < part,
        0 < whole,
        0 <= items,
        0 < over,
        0 <= quotient,
        -(part * over) <= 0x20_0000_0000_0000 * (quotient * whole - part * over) <= part * over,
        -(quotient * items) <= 0x20_0000_0000_0000 * (product - quotient * items) <= quotient
            * items,
        (ceil - 1) * over < product <= ceil * over,
        part * items < 0x4_0000_0000_0000,
        0 <= floor,
        floor * whole <= part * items < (floor + 1) * whole,
    ensures
        floor <= ceil <= floor + 1,
        floor * whole < part * items ==> ceil == floor + 1,
{
    let limit = 0x20_0000_0000_0000int;
    let count = part * items;
    let exact = count * over;
    let near = (quotient * items) * whole;
    let got = product * whole;
    assert(0 <= count) by (nonlinear_arith)
        requires
            count == part * items,
            part > 0,
            items >= 0,
    ;
    let error = quotient * whole - part * over;
    assert(near - exact == error * items) by (nonlinear_arith)
        requires
            near == (quotient * items) * whole,
            exact == (part * items) * over,
            error == quotient * whole - part * over,
    ;
    assert(-exact <= limit * (error * items) <= exact) by (nonlinear_arith)
        requires
            -(part * over) <= limit * error <= part * over,
            exact == (part * items) * over,
            items >= 0,
    ;
    let slip = product - quotient * items;
    assert(got - near == slip * whole) by (nonlinear_arith)
        requires
            near == (quotient * items) * whole,
            got == product * whole,
            slip == product - quotient * items,
    ;
    assert(-near <= limit * (slip * whole) <= near) by (nonlinear_arith)
        requires
            -(quotient * items) <= limit * slip <= quotient * items,
            near == (quotient * items) * whole,
            whole > 0,
    ;
    assert(exact <= (0x4_0000_0000_0000 - 1) * over && 0 <= exact) by (nonlinear_arith)
        requires
            exact == count * over,
            0 <= count < 0x4_0000_0000_0000,
            over > 0,
    ;
    assert(near <= 2 * exact);
    assert(-(3 * exact) <= limit * (got - exact) <= 3 * exact);
    assert(-over < got - exact < over);
    assert(got > (count - 1) * over && got < (count + 1) * over) by (nonlinear_arith)
        requires
            -over < got - exact < over,
            exact == count * over,
    ;
    assert(product < (floor + 1) * over) by (nonlinear_arith)
        requires
            got == product * whole,
            got < (count + 1) * over,
            count + 1 <= (floor + 1) * whole,
            whole > 0,
            over > 0,
    ;
    assert(ceil <= floor + 1) by (nonlinear_arith)
        requires
            (ceil - 1) * over < product,
            product < (floor + 1) * over,
            over > 0,
    ;
    if floor * whole < count {
        assert(product > floor * over) by (nonlinear_arith)
            requires
                got == product * whole,
                got > (count - 1) * over,
                count - 1 >= floor * whole,
                whole > 0,
                over > 0,
        ;
        assert(ceil > floor) by (nonlinear_arith)
            requires
                product > floor * over,
                product <= ceil * over,
                over > 0,
        ;
    } else {
        assert((floor - 1) * whole <= count - 1) by (nonlinear_arith)
            requires
                floor * whole == count,
                whole >= 1,
        ;
        assert(product > (floor - 1) * over) by (nonlinear_arith)
            requires
                got == product * whole,
                got > (count - 1) * over,
                count - 1 >= (floor - 1) * whole,
                whole > 0,
                over > 0,
        ;
        assert(ceil > floor - 1) by (nonlinear_arith)
            requires
                product > (floor - 1) * over,
                product <= ceil * over,
                over > 0,
        ;
    }
}

} // verus!
