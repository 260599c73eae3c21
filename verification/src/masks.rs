//! Candidate sets as 9-bit masks: bit `d - 1` of a mask is set when digit `d`
//! is still possible.

use vstd::prelude::*;
use vstd::std_specs::bits::axiom_u16_trailing_zeros;
use vstd::std_specs::bits::u16_trailing_zeros;

verus! {

/// The mask in which every digit is possible.
pub const ALL_DIGITS: u16 = 0x1FF;

/// `d` is one of the digits 1 to 9.
pub open spec fn is_digit(d: u8) -> bool {
    1 <= d <= 9
}

/// The mask that holds digit `d` alone.
pub open spec fn digit_bit(d: u8) -> u16 {
    1u16 << ((d - 1) as u16)
}

/// Digit `d` is possible in `mask`.
pub open spec fn allows(mask: u16, d: u8) -> bool {
    mask & digit_bit(d) != 0
}

/// `mask` without digit `d`.
pub open spec fn strike(mask: u16, d: u8) -> u16 {
    mask & !digit_bit(d)
}

/// Bit `b` of `m`, as 0 or 1.
pub open spec fn bit_at(m: u16, b: u16) -> nat {
    ((m >> b) & 1) as nat
}

/// How many bits of `m` are set.
pub open spec fn bit_count(m: u16) -> nat {
    bit_at(m, 0) + bit_at(m, 1) + bit_at(m, 2) + bit_at(m, 3) + bit_at(m, 4) + bit_at(m, 5)
        + bit_at(m, 6) + bit_at(m, 7) + bit_at(m, 8) + bit_at(m, 9) + bit_at(m, 10) + bit_at(m, 11)
        + bit_at(m, 12) + bit_at(m, 13) + bit_at(m, 14) + bit_at(m, 15)
}

/// The least digit that `mask` allows, where it allows one.
pub open spec fn lowest_digit(mask: u16) -> u8 {
    (u16_trailing_zeros(mask) + 1) as u8
}

/// `u16::count_ones`: the number of ones in the binary representation.
pub assume_specification[ u16::count_ones ](i: u16) -> (r: u32)
    ensures
        r == bit_count(i),
;

proof fn lemma_bits(m: u16, s: u16, t: u16)
    by (bit_vector)
    requires
        s < 9,
        t < 9,
    ensures
        ((m & !(1u16 << s)) & (1u16 << t) != 0) == ((m & (1u16 << t) != 0) && s != t),
        (m & !(1u16 << s)) <= m,
        m & (1u16 << s) == 0 ==> (m & !(1u16 << s)) == m,
        m & (1u16 << s) != 0 ==> bit_count(m & !(1u16 << s)) + 1 == bit_count(m),
        m & (1u16 << s) != 0 ==> m != 0,
        0x1FFu16 & (1u16 << s) != 0,
        (1u16 << s) <= 0x1FF,
{
}

proof fn lemma_bits_twice(m: u16, s: u16, t: u16)
    by (bit_vector)
    requires
        s < 9,
        t < 9,
    ensures
        (m & !(1u16 << s)) & !(1u16 << t) == (m & !(1u16 << t)) & !(1u16 << s),
{
}

proof fn lemma_bit_test(m: u16, s: u16)
    by (bit_vector)
    requires
        s < 16,
    ensures
        (m & (1u16 << s) != 0) == ((m >> s) & 1 == 1),
        m <= 0x1FF && s >= 9 ==> (m >> s) & 1 == 0,
{
}

proof fn lemma_one_bit(m: u16, s: u16, t: u16)
    by (bit_vector)
    requires
        s < 9,
        t < 9,
        bit_count(m) == 1,
        m & (1u16 << s) != 0,
        m & (1u16 << t) != 0,
    ensures
        s == t,
{
}

proof fn lemma_count_zero(m: u16)
    by (bit_vector)
    ensures
        (bit_count(m) == 0) == (m == 0),
        m <= 0x1FF ==> bit_count(m) <= 9,
{
}

/// What striking a digit does to a mask.
pub proof fn lemma_strike(m: u16, d: u8, e: u8)
    requires
        is_digit(d),
        is_digit(e),
    ensures
        allows(strike(m, d), e) == (allows(m, e) && e != d),
        strike(m, d) <= m,
        !allows(m, d) ==> strike(m, d) == m,
        allows(m, d) ==> bit_count(strike(m, d)) + 1 == bit_count(m),
        bit_count(strike(m, d)) <= bit_count(m),
        allows(m, d) ==> m != 0,
        allows(ALL_DIGITS, d),
{
    lemma_bits(m, (d - 1) as u16, (e - 1) as u16);
}

/// Two digits are struck from a mask in either order with the same result.
pub proof fn lemma_strike_twice(m: u16, d: u8, e: u8)
    requires
        is_digit(d),
        is_digit(e),
    ensures
        strike(strike(m, d), e) == strike(strike(m, e), d),
{
    lemma_bits_twice(m, (d - 1) as u16, (e - 1) as u16);
}

/// A mask is empty exactly when no bit is counted; a 9-bit mask counts at
/// most nine.
pub proof fn lemma_count(m: u16)
    ensures
        (bit_count(m) == 0) == (m == 0),
        m <= ALL_DIGITS ==> bit_count(m) <= 9,
{
    lemma_count_zero(m);
}

/// A 9-bit mask with one bit set allows its lowest digit and no other.
pub proof fn lemma_single(m: u16, e: u8)
    requires
        m <= ALL_DIGITS,
        bit_count(m) == 1,
    ensures
        is_digit(lowest_digit(m)),
        allows(m, lowest_digit(m)),
        is_digit(e) && allows(m, e) ==> e == lowest_digit(m),
{
    lemma_count_zero(m);
    axiom_u16_trailing_zeros(m);
    let tz = u16_trailing_zeros(m);
    assert(tz < 16);
    lemma_bit_test(m, tz as u16);
    assert(tz < 9);
    if is_digit(e) && allows(m, e) {
        lemma_one_bit(m, tz as u16, (e - 1) as u16);
    }
}

/// The mask that holds digit `d` alone.
pub fn bit_of(d: u8) -> (r: u16)
    requires
        is_digit(d),
    ensures
        r == digit_bit(d),
        r <= ALL_DIGITS,
{
    proof {
        lemma_bits(0, (d - 1) as u16, 0);
    }
    1u16 << ((d - 1) as u16)
}

} // verus!
