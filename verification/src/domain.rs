//! Candidate masks read as sets of digits.

use vstd::prelude::*;
use crate::types::{Domain, DIGITS_MASK};

verus! {

/// Whether `m` admits digit `d`.
pub open spec fn admits(m: Domain, d: u8) -> bool {
    d < 16 && m & (1u16 << d) != 0
}

/// Number of digits that `m` admits.
pub open spec fn bit_count(m: Domain) -> nat {
    ((m & 1) + ((m >> 1) & 1) + ((m >> 2) & 1) + ((m >> 3) & 1) + ((m >> 4) & 1) + ((m >> 5) & 1)
        + ((m >> 6) & 1) + ((m >> 7) & 1) + ((m >> 8) & 1) + ((m >> 9) & 1) + ((m >> 10) & 1) + ((m
        >> 11) & 1) + ((m >> 12) & 1) + ((m >> 13) & 1) + ((m >> 14) & 1) + ((m >> 15) & 1)) as nat
}

/// Whether `m` admits exactly one digit.
pub open spec fn is_single(m: Domain) -> bool {
    bit_count(m) == 1
}

/// Whether `m` admits nothing outside the digits `1..=9`.
pub open spec fn in_range(m: Domain) -> bool {
    m & DIGITS_MASK == m
}

/// Whether every digit of `a` is also in `b`.
pub open spec fn within(a: Domain, b: Domain) -> bool {
    a & b == a
}

/// `u16::count_ones` returns the number of bits that are set in its argument.
/// [`bit_count`] adds up the sixteen bits one by one.
pub assume_specification[ u16::count_ones ](i: u16) -> (r: u32)
    ensures
        r == bit_count(i),
;

/// Every mask lies within itself.
pub proof fn lemma_within_refl(m: Domain)
    ensures
        within(m, m),
{
    assert(m & m == m) by (bit_vector);
}

/// A mask within another has no more digits, and fewer when the two differ.
pub proof fn lemma_within_count(a: Domain, b: Domain)
    requires
        within(a, b),
    ensures
        bit_count(a) <= bit_count(b),
        a != b ==> bit_count(a) < bit_count(b),
        bit_count(b) <= 16,
{
    assert(a & b == a ==> bit_count(a) <= bit_count(b) && (a != b ==> bit_count(a) < bit_count(b))
        && bit_count(b) <= 16) by (bit_vector);
}

/// A mask in range with one digit is that digit's bit.
pub proof fn lemma_single_digit(m: Domain)
    requires
        in_range(m),
        is_single(m),
    ensures
        exists|d: u8| 1 <= d <= 9 && m == 1u16 << d,
{
    assert(in_range(m) && is_single(m) ==> (m == 1u16 << 1u8 || m == 1u16 << 2u8 || m == 1u16
        << 3u8 || m == 1u16 << 4u8 || m == 1u16 << 5u8 || m == 1u16 << 6u8 || m == 1u16 << 7u8
        || m == 1u16 << 8u8 || m == 1u16 << 9u8)) by (bit_vector);
}

/// The bit of a digit is a mask with that one digit.
pub proof fn lemma_single_bit(d: u8)
    requires
        d < 16,
    ensures
        is_single(1u16 << d),
        1u16 << d != 0,
        forall|e: u8| admits(1u16 << d, e) <==> e == d,
{
    assert(d < 16 ==> bit_count(1u16 << d) == 1 && 1u16 << d != 0) by (bit_vector);
    assert forall|e: u8| admits(1u16 << d, e) <==> e == d by {
        assert(d < 16 ==> ((e < 16 && (1u16 << d) & (1u16 << e) != 0) <==> e == d))
            by (bit_vector);
    }
}

/// The lowest digit of a mask that lies within a mask in range is a digit `1..=9` of
/// it, and clearing it makes the mask smaller.
pub proof fn lemma_lowest_digit(m: Domain, whole: Domain)
    requires
        m != 0,
        within(m, whole),
        in_range(whole),
    ensures
        1 <= m.trailing_zeros() <= 9,
        admits(m, m.trailing_zeros() as u8),
        admits(whole, m.trailing_zeros() as u8),
        m & !(1u16 << (m.trailing_zeros() as u8)) < m,
        within(m & !(1u16 << (m.trailing_zeros() as u8)), whole),
{
    vstd::std_specs::bits::axiom_u16_trailing_zeros(m);
    let t = m.trailing_zeros() as u16;
    let d = m.trailing_zeros() as u8;
    assert(t == d);
    assert(t < 16 && (m >> t) & 1 == 1 && m & whole == m && whole & 0x3fe == whole ==> 1 <= t <= 9
        && m & (1u16 << t) != 0 && whole & (1u16 << t) != 0 && m & !(1u16 << t) < m && (m & !(1u16
        << t)) & whole == m & !(1u16 << t)) by (bit_vector);
    assert(d < 16 && t == d ==> (1u16 << t) == (1u16 << d)) by (bit_vector);
}

/// Clearing digit `d` from `m` leaves every other digit as it was.
pub proof fn lemma_clear_digit(m: Domain, whole: Domain, d: u8, e: u8)
    requires
        d < 16,
        admits(whole, d),
    ensures
        (admits(whole, e) && !admits(m & !(1u16 << d), e)) == ((admits(whole, e) && !admits(m, e))
            || e == d),
{
    assert(d < 16 && whole & (1u16 << d) != 0 ==> (((e < 16 && whole & (1u16 << e) != 0) && !(e
        < 16 && (m & !(1u16 << d)) & (1u16 << e) != 0)) == (((e < 16 && whole & (1u16 << e) != 0)
        && !(e < 16 && m & (1u16 << e) != 0)) || e == d))) by (bit_vector);
}

/// A digit is in an intersection when it is in both masks, in a union when it is in
/// one of them, and in a complement when it is not in the mask.
pub proof fn lemma_admits_ops(a: Domain, b: Domain, d: u8)
    ensures
        admits(a & b, d) == (admits(a, d) && admits(b, d)),
        admits(a | b, d) == (admits(a, d) || admits(b, d)),
        d < 16 ==> admits(!a, d) == !admits(a, d),
        !admits(0, d),
{
    assert(admits(a & b, d) == (admits(a, d) && admits(b, d)) && admits(a | b, d) == (admits(a, d)
        || admits(b, d)) && (d < 16 ==> admits(!a, d) == !admits(a, d)) && !admits(0, d))
        by (bit_vector);
}

/// A digit of a mask in range is one of `1..=9`, and the mask is not empty.
pub proof fn lemma_admits_digit(m: Domain, d: u8)
    requires
        admits(m, d),
    ensures
        m != 0,
        in_range(m) ==> 1 <= d <= 9,
{
    assert(d < 16 && m & (1u16 << d) != 0 ==> m != 0 && (m & 0x3fe == m ==> 1 <= d <= 9))
        by (bit_vector);
}

/// A mask with one digit, and the digit known, is that digit's bit and admits no other.
pub proof fn lemma_single_admits(m: Domain, d: u8)
    requires
        is_single(m),
        admits(m, d),
    ensures
        m == 1u16 << d,
        forall|e: u8| admits(m, e) ==> e == d,
{
    assert(d < 16 && bit_count(m) == 1 && m & (1u16 << d) != 0 ==> m == 1u16 << d)
        by (bit_vector);
    lemma_single_bit(d);
}

/// The empty mask is the one mask without a digit, and no mask has more than sixteen.
pub proof fn lemma_count_cases(m: Domain)
    ensures
        m == 0 <==> bit_count(m) == 0,
        bit_count(m) <= 16,
{
    assert((m == 0 <==> bit_count(m) == 0) && bit_count(m) <= 16) by (bit_vector);
}

/// Adding a digit that a mask lacks adds one to its count.
pub proof fn lemma_add_digit(m: Domain, d: u8)
    requires
        d < 16,
        !admits(m, d),
    ensures
        bit_count(m | (1u16 << d)) == bit_count(m) + 1,
{
    assert(d < 16 && m & (1u16 << d) == 0 ==> bit_count(m | (1u16 << d)) == bit_count(m) + 1)
        by (bit_vector);
}

/// A mask in range with nine digits is the full mask.
pub proof fn lemma_nine_digits(m: Domain)
    requires
        in_range(m),
        bit_count(m) == 9,
    ensures
        m == DIGITS_MASK,
{
    assert(m & 0x3fe == m && bit_count(m) == 9 ==> m == 0x3fe) by (bit_vector);
}

/// What lies within a mask with one digit is that mask or empty.
pub proof fn lemma_within_single(m: Domain, whole: Domain)
    requires
        within(m, whole),
        is_single(whole),
    ensures
        m == 0 || m == whole,
{
    assert(m & whole == m && bit_count(whole) == 1 ==> m == 0 || m == whole) by (bit_vector);
}

} // verus!
