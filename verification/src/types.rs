//! Cell indices, candidate masks and the arithmetic between them.

use vstd::prelude::*;

verus! {

/// Side length of the grid.
pub const N: usize = 9;

/// Number of cells in the grid.
pub const NN: usize = 81;

/// Row-major index of a cell, `0..81`.
pub type CellIx = u8;

/// Candidate digits of a cell: bit `d` is set when digit `d` is still possible.
pub type Domain = u16;

/// The domain that admits every digit `1..=9`.
pub const DIGITS_MASK: Domain = 0b11_1111_1110;

/// The even digits `2, 4, 6, 8`.
pub const EVEN_MASK: Domain = 0b1_0101_0100;

/// How far a run of propagation got.
#[derive(Clone, Copy, Debug, PartialEq, Eq, Structural)]
pub enum Solve {
    /// Every cell is down to one digit. Propagation itself never reports this.
    Solved,
    /// Some rule changed the board.
    Progress,
    /// No rule changed the board.
    Stalled,
}

/// A cell was left without a digit, or two finished cells of a group share one.
#[derive(Debug)]
pub struct Contradiction;

/// Why a constraint's rule could not be run to its end.
#[derive(Clone, Copy, Debug, PartialEq, Eq, Structural)]
pub enum RuleError {
    /// The rule found a [`Contradiction`].
    Contradiction,
    /// The constraint is of a variant that has no rule.
    Unsupported,
}

/// The row of cell `i`.
#[inline]
pub fn row_of(i: CellIx) -> (r: usize)
    ensures
        r == i / 9,
{
    (i as usize) / N
}

/// The column of cell `i`.
#[inline]
pub fn col_of(i: CellIx) -> (c: usize)
    ensures
        c == i % 9,
{
    (i as usize) % N
}

/// The three-by-three box of cell `i`, boxes counted row-major.
#[inline]
pub fn box_of(i: CellIx) -> (b: usize)
    ensures
        b == (i / 9 / 3) * 3 + (i % 9) / 3,
{
    (row_of(i) / 3) * 3 + (col_of(i) / 3)
}

/// The cell in row `r` and column `c`.
#[inline]
pub fn idx(r: usize, c: usize) -> (i: CellIx)
    requires
        r < N,
        c < N,
    ensures
        i == r * 9 + c,
        i < NN,
        i / 9 == r,
        i % 9 == c,
{
    (r * N + c) as CellIx
}

/// The mask that admits digit `d` and nothing else.
#[inline]
pub fn bit_of_digit(d: u8) -> (bit: Domain)
    requires
        d < 16,
    ensures
        bit == 1u16 << d,
{
    1u16 << d
}

/// Whether `i` is a power of two.
pub open spec fn power_of_two(i: u16) -> bool {
    exists|k: u8| k < 16 && i == 1u16 << k
}

/// `u16::is_power_of_two` returns `true` exactly when its argument is two to some
/// power, which for a `u16` is one of the sixteen single bits.
pub assume_specification[ u16::is_power_of_two ](i: u16) -> (r: bool)
    ensures
        r == power_of_two(i),
;

/// The digit of a mask that admits exactly one, and nothing for any other mask.
#[inline]
pub fn _digit_of_bit(bit: Domain) -> (digit: Option<u8>)
    ensures
        digit is Some <==> power_of_two(bit),
        digit matches Some(d) ==> d < 16 && bit == 1u16 << d,
{
    if bit == 0 || !bit.is_power_of_two() {
        proof {
            if bit == 0 {
                assert forall|k: u8| k < 16 implies bit != 1u16 << k by {
                    crate::domain::lemma_single_bit(k);
                }
            }
        }
        None
    } else {
        let d: u8 = bit.trailing_zeros() as u8;
        proof {
            let k = choose|k: u8| k < 16 && bit == 1u16 << k;
            vstd::std_specs::bits::axiom_u16_trailing_zeros(bit);
            let t = bit.trailing_zeros() as u16;
            assert(t < 16 && k < 16 && bit == 1u16 << k && (bit >> t) & 1 == 1 ==> t == k)
                by (bit_vector);
        }
        Some(d)
    }
}

} // verus!
