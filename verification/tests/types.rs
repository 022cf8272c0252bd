use sudoku_engine::types::{_digit_of_bit, bit_of_digit, box_of, col_of, idx, row_of};

#[test]
fn test_bit_of_digit() {
    let res = bit_of_digit(4);
    assert_eq!(res, 0b1_0000);
}

#[test]
fn bit_of_digit_covers_the_digits() {
    let mut all: u16 = 0;
    for d in 1..=9u8 {
        all |= bit_of_digit(d);
    }
    assert_eq!(all, sudoku_engine::types::DIGITS_MASK);
    assert_eq!(bit_of_digit(0), 1);
    assert_eq!(bit_of_digit(15), 0x8000);
}

#[test]
fn constants_have_their_values() {
    assert_eq!(sudoku_engine::types::N, 9);
    assert_eq!(sudoku_engine::types::NN, 81);
    assert_eq!(sudoku_engine::types::DIGITS_MASK, 0b11_1111_1110);
    assert_eq!(sudoku_engine::types::EVEN_MASK, (1 << 2) | (1 << 4) | (1 << 6) | (1 << 8));
}

#[test]
fn row_col_box_of_corner_and_middle_cells() {
    assert_eq!((row_of(0), col_of(0), box_of(0)), (0, 0, 0));
    assert_eq!((row_of(8), col_of(8), box_of(8)), (0, 8, 2));
    assert_eq!((row_of(40), col_of(40), box_of(40)), (4, 4, 4));
    assert_eq!((row_of(72), col_of(72), box_of(72)), (8, 0, 6));
    assert_eq!((row_of(80), col_of(80), box_of(80)), (8, 8, 8));
    assert_eq!((row_of(30), col_of(30), box_of(30)), (3, 3, 4));
    assert_eq!((row_of(26), col_of(26), box_of(26)), (2, 8, 2));
}

#[test]
fn idx_is_row_major_and_inverts_row_and_col() {
    assert_eq!(idx(0, 0), 0);
    assert_eq!(idx(0, 8), 8);
    assert_eq!(idx(1, 0), 9);
    assert_eq!(idx(8, 8), 80);
    for r in 0..9 {
        for c in 0..9 {
            let i = idx(r, c);
            assert_eq!(row_of(i), r);
            assert_eq!(col_of(i), c);
            assert_eq!(box_of(i), (r / 3) * 3 + c / 3);
        }
    }
}

#[test]
fn digit_of_bit_reads_single_bits_only() {
    assert_eq!(_digit_of_bit(0), None);
    assert_eq!(_digit_of_bit(0b1_0000), Some(4));
    assert_eq!(_digit_of_bit(1), Some(0));
    assert_eq!(_digit_of_bit(0x8000), Some(15));
    assert_eq!(_digit_of_bit(0b110), None);
    assert_eq!(_digit_of_bit(0x3fe), None);
    for d in 0..16u8 {
        assert_eq!(_digit_of_bit(bit_of_digit(d)), Some(d));
    }
}
