use sudoku_engine::constraints::{
    propagate_all_diff, propagate_kropki_black, propagate_kropki_white, Constraint,
};
use sudoku_engine::state::State;
use sudoku_engine::types::{bit_of_digit, CellIx, Domain, RuleError, DIGITS_MASK};

fn digits(ds: &[u8]) -> Domain {
    ds.iter().fold(0, |acc, &d| acc | bit_of_digit(d))
}

const ROW: [CellIx; 9] = [0, 1, 2, 3, 4, 5, 6, 7, 8];

#[test]
fn test_all_diff_eliminates_taken_digits_from_peers() {
    let mut st = State::new();

    let cells: [CellIx; 9] = [0, 1, 2, 3, 4, 5, 6, 7, 8];

    // cell 0 is set to 5
    st.domains[0] = digits(&[5]);

    let changed = propagate_all_diff(&mut st, &cells).unwrap();
    assert!(changed);

    // cell 0 is still 5
    assert_eq!(st.domains[0], digits(&[5]));

    // all other cells do not contain 5 anymore
    let five = digits(&[5]);
    for &i in &cells[1..] {
        assert_eq!(st.domains[i as usize] & five, 0, "cell {} still has 5", i);
    }
}

#[test]
fn test_all_diff_finds_hidden_single() {
    let mut st = State::new();

    let cells: [CellIx; 9] = [0, 1, 2, 3, 4, 5, 6, 7, 8];

    // Remove digit 9 from cells 0..7, so only cell 8 can be 9
    let nine = digits(&[9]);
    for i in 0..8 {
        st.domains[i] &= !nine;
    }

    let changed = propagate_all_diff(&mut st, &cells).unwrap();
    assert!(changed);

    // cell 8 must be 9
    assert_eq!(st.domains[8], nine);
}

#[test]
fn all_diff_on_a_fresh_row_changes_nothing() {
    let mut st = State::new();
    assert!(!propagate_all_diff(&mut st, &ROW).unwrap());
    assert_eq!(st.domains, [DIGITS_MASK; 81]);
    assert!(st.trail.is_empty());
}

#[test]
fn all_diff_fails_on_an_empty_cell_and_touches_nothing() {
    let mut st = State::new();
    st.domains[0] = digits(&[5]);
    st.domains[4] = 0;
    let before = st.domains;
    assert!(propagate_all_diff(&mut st, &ROW).is_err());
    assert_eq!(st.domains, before);
    assert!(st.trail.is_empty());
}

#[test]
fn all_diff_fails_on_two_finished_cells_with_one_digit() {
    let mut st = State::new();
    st.domains[2] = digits(&[7]);
    st.domains[6] = digits(&[7]);
    let before = st.domains;
    assert!(propagate_all_diff(&mut st, &ROW).is_err());
    assert_eq!(st.domains, before);
    assert!(st.trail.is_empty());
}

#[test]
fn all_diff_accepts_two_open_cells_with_the_same_candidates() {
    let mut st = State::new();
    st.domains[2] = digits(&[7, 8]);
    st.domains[6] = digits(&[7, 8]);
    assert!(!propagate_all_diff(&mut st, &ROW).unwrap());
}

#[test]
fn all_diff_fails_when_one_cell_is_the_only_place_for_two_digits() {
    let mut st = State::new();
    for i in 1..9 {
        st.domains[i] = digits(&[1, 2, 3, 4, 5, 6, 7]);
    }
    // cell 0 is the only one that admits 8 and the only one that admits 9
    assert!(propagate_all_diff(&mut st, &ROW).is_err());
    // the first of the two was assigned before the second failed
    assert_eq!(st.domains[0], digits(&[8]));
    assert_eq!(st.trail, vec![(0, DIGITS_MASK)]);
}

#[test]
fn all_diff_fails_when_an_open_cell_loses_every_candidate() {
    let mut st = State::new();
    st.domains[0] = digits(&[1]);
    st.domains[1] = digits(&[2]);
    st.domains[2] = digits(&[1, 2]);
    assert!(propagate_all_diff(&mut st, &ROW).is_err());
    assert_eq!(st.domains[2], digits(&[1, 2]));
}

#[test]
fn all_diff_removes_only_digits_finished_at_the_start() {
    let mut st = State::new();
    st.domains[0] = digits(&[1]);
    // 9 is hidden in cell 8
    for i in 0..8 {
        st.domains[i] &= !digits(&[9]);
    }
    assert!(propagate_all_diff(&mut st, &ROW).unwrap());
    assert_eq!(st.domains[0], digits(&[1]));
    assert_eq!(st.domains[8], digits(&[9]));
    for i in 1..8 {
        assert_eq!(st.domains[i], digits(&[2, 3, 4, 5, 6, 7, 8]));
    }
    // the hidden single comes first on the trail, then the peers in scope order
    assert_eq!(st.trail[0], (8, DIGITS_MASK));
    assert_eq!(st.trail.len(), 8);
    // at the fixpoint the rule reports no change
    assert!(!propagate_all_diff(&mut st, &ROW).unwrap());
    assert_eq!(st.trail.len(), 8);
}

#[test]
fn all_diff_leaves_cells_outside_the_scope_alone() {
    let mut st = State::new();
    st.domains[0] = digits(&[5]);
    propagate_all_diff(&mut st, &ROW).unwrap();
    for i in 9..81 {
        assert_eq!(st.domains[i], DIGITS_MASK);
    }
}

#[test]
fn all_diff_with_every_cell_finished_and_different_is_at_rest() {
    let mut st = State::new();
    for i in 0..9 {
        st.domains[i] = bit_of_digit(i as u8 + 1);
    }
    assert!(!propagate_all_diff(&mut st, &ROW).unwrap());
    let mut union = 0;
    for i in 0..9 {
        union |= st.domains[i];
    }
    assert_eq!(union, DIGITS_MASK);
}

#[test]
fn kropki_white_keeps_neighbouring_digits() {
    let mut st = State::new();
    st.domains[0] = digits(&[5]);
    assert!(propagate_kropki_white(&mut st, 0, 1).unwrap());
    assert_eq!(st.domains[0], digits(&[5]));
    assert_eq!(st.domains[1], digits(&[4, 6]));
    assert!(!propagate_kropki_white(&mut st, 0, 1).unwrap());
}

#[test]
fn kropki_white_at_the_ends_of_the_range() {
    let mut st = State::new();
    st.domains[10] = digits(&[1]);
    st.domains[20] = digits(&[9]);
    assert!(propagate_kropki_white(&mut st, 10, 11).unwrap());
    assert_eq!(st.domains[11], digits(&[2]));
    assert!(propagate_kropki_white(&mut st, 21, 20).unwrap());
    assert_eq!(st.domains[21], digits(&[8]));
}

#[test]
fn kropki_white_on_full_domains_changes_nothing() {
    let mut st = State::new();
    assert!(!propagate_kropki_white(&mut st, 3, 4).unwrap());
    assert_eq!(st.domains, [DIGITS_MASK; 81]);
}

#[test]
fn kropki_white_uses_the_domains_from_before_the_rule() {
    let mut st = State::new();
    st.domains[0] = digits(&[1, 5]);
    st.domains[1] = digits(&[2, 9]);
    // a keeps what is next to {2, 9}: {1}; b keeps what is next to the old {1, 5}: {2}
    assert!(propagate_kropki_white(&mut st, 0, 1).unwrap());
    assert_eq!(st.domains[0], digits(&[1]));
    assert_eq!(st.domains[1], digits(&[2]));
}

#[test]
fn kropki_white_pair_two_apart_is_a_contradiction() {
    let mut st = State::new();
    st.domains[0] = digits(&[3]);
    st.domains[1] = digits(&[5]);
    assert!(propagate_kropki_white(&mut st, 0, 1).is_err());
    assert_eq!(st.domains[0], digits(&[3]));
    assert_eq!(st.domains[1], digits(&[5]));
}

#[test]
fn kropki_black_next_to_nine_is_a_contradiction() {
    let mut st = State::new();
    st.domains[0] = digits(&[9]);
    assert!(propagate_kropki_black(&mut st, 0, 1).is_err());
    let mut st = State::new();
    st.domains[1] = digits(&[9]);
    assert!(propagate_kropki_black(&mut st, 0, 1).is_err());
}

#[test]
fn kropki_black_keeps_doubles_and_halves() {
    let mut st = State::new();
    st.domains[0] = digits(&[8]);
    assert!(propagate_kropki_black(&mut st, 0, 1).unwrap());
    assert_eq!(st.domains[1], digits(&[4]));

    let mut st = State::new();
    st.domains[0] = digits(&[4]);
    assert!(propagate_kropki_black(&mut st, 0, 1).unwrap());
    assert_eq!(st.domains[1], digits(&[2, 8]));

    let mut st = State::new();
    st.domains[0] = digits(&[3]);
    assert!(propagate_kropki_black(&mut st, 1, 0).unwrap());
    assert_eq!(st.domains[1], digits(&[6]));

    let mut st = State::new();
    st.domains[0] = digits(&[1]);
    assert!(propagate_kropki_black(&mut st, 0, 1).unwrap());
    assert_eq!(st.domains[1], digits(&[2]));
}

#[test]
fn kropki_black_on_full_domains_removes_five_seven_nine() {
    let mut st = State::new();
    assert!(propagate_kropki_black(&mut st, 0, 1).unwrap());
    assert_eq!(st.domains[0], digits(&[1, 2, 3, 4, 6, 8]));
    assert_eq!(st.domains[1], digits(&[1, 2, 3, 4, 6, 8]));
    assert!(!propagate_kropki_black(&mut st, 0, 1).unwrap());
}

#[test]
fn scope_lists_the_cells_in_order() {
    assert_eq!(Constraint::AllDifferent { cells: ROW }.scope(), ROW.to_vec());
    assert_eq!(Constraint::KropkiWhite { a: 7, b: 16 }.scope(), vec![7, 16]);
    assert_eq!(Constraint::KropkiBlack { a: 80, b: 79 }.scope(), vec![80, 79]);
    assert_eq!(Constraint::Thermo { cells: vec![1, 2, 3, 12] }.scope(), vec![1, 2, 3, 12]);
}

#[test]
fn propagate_dispatches_on_the_variant() {
    let mut st = State::new();
    st.domains[0] = digits(&[5]);
    assert_eq!(Constraint::AllDifferent { cells: ROW }.propagate(&mut st), Ok(true));
    assert_eq!(st.domains[1], DIGITS_MASK & !digits(&[5]));

    let mut st = State::new();
    st.domains[0] = digits(&[5]);
    assert_eq!(Constraint::KropkiWhite { a: 0, b: 1 }.propagate(&mut st), Ok(true));
    assert_eq!(st.domains[1], digits(&[4, 6]));

    let mut st = State::new();
    st.domains[0] = digits(&[3]);
    assert_eq!(Constraint::KropkiBlack { a: 0, b: 1 }.propagate(&mut st), Ok(true));
    assert_eq!(st.domains[1], digits(&[6]));
}

#[test]
fn propagate_reports_a_contradiction() {
    let mut st = State::new();
    st.domains[0] = digits(&[3]);
    st.domains[1] = digits(&[5]);
    assert_eq!(
        Constraint::KropkiWhite { a: 0, b: 1 }.propagate(&mut st),
        Err(RuleError::Contradiction)
    );
}

#[test]
fn propagate_reports_a_constraint_without_a_rule() {
    let mut st = State::new();
    let before = st.domains;
    assert_eq!(
        Constraint::Thermo { cells: vec![0, 1, 2] }.propagate(&mut st),
        Err(RuleError::Unsupported)
    );
    assert_eq!(st.domains, before);
    assert!(st.trail.is_empty());
}
