use sudoku_engine::types::{bit_of_digit, idx};
use sudoku_engine::{
    add_all_sudoku_constraints, add_kropki_black, add_kropki_white, Constraint, Domain, Engine,
    LoadError, RuleError, Solve, DIGITS_MASK,
};

const CLASSIC: &str =
    "2...7.1.3.7..8..5.3....6.....6......91..5..28......5.....3....4.2..9..7.5.4.1...6";

fn only(d: u8) -> Domain {
    bit_of_digit(d)
}

fn digit_at(e: &Engine, r: usize, c: usize) -> u32 {
    let m = e.state.domains[idx(r, c) as usize];
    assert_eq!(m.count_ones(), 1);
    m.trailing_zeros()
}

fn assert_classic_solution(e: &Engine) {
    for k in 0..9 {
        let mut row = 0u16;
        let mut col = 0u16;
        let mut bx = 0u16;
        for p in 0..9 {
            row |= 1 << digit_at(e, k, p);
            col |= 1 << digit_at(e, p, k);
            bx |= 1 << digit_at(e, (k / 3) * 3 + p / 3, (k % 3) * 3 + p % 3);
        }
        assert_eq!(row, DIGITS_MASK);
        assert_eq!(col, DIGITS_MASK);
        assert_eq!(bx, DIGITS_MASK);
    }
}

#[test]
fn solves_classic() {
    let p = "2...7.1.3.7..8..5.3....6.....6......91..5..28......5.....3....4.2..9..7.5.4.1...6";
    let mut eng = Engine::new();
    add_all_sudoku_constraints(&mut eng);
    eng.load_givens(p).unwrap();
    assert!(eng.search().unwrap());
    assert!(eng.solved());
}

#[test]
fn solves_kropki_white_only() {
    let p = "...7....4.1.........6......4...........3.7...........8......7.........8.3....2...";
    let mut eng = Engine::new();
    add_all_sudoku_constraints(&mut eng);
    add_kropki_white(&mut eng, (6, 1), (7, 1));
    add_kropki_white(&mut eng, (3, 1), (3, 2));
    add_kropki_white(&mut eng, (7, 1), (7, 2));
    add_kropki_white(&mut eng, (3, 2), (3, 3));
    add_kropki_white(&mut eng, (1, 3), (2, 3));
    add_kropki_white(&mut eng, (2, 3), (3, 3));
    add_kropki_white(&mut eng, (5, 5), (6, 5));
    add_kropki_white(&mut eng, (6, 5), (7, 5));
    add_kropki_white(&mut eng, (1, 6), (1, 7));
    add_kropki_white(&mut eng, (5, 6), (5, 7));
    add_kropki_white(&mut eng, (1, 7), (2, 7));
    add_kropki_white(&mut eng, (5, 5), (5, 6));
    eng.load_givens(p).unwrap();
    assert!(eng.search().unwrap());
    assert!(eng.solved());
}

#[test]
fn solves_kropki() {
    let p = ".......57...............................................................57.......";
    let mut eng = Engine::new();
    add_all_sudoku_constraints(&mut eng);
    add_kropki_white(&mut eng, (0, 1), (1, 1));
    add_kropki_white(&mut eng, (4, 1), (5, 1));
    add_kropki_white(&mut eng, (4, 3), (5, 3));
    add_kropki_white(&mut eng, (3, 4), (4, 4));
    add_kropki_white(&mut eng, (4, 4), (5, 4));
    add_kropki_white(&mut eng, (3, 5), (4, 5));
    add_kropki_white(&mut eng, (3, 7), (4, 7));
    add_kropki_white(&mut eng, (7, 7), (8, 7));
    add_kropki_black(&mut eng, (1, 1), (2, 1));
    add_kropki_black(&mut eng, (2, 1), (3, 1));
    eng.load_givens(p).unwrap();
    assert!(true)
}

#[test]
fn classic_solution_satisfies_every_group_and_keeps_the_givens() {
    let mut eng = Engine::new();
    add_all_sudoku_constraints(&mut eng);
    eng.load_givens(CLASSIC).unwrap();
    assert_eq!(eng.search(), Ok(true));
    assert!(eng.solved());
    assert_classic_solution(&eng);
    for (i, ch) in CLASSIC.chars().enumerate() {
        if let Some(d) = ch.to_digit(10) {
            if d != 0 {
                assert_eq!(eng.state.domains[i], 1 << d);
            }
        }
    }
}

#[test]
fn kropki_white_solution_satisfies_the_dots() {
    let p = "...7....4.1.........6......4...........3.7...........8......7.........8.3....2...";
    let dots = [
        ((6, 1), (7, 1)),
        ((3, 1), (3, 2)),
        ((7, 1), (7, 2)),
        ((3, 2), (3, 3)),
        ((1, 3), (2, 3)),
        ((2, 3), (3, 3)),
        ((5, 5), (6, 5)),
        ((6, 5), (7, 5)),
        ((1, 6), (1, 7)),
        ((5, 6), (5, 7)),
        ((1, 7), (2, 7)),
        ((5, 5), (5, 6)),
    ];
    let mut eng = Engine::new();
    add_all_sudoku_constraints(&mut eng);
    for (a, b) in dots {
        add_kropki_white(&mut eng, a, b);
    }
    eng.load_givens(p).unwrap();
    assert_eq!(eng.search(), Ok(true));
    assert_classic_solution(&eng);
    for (a, b) in dots {
        let x = digit_at(&eng, a.0, a.1);
        let y = digit_at(&eng, b.0, b.1);
        assert!(x + 1 == y || y + 1 == x);
    }
}

#[test]
fn solves_a_puzzle_that_needs_deep_search() {
    let p = "8..........36......7..9.2...5...7.......457.....1...3...1....68..85...1..9....4..";
    let expected = "812753649943682175675491283154237896369845721287169534521974368438526917796318452";
    let mut eng = Engine::new();
    add_all_sudoku_constraints(&mut eng);
    assert_eq!(eng.load_givens(p), Ok(()));
    assert_eq!(eng.search(), Ok(true));
    assert_classic_solution(&eng);
    for (i, ch) in expected.chars().enumerate() {
        assert_eq!(eng.state.domains[i], 1 << ch.to_digit(10).unwrap());
    }
}

#[test]
fn search_on_an_empty_grid_finds_a_solution() {
    let mut eng = Engine::new();
    add_all_sudoku_constraints(&mut eng);
    assert_eq!(eng.search(), Ok(true));
    assert!(eng.solved());
    assert_classic_solution(&eng);
}

#[test]
fn search_with_black_dots_finds_a_consistent_board() {
    let mut eng = Engine::new();
    add_all_sudoku_constraints(&mut eng);
    add_kropki_black(&mut eng, (0, 0), (0, 1));
    add_kropki_black(&mut eng, (0, 1), (0, 2));
    add_kropki_white(&mut eng, (1, 0), (1, 1));
    assert_eq!(eng.search(), Ok(true));
    assert_classic_solution(&eng);
    let a = digit_at(&eng, 0, 0);
    let b = digit_at(&eng, 0, 1);
    let c = digit_at(&eng, 0, 2);
    assert!(a == 2 * b || b == 2 * a);
    assert!(b == 2 * c || c == 2 * b);
    let x = digit_at(&eng, 1, 0);
    let y = digit_at(&eng, 1, 1);
    assert!(x + 1 == y || y + 1 == x);
}

#[test]
fn search_reports_an_unsatisfiable_puzzle() {
    // three cells, each one away from the other two: whatever the first holds, the
    // second and the third differ from it by one, and so from each other by none or two
    let mut eng = Engine::new();
    add_kropki_white(&mut eng, (0, 0), (0, 1));
    add_kropki_white(&mut eng, (0, 1), (0, 2));
    add_kropki_white(&mut eng, (0, 2), (0, 0));
    assert_eq!(eng.search(), Ok(false));
    assert!(!eng.solved());
}

#[test]
fn load_givens_finds_a_contradiction_by_propagation() {
    // the first row lacks only a 9, and the column of its open cell holds one already
    let p = "12345678.........9...............................................................";
    let mut eng = Engine::new();
    add_all_sudoku_constraints(&mut eng);
    assert_eq!(eng.load_givens(p), Err(LoadError::Contradiction));
}

#[test]
fn converged_groups_hold_no_digit_twice() {
    let mut eng = Engine::new();
    add_all_sudoku_constraints(&mut eng);
    eng.load_givens(CLASSIC).unwrap();
    assert!(eng.state.queue.is_empty());
    for k in 0..27 {
        let cells = eng.constraints[k].scope();
        let mut seen = 0u16;
        let mut union = 0u16;
        for &c in &cells {
            let m = eng.state.domains[c as usize];
            union |= m;
            if m.count_ones() == 1 {
                assert_eq!(seen & m, 0);
                seen |= m;
            }
        }
        assert_eq!(union, DIGITS_MASK);
        // at the fixpoint each rule reports no change
        let before = eng.state.domains;
        assert_eq!(eng.constraints[k].propagate(&mut eng.state), Ok(false));
        assert_eq!(eng.state.domains, before);
    }
}

#[test]
fn failed_search_leaves_the_board_as_propagation_left_it() {
    let mut eng = Engine::new();
    add_kropki_white(&mut eng, (0, 0), (0, 1));
    add_kropki_white(&mut eng, (0, 1), (0, 2));
    add_kropki_white(&mut eng, (0, 2), (0, 0));
    let mut twin = Engine::new();
    add_kropki_white(&mut twin, (0, 0), (0, 1));
    add_kropki_white(&mut twin, (0, 1), (0, 2));
    add_kropki_white(&mut twin, (0, 2), (0, 0));
    twin.enqueue_all();
    let stalled = twin.propagate();
    assert!(stalled.is_ok());
    assert_eq!(eng.search(), Ok(false));
    assert_eq!(eng.state.domains, twin.state.domains);
    assert_eq!(eng.state.trail, twin.state.trail);
}

#[test]
fn search_meets_a_constraint_without_a_rule() {
    let mut eng = Engine::new();
    add_all_sudoku_constraints(&mut eng);
    eng.add_constraint(Constraint::Thermo { cells: vec![0, 1, 2] });
    assert_eq!(eng.search(), Err(RuleError::Unsupported));
}

#[test]
fn load_givens_meets_a_constraint_without_a_rule() {
    let mut eng = Engine::new();
    eng.add_constraint(Constraint::Thermo { cells: vec![0, 1, 2] });
    let p = "1................................................................................";
    assert_eq!(eng.load_givens(p), Err(LoadError::Unsupported));
    // a constraint that watches no given cell is never run
    let mut eng = Engine::new();
    eng.add_constraint(Constraint::Thermo { cells: vec![0, 1, 2] });
    let p = "...1.............................................................................";
    assert_eq!(eng.load_givens(p), Ok(()));
}

#[test]
fn load_givens_rejects_a_wrong_length() {
    let mut eng = Engine::new();
    add_all_sudoku_constraints(&mut eng);
    assert_eq!(eng.load_givens(""), Err(LoadError::Length { found: 0 }));
    assert_eq!(eng.load_givens(&CLASSIC[..80]), Err(LoadError::Length { found: 80 }));
    let long = format!("{}1", CLASSIC);
    assert_eq!(eng.load_givens(&long), Err(LoadError::Length { found: 82 }));
    assert_eq!(eng.state.domains, [DIGITS_MASK; 81]);
    assert!(eng.state.trail.is_empty());
    assert!(eng.state.queue.is_empty());
}

#[test]
fn load_givens_skips_white_space() {
    let mut spaced = String::new();
    for (i, ch) in CLASSIC.chars().enumerate() {
        if i % 9 == 0 {
            spaced.push_str("\n  ");
        }
        if i % 3 == 0 {
            spaced.push('\t');
        }
        spaced.push(ch);
    }
    spaced.push_str(" \r\n");
    let mut eng = Engine::new();
    add_all_sudoku_constraints(&mut eng);
    assert_eq!(eng.load_givens(&spaced), Ok(()));
    let mut plain = Engine::new();
    add_all_sudoku_constraints(&mut plain);
    assert_eq!(plain.load_givens(CLASSIC), Ok(()));
    assert_eq!(eng.state.domains, plain.state.domains);
    assert_eq!(eng.state.trail, plain.state.trail);
}

#[test]
fn load_givens_reads_zero_and_dot_as_blank() {
    let zeros = CLASSIC.replace('.', "0");
    let mut a = Engine::new();
    add_all_sudoku_constraints(&mut a);
    assert_eq!(a.load_givens(&zeros), Ok(()));
    let mut b = Engine::new();
    add_all_sudoku_constraints(&mut b);
    assert_eq!(b.load_givens(CLASSIC), Ok(()));
    assert_eq!(a.state.domains, b.state.domains);
}

#[test]
fn load_givens_names_the_invalid_symbol() {
    let mut text = String::from(CLASSIC);
    text.replace_range(5..6, "x");
    let mut eng = Engine::new();
    add_all_sudoku_constraints(&mut eng);
    assert_eq!(
        eng.load_givens(&text),
        Err(LoadError::InvalidChar { position: 5, found: 'x' })
    );
    // the position counts symbols, not characters of the text
    let mut eng = Engine::new();
    assert_eq!(
        eng.load_givens(&format!(" \n{}", text)),
        Err(LoadError::InvalidChar { position: 5, found: 'x' })
    );
    // a character that is no ASCII digit is not read as one
    let mut text = String::from(CLASSIC);
    text.replace_range(1..2, "\u{0131}");
    let mut eng = Engine::new();
    assert_eq!(
        eng.load_givens(&text),
        Err(LoadError::InvalidChar { position: 1, found: '\u{0131}' })
    );
}

#[test]
fn load_givens_rejects_a_digit_twice_in_a_row() {
    let p = "11...............................................................................";
    let mut eng = Engine::new();
    add_all_sudoku_constraints(&mut eng);
    assert_eq!(eng.load_givens(p), Err(LoadError::Contradiction));

    // eight cells of a row hold the digits 1 to 8, and the ninth holds 1 again
    let p = "123456781........................................................................";
    let mut eng = Engine::new();
    add_all_sudoku_constraints(&mut eng);
    assert_eq!(eng.load_givens(p), Err(LoadError::Contradiction));
}

#[test]
fn load_givens_without_constraints_only_assigns() {
    let mut eng = Engine::new();
    assert_eq!(eng.load_givens(CLASSIC), Ok(()));
    assert_eq!(eng.state.domains[0], only(2));
    assert_eq!(eng.state.domains[1], DIGITS_MASK);
    assert_eq!(eng.state.domains[80], only(6));
    assert_eq!(eng.state.trail.len(), 25);
    assert!(eng.state.queue.is_empty());
}

#[test]
fn new_engine_is_fresh() {
    let eng = Engine::new();
    assert_eq!(eng.state.domains, [DIGITS_MASK; 81]);
    assert!(eng.state.trail.is_empty());
    assert!(eng.state.queue.is_empty());
    assert!(eng.constraints.is_empty());
    assert_eq!(eng.watchers.len(), 81);
    assert!(eng.watchers.iter().all(|w| w.is_empty()));
    assert!(!eng.solved());
}

#[test]
fn add_constraint_enters_the_watchers_of_its_scope() {
    let mut eng = Engine::new();
    eng.add_constraint(Constraint::KropkiWhite { a: 3, b: 4 });
    eng.add_constraint(Constraint::KropkiBlack { a: 4, b: 5 });
    eng.add_constraint(Constraint::AllDifferent { cells: [0, 1, 2, 3, 4, 5, 6, 7, 8] });
    assert_eq!(eng.constraints.len(), 3);
    assert_eq!(eng.watchers[3], vec![0, 2]);
    assert_eq!(eng.watchers[4], vec![0, 1, 2]);
    assert_eq!(eng.watchers[5], vec![1, 2]);
    assert_eq!(eng.watchers[0], vec![2]);
    assert!(eng.watchers[9].is_empty());
}

#[test]
fn classic_constraints_are_rows_then_columns_then_boxes() {
    let mut eng = Engine::new();
    add_all_sudoku_constraints(&mut eng);
    assert_eq!(eng.constraints.len(), 27);
    let cells_of = |k: usize| eng.constraints[k].scope();
    assert_eq!(cells_of(0), vec![0, 1, 2, 3, 4, 5, 6, 7, 8]);
    assert_eq!(cells_of(8), vec![72, 73, 74, 75, 76, 77, 78, 79, 80]);
    assert_eq!(cells_of(9), vec![0, 9, 18, 27, 36, 45, 54, 63, 72]);
    assert_eq!(cells_of(17), vec![8, 17, 26, 35, 44, 53, 62, 71, 80]);
    assert_eq!(cells_of(18), vec![0, 1, 2, 9, 10, 11, 18, 19, 20]);
    assert_eq!(cells_of(22), vec![30, 31, 32, 39, 40, 41, 48, 49, 50]);
    assert_eq!(cells_of(26), vec![60, 61, 62, 69, 70, 71, 78, 79, 80]);
    for i in 0..81usize {
        let (r, c) = (i / 9, i % 9);
        assert_eq!(eng.watchers[i], vec![r, 9 + c, 18 + (r / 3) * 3 + c / 3]);
    }
}

#[test]
fn kropki_helpers_register_the_cells_of_the_coordinates() {
    let mut eng = Engine::new();
    add_kropki_white(&mut eng, (6, 1), (7, 1));
    add_kropki_black(&mut eng, (0, 8), (1, 8));
    assert_eq!(eng.constraints[0].scope(), vec![55, 64]);
    assert_eq!(eng.constraints[1].scope(), vec![8, 17]);
    assert!(matches!(eng.constraints[0], Constraint::KropkiWhite { a: 55, b: 64 }));
    assert!(matches!(eng.constraints[1], Constraint::KropkiBlack { a: 8, b: 17 }));
}

#[test]
fn enqueue_all_and_enqueue_cell_constraints_append_in_order() {
    let mut eng = Engine::new();
    add_all_sudoku_constraints(&mut eng);
    eng.enqueue_cell_constraints(40);
    assert_eq!(eng.state.queue, vec![4, 13, 22]);
    eng.enqueue_all();
    assert_eq!(eng.state.queue.len(), 30);
    assert_eq!(eng.state.queue[3], 0);
    assert_eq!(eng.state.queue[29], 26);
}

#[test]
fn propagate_reports_progress_then_stalls() {
    let mut eng = Engine::new();
    add_all_sudoku_constraints(&mut eng);
    assert_eq!(eng.propagate(), Ok(Solve::Stalled));
    eng.state.assign(0, only(5)).unwrap();
    eng.enqueue_cell_constraints(0);
    assert_eq!(eng.propagate(), Ok(Solve::Progress));
    assert!(eng.state.queue.is_empty());
    // row, column and box of cell 0 have lost the 5
    for i in [1usize, 8, 9, 72, 10, 20] {
        assert_eq!(eng.state.domains[i], DIGITS_MASK & !only(5));
    }
    assert_eq!(eng.state.domains[40], DIGITS_MASK);
    eng.enqueue_all();
    assert_eq!(eng.propagate(), Ok(Solve::Stalled));
}

#[test]
fn propagate_stops_at_the_first_contradiction() {
    let mut eng = Engine::new();
    add_all_sudoku_constraints(&mut eng);
    eng.state.assign(0, only(5)).unwrap();
    eng.state.assign(1, only(5)).unwrap();
    eng.enqueue_cell_constraints(0);
    assert_eq!(eng.propagate(), Err(RuleError::Contradiction));
    // the row failed first; the column and the box are still queued
    assert_eq!(eng.state.queue, vec![9, 18]);
}

#[test]
fn propagate_only_shrinks_domains() {
    let mut eng = Engine::new();
    add_all_sudoku_constraints(&mut eng);
    add_kropki_white(&mut eng, (0, 0), (0, 1));
    add_kropki_black(&mut eng, (4, 4), (4, 5));
    eng.enqueue_all();
    let before = eng.state.domains;
    assert_eq!(eng.propagate(), Ok(Solve::Progress));
    for i in 0..81 {
        assert_eq!(eng.state.domains[i] & before[i], eng.state.domains[i]);
        assert_ne!(eng.state.domains[i], 0);
    }
    let len = eng.state.trail.len();
    eng.state.backtrack_to(0);
    assert!(len > 0);
    assert_eq!(eng.state.domains, before);
}

#[test]
fn choose_mrv_takes_the_first_smallest_open_cell() {
    let mut eng = Engine::new();
    assert_eq!(eng.choose_mrv(), Some(0));
    eng.state.domains[30] = only(1) | only(2) | only(3);
    assert_eq!(eng.choose_mrv(), Some(30));
    eng.state.domains[50] = only(4) | only(5);
    eng.state.domains[60] = only(6) | only(7);
    assert_eq!(eng.choose_mrv(), Some(50));
    eng.state.domains[10] = only(9);
    assert_eq!(eng.choose_mrv(), Some(50));
    for i in 0..81 {
        eng.state.domains[i] = only(1 + (i % 9) as u8);
    }
    assert_eq!(eng.choose_mrv(), None);
    assert!(eng.solved());
    eng.state.domains[80] = only(1) | only(2);
    assert_eq!(eng.choose_mrv(), Some(80));
    assert!(!eng.solved());
}

#[test]
fn dead_sees_an_empty_cell() {
    let mut eng = Engine::new();
    assert!(!eng.dead());
    eng.state.domains[80] = 0;
    assert!(eng.dead());
    assert!(!eng.solved());
}

#[test]
fn search_from_loaded_givens_agrees_with_a_fresh_search() {
    let mut eng = Engine::new();
    add_all_sudoku_constraints(&mut eng);
    eng.load_givens(CLASSIC).unwrap();
    assert_eq!(eng.search(), Ok(true));
    // a second search on the solved board changes nothing
    let solved = eng.state.domains;
    assert_eq!(eng.search(), Ok(true));
    assert_eq!(eng.state.domains, solved);
}
