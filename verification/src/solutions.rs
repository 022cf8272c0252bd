//! What the constraints mean: the assignments that satisfy them, and the proofs
//! that the rules keep every such assignment.

use vstd::prelude::*;
use crate::constraints::{
    all_diff_step, black_reach, cells_on_grid, count_admitting, has_duplicate, has_empty,
    hidden_singles, last_admitting, lemma_hidden_tracks, lemma_last_admitting, lemma_naked_tracks,
    lemma_rule_tracks, lemma_start_tracks, lemma_then_narrow_tracks, lemma_two_admitting,
    naked_singles, taken_mask, white_reach, Rule, Step,
};
use crate::domain::{
    admits, bit_count, in_range, is_single, lemma_add_digit, lemma_admits_digit, lemma_admits_ops,
    lemma_count_cases, lemma_nine_digits, lemma_single_admits, lemma_single_bit,
    lemma_within_refl, lemma_within_single, within,
};
use crate::engine::{drain, lemma_drain_tracks, lemma_rule_from_queue, pop_queue, ready, requeue};
use crate::search::{
    all_single, branch_outcome, can_branch, is_mrv_among, lemma_branch_step,
    lemma_queue_all_ready, lemma_search_tracks, lowest, mrv_cell, queue_all, queue_watchers,
    search_outcome, search_queued, some_empty,
};
use crate::state::Board;
use crate::types::{CellIx, Domain, RuleError, Solve, DIGITS_MASK, NN};

verus! {

/// Whether the assignment `sol`, a digit for each cell, takes each digit from the
/// candidates of its cell.
pub open spec fn fits(sol: Seq<u8>, domains: Seq<Domain>) -> bool {
    &&& sol.len() == NN
    &&& forall|c: int| 0 <= c < NN ==> admits(#[trigger] domains[c], sol[c])
}

/// Whether `sol` gives different digits to any two positions of `cells`.
pub open spec fn all_different(sol: Seq<u8>, cells: Seq<CellIx>) -> bool {
    forall|p: int, q: int|
        0 <= p < q < cells.len() ==> sol[#[trigger] cells[p] as int] !=
            sol[#[trigger] cells[q] as int]
}

/// Whether the digits of `sol` increase strictly along `cells`.
pub open spec fn increasing(sol: Seq<u8>, cells: Seq<CellIx>) -> bool {
    forall|p: int, q: int|
        0 <= p < q < cells.len() ==>
            sol[#[trigger] cells[p] as int] < sol[#[trigger] cells[q] as int]
}

impl Rule {
    /// Whether the assignment `sol` satisfies the constraint.
    pub open spec fn holds(self, sol: Seq<u8>) -> bool {
        match self {
            Rule::AllDifferent { cells } => all_different(sol, cells),
            Rule::KropkiWhite { a, b } => sol[a as int] == sol[b as int] + 1 || sol[b as int]
                == sol[a as int] + 1,
            Rule::KropkiBlack { a, b } => sol[a as int] == 2 * sol[b as int] || sol[b as int] == 2
                * sol[a as int],
            Rule::Thermo { cells } => increasing(sol, cells),
        }
    }
}

/// Whether the assignment `sol` satisfies every constraint of `rules`.
pub open spec fn satisfies(rules: Seq<Rule>, sol: Seq<u8>) -> bool {
    forall|k: int| 0 <= k < rules.len() ==> (#[trigger] rules[k]).holds(sol)
}

/// No assignment fits the board and satisfies every constraint.
pub open spec fn no_solution(rules: Seq<Rule>, board: Board) -> bool {
    forall|sol: Seq<u8>| !(#[trigger] fits(sol, board.domains) && satisfies(rules, sol))
}

/// Every assignment that fits `before` and satisfies every constraint fits `after`.
pub open spec fn keeps_solutions(rules: Seq<Rule>, before: Board, after: Board) -> bool {
    forall|sol: Seq<u8>|
        #[trigger] fits(sol, before.domains) && satisfies(rules, sol) ==> fits(sol, after.domains)
}

/// A digit one away from a digit of `m` is in `white_reach(m)`, and what is in the
/// reach of a single digit is one away from it.
pub proof fn lemma_white_reach(m: Domain, x: u8, y: u8)
    requires
        1 <= x <= 9,
        y < 16,
    ensures
        admits(m, y) && (x == y + 1 || y == x + 1) ==> admits(white_reach(m), x),
        admits(white_reach(1u16 << y), x) ==> x == y + 1 || y == x + 1,
{
    assert(1 <= x <= 9 && y < 16 && admits(m, y) && (x == y + 1 || y == x + 1) ==> admits(
        white_reach(m),
        x,
    )) by (bit_vector);
    assert(1 <= x <= 9 && y < 16 && admits(white_reach(1u16 << y), x) ==> x == y + 1 || y == x
        + 1) by (bit_vector);
}

/// The double and the half of a digit of `m` are in `black_reach(m)`, and what is in
/// the reach of a single digit is its double or its half.
pub proof fn lemma_black_reach(m: Domain, x: u8, y: u8)
    requires
        1 <= x <= 9,
        1 <= y <= 9,
    ensures
        admits(m, y) && (x == 2 * y || y == 2 * x) ==> admits(black_reach(m), x),
        admits(black_reach(1u16 << y), x) ==> x == 2 * y || y == 2 * x,
{
    assert(1 <= x <= 9 && 1 <= y <= 9 && admits(m, y) && (x == 2 * y || y == 2 * x) ==> admits(
        black_reach(m),
        x,
    )) by (bit_vector);
    assert(1 <= x <= 9 && 1 <= y <= 9 && admits(black_reach(1u16 << y), x) ==> x == 2 * y || y
        == 2 * x) by (bit_vector);
}

impl Step {
    /// The rule has not failed, and `sol` still fits the board it has reached.
    pub open spec fn keeps(self, sol: Seq<u8>) -> bool {
        !self.failed && fits(sol, self.board.domains)
    }
}

/// A narrowing by a mask that admits the digit of `sol` for the cell keeps `sol`.
pub proof fn lemma_then_narrow_keeps(step: Step, sol: Seq<u8>, i: CellIx, mask: Domain)
    requires
        step.keeps(sol),
        i < NN,
        step.board.domains.len() == NN,
        admits(mask, sol[i as int]),
    ensures
        step.then_narrow(i, mask).keeps(sol),
{
    let d = step.board.domains[i as int];
    lemma_admits_ops(d, mask, sol[i as int]);
    lemma_admits_digit(d & mask, sol[i as int]);
}

/// The digits that `sol` gives to the first `n` positions of `cells`, as a mask.
pub open spec fn used_mask(sol: Seq<u8>, cells: Seq<CellIx>, n: nat) -> Domain
    decreases n,
{
    if n == 0 {
        0
    } else {
        used_mask(sol, cells, (n - 1) as nat) | (1u16 << sol[cells[n - 1] as int])
    }
}

/// Different digits `1..=9` at `n` positions make a mask in range with `n` digits,
/// which holds exactly the digits given.
pub proof fn lemma_used_mask(sol: Seq<u8>, cells: Seq<CellIx>, n: nat)
    requires
        n <= cells.len(),
        forall|k: int| 0 <= k < n ==> 1 <= sol[#[trigger] cells[k] as int] <= 9,
        forall|k: int, l: int|
            0 <= k < l < n ==> sol[#[trigger] cells[k] as int] != sol[#[trigger] cells[l] as int],
    ensures
        in_range(used_mask(sol, cells, n)),
        bit_count(used_mask(sol, cells, n)) == n,
        forall|d: u8|
            admits(used_mask(sol, cells, n), d) ==> exists|k: int|
                0 <= k < n && sol[#[trigger] cells[k] as int] == d,
    decreases n,
{
    if n == 0 {
        assert(in_range(0u16) && bit_count(0u16) == 0) by (bit_vector);
        assert forall|d: u8| !admits(0u16, d) by {
            lemma_admits_ops(0, 0, d);
        }
    } else {
        lemma_used_mask(sol, cells, (n - 1) as nat);
        let before = used_mask(sol, cells, (n - 1) as nat);
        let d = sol[cells[n - 1] as int];
        assert(1 <= d <= 9);
        if admits(before, d) {
            let k = choose|k: int| 0 <= k < n - 1 && sol[#[trigger] cells[k] as int] == d;
            assert(sol[cells[k] as int] != sol[cells[n - 1] as int]);
        }
        lemma_add_digit(before, d);
        assert(1 <= d <= 9 && in_range(before) ==> in_range(before | (1u16 << d)))
            by (bit_vector);
        assert forall|e: u8| admits(used_mask(sol, cells, n), e) implies exists|k: int|
            0 <= k < n && sol[#[trigger] cells[k] as int] == e by {
            lemma_admits_ops(before, 1u16 << d, e);
            lemma_single_bit(d);
            if admits(before, e) {
                let k = choose|k: int| 0 <= k < n - 1 && sol[#[trigger] cells[k] as int] == e;
                assert(sol[cells[k] as int] == e);
            } else {
                assert(sol[cells[n - 1] as int] == e);
            }
        }
    }
}

/// Nine cells with nine different digits hold every digit: each of `1..=9` is the
/// digit of some position.
pub proof fn lemma_every_digit_placed(sol: Seq<u8>, cells: Seq<CellIx>, d: u8)
    requires
        cells.len() == 9,
        forall|k: int| 0 <= k < 9 ==> 1 <= sol[#[trigger] cells[k] as int] <= 9,
        all_different(sol, cells),
        1 <= d <= 9,
    ensures
        exists|p: int| 0 <= p < 9 && sol[#[trigger] cells[p] as int] == d,
{
    lemma_used_mask(sol, cells, 9);
    lemma_nine_digits(used_mask(sol, cells, 9));
    assert(admits(DIGITS_MASK, d)) by {
        assert(1 <= d <= 9 ==> admits(0x3feu16, d)) by (bit_vector);
    }
}

/// A digit of the taken mask is the one candidate of some position.
pub proof fn lemma_taken_digit(domains: Seq<Domain>, cells: Seq<CellIx>, n: nat, d: u8)
    requires
        admits(taken_mask(domains, cells, n), d),
    ensures
        exists|q: int|
            0 <= q < n && is_single(domains[#[trigger] cells[q] as int]) && admits(
                domains[cells[q] as int],
                d,
            ),
    decreases n,
{
    if n == 0 {
        lemma_admits_ops(0, 0, d);
    } else {
        let m = domains[cells[n - 1] as int];
        let before = taken_mask(domains, cells, (n - 1) as nat);
        lemma_admits_ops(before, m, d);
        if is_single(m) && admits(m, d) {
            assert(is_single(domains[cells[n - 1] as int]));
        } else {
            lemma_taken_digit(domains, cells, (n - 1) as nat, d);
            let q = choose|q: int|
                0 <= q < n - 1 && is_single(domains[#[trigger] cells[q] as int]) && admits(
                    domains[cells[q] as int],
                    d,
                );
            assert(is_single(domains[cells[q] as int]));
        }
    }
}

/// What the soundness of the all-different rule starts from: a well-formed board,
/// nine cells on the grid, and an assignment of nine different digits that fits.
pub open spec fn all_diff_case(board: Board, cells: Seq<CellIx>, sol: Seq<u8>) -> bool {
    &&& board.wf()
    &&& cells.len() == 9
    &&& cells_on_grid(cells)
    &&& fits(sol, board.domains)
    &&& all_different(sol, cells)
}

/// An assignment that fits a well-formed board gives every cell a digit `1..=9`.
pub proof fn lemma_fits_digits(board: Board, sol: Seq<u8>)
    requires
        board.wf(),
        fits(sol, board.domains),
    ensures
        forall|c: int| 0 <= c < NN ==> 1 <= #[trigger] sol[c] <= 9,
{
    assert forall|c: int| 0 <= c < NN implies 1 <= #[trigger] sol[c] <= 9 by {
        assert(admits(board.domains[c], sol[c]));
        lemma_admits_digit(board.domains[c], sol[c]);
    }
}

/// Hidden singles keep every assignment of different digits that fits.
pub proof fn lemma_hidden_keeps(board: Board, cells: Seq<CellIx>, sol: Seq<u8>, n: nat)
    requires
        all_diff_case(board, cells, sol),
        n <= 9,
    ensures
        hidden_singles(board, cells, n).keeps(sol),
    decreases n,
{
    if n > 0 {
        lemma_hidden_keeps(board, cells, sol, (n - 1) as nat);
        lemma_hidden_tracks(board, cells, (n - 1) as nat);
        let d = n as u8;
        if count_admitting(board.domains, cells, d, 9) == 1 {
            lemma_fits_digits(board, sol);
            lemma_every_digit_placed(sol, cells, d);
            let p = choose|p: int| 0 <= p < 9 && sol[#[trigger] cells[p] as int] == d;
            lemma_last_admitting(board.domains, cells, d, 9);
            let i = last_admitting(board.domains, cells, d, 9).unwrap();
            let x = choose|x: int|
                0 <= x < 9 && #[trigger] cells[x] == i && admits(board.domains[cells[x] as int], d);
            assert(admits(board.domains[cells[p] as int], sol[cells[p] as int]));
            if x < p {
                lemma_two_admitting(board.domains, cells, d, x, p, 9);
            } else if p < x {
                lemma_two_admitting(board.domains, cells, d, p, x, 9);
            }
            lemma_single_bit(d);
            lemma_then_narrow_keeps(hidden_singles(board, cells, (n - 1) as nat), sol, i,
                1u16 << d);
        }
    }
}

/// Naked singles keep every assignment of different digits that fits.
pub proof fn lemma_naked_keeps(
    start: Step,
    board: Board,
    cells: Seq<CellIx>,
    sol: Seq<u8>,
    n: nat,
)
    requires
        all_diff_case(board, cells, sol),
        start.tracks(board, cells),
        start.keeps(sol),
        n <= 9,
    ensures
        naked_singles(start, cells, taken_mask(board.domains, cells, 9), n).keeps(sol),
    decreases n,
{
    if n > 0 {
        let taken = taken_mask(board.domains, cells, 9);
        lemma_naked_keeps(start, board, cells, sol, (n - 1) as nat);
        lemma_naked_tracks(start, board, cells, taken, (n - 1) as nat);
        let before = naked_singles(start, cells, taken, (n - 1) as nat);
        let i = cells[n - 1];
        let cur = before.board.domains[i as int];
        let s = sol[i as int];
        if !is_single(cur) {
            assert(admits(cur, s));
            lemma_admits_digit(cur, s);
            if admits(taken, s) {
                lemma_taken_digit(board.domains, cells, 9, s);
                let q = choose|q: int|
                    0 <= q < 9 && is_single(board.domains[#[trigger] cells[q] as int]) && admits(
                        board.domains[cells[q] as int],
                        s,
                    );
                let held = board.domains[cells[q] as int];
                assert(admits(held, sol[cells[q] as int]));
                lemma_single_admits(held, s);
                assert(sol[cells[q] as int] == s);
                if q < n - 1 {
                    assert(sol[cells[q] as int] != sol[cells[n - 1] as int]);
                } else if n - 1 < q {
                    assert(sol[cells[n - 1] as int] != sol[cells[q] as int]);
                }
                assert(within(cur, board.domains[i as int]));
                lemma_within_single(cur, board.domains[i as int]);
            }
            lemma_admits_ops(taken, taken, s);
            lemma_then_narrow_keeps(before, sol, i, !taken);
        }
    }
}

/// The all-different rule keeps every assignment of nine different digits that
/// fits: it does not fail, and the assignment fits the board it leaves.
pub proof fn lemma_all_diff_keeps(board: Board, cells: Seq<CellIx>, sol: Seq<u8>)
    requires
        all_diff_case(board, cells, sol),
    ensures
        all_diff_step(board, cells).keeps(sol),
{
    if has_empty(board.domains, cells) {
        let p = choose|p: int| 0 <= p < cells.len()
            && board.domains[#[trigger] cells[p] as int] == 0;
        assert(admits(board.domains[cells[p] as int], sol[cells[p] as int]));
        lemma_admits_digit(board.domains[cells[p] as int], sol[cells[p] as int]);
    }
    if has_duplicate(board.domains, cells) {
        let (p, q) = choose|p: int, q: int|
            0 <= p < q < cells.len() && is_single(board.domains[#[trigger] cells[p] as int])
                && board.domains[cells[p] as int] == board.domains[#[trigger] cells[q] as int];
        let held = board.domains[cells[p] as int];
        assert(admits(held, sol[cells[p] as int]));
        assert(admits(board.domains[cells[q] as int], sol[cells[q] as int]));
        lemma_single_admits(held, sol[cells[p] as int]);
        assert(sol[cells[p] as int] != sol[cells[q] as int]);
    }
    lemma_hidden_keeps(board, cells, sol, 9);
    lemma_hidden_tracks(board, cells, 9);
    lemma_naked_keeps(hidden_singles(board, cells, 9), board, cells, sol, 9);
}

/// Soundness of the rules. A rule removes no digit of an assignment that satisfies
/// its constraint: where such an assignment fits the board, the rule finds no
/// contradiction, and the assignment fits the board that the rule leaves.
pub proof fn lemma_rule_keeps(rule: Rule, board: Board, sol: Seq<u8>)
    requires
        board.wf(),
        rule.on_grid(),
        fits(sol, board.domains),
        rule.holds(sol),
    ensures
        rule.step(board).keeps(sol),
        rule.result(board) != Err::<bool, RuleError>(RuleError::Contradiction),
        fits(sol, rule.apply(board).domains),
{
    lemma_fits_digits(board, sol);
    let scope = rule.scope();
    match rule {
        Rule::AllDifferent { cells } => {
            lemma_all_diff_keeps(board, cells, sol);
        },
        Rule::KropkiWhite { a, b } => {
            assert(scope[0] == a && scope[1] == b);
            assert(admits(board.domains[a as int], sol[a as int]));
            assert(admits(board.domains[b as int], sol[b as int]));
            lemma_white_reach(board.domains[b as int], sol[a as int], sol[b as int]);
            lemma_white_reach(board.domains[a as int], sol[b as int], sol[a as int]);
            let first = Step::start(board).then_narrow(a, white_reach(board.domains[b as int]));
            lemma_then_narrow_keeps(
                Step::start(board),
                sol,
                a,
                white_reach(board.domains[b as int]),
            );
            lemma_rule_tracks(rule, board);
            lemma_start_tracks(board, scope);
            lemma_then_narrow_tracks(
                Step::start(board),
                board,
                scope,
                a,
                white_reach(board.domains[b as int]),
            );
            lemma_then_narrow_keeps(first, sol, b, white_reach(board.domains[a as int]));
        },
        Rule::KropkiBlack { a, b } => {
            assert(scope[0] == a && scope[1] == b);
            assert(admits(board.domains[a as int], sol[a as int]));
            assert(admits(board.domains[b as int], sol[b as int]));
            lemma_black_reach(board.domains[b as int], sol[a as int], sol[b as int]);
            lemma_black_reach(board.domains[a as int], sol[b as int], sol[a as int]);
            let first = Step::start(board).then_narrow(a, black_reach(board.domains[b as int]));
            lemma_then_narrow_keeps(
                Step::start(board),
                sol,
                a,
                black_reach(board.domains[b as int]),
            );
            lemma_start_tracks(board, scope);
            lemma_then_narrow_tracks(
                Step::start(board),
                board,
                scope,
                a,
                black_reach(board.domains[b as int]),
            );
            lemma_then_narrow_keeps(first, sol, b, black_reach(board.domains[a as int]));
        },
        Rule::Thermo { cells } => {},
    }
}

/// Soundness of propagation. An assignment that satisfies every constraint and fits
/// the board is never propagated away: the run finds no contradiction, and the
/// assignment fits the board it leaves.
pub proof fn lemma_drain_keeps(rules: Seq<Rule>, board: Board, any: bool, sol: Seq<u8>)
    requires
        ready(rules, board),
        satisfies(rules, sol),
        fits(sol, board.domains),
    ensures
        drain(rules, board, any).0 != Err::<Solve, RuleError>(RuleError::Contradiction),
        fits(sol, drain(rules, board, any).1.domains),
    decreases board.weight(), board.queue.len(),
{
    if board.queue.len() > 0 {
        lemma_rule_from_queue(rules, board);
        let rule = rules[board.queue[0] as int];
        let popped = pop_queue(board);
        let after = rule.apply(popped);
        assert(popped.domains == board.domains);
        lemma_rule_keeps(rule, popped, sol);
        match rule.result(popped) {
            Err(e) => {},
            Ok(changed) => {
                let next = if changed {
                    requeue(rules, after, rule)
                } else {
                    after
                };
                assert(next.domains == after.domains);
                lemma_drain_keeps(rules, next, any || changed, sol);
            },
        }
    }
}

/// Among the first `n` cells, if any has more than one candidate, one of them is the
/// first with the fewest.
pub proof fn lemma_mrv_exists(domains: Seq<Domain>, n: int, c: int)
    requires
        0 <= c < n <= domains.len(),
        bit_count(domains[c]) > 1,
    ensures
        exists|i: int| is_mrv_among(domains, n, i),
    decreases n,
{
    let last = n - 1;
    if exists|e: int| 0 <= e < last && bit_count(domains[e]) > 1 {
        let e = choose|e: int| 0 <= e < last && bit_count(domains[e]) > 1;
        lemma_mrv_exists(domains, last, e);
        let i = choose|i: int| is_mrv_among(domains, last, i);
        if bit_count(domains[last]) > 1 && bit_count(domains[last]) < bit_count(domains[i]) {
            assert(is_mrv_among(domains, n, last));
        } else {
            assert(is_mrv_among(domains, n, i));
        }
    } else {
        assert(c == last);
        assert(is_mrv_among(domains, n, last));
    }
}

/// A board that is neither finished nor dead has a cell to branch on.
pub proof fn lemma_open_board_branches(domains: Seq<Domain>)
    requires
        domains.len() == NN,
        !all_single(domains),
        !some_empty(domains),
    ensures
        mrv_cell(domains) is Some,
        is_mrv_among(domains, NN as int, mrv_cell(domains).unwrap() as int),
{
    let c = choose|c: int| 0 <= c < domains.len() && !is_single(#[trigger] domains[c]);
    assert(domains[c] != 0);
    lemma_count_cases(domains[c]);
    lemma_mrv_exists(domains, NN as int, c);
}

/// A search that reports a solution leaves a finished board.
pub proof fn lemma_search_solved(rules: Seq<Rule>, board: Board)
    requires
        ready(rules, board),
        search_outcome(rules, board).0 == Ok::<bool, RuleError>(true),
    ensures
        all_single(search_outcome(rules, board).1.domains),
    decreases board.weight(), 2nat, 0nat,
{
    if board.trail.len() == 0 && board.queue.len() == 0 {
        lemma_queue_all_ready(rules, board);
        assert(queue_all(rules, board).domains == board.domains);
        lemma_search_queued_solved(rules, queue_all(rules, board));
    } else {
        lemma_search_queued_solved(rules, board);
    }
}

/// [`lemma_search_solved`], once the queue is set.
pub proof fn lemma_search_queued_solved(rules: Seq<Rule>, board: Board)
    requires
        ready(rules, board),
        search_queued(rules, board).0 == Ok::<bool, RuleError>(true),
    ensures
        all_single(search_queued(rules, board).1.domains),
    decreases board.weight(), 1nat, 0nat,
{
    lemma_drain_tracks(rules, board, false);
    let (r, after) = drain(rules, board, false);
    if r is Ok && !all_single(after.domains) && !some_empty(after.domains) {
        lemma_open_board_branches(after.domains);
        let i = mrv_cell(after.domains).unwrap();
        let m = after.domains[i as int];
        lemma_within_refl(m);
        lemma_branch_solved(rules, after, after.queue, i, m);
    }
}

/// [`lemma_search_solved`], for the branches on one cell.
pub proof fn lemma_branch_solved(
    rules: Seq<Rule>,
    base: Board,
    queue: Seq<usize>,
    i: CellIx,
    m: Domain,
)
    requires
        can_branch(rules, base, queue, i, m),
        branch_outcome(rules, base, queue, i, m).0 == Ok::<bool, RuleError>(true),
    ensures
        all_single(branch_outcome(rules, base, queue, i, m).1.domains),
    decreases base.weight(), 0nat, m as nat,
{
    if m != 0 {
        let here = Board { queue, ..base };
        lemma_branch_step(rules, base, queue, i, m);
        let bit = 1u16 << lowest(m);
        let tried = queue_watchers(rules, here.narrow(i, bit), i);
        let (r, after) = search_outcome(rules, tried);
        lemma_search_tracks(rules, tried);
        if r == Ok::<bool, RuleError>(true) {
            lemma_search_solved(rules, tried);
        } else if r == Ok::<bool, RuleError>(false) {
            lemma_branch_solved(rules, base, after.queue, i, m & !bit);
        }
    }
}

/// Completeness of the search. Where some assignment satisfies every constraint and
/// fits the board, the search does not report that there is none.
pub proof fn lemma_search_complete(rules: Seq<Rule>, board: Board, sol: Seq<u8>)
    requires
        ready(rules, board),
        satisfies(rules, sol),
        fits(sol, board.domains),
    ensures
        search_outcome(rules, board).0 != Ok::<bool, RuleError>(false),
    decreases board.weight(), 2nat, 0nat,
{
    if board.trail.len() == 0 && board.queue.len() == 0 {
        lemma_queue_all_ready(rules, board);
        assert(queue_all(rules, board).domains == board.domains);
        lemma_search_queued_complete(rules, queue_all(rules, board), sol);
    } else {
        lemma_search_queued_complete(rules, board, sol);
    }
}

/// [`lemma_search_complete`], once the queue is set.
pub proof fn lemma_search_queued_complete(rules: Seq<Rule>, board: Board, sol: Seq<u8>)
    requires
        ready(rules, board),
        satisfies(rules, sol),
        fits(sol, board.domains),
    ensures
        search_queued(rules, board).0 != Ok::<bool, RuleError>(false),
    decreases board.weight(), 1nat, 0nat,
{
    lemma_drain_tracks(rules, board, false);
    lemma_drain_keeps(rules, board, false, sol);
    let (r, after) = drain(rules, board, false);
    if r is Ok && !all_single(after.domains) {
        if some_empty(after.domains) {
            let c = choose|c: int| 0 <= c < after.domains.len() && #[trigger] after.domains[c] == 0;
            assert(admits(after.domains[c], sol[c]));
            lemma_admits_digit(after.domains[c], sol[c]);
        }
        lemma_open_board_branches(after.domains);
        let i = mrv_cell(after.domains).unwrap();
        let m = after.domains[i as int];
        lemma_within_refl(m);
        assert(admits(after.domains[i as int], sol[i as int]));
        lemma_branch_complete(rules, after, after.queue, i, m, sol);
    }
}

/// [`lemma_search_complete`], for the branches on one cell: they do not all fail
/// while the digit of the assignment is among those still to try.
pub proof fn lemma_branch_complete(
    rules: Seq<Rule>,
    base: Board,
    queue: Seq<usize>,
    i: CellIx,
    m: Domain,
    sol: Seq<u8>,
)
    requires
        can_branch(rules, base, queue, i, m),
        satisfies(rules, sol),
        fits(sol, base.domains),
        admits(m, sol[i as int]),
    ensures
        branch_outcome(rules, base, queue, i, m).0 != Ok::<bool, RuleError>(false),
    decreases base.weight(), 0nat, m as nat,
{
    lemma_admits_digit(m, sol[i as int]);
    let here = Board { queue, ..base };
    lemma_branch_step(rules, base, queue, i, m);
    let d = lowest(m);
    let bit = 1u16 << d;
    let tried = queue_watchers(rules, here.narrow(i, bit), i);
    let (r, after) = search_outcome(rules, tried);
    lemma_search_tracks(rules, tried);
    lemma_single_bit(d);
    if sol[i as int] == d {
        assert(fits(sol, tried.domains)) by {
            assert(tried.domains == here.narrow(i, bit).domains);
            assert forall|c: int| 0 <= c < NN implies admits(#[trigger] tried.domains[c],
                sol[c]) by {
                if c != i {
                    assert(tried.domains[c] == base.domains[c]);
                    assert(admits(base.domains[c], sol[c]));
                }
            }
        }
        lemma_search_complete(rules, tried, sol);
    } else if r == Ok::<bool, RuleError>(false) {
        lemma_admits_ops(m, !bit, sol[i as int]);
        lemma_admits_ops(bit, bit, sol[i as int]);
        lemma_branch_complete(rules, base, after.queue, i, m & !bit, sol);
    }
}

/// All-different, no shared digit. Where the all-different rule runs without a
/// contradiction, no two finished positions of the scope held the same digit; and
/// where it reports no change, the board it leaves is the board it ran on.
pub proof fn lemma_all_diff_no_shared_digit(board: Board, cells: Seq<CellIx>, p: int, q: int, d: u8)
    requires
        all_diff_step(board, cells).result() is Ok,
        0 <= p < q < cells.len(),
        is_single(board.domains[cells[p] as int]),
        is_single(board.domains[cells[q] as int]),
    ensures
        !(admits(board.domains[cells[p] as int], d) && admits(board.domains[cells[q] as int], d)),
{
    let x = board.domains[cells[p] as int];
    let y = board.domains[cells[q] as int];
    if admits(x, d) && admits(y, d) {
        lemma_single_admits(x, d);
        lemma_single_admits(y, d);
        assert(has_duplicate(board.domains, cells));
    }
}

/// All-different, every digit present, for a finished scope. Where the rule runs
/// without a contradiction on nine finished cells, each digit `1..=9` is the digit
/// of one of them.
pub proof fn lemma_finished_scope_has_every_digit(board: Board, cells: Seq<CellIx>, d: u8)
    requires
        board.wf(),
        cells.len() == 9,
        cells_on_grid(cells),
        all_diff_step(board, cells).result() is Ok,
        forall|p: int| 0 <= p < 9 ==> is_single(board.domains[#[trigger] cells[p] as int]),
        1 <= d <= 9,
    ensures
        exists|p: int| 0 <= p < 9 && admits(board.domains[#[trigger] cells[p] as int], d),
{
    let sol = Seq::new(NN as nat, |c: int| lowest(board.domains[c]));
    assert forall|k: int| 0 <= k < 9 implies 1 <= sol[#[trigger] cells[k] as int] <= 9 && admits(
        board.domains[cells[k] as int],
        sol[cells[k] as int],
    ) && board.domains[cells[k] as int] == 1u16 << sol[cells[k] as int] by {
        let m = board.domains[cells[k] as int];
        assert(is_single(m));
        lemma_within_refl(m);
        lemma_count_cases(m);
        crate::domain::lemma_lowest_digit(m, m);
        lemma_single_admits(m, lowest(m));
    }
    assert(all_different(sol, cells)) by {
        assert forall|p: int, q: int| 0 <= p < q < cells.len() implies
            sol[#[trigger] cells[p] as int]
            != sol[#[trigger] cells[q] as int] by {
            if sol[cells[p] as int] == sol[cells[q] as int] {
                assert(is_single(board.domains[cells[p] as int]));
                assert(has_duplicate(board.domains, cells));
            }
        }
    }
    lemma_every_digit_placed(sol, cells, d);
    let p = choose|p: int| 0 <= p < 9 && sol[#[trigger] cells[p] as int] == d;
    assert(admits(board.domains[cells[p] as int], d));
}

/// All-different, every digit present, for a scope that can be filled. Where nine
/// different digits fit the nine cells, each digit `1..=9` is a candidate of some
/// cell of the scope, before the rule runs and after.
pub proof fn lemma_fillable_scope_has_every_digit(
    board: Board,
    cells: Seq<CellIx>,
    sol: Seq<u8>,
    d: u8,
)
    requires
        all_diff_case(board, cells, sol),
        1 <= d <= 9,
    ensures
        exists|p: int| 0 <= p < 9 && admits(board.domains[#[trigger] cells[p] as int], d),
        exists|p: int|
            0 <= p < 9 && admits(all_diff_step(board,
                cells).board.domains[#[trigger] cells[p] as int], d),
{
    lemma_fits_digits(board, sol);
    lemma_every_digit_placed(sol, cells, d);
    let p = choose|p: int| 0 <= p < 9 && sol[#[trigger] cells[p] as int] == d;
    assert(admits(board.domains[cells[p] as int], d));
    lemma_all_diff_keeps(board, cells, sol);
    assert(admits(all_diff_step(board, cells).board.domains[cells[p] as int], d));
}

} // verus!
