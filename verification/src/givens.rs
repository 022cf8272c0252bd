//! Loading the given digits of a puzzle from its text.

use vstd::prelude::*;
use crate::constraints::Rule;
use crate::domain::{
    admits, is_single, lemma_admits_digit, lemma_admits_ops, lemma_single_bit, lemma_within_refl,
    lemma_within_single, within,
};
use crate::engine::{
    drain, keeps_nonempty, lemma_board_refl, lemma_watch_index_len, lemma_watch_index_sound,
    ready, rules_on_grid, Engine,
};
use crate::fixpoint::{
    at_rest, lemma_assign_scheduled, lemma_fresh_at_rest, lemma_propagate_laws,
    lemma_search_laws, scheduled, solution_of,
};
use crate::search::{queue_watchers, search_outcome};
use crate::solutions::{fits, lemma_drain_keeps, satisfies};
use crate::state::{
    lemma_extends_queue, lemma_extends_trans, lemma_narrow_wf, lemma_refines_trans, Board,
};
use crate::types::{bit_of_digit, CellIx, Domain, RuleError, Solve, DIGITS_MASK, NN};

verus! {

/// Why a puzzle could not be loaded.
#[derive(Clone, Copy, Debug, PartialEq, Eq, Structural)]
pub enum LoadError {
    /// The text does not hold 81 symbols; it holds `found`.
    Length { found: usize },
    /// The symbol `found`, at index `position` among the symbols, is no digit and no blank.
    InvalidChar { position: usize, found: char },
    /// The givens contradict the constraints.
    Contradiction,
    /// A constraint without a rule is registered.
    Unsupported,
}

/// What `char::is_whitespace` returns for `c`.
pub uninterp spec fn whitespace(c: char) -> bool;

/// `char::is_whitespace` is a function of the character alone. Which characters
/// count as white space is left to it: nothing here says.
pub assume_specification[ char::is_whitespace ](c: char) -> (r: bool)
    ensures
        r == whitespace(c),
;

/// The first `n` characters of `text` without the white space among them.
pub open spec fn visible(text: Seq<char>, n: nat) -> Seq<char>
    decreases n,
{
    if n == 0 {
        Seq::empty()
    } else if whitespace(text[n - 1]) {
        visible(text, (n - 1) as nat)
    } else {
        visible(text, (n - 1) as nat).push(text[n - 1])
    }
}

/// Whether `ch` marks a cell without a given.
pub open spec fn is_blank(ch: char) -> bool {
    ch == '.' || ch == '0'
}

/// The digit that `ch` gives, if it is one of `1` to `9`.
pub open spec fn given_digit(ch: char) -> Option<u8> {
    if '1' <= ch <= '9' {
        Some((ch as u32 - '0' as u32) as u8)
    } else {
        None
    }
}

/// The board after the first `n` symbols were placed, or the error that stopped the
/// placing. A blank is skipped; a digit is assigned to the cell at the symbol's index
/// and the cell's watchers are queued; any other symbol is an error, and so is a digit
/// that the cell no longer admits.
pub open spec fn place_givens(rules: Seq<Rule>, board: Board, symbols: Seq<char>, n: nat) -> (
    Option<LoadError>,
    Board,
)
    decreases n,
{
    if n == 0 {
        (None, board)
    } else {
        let (stopped, before) = place_givens(rules, board, symbols, (n - 1) as nat);
        let ch = symbols[n - 1];
        let cell = (n - 1) as CellIx;
        if stopped is Some || is_blank(ch) {
            (stopped, before)
        } else {
            match given_digit(ch) {
                None => (
                    Some(LoadError::InvalidChar { position: (n - 1) as usize, found: ch }),
                    before,
                ),
                Some(d) => if before.narrow_fails(cell, 1u16 << d) {
                    (Some(LoadError::Contradiction), before)
                } else {
                    (None, queue_watchers(rules, before.narrow(cell, 1u16 << d), cell))
                },
            }
        }
    }
}

/// What loading `symbols` onto `board` gives: a length error and an untouched board
/// unless there are 81 of them; else the error that stopped the placing; else the
/// outcome of propagating to a fixpoint.
pub open spec fn load_outcome(rules: Seq<Rule>, board: Board, symbols: Seq<char>) -> (
    Result<(), LoadError>,
    Board,
) {
    if symbols.len() != NN {
        (Err(LoadError::Length { found: symbols.len() as usize }), board)
    } else {
        let (stopped, placed) = place_givens(rules, board, symbols, NN as nat);
        match stopped {
            Some(e) => (Err(e), placed),
            None => {
                let (r, after) = drain(rules, placed, false);
                match r {
                    Ok(_) => (Ok(()), after),
                    Err(RuleError::Contradiction) => (Err(LoadError::Contradiction), after),
                    Err(RuleError::Unsupported) => (Err(LoadError::Unsupported), after),
                }
            },
        }
    }
}

/// Whether the assignment `sol` has, in every cell with a given, the given digit.
pub open spec fn agrees(sol: Seq<u8>, symbols: Seq<char>) -> bool {
    forall|k: int|
        0 <= k < symbols.len() && k < NN && given_digit(#[trigger] symbols[k]) is Some
            ==> sol[k] == given_digit(symbols[k]).unwrap()
}

/// The cells of the first `n` symbols that give a digit hold that digit and nothing else.
pub open spec fn givens_placed(board: Board, symbols: Seq<char>, n: nat) -> bool {
    forall|k: int|
        0 <= k < n && given_digit(#[trigger] symbols[k]) is Some
            ==> board.domains[k] == 1u16 << given_digit(symbols[k]).unwrap()
}

/// Placing givens only narrows: the board it leaves is ready for propagation,
/// refines the board it began on and leads back to it when the trail is undone; it
/// keeps every assignment that agrees with the givens; and unless it stopped, each
/// given is the one candidate left in its cell.
pub proof fn lemma_place_givens_tracks(rules: Seq<Rule>, board: Board, symbols: Seq<char>, n: nat)
    requires
        ready(rules, board),
        n <= NN,
        n <= symbols.len(),
    ensures
        ready(rules, place_givens(rules, board, symbols, n).1),
        place_givens(rules, board, symbols, n).1.refines(board),
        place_givens(rules, board, symbols, n).1.extends(board),
        place_givens(rules, board, symbols, n).0 is None ==> givens_placed(
            place_givens(rules, board, symbols, n).1,
            symbols,
            n,
        ),
        place_givens(rules, board, symbols, n).0 != Some(LoadError::Unsupported),
        rules.len() <= usize::MAX && scheduled(rules, board) && place_givens(
            rules,
            board,
            symbols,
            n,
        ).0 is None ==> scheduled(rules, place_givens(rules, board, symbols, n).1),
        forall|sol: Seq<u8>|
            #[trigger] fits(sol, board.domains) && agrees(sol, symbols) ==> fits(
                sol,
                place_givens(rules, board, symbols, n).1.domains,
            ) && place_givens(rules, board, symbols, n).0 != Some(LoadError::Contradiction),
    decreases n,
{
    lemma_board_refl(board);
    if n > 0 {
        lemma_place_givens_tracks(rules, board, symbols, (n - 1) as nat);
        let (stopped, before) = place_givens(rules, board, symbols, (n - 1) as nat);
        let ch = symbols[n - 1];
        let cell = (n - 1) as CellIx;
        if !(stopped is Some || is_blank(ch)) && given_digit(ch) is Some {
            let d = given_digit(ch).unwrap();
            let bit = 1u16 << d;
            lemma_single_bit(d);
            let narrowed = before.narrow(cell, bit);
            lemma_narrow_wf(before, cell, bit);
            lemma_queue_watchers_ready(rules, narrowed, cell);
            if rules.len() <= usize::MAX && scheduled(rules, board) {
                lemma_assign_scheduled(rules, before, cell, bit);
            }
            let after = queue_watchers(rules, narrowed, cell);
            assert(after.domains == narrowed.domains && after.trail == narrowed.trail);
            lemma_extends_queue(narrowed, after.queue, before);
            lemma_refines_trans(after, before, board);
            lemma_extends_trans(after, before, board);
            assert forall|sol: Seq<u8>| #[trigger] fits(sol, board.domains) && agrees(sol,
                symbols) implies fits(
                sol,
                place_givens(rules, board, symbols, n).1.domains,
            ) && place_givens(rules, board, symbols, n).0 != Some(LoadError::Contradiction) by {
                assert(sol[n - 1] == d);
                assert(admits(before.domains[n - 1], d));
                lemma_admits_ops(before.domains[n - 1], bit, d);
                lemma_admits_digit(before.domains[n - 1] & bit, d);
            }
            if !before.narrow_fails(cell, bit) {
                let held = before.domains[cell as int];
                lemma_within_refl(bit);
                assert(held & bit != 0 && is_single(bit) ==> held & bit == bit) by {
                    lemma_meet_single(held, bit);
                }
                assert(after.domains[cell as int] == bit);
                assert forall|k: int|
                    0 <= k < n && given_digit(#[trigger] symbols[k]) is Some implies
                    after.domains[k] == 1u16 << given_digit(symbols[k]).unwrap() by {
                    if k < n - 1 {
                        assert(before.domains[k] == 1u16 << given_digit(symbols[k]).unwrap());
                    }
                }
            }
        }
    }
}

/// What meets a mask with one digit holds that digit: the meet is the mask itself.
pub proof fn lemma_meet_single(m: Domain, single: Domain)
    requires
        is_single(single),
        m & single != 0,
    ensures
        m & single == single,
{
    assert(within(m & single, single)) by {
        assert((m & single) & single == m & single) by (bit_vector);
    }
    lemma_within_single(m & single, single);
}

/// What loading a puzzle states beyond its exact outcome.
pub open spec fn load_laws(rules: Seq<Rule>, board: Board, symbols: Seq<char>) -> bool {
    let (r, after) = load_outcome(rules, board, symbols);
    &&& ready(rules, after)
    &&& after.refines(board)
    &&& after.extends(board)
    &&& r is Ok ==> after.queue.len() == 0 && givens_placed(after, symbols, NN as nat)
    &&& r is Ok && scheduled(rules, board) ==> at_rest(rules, after)
    &&& r == Err::<(), LoadError>(LoadError::Contradiction) ==> forall|sol: Seq<u8>|
        !(#[trigger] fits(sol, board.domains) && agrees(sol, symbols) && satisfies(rules, sol))
    &&& forall|sol: Seq<u8>|
        #[trigger] fits(sol, board.domains) && agrees(sol, symbols) && satisfies(rules, sol)
            ==> fits(sol, after.domains)
    &&& r == Err::<(), LoadError>(LoadError::Unsupported) ==> exists|k: int|
        0 <= k < rules.len() && !(#[trigger] rules[k]).supported()
}

/// Every loading meets [`load_laws`].
pub proof fn lemma_load_laws(rules: Seq<Rule>, board: Board, symbols: Seq<char>)
    requires
        ready(rules, board),
        rules.len() <= usize::MAX,
    ensures
        load_laws(rules, board, symbols),
{
    lemma_board_refl(board);
    if symbols.len() == NN {
        lemma_place_givens_tracks(rules, board, symbols, NN as nat);
        let (stopped, placed) = place_givens(rules, board, symbols, NN as nat);
        if stopped is None {
            lemma_propagate_laws(rules, placed);
            let (r, after) = drain(rules, placed, false);
            lemma_refines_trans(after, placed, board);
            lemma_extends_trans(after, placed, board);
            if r is Ok {
                assert forall|k: int|
                    0 <= k < NN && given_digit(#[trigger] symbols[k]) is Some implies
                    after.domains[k] == 1u16 << given_digit(symbols[k]).unwrap() by {
                    let bit = 1u16 << given_digit(symbols[k]).unwrap();
                    assert(placed.domains[k] == bit);
                    assert(within(after.domains[k], placed.domains[k]));
                    lemma_single_bit(given_digit(symbols[k]).unwrap());
                    lemma_within_single(after.domains[k], bit);
                    assert(placed.domains[k] != 0);
                    assert(keeps_nonempty(after, placed));
                    assert(after.domains[k] != 0);
                }
            }
            assert forall|sol: Seq<u8>|
                #[trigger] fits(sol, board.domains) && agrees(sol, symbols) && satisfies(
                    rules,
                    sol,
                ) implies fits(sol, after.domains) && r != Err::<Solve, RuleError>(
                RuleError::Contradiction,
            ) by {
                assert(fits(sol, placed.domains));
                lemma_drain_keeps(rules, placed, false, sol);
            }
        }
    }
}

/// Queueing a cell's watchers keeps the board ready for propagation.
pub proof fn lemma_queue_watchers_ready(rules: Seq<Rule>, board: Board, i: CellIx)
    requires
        ready(rules, board),
        i < NN,
    ensures
        ready(rules, queue_watchers(rules, board, i)),
{
    let queued = queue_watchers(rules, board, i);
    assert(queued.domains == board.domains && queued.trail == board.trail);
    lemma_watch_index_len(rules);
    lemma_watch_index_sound(rules);
    let added = crate::engine::watch_index(rules)[i as int];
    assert forall|q: int| 0 <= q < queued.queue.len() implies #[trigger] queued.queue[q]
        < rules.len() by {
        if q >= board.queue.len() {
            assert(queued.queue[q] == added[q - board.queue.len()]);
        } else {
            assert(queued.queue[q] == board.queue[q]);
        }
    }
}

/// The characters of `s` that are not white space, in order.
pub fn strip_whitespace(s: &str) -> (symbols: Vec<char>)
    ensures
        symbols@ == visible(s@, s@.len()),
{
    let mut symbols: Vec<char> = Vec::new();
    for ch in it: s.chars()
        invariant
            it.seq() == s@,
            symbols@ == visible(s@, it.index() as nat),
    {
        if !ch.is_whitespace() {
            symbols.push(ch);
        }
    }
    symbols
}

impl Engine {
    /// Loads a puzzle from its text: 81 symbols, row by row, white space apart.
    /// `.` and `0` leave a cell open, `1` to `9` give its digit.
    pub fn load_givens(&mut self, s: &str) -> (r: Result<(), LoadError>)
        requires
            old(self).wf(),
        ensures
            r == load_outcome(old(self).rules(), old(self).state@, visible(s@, s@.len())).0,
            final(self).state@ == load_outcome(
                old(self).rules(),
                old(self).state@,
                visible(s@, s@.len()),
            ).1,
            final(self).constraints == old(self).constraints,
            final(self).watchers == old(self).watchers,
            final(self).wf(),
            load_laws(old(self).rules(), old(self).state@, visible(s@, s@.len())),
    {
        let symbols = strip_whitespace(s);
        self.load_symbols(&symbols)
    }

    /// Loads a puzzle from its 81 symbols, row by row.
    pub fn load_symbols(&mut self, symbols: &Vec<char>) -> (r: Result<(), LoadError>)
        requires
            old(self).wf(),
        ensures
            r == load_outcome(old(self).rules(), old(self).state@, symbols@).0,
            final(self).state@ == load_outcome(old(self).rules(), old(self).state@, symbols@).1,
            final(self).constraints == old(self).constraints,
            final(self).watchers == old(self).watchers,
            final(self).wf(),
            load_laws(old(self).rules(), old(self).state@, symbols@),
    {
        proof {
            assert(self.rules().len() == self.constraints.len());
            lemma_load_laws(self.rules(), self.state@, symbols@);
        }
        if symbols.len() != NN {
            return Err(LoadError::Length { found: symbols.len() });
        }
        let ghost rules = self.rules();
        let ghost entry = self.state@;
        let mut k: usize = 0;
        while k < NN
            invariant
                k <= NN,
                symbols@.len() == NN,
                self.wf(),
                rules == self.rules(),
                rules == old(self).rules(),
                entry == old(self).state@,
                load_laws(rules, entry, symbols@),
                self.constraints == old(self).constraints,
                self.watchers == old(self).watchers,
                place_givens(rules, entry, symbols@, k as nat) == (None::<LoadError>, self.state@),
            decreases NN - k,
        {
            let ch: char = symbols[k];
            if ch == '.' || ch == '0' {
                k += 1;
                continue ;
            }
            if !('1' <= ch && ch <= '9') {
                proof {
                    lemma_place_givens_stopped(rules, entry, symbols@, (k + 1) as nat, NN as nat);
                }
                return Err(LoadError::InvalidChar { position: k, found: ch });
            }
            let d: u8 = (ch as u32 - '0' as u32) as u8;
            let mask: u16 = bit_of_digit(d);
            let i: CellIx = k as CellIx;
            proof {
                lemma_single_bit(d);
            }
            match self.state.assign(i, mask) {
                Ok(_) => {},
                Err(_) => {
                    proof {
                        lemma_place_givens_stopped(
                            rules,
                            entry,
                            symbols@,
                            (k + 1) as nat,
                            NN as nat,
                        );
                    }
                    return Err(LoadError::Contradiction);
                },
            }
            self.enqueue_cell_constraints(i);
            k += 1;
        }
        match self.propagate() {
            Ok(_) => Ok(()),
            Err(RuleError::Contradiction) => Err(LoadError::Contradiction),
            Err(RuleError::Unsupported) => Err(LoadError::Unsupported),
        }
    }
}

/// Once the placing has stopped, the symbols after the stop are not looked at.
pub proof fn lemma_place_givens_stopped(
    rules: Seq<Rule>,
    board: Board,
    symbols: Seq<char>,
    n: nat,
    m: nat,
)
    requires
        n <= m,
        place_givens(rules, board, symbols, n).0 is Some,
    ensures
        place_givens(rules, board, symbols, m) == place_givens(rules, board, symbols, n),
    decreases m,
{
    if n < m {
        lemma_place_givens_stopped(rules, board, symbols, n, (m - 1) as nat);
    }
}

/// Solving a puzzle. Load the givens onto a fresh board and search. If the search
/// reports a solution, the finished board spells an assignment of digits `1..=9`
/// that has every given and satisfies every constraint; if it reports that there is
/// none, no such assignment exists.
pub proof fn lemma_loaded_search_solves(rules: Seq<Rule>, symbols: Seq<char>, sol: Seq<u8>)
    requires
        rules_on_grid(rules),
        rules.len() <= usize::MAX,
        load_outcome(rules, Board::fresh(), symbols).0 is Ok,
    ensures
        ({
            let loaded = load_outcome(rules, Board::fresh(), symbols).1;
            let (r, end) = search_outcome(rules, loaded);
            let found = solution_of(end.domains);
            &&& r == Ok::<bool, RuleError>(true) ==> {
                &&& fits(found, Board::fresh().domains)
                &&& agrees(found, symbols)
                &&& satisfies(rules, found)
            }
            &&& r == Ok::<bool, RuleError>(false) ==> !(fits(sol, Board::fresh().domains) && agrees(
                sol,
                symbols,
            ) && satisfies(rules, sol))
        }),
{
    let fresh = Board::fresh();
    assert(fresh.wf()) by {
        lemma_within_refl(DIGITS_MASK);
    }
    lemma_fresh_at_rest(rules, fresh);
    lemma_load_laws(rules, fresh, symbols);
    let loaded = load_outcome(rules, fresh, symbols).1;
    lemma_search_laws(rules, loaded);
    let (r, end) = search_outcome(rules, loaded);
    let found = solution_of(end.domains);
    if r == Ok::<bool, RuleError>(true) {
        assert(fits(found, loaded.domains));
        assert forall|c: int| 0 <= c < NN implies admits(#[trigger] fresh.domains[c], found[c]) by {
            assert(admits(loaded.domains[c], found[c]));
            lemma_admits_ops(loaded.domains[c], fresh.domains[c], found[c]);
        }
        assert forall|k: int|
            0 <= k < symbols.len() && k < NN && given_digit(#[trigger] symbols[k]) is Some implies
            found[k] == given_digit(symbols[k]).unwrap() by {
            let d = given_digit(symbols[k]).unwrap();
            assert(loaded.domains[k] == 1u16 << d);
            assert(admits(loaded.domains[k], found[k]));
            lemma_single_bit(d);
        }
    }
    if r == Ok::<bool, RuleError>(false) && fits(sol, fresh.domains) && agrees(sol, symbols)
        && satisfies(rules, sol) {
        assert(fits(sol, loaded.domains));
    }
}

} // verus!
