//! Depth-first search over the candidates of the most constrained cell.

use vstd::prelude::*;
use crate::domain::{
    bit_count, is_single, lemma_lowest_digit, lemma_single_bit, lemma_within_refl, within,
};
use crate::constraints::Rule;
use crate::engine::{
    all_indices, drain, lemma_drain_tracks, lemma_watch_index_len, lemma_watch_index_sound,
    queue_in_range, ready, watch_index, Engine,
};
use crate::fixpoint::{lemma_search_laws, search_laws};
use crate::state::{
    lemma_extends_queue, lemma_extends_trans, lemma_narrow_wf, lemma_refines_trans,
    lemma_restore_queue, lemma_restore_restore, Board,
};
use crate::types::{bit_of_digit, CellIx, Domain, RuleError, NN};

verus! {

/// Every cell has exactly one candidate.
pub open spec fn all_single(domains: Seq<Domain>) -> bool {
    forall|c: int| 0 <= c < domains.len() ==> is_single(#[trigger] domains[c])
}

/// Some cell has no candidate.
pub open spec fn some_empty(domains: Seq<Domain>) -> bool {
    exists|c: int| 0 <= c < domains.len() && #[trigger] domains[c] == 0
}

/// Among the first `n` cells, cell `i` is the first of those with the fewest
/// candidates, counting only cells with more than one.
pub open spec fn is_mrv_among(domains: Seq<Domain>, n: int, i: int) -> bool {
    &&& 0 <= i < n
    &&& bit_count(domains[i]) > 1
    &&& forall|c: int|
        0 <= c < n && bit_count(#[trigger] domains[c]) > 1 ==> bit_count(domains[i]) <= bit_count(
            domains[c],
        )
    &&& forall|c: int|
        0 <= c < i && bit_count(#[trigger] domains[c]) > 1 ==> bit_count(domains[i]) < bit_count(
            domains[c],
        )
}

/// The cell to branch on: the first cell with the fewest candidates among the cells
/// with more than one, if there is such a cell.
pub open spec fn mrv_cell(domains: Seq<Domain>) -> Option<CellIx> {
    if exists|i: int| is_mrv_among(domains, domains.len() as int, i) {
        Some((choose|i: int| is_mrv_among(domains, domains.len() as int, i)) as CellIx)
    } else {
        None
    }
}

/// At most one cell is the one to branch on.
pub proof fn lemma_mrv_unique(domains: Seq<Domain>, i: int, j: int)
    requires
        is_mrv_among(domains, domains.len() as int, i),
        is_mrv_among(domains, domains.len() as int, j),
    ensures
        i == j,
{
    if i < j {
        assert(bit_count(domains[j]) < bit_count(domains[i]));
    } else if j < i {
        assert(bit_count(domains[i]) < bit_count(domains[j]));
    }
}

/// `board` with every constraint queued, in the order of registration.
pub open spec fn queue_all(rules: Seq<Rule>, board: Board) -> Board {
    Board { queue: board.queue + all_indices(rules.len()), ..board }
}

/// `board` with the watchers of cell `i` queued.
pub open spec fn queue_watchers(rules: Seq<Rule>, board: Board, i: CellIx) -> Board {
    Board { queue: board.queue + watch_index(rules)[i as int], ..board }
}

/// The lowest digit of `m`.
pub open spec fn lowest(m: Domain) -> u8 {
    m.trailing_zeros() as u8
}

/// What branching needs: a board ready for propagation, a cell on the grid with
/// more than one candidate, and a set `m` of its candidates still to try.
pub open spec fn can_branch(
    rules: Seq<Rule>,
    base: Board,
    queue: Seq<usize>,
    i: CellIx,
    m: Domain,
) -> bool {
    &&& ready(rules, Board { queue, ..base })
    &&& i < NN
    &&& bit_count(base.domains[i as int]) > 1
    &&& within(m, base.domains[i as int])
}

/// The search from `board`: whether a solution was found, and the board left
/// behind. A board with nothing on its trail and nothing queued is a fresh one, and
/// has every constraint queued first.
pub open spec fn search_outcome(rules: Seq<Rule>, board: Board) -> (Result<bool, RuleError>, Board)
    decreases board.weight(), 2nat, 0nat,
    when ready(rules, board)
    via search_outcome_decreases
{
    if board.trail.len() == 0 && board.queue.len() == 0 {
        search_queued(rules, queue_all(rules, board))
    } else {
        search_queued(rules, board)
    }
}

/// The search once the queue is set: propagate, then stop on a contradiction, on
/// an unsupported constraint, on a finished board or on an empty cell, and branch
/// on the most constrained cell otherwise.
pub open spec fn search_queued(rules: Seq<Rule>, board: Board) -> (Result<bool, RuleError>, Board)
    decreases board.weight(), 1nat, 0nat,
    when ready(rules, board)
    via search_queued_decreases
{
    let (r, after) = drain(rules, board, false);
    match r {
        Err(RuleError::Unsupported) => (Err(RuleError::Unsupported), after),
        Err(RuleError::Contradiction) => (Ok(false), after),
        Ok(_) => if all_single(after.domains) {
            (Ok(true), after)
        } else if some_empty(after.domains) {
            (Ok(false), after)
        } else {
            match mrv_cell(after.domains) {
                None => (Ok(true), after),
                Some(i) => branch_outcome(rules, after, after.queue, i, after.domains[i as int]),
            }
        },
    }
}

/// The branches on cell `i` for the candidates in `m`, lowest digit first. Each
/// starts from the masks and the trail of `base`, with the queue as the branch before
/// it left it: the digit is assigned, the cell's watchers are queued, and the search
/// goes on from there. The first branch that finds a solution or meets an
/// unsupported constraint ends the search; when none is left the search has failed
/// and the board is `base` again.
pub open spec fn branch_outcome(
    rules: Seq<Rule>,
    base: Board,
    queue: Seq<usize>,
    i: CellIx,
    m: Domain,
) -> (Result<bool, RuleError>, Board)
    decreases base.weight(), 0nat, m as nat,
    when can_branch(rules, base, queue, i, m)
    via branch_outcome_decreases
{
    let here = Board { queue, ..base };
    if m == 0 {
        (Ok(false), here)
    } else {
        let bit = 1u16 << lowest(m);
        let (r, after) = search_outcome(rules, queue_watchers(rules, here.narrow(i, bit), i));
        match r {
            Ok(found) => if found {
                (Ok(true), after)
            } else {
                branch_outcome(rules, base, after.queue, i, m & !bit)
            },
            Err(e) => (Err(e), after),
        }
    }
}

#[via_fn]
proof fn search_outcome_decreases(rules: Seq<Rule>, board: Board) {
    assert(queue_all(rules, board).domains == board.domains);
}

#[via_fn]
proof fn search_queued_decreases(rules: Seq<Rule>, board: Board) {
    lemma_drain_tracks(rules, board, false);
}

#[via_fn]
proof fn branch_outcome_decreases(
    rules: Seq<Rule>,
    base: Board,
    queue: Seq<usize>,
    i: CellIx,
    m: Domain,
) {
    if m != 0 {
        lemma_branch_step(rules, base, queue, i, m);
    }
}

/// One branch: assigning the lowest digit of `m` to cell `i` changes the cell, so
/// the board to search from has fewer candidates than `base`, extends it, and is
/// ready; and the digits left to try are fewer.
pub proof fn lemma_branch_step(
    rules: Seq<Rule>,
    base: Board,
    queue: Seq<usize>,
    i: CellIx,
    m: Domain,
)
    requires
        can_branch(rules, base, queue, i, m),
        m != 0,
    ensures
        ({
            let here = Board { queue, ..base };
            let bit = 1u16 << lowest(m);
            let tried = queue_watchers(rules, here.narrow(i, bit), i);
            &&& 1 <= lowest(m) <= 9
            &&& is_single(bit)
            &&& here.narrow_changes(i, bit)
            &&& !here.narrow_fails(i, bit)
            &&& here.narrow(i, bit).domains[i as int] == bit
            &&& ready(rules, tried)
            &&& tried.weight() < base.weight()
            &&& tried.extends(base)
            &&& tried.refines(base)
            &&& tried.trail.len() == base.trail.len() + 1
            &&& m & !bit < m
            &&& within(m & !bit, base.domains[i as int])
        }),
{
    let here = Board { queue, ..base };
    let whole = base.domains[i as int];
    let d = lowest(m);
    let bit = 1u16 << d;
    lemma_lowest_digit(m, whole);
    lemma_single_bit(d);
    assert(d < 16 && whole & (1u16 << d) != 0 ==> whole & (1u16 << d) == (1u16 << d))
        by (bit_vector);
    assert(whole != bit);
    lemma_narrow_wf(here, i, bit);
    let narrowed = here.narrow(i, bit);
    let tried = queue_watchers(rules, narrowed, i);
    assert(tried.domains == narrowed.domains && tried.trail == narrowed.trail);
    assert(here.domains == base.domains && here.trail == base.trail);
    assert(here.weight() == base.weight());
    lemma_watch_index_len(rules);
    lemma_watch_index_sound(rules);
    assert(queue_in_range(tried.queue, rules.len())) by {
        let added = watch_index(rules)[i as int];
        assert forall|q: int| 0 <= q < tried.queue.len() implies #[trigger] tried.queue[q]
            < rules.len() by {
            if q >= queue.len() {
                assert(tried.queue[q] == added[q - queue.len()]);
            } else {
                assert(tried.queue[q] == here.queue[q]);
            }
        }
    }
    lemma_extends_queue(narrowed, tried.queue, here);
    lemma_restore_queue(base, queue, base.trail.len());
    assert(tried.extends(base));
    assert(tried.refines(base));
}

/// Queueing every constraint leaves a ready board ready.
pub proof fn lemma_queue_all_ready(rules: Seq<Rule>, board: Board)
    requires
        ready(rules, board),
    ensures
        ready(rules, queue_all(rules, board)),
        queue_all(rules, board).extends(board),
        queue_all(rules, board).refines(board),
{
    let queued = queue_all(rules, board);
    assert(queued.domains == board.domains && queued.trail == board.trail);
    assert forall|q: int| 0 <= q < queued.queue.len() implies #[trigger] queued.queue[q]
        < rules.len() by {
        if q >= board.queue.len() {
            assert(queued.queue[q] == all_indices(rules.len())[q - board.queue.len()]);
        } else {
            assert(queued.queue[q] == board.queue[q]);
        }
    }
    crate::engine::lemma_board_refl(board);
    lemma_extends_queue(board, queued.queue, board);
}

/// The search only narrows: the board it leaves is ready for propagation, refines
/// the board it began on, and leads back to it when the trail is undone.
pub proof fn lemma_search_tracks(rules: Seq<Rule>, board: Board)
    requires
        ready(rules, board),
    ensures
        ready(rules, search_outcome(rules, board).1),
        search_outcome(rules, board).1.refines(board),
        search_outcome(rules, board).1.extends(board),
    decreases board.weight(), 2nat, 0nat,
{
    if board.trail.len() == 0 && board.queue.len() == 0 {
        let queued = queue_all(rules, board);
        lemma_queue_all_ready(rules, board);
        assert(queued.domains == board.domains);
        lemma_search_queued_tracks(rules, queued);
        let after = search_queued(rules, queued).1;
        lemma_refines_trans(after, queued, board);
        lemma_extends_trans(after, queued, board);
    } else {
        lemma_search_queued_tracks(rules, board);
    }
}

/// [`lemma_search_tracks`], once the queue is set.
pub proof fn lemma_search_queued_tracks(rules: Seq<Rule>, board: Board)
    requires
        ready(rules, board),
    ensures
        ready(rules, search_queued(rules, board).1),
        search_queued(rules, board).1.refines(board),
        search_queued(rules, board).1.extends(board),
    decreases board.weight(), 1nat, 0nat,
{
    lemma_drain_tracks(rules, board, false);
    let (r, after) = drain(rules, board, false);
    if r is Ok && !all_single(after.domains) && !some_empty(after.domains) {
        match mrv_cell(after.domains) {
            None => {},
            Some(i) => {
                lemma_mrv_cell(after.domains);
                let m = after.domains[i as int];
                lemma_within_refl(m);
                lemma_branch_tracks(rules, after, after.queue, i, m);
                let end = branch_outcome(rules, after, after.queue, i, m).1;
                lemma_refines_trans(end, after, board);
                lemma_extends_trans(end, after, board);
            },
        }
    }
}

/// [`lemma_search_tracks`], for the branches on one cell.
pub proof fn lemma_branch_tracks(
    rules: Seq<Rule>,
    base: Board,
    queue: Seq<usize>,
    i: CellIx,
    m: Domain,
)
    requires
        can_branch(rules, base, queue, i, m),
    ensures
        ready(rules, branch_outcome(rules, base, queue, i, m).1),
        branch_outcome(rules, base, queue, i, m).1.refines(base),
        branch_outcome(rules, base, queue, i, m).1.extends(base),
    decreases base.weight(), 0nat, m as nat,
{
    let here = Board { queue, ..base };
    assert(here.domains == base.domains && here.trail == base.trail);
    crate::engine::lemma_board_refl(here);
    lemma_restore_queue(base, queue, base.trail.len());
    if m != 0 {
        lemma_branch_step(rules, base, queue, i, m);
        let bit = 1u16 << lowest(m);
        let tried = queue_watchers(rules, here.narrow(i, bit), i);
        lemma_search_tracks(rules, tried);
        let (r, after) = search_outcome(rules, tried);
        lemma_refines_trans(after, tried, base);
        lemma_extends_trans(after, tried, base);
        if r == Ok::<bool, RuleError>(false) {
            lemma_branch_tracks(rules, base, after.queue, i, m & !bit);
        }
    }
}

/// The cell that [`mrv_cell`] names is the first with the fewest candidates.
pub proof fn lemma_mrv_cell(domains: Seq<Domain>)
    requires
        domains.len() == NN,
    ensures
        mrv_cell(domains) matches Some(i) ==> is_mrv_among(domains, NN as int, i as int),
        mrv_cell(domains) is None ==> forall|c: int|
            0 <= c < NN ==> !is_mrv_among(domains, NN as int, c),
{
}

impl Engine {
    /// Whether every cell is down to one candidate.
    pub fn solved(&self) -> (r: bool)
        ensures
            r == all_single(self.state@.domains),
    {
        let mut c: usize = 0;
        while c < NN
            invariant
                c <= NN,
                forall|k: int| 0 <= k < c ==> is_single(#[trigger] self.state@.domains[k]),
            decreases NN - c,
        {
            if self.state.domains[c].count_ones() != 1 {
                return false;
            }
            c += 1;
        }
        true
    }

    /// Whether some cell is left without a candidate.
    pub fn dead(&self) -> (r: bool)
        ensures
            r == some_empty(self.state@.domains),
    {
        let mut c: usize = 0;
        while c < NN
            invariant
                c <= NN,
                forall|k: int| 0 <= k < c ==> #[trigger] self.state@.domains[k] != 0,
            decreases NN - c,
        {
            if self.state.domains[c] == 0 {
                return true;
            }
            c += 1;
        }
        false
    }

    /// The cell to branch on, or nothing when no cell has more than one candidate.
    pub fn choose_mrv(&self) -> (r: Option<CellIx>)
        ensures
            r == mrv_cell(self.state@.domains),
            match r {
                Some(i) => is_mrv_among(self.state@.domains, NN as int, i as int),
                None => forall|c: int| 0 <= c < NN ==>
                    bit_count(#[trigger] self.state@.domains[c]) <= 1,
            },
    {
        let ghost domains = self.state@.domains;
        let mut best: Option<(CellIx, u32)> = None;
        let mut i: usize = 0;
        while i < NN
            invariant
                i <= NN,
                domains == self.state@.domains,
                match best {
                    Some((cell, cnt)) => is_mrv_among(domains, i as int, cell as int) && cnt
                        == bit_count(domains[cell as int]),
                    None => forall|c: int| 0 <= c < i ==> bit_count(#[trigger] domains[c]) <= 1,
                },
            decreases NN - i,
        {
            let m: u16 = self.state.domains[i];
            let cnt: u32 = m.count_ones();
            if cnt > 1 {
                match best {
                    None => {
                        best = Some((i as CellIx, cnt));
                    },
                    Some((_, best_cnt)) => {
                        if cnt < best_cnt {
                            best = Some((i as CellIx, cnt));
                        }
                    },
                }
            }
            i += 1;
        }
        match best {
            Some((cell, _)) => {
                proof {
                    let chosen = choose|i: int| is_mrv_among(domains, domains.len() as int, i);
                    lemma_mrv_unique(domains, chosen, cell as int);
                }
                Some(cell)
            },
            None => {
                assert forall|i: int| !is_mrv_among(domains, domains.len() as int, i) by {
                    if 0 <= i < NN {
                        assert(bit_count(domains[i]) <= 1);
                    }
                }
                None
            },
        }
    }

    /// Searches for a solution: propagates, and while cells stay open, branches on
    /// the most constrained one, undoing each failed branch. `Ok(true)` leaves the
    /// solution on the board, `Ok(false)` means that there is none, and an error
    /// that a constraint without a rule was met.
    pub fn search(&mut self) -> (r: Result<bool, RuleError>)
        requires
            old(self).wf(),
        ensures
            r == search_outcome(old(self).rules(), old(self).state@).0,
            final(self).state@ == search_outcome(old(self).rules(), old(self).state@).1,
            final(self).constraints == old(self).constraints,
            final(self).watchers == old(self).watchers,
            final(self).wf(),
            search_laws(old(self).rules(), old(self).state@),
        decreases old(self).state@.weight(),
    {
        let ghost rules = self.rules();
        let ghost entry = self.state@;
        proof {
            assert(rules.len() == self.constraints.len());
            lemma_search_laws(rules, entry);
        }
        if self.state.trail.len() == 0 && self.state.queue.len() == 0 {
            self.enqueue_all();
        }
        let ghost queued = self.state@;
        proof {
            assert(rules.len() == self.constraints@.len());
            assert(queued.domains == entry.domains);
            assert(search_outcome(rules, entry) == search_queued(rules, queued));
            lemma_drain_tracks(rules, queued, false);
        }
        match self.propagate() {
            Ok(_) => {},
            Err(RuleError::Contradiction) => {
                return Ok(false);
            },
            Err(RuleError::Unsupported) => {
                return Err(RuleError::Unsupported);
            },
        }
        if self.solved() {
            return Ok(true);
        }
        if self.dead() {
            return Ok(false);
        }
        let i: u8 = match self.choose_mrv() {
            None => {
                return Ok(true);
            },
            Some(i) => i,
        };
        let dom: u16 = self.state.domains[i as usize];
        let trail_len = self.state.trail.len();
        let ghost base = self.state@;
        let ghost goal = branch_outcome(rules, base, base.queue, i, dom);
        let mut m: u16 = dom;
        proof {
            lemma_within_refl(dom);
            assert(goal == search_outcome(rules, entry));
        }
        while m != 0
            invariant
                self.wf(),
                self.constraints == old(self).constraints,
                self.watchers == old(self).watchers,
                rules == self.rules(),
                i < NN,
                trail_len == base.trail.len(),
                base.weight() <= old(self).state@.weight(),
                self.state@ == (Board { queue: self.state@.queue, ..base }),
                can_branch(rules, base, self.state@.queue, i, m),
                branch_outcome(rules, base, self.state@.queue, i, m) == goal,
                goal == search_outcome(rules, old(self).state@),
                search_laws(rules, old(self).state@),
            decreases m,
        {
            let ghost here = self.state@;
            proof {
                lemma_branch_step(rules, base, here.queue, i, m);
                vstd::std_specs::bits::axiom_u16_trailing_zeros(m);
            }
            let d: u8 = m.trailing_zeros() as u8;
            let bit: u16 = bit_of_digit(d);
            m = m & !bit;
            if self.state.assign(i, bit).is_ok() {
                self.enqueue_cell_constraints(i);
                let ghost tried = self.state@;
                assert(tried == queue_watchers(rules, here.narrow(i, bit), i));
                proof {
                    lemma_search_tracks(rules, tried);
                }
                let res = self.search();
                match res {
                    Ok(found) => {
                        if found {
                            return Ok(true);
                        }
                    },
                    Err(e) => {
                        return Err(e);
                    },
                }
                proof {
                    let after = self.state@;
                    lemma_extends_trans(after, tried, base);
                    lemma_restore_restore(after, base.trail.len(), base.trail.len());
                }
            }
            self.state.backtrack_to(trail_len);
        }
        Ok(false)
    }
}

} // verus!
