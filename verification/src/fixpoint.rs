//! Rules at rest: what it means that a constraint has nothing left to do, the proof
//! that propagation ends with every constraint in that state, and the proof that a
//! search which reports a solution leaves every constraint satisfied.

use vstd::prelude::*;
use crate::constraints::{
    black_reach, cells_on_grid, count_admitting, has_duplicate, has_empty, hidden_singles,
    last_admitting, lemma_last_admitting, naked_singles, taken_mask, white_reach, Rule, Step,
};
use crate::domain::{
    admits, bit_count, in_range, is_single, lemma_admits_ops, lemma_count_cases,
    lemma_lowest_digit, lemma_single_admits, lemma_single_bit, lemma_within_refl,
    lemma_within_single, within,
};
use crate::engine::{
    drain, enqueue_scope, keeps_nonempty, lemma_drain_tracks, lemma_rule_from_queue,
    lemma_watch_index_len, pop_queue, ready, requeue, rules_on_grid, watch_index, watch_scope,
};
use crate::search::{
    all_single, branch_outcome, can_branch, lemma_branch_step, lemma_queue_all_ready,
    lemma_search_tracks, lowest, mrv_cell, queue_all, queue_watchers, search_outcome,
    search_queued, some_empty,
};
use crate::solutions::{
    fits, keeps_solutions, lemma_open_board_branches, lemma_search_complete,
    lemma_search_solved, no_solution, satisfies,
};
use crate::state::Board;
use crate::types::{CellIx, Domain, RuleError, Solve, DIGITS_MASK, NN};

verus! {

/// Two boards have the same candidates in every cell of `scope`.
pub open spec fn agree_on(one: Board, other: Board, scope: Seq<CellIx>) -> bool {
    &&& one.domains.len() == NN
    &&& other.domains.len() == NN
    &&& forall|p: int|
        0 <= p < scope.len() ==> one.domains[#[trigger] scope[p] as int] ==
            other.domains[scope[p] as int]
}

impl Step {
    /// Two runs of a rule have got equally far: both have failed or neither, both
    /// have changed something or neither, and their boards agree on `scope`.
    pub open spec fn alike(self, other: Step, scope: Seq<CellIx>) -> bool {
        &&& self.failed == other.failed
        &&& self.changed == other.changed
        &&& agree_on(self.board, other.board, scope)
    }
}

/// The same narrowing of a cell of the scope keeps two runs alike.
pub proof fn lemma_then_narrow_alike(
    one: Step,
    other: Step,
    scope: Seq<CellIx>,
    i: CellIx,
    mask: Domain,
)
    requires
        one.alike(other, scope),
        cells_on_grid(scope),
        i < NN,
        scope.contains(i),
    ensures
        one.then_narrow(i, mask).alike(other.then_narrow(i, mask), scope),
{
    let x = choose|x: int| 0 <= x < scope.len() && scope[x] == i;
    assert(one.board.domains[scope[x] as int] == other.board.domains[scope[x] as int]);
    let a = one.then_narrow(i, mask);
    let b = other.then_narrow(i, mask);
    assert forall|p: int| 0 <= p < scope.len() implies a.board.domains[#[trigger] scope[p] as int]
        == b.board.domains[scope[p] as int] by {
        assert(one.board.domains[scope[p] as int] == other.board.domains[scope[p] as int]);
    }
}

/// The counts, the last positions and the taken mask read only the cells of the scope.
pub proof fn lemma_counts_local(one: Seq<Domain>, other: Seq<Domain>, cells: Seq<CellIx>, d: u8,
    n: nat)
    requires
        n <= cells.len(),
        forall|p: int| 0 <= p < cells.len() ==> one[#[trigger] cells[p] as int] ==
            other[cells[p] as int],
    ensures
        count_admitting(one, cells, d, n) == count_admitting(other, cells, d, n),
        last_admitting(one, cells, d, n) == last_admitting(other, cells, d, n),
        taken_mask(one, cells, n) == taken_mask(other, cells, n),
    decreases n,
{
    if n > 0 {
        lemma_counts_local(one, other, cells, d, (n - 1) as nat);
        assert(one[cells[n - 1] as int] == other[cells[n - 1] as int]);
    }
}

/// Hidden singles go the same way on boards that agree on the scope.
pub proof fn lemma_hidden_local(one: Board, other: Board, cells: Seq<CellIx>, n: nat)
    requires
        agree_on(one, other, cells),
        cells_on_grid(cells),
    ensures
        hidden_singles(one, cells, n).alike(hidden_singles(other, cells, n), cells),
    decreases n,
{
    if n > 0 {
        lemma_hidden_local(one, other, cells, (n - 1) as nat);
        lemma_counts_local(one.domains, other.domains, cells, n as u8, cells.len());
        if count_admitting(one.domains, cells, n as u8, cells.len()) == 1 {
            lemma_last_admitting(one.domains, cells, n as u8, cells.len());
            let i = last_admitting(one.domains, cells, n as u8, cells.len()).unwrap();
            let x = choose|x: int| 0 <= x < cells.len() && #[trigger] cells[x] == i;
            assert(cells.contains(i));
            lemma_then_narrow_alike(
                hidden_singles(one, cells, (n - 1) as nat),
                hidden_singles(other, cells, (n - 1) as nat),
                cells,
                i,
                1u16 << (n as u8),
            );
        }
    }
}

/// Naked singles go the same way from runs that are alike.
pub proof fn lemma_naked_local(
    one: Step,
    other: Step,
    cells: Seq<CellIx>,
    taken: Domain,
    n: nat,
)
    requires
        one.alike(other, cells),
        cells_on_grid(cells),
        n <= cells.len(),
    ensures
        naked_singles(one, cells, taken, n).alike(naked_singles(other, cells, taken, n), cells),
    decreases n,
{
    if n > 0 {
        lemma_naked_local(one, other, cells, taken, (n - 1) as nat);
        let a = naked_singles(one, cells, taken, (n - 1) as nat);
        let b = naked_singles(other, cells, taken, (n - 1) as nat);
        assert(cells.contains(cells[n - 1]));
        assert(a.board.domains[cells[n - 1] as int] == b.board.domains[cells[n - 1] as int]);
        lemma_then_narrow_alike(a, b, cells, cells[n - 1], !taken);
    }
}

/// A rule reads only the cells of its scope: on two boards that agree there it
/// reports the same and leaves boards that agree there.
pub proof fn lemma_rule_local(rule: Rule, one: Board, other: Board)
    requires
        rule.on_grid(),
        agree_on(one, other, rule.scope()),
    ensures
        rule.step(one).alike(rule.step(other), rule.scope()),
        rule.result(one) == rule.result(other),
{
    let scope = rule.scope();
    match rule {
        Rule::AllDifferent { cells } => {
            lemma_counts_local(one.domains, other.domains, cells, 0, cells.len());
            assert(has_empty(one.domains, cells) == has_empty(other.domains, cells)) by {
                if has_empty(one.domains, cells) {
                    let p = choose|p: int| 0 <= p < cells.len()
                        && one.domains[#[trigger] cells[p] as int] == 0;
                    assert(other.domains[cells[p] as int] == 0);
                }
                if has_empty(other.domains, cells) {
                    let p = choose|p: int| 0 <= p < cells.len()
                        && other.domains[#[trigger] cells[p] as int] == 0;
                    assert(one.domains[cells[p] as int] == 0);
                }
            }
            assert(has_duplicate(one.domains, cells) == has_duplicate(other.domains, cells)) by {
                if has_duplicate(one.domains, cells) {
                    let (p, q) = choose|p: int, q: int|
                        0 <= p < q < cells.len()
                            && is_single(one.domains[#[trigger] cells[p] as int])
                            && one.domains[cells[p] as int] ==
                                one.domains[#[trigger] cells[q] as int];
                    assert(is_single(other.domains[cells[p] as int])
                        && other.domains[cells[p] as int]
                        == other.domains[cells[q] as int]);
                }
                if has_duplicate(other.domains, cells) {
                    let (p, q) = choose|p: int, q: int|
                        0 <= p < q < cells.len()
                            && is_single(other.domains[#[trigger] cells[p] as int])
                            && other.domains[cells[p] as int] ==
                                other.domains[#[trigger] cells[q] as int];
                    assert(is_single(one.domains[cells[p] as int]) && one.domains[cells[p] as int]
                        == one.domains[cells[q] as int]);
                }
            }
            lemma_hidden_local(one, other, cells, 9);
            lemma_naked_local(
                hidden_singles(one, cells, 9),
                hidden_singles(other, cells, 9),
                cells,
                taken_mask(one.domains, cells, cells.len()),
                cells.len(),
            );
        },
        Rule::KropkiWhite { a, b } => {
            assert(scope[0] == a && scope[1] == b);
            let mask_a = white_reach(one.domains[b as int]);
            let mask_b = white_reach(one.domains[a as int]);
            lemma_then_narrow_alike(Step::start(one), Step::start(other), scope, a, mask_a);
            lemma_then_narrow_alike(
                Step::start(one).then_narrow(a, mask_a),
                Step::start(other).then_narrow(a, mask_a),
                scope,
                b,
                mask_b,
            );
        },
        Rule::KropkiBlack { a, b } => {
            assert(scope[0] == a && scope[1] == b);
            let mask_a = black_reach(one.domains[b as int]);
            let mask_b = black_reach(one.domains[a as int]);
            lemma_then_narrow_alike(Step::start(one), Step::start(other), scope, a, mask_a);
            lemma_then_narrow_alike(
                Step::start(one).then_narrow(a, mask_a),
                Step::start(other).then_narrow(a, mask_a),
                scope,
                b,
                mask_b,
            );
        },
        Rule::Thermo { cells } => {},
    }
}

/// Entering a constraint keeps what the index held, and enters the constraint for
/// each of the cells done.
pub proof fn lemma_watch_scope_holds(index: Seq<Seq<usize>>, scope: Seq<CellIx>, ci: usize, n: nat)
    requires
        index.len() == NN,
        n <= scope.len(),
        cells_on_grid(scope),
    ensures
        watch_scope(index, scope, ci, n).len() == NN,
        forall|c: int, v: usize|
            0 <= c < NN && index[c].contains(v) ==> #[trigger] watch_scope(index, scope, ci,
                n)[c].contains(
                v,
            ),
        forall|p: int|
            0 <= p < n ==> watch_scope(index, scope, ci,
                n)[#[trigger] scope[p] as int].contains(ci),
    decreases n,
{
    if n > 0 {
        lemma_watch_scope_holds(index, scope, ci, (n - 1) as nat);
        let before = watch_scope(index, scope, ci, (n - 1) as nat);
        let cell = scope[n - 1] as int;
        let after = watch_scope(index, scope, ci, n);
        assert(after == before.update(cell, before[cell].push(ci)));
        assert forall|c: int, v: usize| 0 <= c < NN && before[c].contains(v) implies
            after[c].contains(
            v,
        ) by {
            let x = choose|x: int| 0 <= x < before[c].len() && before[c][x] == v;
            if c == cell {
                assert(after[c][x] == v);
            }
        }
        assert(after[cell][before[cell].len() as int] == ci);
        assert forall|p: int| 0 <= p < n implies after[#[trigger] scope[p] as int].contains(ci) by {
            if p < n - 1 {
                assert(before[scope[p] as int].contains(ci));
            }
        }
    }
}

/// The watcher index is complete: each constraint is among the watchers of each
/// cell of its scope.
pub proof fn lemma_watch_index_complete(rules: Seq<Rule>, k: int, p: int)
    requires
        rules_on_grid(rules),
        rules.len() <= usize::MAX,
        0 <= k < rules.len(),
        0 <= p < rules[k].scope().len(),
    ensures
        watch_index(rules)[rules[k].scope()[p] as int].contains(k as usize),
    decreases rules.len(),
{
    let rest = rules.drop_last();
    lemma_watch_index_len(rest);
    lemma_watch_scope_holds(
        watch_index(rest),
        rules.last().scope(),
        (rules.len() - 1) as usize,
        rules.last().scope().len(),
    );
    if k < rules.len() - 1 {
        assert(rest[k] == rules[k]);
        lemma_watch_index_complete(rest, k, p);
    }
}

/// Queueing the watchers of a scope keeps what was queued and queues every watcher
/// of every cell done.
pub proof fn lemma_enqueue_scope_holds(
    rules: Seq<Rule>,
    queue: Seq<usize>,
    scope: Seq<CellIx>,
    n: nat,
)
    requires
        n <= scope.len(),
    ensures
        forall|v: usize| queue.contains(v) ==> #[trigger] enqueue_scope(rules, queue, scope,
            n).contains(v),
        forall|p: int, v: usize|
            0 <= p < n && watch_index(rules)[#[trigger] scope[p] as int].contains(v) ==>
                #[trigger] enqueue_scope(
                rules,
                queue,
                scope,
                n,
            ).contains(v),
    decreases n,
{
    if n > 0 {
        lemma_enqueue_scope_holds(rules, queue, scope, (n - 1) as nat);
        let before = enqueue_scope(rules, queue, scope, (n - 1) as nat);
        let added = watch_index(rules)[scope[n - 1] as int];
        let after = before + added;
        assert forall|v: usize| before.contains(v) implies after.contains(v) by {
            let x = choose|x: int| 0 <= x < before.len() && before[x] == v;
            assert(after[x] == v);
        }
        assert forall|v: usize| added.contains(v) implies after.contains(v) by {
            let x = choose|x: int| 0 <= x < added.len() && added[x] == v;
            assert(after[before.len() + x] == v);
        }
    }
}

/// The rule has nothing left to do on `board`: it runs without a change and
/// without an error.
pub open spec fn settled(rule: Rule, board: Board) -> bool {
    rule.result(board) == Ok::<bool, RuleError>(false)
}

/// No cell of the rule's scope has lost a candidate yet.
pub open spec fn untouched(rule: Rule, board: Board) -> bool {
    forall|p: int|
        0 <= p < rule.scope().len() ==> board.domains[#[trigger] rule.scope()[p] as int]
            == DIGITS_MASK
}

/// The rule need not run on `board`: it has nothing left to do, or nothing has
/// happened yet to any cell of its scope.
pub open spec fn calm(rule: Rule, board: Board) -> bool {
    settled(rule, board) || untouched(rule, board)
}

/// Every constraint that may have something to do on `board` is queued.
pub open spec fn scheduled(rules: Seq<Rule>, board: Board) -> bool {
    forall|k: int|
        0 <= k < rules.len() ==> board.queue.contains(k as usize) || calm(
            #[trigger] rules[k],
            board,
        )
}

/// No constraint has anything to do on `board`.
pub open spec fn at_rest(rules: Seq<Rule>, board: Board) -> bool {
    forall|k: int| 0 <= k < rules.len() ==> calm(#[trigger] rules[k], board)
}

/// Whether a rule need run depends on the candidates in its scope alone, not on
/// other cells, the trail or the queue.
pub proof fn lemma_calm_local(rule: Rule, one: Board, other: Board)
    requires
        rule.on_grid(),
        agree_on(one, other, rule.scope()),
    ensures
        settled(rule, one) == settled(rule, other),
        untouched(rule, one) == untouched(rule, other),
        calm(rule, one) == calm(rule, other),
{
    lemma_rule_local(rule, one, other);
    let scope = rule.scope();
    if untouched(rule, one) {
        assert forall|p: int| 0 <= p < scope.len() implies other.domains[#[trigger] scope[p] as int]
            == DIGITS_MASK by {
            assert(one.domains[scope[p] as int] == DIGITS_MASK);
        }
    }
    if untouched(rule, other) {
        assert forall|p: int| 0 <= p < scope.len() implies one.domains[#[trigger] scope[p] as int]
            == DIGITS_MASK by {
            assert(other.domains[scope[p] as int] == DIGITS_MASK);
        }
    }
}

/// On a board that has all its candidates, no constraint has anything to do yet.
pub proof fn lemma_fresh_at_rest(rules: Seq<Rule>, board: Board)
    requires
        board.domains == Board::fresh().domains,
        rules_on_grid(rules),
    ensures
        at_rest(rules, board),
        scheduled(rules, board),
{
    assert forall|k: int| 0 <= k < rules.len() implies untouched(#[trigger] rules[k], board) by {
        assert(rules[k].on_grid());
    }
}

/// Narrowing a cell and queueing its watchers keeps every constraint that may have
/// something to do queued.
pub proof fn lemma_assign_scheduled(rules: Seq<Rule>, board: Board, i: CellIx, mask: Domain)
    requires
        ready(rules, board),
        rules.len() <= usize::MAX,
        scheduled(rules, board),
        i < NN,
    ensures
        scheduled(rules, queue_watchers(rules, board.narrow(i, mask), i)),
{
    let narrowed = board.narrow(i, mask);
    let after = queue_watchers(rules, narrowed, i);
    let added = watch_index(rules)[i as int];
    assert forall|k: int| 0 <= k < rules.len() implies after.queue.contains(k as usize) || calm(
        #[trigger] rules[k],
        after,
    ) by {
        let other = rules[k];
        assert(other.on_grid());
        if board.queue.contains(k as usize) {
            let x = choose|x: int| 0 <= x < board.queue.len() && board.queue[x] == k as usize;
            assert(after.queue[x] == k as usize);
        } else if other.scope().contains(i) {
            let q = choose|q: int| 0 <= q < other.scope().len() && other.scope()[q] == i;
            lemma_watch_index_complete(rules, k, q);
            let x = choose|x: int| 0 <= x < added.len() && added[x] == k as usize;
            assert(after.queue[board.queue.len() + x] == k as usize);
        } else {
            assert(agree_on(board, after, other.scope())) by {
                assert forall|q: int| 0 <= q < other.scope().len() implies
                    board.domains[#[trigger] other.scope()[q] as int]
                    == after.domains[other.scope()[q] as int] by {
                    assert(other.scope().contains(other.scope()[q]));
                }
            }
            lemma_calm_local(other, board, after);
        }
    }
}

/// Fixpoint. When propagation ends without an error from a board on which every
/// constraint that may have something to do was queued, none has anything left to do.
pub proof fn lemma_drain_at_rest(rules: Seq<Rule>, board: Board, any: bool)
    requires
        ready(rules, board),
        rules.len() <= usize::MAX,
        scheduled(rules, board),
        drain(rules, board, any).0 is Ok,
    ensures
        at_rest(rules, drain(rules, board, any).1),
    decreases board.weight(), board.queue.len(),
{
    if board.queue.len() == 0 {
        assert forall|k: int| 0 <= k < rules.len() implies calm(#[trigger] rules[k], board) by {
            assert(!board.queue.contains(k as usize));
        }
    } else {
        lemma_rule_from_queue(rules, board);
        let ci = board.queue[0];
        let rule = rules[ci as int];
        let popped = pop_queue(board);
        let after = rule.apply(popped);
        let changed = rule.result(popped) == Ok::<bool, RuleError>(true);
        let next = if changed {
            requeue(rules, after, rule)
        } else {
            after
        };
        assert(scheduled(rules, next)) by {
            assert forall|k: int| 0 <= k < rules.len() implies next.queue.contains(k as usize)
                || calm(#[trigger] rules[k], next) by {
                lemma_scheduled_step(rules, board, k);
            }
        }
        lemma_drain_at_rest(rules, next, any || changed);
    }
}

/// One step of propagation keeps a constraint queued or calm.
pub proof fn lemma_scheduled_step(rules: Seq<Rule>, board: Board, k: int)
    requires
        ready(rules, board),
        rules.len() <= usize::MAX,
        scheduled(rules, board),
        board.queue.len() > 0,
        rules[board.queue[0] as int].result(pop_queue(board)) is Ok,
        0 <= k < rules.len(),
    ensures
        ({
            let rule = rules[board.queue[0] as int];
            let popped = pop_queue(board);
            let after = rule.apply(popped);
            let next = if rule.result(popped) == Ok::<bool, RuleError>(true) {
                requeue(rules, after, rule)
            } else {
                after
            };
            next.queue.contains(k as usize) || calm(rules[k], next)
        }),
{
    lemma_rule_from_queue(rules, board);
    let ci = board.queue[0];
    let rule = rules[ci as int];
    let popped = pop_queue(board);
    let after = rule.apply(popped);
    let changed = rule.result(popped) == Ok::<bool, RuleError>(true);
    let next = if changed {
        requeue(rules, after, rule)
    } else {
        after
    };
    let other = rules[k];
    assert(other.on_grid());
    // what was queued behind the head stays queued
    if board.queue.contains(k as usize) && k != ci {
        let x = choose|x: int| 0 <= x < board.queue.len() && board.queue[x] == k as usize;
        assert(popped.queue[x - 1] == k as usize);
        assert(popped.queue.contains(k as usize));
        assert(after.queue == popped.queue);
        if changed {
            lemma_enqueue_scope_holds(rules, after.queue, rule.scope(), rule.scope().len());
        }
    } else if !changed {
        // the board is as it was, and the rule that ran is at rest
        assert(after == popped);
        if k != ci {
            lemma_calm_local(other, board, after);
        }
    } else if exists|p: int, q: int|
        0 <= p < rule.scope().len() && 0 <= q < other.scope().len() && rule.scope()[p]
            == other.scope()[q] {
        // the constraint watches a cell of the scope that changed
        let (p, q) = choose|p: int, q: int|
            0 <= p < rule.scope().len() && 0 <= q < other.scope().len() && rule.scope()[p]
                == other.scope()[q];
        lemma_watch_index_complete(rules, k, q);
        lemma_enqueue_scope_holds(rules, after.queue, rule.scope(), rule.scope().len());
        assert(watch_index(rules)[rule.scope()[p] as int].contains(k as usize));
    } else {
        // the constraint shares no cell with the scope that changed
        if k == ci {
            lemma_rule_scope_nonempty(rule);
            assert(rule.scope()[0] == other.scope()[0]);
        }
        assert(agree_on(board, next, other.scope())) by {
            assert forall|q: int| 0 <= q < other.scope().len() implies
                board.domains[#[trigger] other.scope()[q] as int]
                == next.domains[other.scope()[q] as int] by {
                let c = other.scope()[q];
                if rule.scope().contains(c) {
                    let p = choose|p: int| 0 <= p < rule.scope().len() && rule.scope()[p] == c;
                    assert(rule.scope()[p] == other.scope()[q]);
                }
                assert(after.domains[c as int] == popped.domains[c as int]);
            }
        }
        lemma_calm_local(other, board, next);
    }
}

/// A constraint with a rule has a cell in its scope.
pub proof fn lemma_rule_scope_nonempty(rule: Rule)
    requires
        rule.on_grid(),
        rule.supported(),
    ensures
        rule.scope().len() > 0,
{
}

/// The assignment that a finished board spells: for each cell its one candidate.
pub open spec fn solution_of(domains: Seq<Domain>) -> Seq<u8> {
    Seq::new(NN as nat, |c: int| lowest(domains[c]))
}

/// The lowest digit of a mask in range with one digit is that digit.
pub proof fn lemma_lowest_single(m: Domain)
    requires
        in_range(m),
        is_single(m),
    ensures
        1 <= lowest(m) <= 9,
        admits(m, lowest(m)),
        m == 1u16 << lowest(m),
{
    lemma_count_cases(m);
    lemma_within_refl(m);
    lemma_lowest_digit(m, m);
    lemma_single_admits(m, lowest(m));
}

/// On a finished board where no constraint has anything to do, every constraint is
/// satisfied by the assignment that the board spells.
pub proof fn lemma_at_rest_holds(rules: Seq<Rule>, board: Board)
    requires
        board.wf(),
        rules_on_grid(rules),
        at_rest(rules, board),
        all_single(board.domains),
    ensures
        fits(solution_of(board.domains), board.domains),
        satisfies(rules, solution_of(board.domains)),
{
    let sol = solution_of(board.domains);
    assert forall|c: int| 0 <= c < NN implies admits(#[trigger] board.domains[c], sol[c]) && 1
        <= sol[c] <= 9 && board.domains[c] == 1u16 << sol[c] by {
        lemma_lowest_single(board.domains[c]);
    }
    assert forall|k: int| 0 <= k < rules.len() implies (#[trigger] rules[k]).holds(sol) by {
        let rule = rules[k];
        assert(calm(rule, board));
        assert(rule.on_grid());
        let scope = rule.scope();
        if untouched(rule, board) && scope.len() > 0 {
            assert(board.domains[scope[0] as int] == DIGITS_MASK);
            assert(is_single(board.domains[scope[0] as int]));
            assert(bit_count(0x3feu16) == 9) by (bit_vector);
        }
        match rule {
            Rule::AllDifferent { cells } => {
                assert forall|p: int, q: int| 0 <= p < q < cells.len() implies
                    sol[#[trigger] cells[p] as int]
                    != sol[#[trigger] cells[q] as int] by {
                    let x = board.domains[cells[p] as int];
                    let y = board.domains[cells[q] as int];
                    assert(is_single(x));
                    if sol[cells[p] as int] == sol[cells[q] as int] {
                        assert(x == y);
                        assert(has_duplicate(board.domains, cells));
                    }
                }
            },
            Rule::KropkiWhite { a, b } => {
                assert(scope[0] == a && scope[1] == b);
                let da = board.domains[a as int];
                let db = board.domains[b as int];
                let reach = white_reach(db);
                assert(!board.narrow_fails(a, reach));
                lemma_meets_single(reach, sol[a as int]);
                crate::solutions::lemma_white_reach(db, sol[a as int], sol[b as int]);
            },
            Rule::KropkiBlack { a, b } => {
                assert(scope[0] == a && scope[1] == b);
                let da = board.domains[a as int];
                let db = board.domains[b as int];
                let reach = black_reach(db);
                assert(!board.narrow_fails(a, reach));
                lemma_meets_single(reach, sol[a as int]);
                crate::solutions::lemma_black_reach(db, sol[a as int], sol[b as int]);
            },
            Rule::Thermo { cells } => {},
        }
    }
}

/// A mask that meets the bit of a digit admits the digit.
pub proof fn lemma_meets_single(m: Domain, d: u8)
    requires
        d < 16,
        (1u16 << d) & m != 0,
    ensures
        admits(m, d),
{
    assert((1u16 << d) & m == m & (1u16 << d)) by (bit_vector);
}

/// What the consistency of a search starts from: a board ready for propagation that
/// has an empty trail and an empty queue, or on which every constraint that may have
/// something to do is queued.
pub open spec fn search_case(rules: Seq<Rule>, board: Board) -> bool {
    &&& ready(rules, board)
    &&& rules.len() <= usize::MAX
    &&& (board.trail.len() == 0 && board.queue.len() == 0) || scheduled(rules, board)
}

/// Consistency of the search. A search that reports a solution leaves a board on
/// which no constraint has anything to do.
pub proof fn lemma_search_at_rest(rules: Seq<Rule>, board: Board)
    requires
        search_case(rules, board),
        search_outcome(rules, board).0 == Ok::<bool, RuleError>(true),
    ensures
        at_rest(rules, search_outcome(rules, board).1),
    decreases board.weight(), 2nat, 0nat,
{
    if board.trail.len() == 0 && board.queue.len() == 0 {
        let queued = queue_all(rules, board);
        lemma_queue_all_ready(rules, board);
        assert(queued.domains == board.domains);
        assert forall|k: int| 0 <= k < rules.len() implies queued.queue.contains(k as usize)
            || calm(#[trigger] rules[k], queued) by {
            assert(queued.queue[k] == k as usize);
        }
        lemma_search_queued_at_rest(rules, queued);
    } else {
        lemma_search_queued_at_rest(rules, board);
    }
}

/// [`lemma_search_at_rest`], once the queue is set.
pub proof fn lemma_search_queued_at_rest(rules: Seq<Rule>, board: Board)
    requires
        ready(rules, board),
        rules.len() <= usize::MAX,
        scheduled(rules, board),
        search_queued(rules, board).0 == Ok::<bool, RuleError>(true),
    ensures
        at_rest(rules, search_queued(rules, board).1),
    decreases board.weight(), 1nat, 0nat,
{
    lemma_drain_tracks(rules, board, false);
    let (r, after) = drain(rules, board, false);
    if r is Ok {
        lemma_drain_at_rest(rules, board, false);
        if !all_single(after.domains) && !some_empty(after.domains) {
            lemma_open_board_branches(after.domains);
            let i = mrv_cell(after.domains).unwrap();
            let m = after.domains[i as int];
            lemma_within_refl(m);
            lemma_branch_at_rest(rules, after, after.queue, i, m);
        }
    }
}

/// [`lemma_search_at_rest`], for the branches on one cell.
pub proof fn lemma_branch_at_rest(
    rules: Seq<Rule>,
    base: Board,
    queue: Seq<usize>,
    i: CellIx,
    m: Domain,
)
    requires
        can_branch(rules, base, queue, i, m),
        rules.len() <= usize::MAX,
        at_rest(rules, base),
        branch_outcome(rules, base, queue, i, m).0 == Ok::<bool, RuleError>(true),
    ensures
        at_rest(rules, branch_outcome(rules, base, queue, i, m).1),
    decreases base.weight(), 0nat, m as nat,
{
    if m != 0 {
        let here = Board { queue, ..base };
        lemma_branch_step(rules, base, queue, i, m);
        let bit = 1u16 << lowest(m);
        let narrowed = here.narrow(i, bit);
        let tried = queue_watchers(rules, narrowed, i);
        let (r, after) = search_outcome(rules, tried);
        lemma_search_tracks(rules, tried);
        assert(scheduled(rules, here)) by {
            assert forall|k: int| 0 <= k < rules.len() implies here.queue.contains(k as usize)
                || calm(#[trigger] rules[k], here) by {
                assert(rules[k].on_grid());
                assert(agree_on(base, here, rules[k].scope()));
                lemma_calm_local(rules[k], base, here);
            }
        }
        lemma_assign_scheduled(rules, here, i, bit);
        if r == Ok::<bool, RuleError>(true) {
            lemma_search_at_rest(rules, tried);
        } else if r == Ok::<bool, RuleError>(false) {
            lemma_branch_at_rest(rules, base, after.queue, i, m & !bit);
        }
    }
}

/// A search that reports a solution has found one. From a board with an empty trail
/// and an empty queue, or from one on which every constraint that may have something
/// to do is queued, `Ok(true)` comes with a finished board whose digits satisfy every
/// constraint.
pub proof fn lemma_search_finds_solution(rules: Seq<Rule>, board: Board)
    requires
        search_case(rules, board),
        search_outcome(rules, board).0 == Ok::<bool, RuleError>(true),
    ensures
        all_single(search_outcome(rules, board).1.domains),
        fits(
            solution_of(search_outcome(rules, board).1.domains),
            search_outcome(rules, board).1.domains,
        ),
        satisfies(rules, solution_of(search_outcome(rules, board).1.domains)),
{
    lemma_search_tracks(rules, board);
    lemma_search_solved(rules, board);
    lemma_search_at_rest(rules, board);
    lemma_at_rest_holds(rules, search_outcome(rules, board).1);
}

/// A search that reports that there is no solution is right: no assignment fits the
/// board and satisfies every constraint.
pub proof fn lemma_search_is_definitive(rules: Seq<Rule>, board: Board, sol: Seq<u8>)
    requires
        ready(rules, board),
        search_outcome(rules, board).0 == Ok::<bool, RuleError>(false),
    ensures
        !(fits(sol, board.domains) && satisfies(rules, sol)),
{
    if fits(sol, board.domains) && satisfies(rules, sol) {
        lemma_search_complete(rules, board, sol);
    }
}

/// Idempotence at the fixpoint. A rule that reports no change has left the board
/// as it was, and reports no change again: on that board, and on every board with
/// the same candidates in the cells of its scope.
pub proof fn lemma_rule_idempotent(rule: Rule, board: Board, later: Board)
    requires
        board.wf(),
        rule.on_grid(),
        rule.result(board) == Ok::<bool, RuleError>(false),
        agree_on(rule.apply(board), later, rule.scope()),
    ensures
        rule.apply(board) == board,
        rule.result(rule.apply(board)) == Ok::<bool, RuleError>(false),
        rule.result(later) == Ok::<bool, RuleError>(false),
{
    crate::constraints::lemma_rule_tracks(rule, board);
    lemma_rule_local(rule, board, later);
}

/// Monotonicity of the rules. Whatever a rule reports, no cell has gained a
/// candidate or lost its last one, and each narrowing is on the trail: undoing the
/// trail to its earlier length gives back the board from before the rule.
pub proof fn lemma_rule_is_monotone(rule: Rule, board: Board)
    requires
        board.wf(),
        rule.on_grid(),
    ensures
        rule.apply(board).wf(),
        forall|c: int|
            0 <= c < NN ==> within(#[trigger] rule.apply(board).domains[c], board.domains[c])
                && bit_count(rule.apply(board).domains[c]) <= bit_count(board.domains[c]),
        forall|c: int| 0 <= c < NN && board.domains[c] != 0 ==>
            #[trigger] rule.apply(board).domains[c] != 0,
        rule.apply(board).restore(board.trail.len()) == board,
{
    crate::constraints::lemma_rule_tracks(rule, board);
    let after = rule.apply(board);
    crate::state::lemma_refines_counts(after, board);
    crate::state::lemma_restore_restore(after, board.trail.len(), board.trail.len());
    let back = after.restore(board.trail.len());
    assert(back.domains == board.domains && back.trail == board.trail && back.queue == board.queue);
}

/// What a rule's run states beyond its exact outcome.
pub open spec fn rule_laws(rule: Rule, board: Board) -> bool {
    let after = rule.apply(board);
    &&& after.wf()
    &&& after.refines(board)
    &&& after.extends(board)
    &&& after.queue == board.queue
    &&& rule.result(board) == Ok::<bool, RuleError>(false) ==> after == board
    &&& rule.result(board) == Ok::<bool, RuleError>(true) ==> after.weight() < board.weight()
    &&& forall|sol: Seq<u8>|
        #[trigger] fits(sol, board.domains) && rule.holds(sol) ==> fits(sol, after.domains)
            && rule.result(board) != Err::<bool, RuleError>(RuleError::Contradiction)
}

/// Every run of a rule meets [`rule_laws`].
pub proof fn lemma_rule_laws(rule: Rule, board: Board)
    requires
        board.wf(),
        rule.on_grid(),
    ensures
        rule_laws(rule, board),
{
    crate::constraints::lemma_rule_tracks(rule, board);
    assert forall|sol: Seq<u8>| #[trigger] fits(sol, board.domains) && rule.holds(sol) implies fits(
        sol,
        rule.apply(board).domains,
    ) && rule.result(board) != Err::<bool, RuleError>(RuleError::Contradiction) by {
        crate::solutions::lemma_rule_keeps(rule, board, sol);
    }
}

/// What a run of propagation states beyond its exact outcome.
pub open spec fn propagate_laws(rules: Seq<Rule>, board: Board) -> bool {
    let (r, after) = drain(rules, board, false);
    &&& ready(rules, after)
    &&& after.refines(board)
    &&& after.extends(board)
    &&& keeps_nonempty(after, board)
    &&& keeps_solutions(rules, board, after)
    &&& r is Ok ==> after.queue.len() == 0
    &&& r is Ok && scheduled(rules, board) ==> at_rest(rules, after)
    &&& r != Ok::<Solve, RuleError>(Solve::Solved)
    &&& r == Ok::<Solve, RuleError>(Solve::Stalled) ==> after.domains == board.domains
        && after.trail == board.trail
    &&& r == Ok::<Solve, RuleError>(Solve::Progress) ==> after.weight() < board.weight()
    &&& r == Err::<Solve, RuleError>(RuleError::Contradiction) ==> no_solution(rules, board)
    &&& r == Err::<Solve, RuleError>(RuleError::Unsupported) ==> exists|k: int|
        0 <= k < rules.len() && !(#[trigger] rules[k]).supported()
}

/// Propagation stops on an unsupported constraint only where one is registered.
pub proof fn lemma_drain_unsupported(rules: Seq<Rule>, board: Board, any: bool)
    requires
        ready(rules, board),
        drain(rules, board, any).0 == Err::<Solve, RuleError>(RuleError::Unsupported),
    ensures
        exists|k: int| 0 <= k < rules.len() && !(#[trigger] rules[k]).supported(),
    decreases board.weight(), board.queue.len(),
{
    if board.queue.len() > 0 {
        lemma_rule_from_queue(rules, board);
        let rule = rules[board.queue[0] as int];
        let popped = pop_queue(board);
        match rule.result(popped) {
            Err(e) => {
                assert(!rules[board.queue[0] as int].supported());
            },
            Ok(changed) => {
                let next = if changed {
                    requeue(rules, rule.apply(popped), rule)
                } else {
                    rule.apply(popped)
                };
                lemma_drain_unsupported(rules, next, any || changed);
            },
        }
    }
}

/// Every run of propagation meets [`propagate_laws`].
pub proof fn lemma_propagate_laws(rules: Seq<Rule>, board: Board)
    requires
        ready(rules, board),
        rules.len() <= usize::MAX,
    ensures
        propagate_laws(rules, board),
{
    lemma_drain_tracks(rules, board, false);
    let (r, after) = drain(rules, board, false);
    assert forall|sol: Seq<u8>| #[trigger] fits(sol, board.domains) && satisfies(rules,
        sol) implies fits(
        sol,
        after.domains,
    ) && r != Err::<Solve, RuleError>(RuleError::Contradiction) by {
        crate::solutions::lemma_drain_keeps(rules, board, false, sol);
    }
    if r is Ok && scheduled(rules, board) {
        lemma_drain_at_rest(rules, board, false);
    }
    if r == Err::<Solve, RuleError>(RuleError::Unsupported) {
        lemma_drain_unsupported(rules, board, false);
    }
}

/// What a search states beyond its exact outcome.
pub open spec fn search_laws(rules: Seq<Rule>, board: Board) -> bool {
    let (r, after) = search_outcome(rules, board);
    &&& ready(rules, after)
    &&& after.refines(board)
    &&& after.extends(board)
    &&& r == Ok::<bool, RuleError>(true) ==> all_single(after.domains)
    &&& r == Ok::<bool, RuleError>(true) && search_case(rules, board) ==> fits(
        solution_of(after.domains),
        board.domains,
    ) && satisfies(rules, solution_of(after.domains))
    &&& r == Ok::<bool, RuleError>(false) ==> no_solution(rules, board)
    &&& r is Err ==> r == Err::<bool, RuleError>(RuleError::Unsupported) && exists|k: int|
        0 <= k < rules.len() && !(#[trigger] rules[k]).supported()
}

/// The search stops with an error only on an unsupported constraint, and only
/// where one is registered.
pub proof fn lemma_search_error(rules: Seq<Rule>, board: Board)
    requires
        ready(rules, board),
        search_outcome(rules, board).0 is Err,
    ensures
        search_outcome(rules, board).0 == Err::<bool, RuleError>(RuleError::Unsupported),
        exists|k: int| 0 <= k < rules.len() && !(#[trigger] rules[k]).supported(),
    decreases board.weight(), 2nat, 0nat,
{
    if board.trail.len() == 0 && board.queue.len() == 0 {
        lemma_queue_all_ready(rules, board);
        assert(queue_all(rules, board).domains == board.domains);
        lemma_search_queued_error(rules, queue_all(rules, board));
    } else {
        lemma_search_queued_error(rules, board);
    }
}

/// [`lemma_search_error`], once the queue is set.
pub proof fn lemma_search_queued_error(rules: Seq<Rule>, board: Board)
    requires
        ready(rules, board),
        search_queued(rules, board).0 is Err,
    ensures
        search_queued(rules, board).0 == Err::<bool, RuleError>(RuleError::Unsupported),
        exists|k: int| 0 <= k < rules.len() && !(#[trigger] rules[k]).supported(),
    decreases board.weight(), 1nat, 0nat,
{
    lemma_drain_tracks(rules, board, false);
    let (r, after) = drain(rules, board, false);
    if r is Ok {
        if !all_single(after.domains) && !some_empty(after.domains) {
            lemma_open_board_branches(after.domains);
            let i = mrv_cell(after.domains).unwrap();
            let m = after.domains[i as int];
            lemma_within_refl(m);
            lemma_branch_error(rules, after, after.queue, i, m);
        }
    } else {
        lemma_drain_unsupported(rules, board, false);
    }
}

/// [`lemma_search_error`], for the branches on one cell.
pub proof fn lemma_branch_error(
    rules: Seq<Rule>,
    base: Board,
    queue: Seq<usize>,
    i: CellIx,
    m: Domain,
)
    requires
        can_branch(rules, base, queue, i, m),
        branch_outcome(rules, base, queue, i, m).0 is Err,
    ensures
        branch_outcome(rules, base, queue, i, m).0 == Err::<bool, RuleError>(
            RuleError::Unsupported,
        ),
        exists|k: int| 0 <= k < rules.len() && !(#[trigger] rules[k]).supported(),
    decreases base.weight(), 0nat, m as nat,
{
    if m != 0 {
        let here = Board { queue, ..base };
        lemma_branch_step(rules, base, queue, i, m);
        let bit = 1u16 << lowest(m);
        let tried = queue_watchers(rules, here.narrow(i, bit), i);
        let (r, after) = search_outcome(rules, tried);
        lemma_search_tracks(rules, tried);
        if r is Err {
            lemma_search_error(rules, tried);
        } else if r == Ok::<bool, RuleError>(false) {
            lemma_branch_error(rules, base, after.queue, i, m & !bit);
        }
    }
}

/// Every search meets [`search_laws`].
pub proof fn lemma_search_laws(rules: Seq<Rule>, board: Board)
    requires
        ready(rules, board),
        rules.len() <= usize::MAX,
    ensures
        search_laws(rules, board),
{
    lemma_search_tracks(rules, board);
    let (r, after) = search_outcome(rules, board);
    if r == Ok::<bool, RuleError>(true) {
        lemma_search_solved(rules, board);
        if search_case(rules, board) {
            lemma_search_finds_solution(rules, board);
            let sol = solution_of(after.domains);
            assert forall|c: int| 0 <= c < NN implies admits(#[trigger] board.domains[c],
                sol[c]) by {
                assert(admits(after.domains[c], sol[c]));
                assert(within(after.domains[c], board.domains[c]));
                lemma_admits_within(after.domains[c], board.domains[c], sol[c]);
            }
        }
    }
    if r == Ok::<bool, RuleError>(false) {
        assert forall|sol: Seq<u8>| !(#[trigger] fits(sol, board.domains) && satisfies(rules,
            sol)) by {
            lemma_search_is_definitive(rules, board, sol);
        }
    }
    if r is Err {
        lemma_search_error(rules, board);
    }
}

/// A digit of a mask is a digit of every mask that the mask lies within.
pub proof fn lemma_admits_within(m: Domain, whole: Domain, d: u8)
    requires
        within(m, whole),
        admits(m, d),
    ensures
        admits(whole, d),
{
    crate::domain::lemma_admits_ops(m, whole, d);
}

/// A digit in the white reach of `m` is one away from a digit of `m`, and a digit
/// in the black reach of `m` is the double or the half of a digit of `m`.
pub proof fn lemma_reach_support(m: Domain, x: u8)
    ensures
        admits(white_reach(m), x) ==> exists|y: u8|
            admits(m, y) && (x == y + 1 || y == x + 1),
        admits(black_reach(m), x) ==> exists|y: u8| admits(m, y) && (x == 2 * y || y == 2 * x),
{
    if admits(white_reach(m), x) {
        let lo = (x - 1) as u8;
        let hi = (x + 1) as u8;
        assert(admits(white_reach(m), x) ==> 1 <= x <= 9) by (bit_vector);
        assert(1 <= x <= 9 && lo == x - 1 && hi == x + 1 && admits(white_reach(m), x) ==> admits(
            m,
            lo,
        ) || admits(m, hi)) by (bit_vector);
        if admits(m, lo) {
            assert(admits(m, lo) && (x == lo + 1 || lo == x + 1));
        } else {
            assert(admits(m, hi) && (x == hi + 1 || hi == x + 1));
        }
    }
    if admits(black_reach(m), x) {
        let half = x / 2;
        let twice = (2 * x) as u8;
        assert(admits(black_reach(m), x) ==> 1 <= x <= 9) by (bit_vector);
        assert(1 <= x <= 9 && half == x / 2 && twice == 2 * x && admits(black_reach(m), x) ==> (x
            % 2 == 0 && admits(m, half)) || admits(m, twice)) by (bit_vector);
        if x % 2 == 0 && admits(m, half) {
            assert(admits(m, half) && (x == 2 * half || half == 2 * x));
        } else {
            assert(admits(m, twice) && (x == 2 * twice || twice == 2 * x));
        }
    }
}

/// A dot at rest. Where the rule of a white or a black dot is at rest, every
/// candidate of either cell has a partner among the candidates of the other: one
/// away from it for a white dot, its double or its half for a black one.
pub proof fn lemma_settled_dot_supported(rule: Rule, board: Board, x: u8)
    requires
        board.wf(),
        rule.on_grid(),
        settled(rule, board),
    ensures
        rule matches Rule::KropkiWhite { a, b } ==> {
            &&& admits(board.domains[a as int], x) ==> exists|y: u8|
                admits(board.domains[b as int], y) && (x == y + 1 || y == x + 1)
            &&& admits(board.domains[b as int], x) ==> exists|y: u8|
                admits(board.domains[a as int], y) && (x == y + 1 || y == x + 1)
        },
        rule matches Rule::KropkiBlack { a, b } ==> {
            &&& admits(board.domains[a as int], x) ==> exists|y: u8|
                admits(board.domains[b as int], y) && (x == 2 * y || y == 2 * x)
            &&& admits(board.domains[b as int], x) ==> exists|y: u8|
                admits(board.domains[a as int], y) && (x == 2 * y || y == 2 * x)
        },
{
    let scope = rule.scope();
    match rule {
        Rule::KropkiWhite { a, b } => {
            assert(scope[0] == a && scope[1] == b);
            let da = board.domains[a as int];
            let db = board.domains[b as int];
            assert(da & white_reach(db) == da);
            assert(db & white_reach(da) == db);
            lemma_admits_ops(da, white_reach(db), x);
            lemma_admits_ops(db, white_reach(da), x);
            lemma_reach_support(db, x);
            lemma_reach_support(da, x);
        },
        Rule::KropkiBlack { a, b } => {
            assert(scope[0] == a && scope[1] == b);
            let da = board.domains[a as int];
            let db = board.domains[b as int];
            assert(da & black_reach(db) == da);
            assert(db & black_reach(da) == db);
            lemma_admits_ops(da, black_reach(db), x);
            lemma_admits_ops(db, black_reach(da), x);
            lemma_reach_support(db, x);
            lemma_reach_support(da, x);
        },
        _ => {},
    }
}

/// Hidden singles that change nothing find each digit with one place already alone
/// in that place.
pub proof fn lemma_hidden_at_rest(board: Board, cells: Seq<CellIx>, n: nat, d: u8)
    requires
        board.wf(),
        cells_on_grid(cells),
        !hidden_singles(board, cells, n).failed,
        !hidden_singles(board, cells, n).changed,
        1 <= d <= n,
        n <= 9,
        count_admitting(board.domains, cells, d, cells.len()) == 1,
    ensures
        hidden_singles(board, cells, n).board == board,
        board.domains[last_admitting(board.domains, cells, d, cells.len()).unwrap() as int] == 1u16
            << d,
    decreases n,
{
    crate::constraints::lemma_hidden_tracks(board, cells, n);
    crate::constraints::lemma_hidden_tracks(board, cells, (n - 1) as nat);
    let before = hidden_singles(board, cells, (n - 1) as nat);
    if d < n {
        lemma_hidden_at_rest(board, cells, (n - 1) as nat, d);
    } else {
        lemma_last_admitting(board.domains, cells, d, cells.len());
        let i = last_admitting(board.domains, cells, d, cells.len()).unwrap();
        let m = board.domains[i as int];
        let bit = 1u16 << d;
        assert(before.board == board);
        assert(m & bit == m && m != 0);
        lemma_single_bit(d);
        lemma_within_single(m, bit);
    }
}

/// Naked singles that change nothing find no unfinished cell with a taken digit.
pub proof fn lemma_naked_at_rest(
    start: Step,
    cells: Seq<CellIx>,
    taken: Domain,
    n: nat,
    p: int,
)
    requires
        !start.changed,
        !naked_singles(start, cells, taken, n).failed,
        !naked_singles(start, cells, taken, n).changed,
        0 <= p < n <= cells.len(),
        cells_on_grid(cells),
        start.board.domains.len() == NN,
    ensures
        naked_singles(start, cells, taken, n).board == start.board,
        !is_single(start.board.domains[cells[p] as int]) ==> within(
            start.board.domains[cells[p] as int],
            !taken,
        ),
    decreases n,
{
    let before = naked_singles(start, cells, taken, (n - 1) as nat);
    lemma_naked_still(start, cells, taken, (n - 1) as nat);
    if p < n - 1 {
        lemma_naked_at_rest(start, cells, taken, (n - 1) as nat, p);
    }
}

/// Naked singles that have changed nothing have left the board as it was.
pub proof fn lemma_naked_still(start: Step, cells: Seq<CellIx>, taken: Domain, n: nat)
    requires
        !start.changed,
        !naked_singles(start, cells, taken, n).changed,
    ensures
        naked_singles(start, cells, taken, n).board == start.board,
    decreases n,
{
    if n > 0 {
        lemma_naked_still(start, cells, taken, (n - 1) as nat);
    }
}

/// An all-different group at rest. Where the rule is at rest, no cell of the scope
/// is empty, no two finished positions hold the same digit, every digit with one
/// place left is alone in that place, and no unfinished cell admits a digit that a
/// finished cell holds.
pub proof fn lemma_settled_group(board: Board, cells: Seq<CellIx>, p: int, d: u8)
    requires
        board.wf(),
        (Rule::AllDifferent { cells }).on_grid(),
        settled(Rule::AllDifferent { cells }, board),
        0 <= p < 9,
        1 <= d <= 9,
    ensures
        board.domains[cells[p] as int] != 0,
        !has_duplicate(board.domains, cells),
        count_admitting(board.domains, cells, d, 9) == 1 ==> board.domains[last_admitting(
            board.domains,
            cells,
            d,
            9,
        ).unwrap() as int] == 1u16 << d,
        !is_single(board.domains[cells[p] as int]) && admits(taken_mask(board.domains, cells, 9), d)
            ==> !admits(board.domains[cells[p] as int], d),
{
    let taken = taken_mask(board.domains, cells, 9);
    let hidden = hidden_singles(board, cells, 9);
    let m = board.domains[cells[p] as int];
    assert(!has_empty(board.domains, cells));
    if taken != 0 {
        lemma_naked_failed_or_not(hidden, cells, taken, 9);
    }
    if count_admitting(board.domains, cells, d, 9) == 1 {
        lemma_hidden_at_rest(board, cells, 9, d);
    }
    if !is_single(m) && admits(taken, d) {
        crate::domain::lemma_admits_digit(taken, d);
        crate::constraints::lemma_hidden_tracks(board, cells, 9);
        lemma_naked_at_rest(hidden, cells, taken, 9, p);
        lemma_admits_ops(m, !taken, d);
        lemma_admits_ops(taken, taken, d);
    }
}

/// Naked singles neither mend a failure nor undo a change.
pub proof fn lemma_naked_failed_or_not(start: Step, cells: Seq<CellIx>, taken: Domain, n: nat)
    ensures
        start.failed ==> naked_singles(start, cells, taken, n).failed,
        start.changed ==> naked_singles(start, cells, taken, n).changed,
    decreases n,
{
    if n > 0 {
        lemma_naked_failed_or_not(start, cells, taken, (n - 1) as nat);
    }
}

} // verus!
