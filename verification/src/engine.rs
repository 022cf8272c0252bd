//! The propagation engine: the board, the constraints, and the index from each cell
//! to the constraints that watch it.

use vstd::prelude::*;
use crate::constraints::{lemma_rule_tracks, Constraint, Rule};
use crate::fixpoint::{lemma_propagate_laws, propagate_laws};
use crate::state::{
    lemma_extends_queue, lemma_extends_trans, lemma_refines_trans, lemma_refines_weight,
    lemma_restore_queue, Board, State,
};
use crate::types::{CellIx, RuleError, Solve, NN};

verus! {

/// Every constraint's scope lies on the grid.
pub open spec fn rules_on_grid(rules: Seq<Rule>) -> bool {
    forall|k: int| 0 <= k < rules.len() ==> (#[trigger] rules[k]).on_grid()
}

/// Every queued index names one of `n` constraints.
pub open spec fn queue_in_range(queue: Seq<usize>, n: nat) -> bool {
    forall|q: int| 0 <= q < queue.len() ==> #[trigger] queue[q] < n
}

/// The index after constraint `ci` was entered for the first `n` cells of its scope.
pub open spec fn watch_scope(
    index: Seq<Seq<usize>>,
    scope: Seq<CellIx>,
    ci: usize,
    n: nat,
) -> Seq<Seq<usize>>
    decreases n,
{
    if n == 0 {
        index
    } else {
        let before = watch_scope(index, scope, ci, (n - 1) as nat);
        let cell = scope[n - 1] as int;
        before.update(cell, before[cell].push(ci))
    }
}

/// The watcher index of `rules`: for each of the 81 cells, the indices of the
/// constraints whose scope names the cell, in the order they were registered, once
/// for each time the scope names it.
pub open spec fn watch_index(rules: Seq<Rule>) -> Seq<Seq<usize>>
    decreases rules.len(),
{
    if rules.len() == 0 {
        Seq::new(NN as nat, |c: int| Seq::<usize>::empty())
    } else {
        watch_scope(
            watch_index(rules.drop_last()),
            rules.last().scope(),
            (rules.len() - 1) as usize,
            rules.last().scope().len(),
        )
    }
}

/// The views of a list of constraints.
pub open spec fn rules_of(constraints: Seq<Constraint>) -> Seq<Rule> {
    Seq::new(constraints.len(), |k: int| constraints[k]@)
}

/// The indices `0..n`, in order.
pub open spec fn all_indices(n: nat) -> Seq<usize> {
    Seq::new(n, |k: int| k as usize)
}

/// The board is well formed, every constraint lies on the grid, and the queue names
/// only constraints of `rules`.
pub open spec fn ready(rules: Seq<Rule>, board: Board) -> bool {
    &&& board.wf()
    &&& rules_on_grid(rules)
    &&& queue_in_range(board.queue, rules.len())
}

/// `queue` followed by the watchers of each of the first `n` cells of `scope`.
pub open spec fn enqueue_scope(
    rules: Seq<Rule>,
    queue: Seq<usize>,
    scope: Seq<CellIx>,
    n: nat,
) -> Seq<usize>
    decreases n,
{
    if n == 0 {
        queue
    } else {
        enqueue_scope(rules, queue, scope, (n - 1) as nat) + watch_index(rules)[scope[n - 1] as int]
    }
}

/// `board` with the head of its queue taken off.
pub open spec fn pop_queue(board: Board) -> Board {
    Board { queue: board.queue.drop_first(), ..board }
}

/// `board` after constraint `rule` changed it: the watchers of every cell of the
/// rule's scope are queued again.
pub open spec fn requeue(rules: Seq<Rule>, board: Board, rule: Rule) -> Board {
    Board { queue: enqueue_scope(rules, board.queue, rule.scope(), rule.scope().len()), ..board }
}

/// Propagation to a fixpoint. While the queue holds an index, the constraint it
/// names is taken off and run. An error ends the run at once, with the board as the
/// rule left it. A change queues the watchers of every cell of the constraint's
/// scope. When the queue is empty the run reports whether anything changed, counting
/// `any` from before.
pub open spec fn drain(rules: Seq<Rule>, board: Board, any: bool) -> (
    Result<Solve, RuleError>,
    Board,
)
    decreases board.weight(), board.queue.len(),
    when ready(rules, board)
    via drain_decreases
{
    if board.queue.len() == 0 {
        (
            Ok(
                if any {
                    Solve::Progress
                } else {
                    Solve::Stalled
                },
            ),
            board,
        )
    } else {
        let rule = rules[board.queue[0] as int];
        let popped = pop_queue(board);
        match rule.result(popped) {
            Err(e) => (Err(e), rule.apply(popped)),
            Ok(changed) => if changed {
                drain(rules, requeue(rules, rule.apply(popped), rule), true)
            } else {
                drain(rules, rule.apply(popped), any)
            },
        }
    }
}

#[via_fn]
proof fn drain_decreases(rules: Seq<Rule>, board: Board, any: bool) {
    if board.queue.len() > 0 {
        lemma_rule_from_queue(rules, board);
    }
}

/// What running the constraint at the head of the queue does to the measure of
/// propagation: a change takes candidates away, and no change leaves the board as it
/// was with a shorter queue.
pub proof fn lemma_rule_from_queue(rules: Seq<Rule>, board: Board)
    requires
        ready(rules, board),
        board.queue.len() > 0,
    ensures
        ({
            let rule = rules[board.queue[0] as int];
            let popped = pop_queue(board);
            let after = rule.apply(popped);
            &&& rule.on_grid()
            &&& popped.wf()
            &&& popped.weight() == board.weight()
            &&& rule.supported() ==> rule.step(popped).tracks(popped, rule.scope())
            &&& rule.result(popped) == Ok::<bool, RuleError>(true) ==> {
                &&& after.weight() < board.weight()
                &&& requeue(rules, after, rule).weight() == after.weight()
                &&& ready(rules, requeue(rules, after, rule))
            }
            &&& rule.result(popped) == Ok::<bool, RuleError>(false) ==> {
                &&& after == popped
                &&& ready(rules, after)
            }
            &&& after.wf()
        }),
{
    let rule = rules[board.queue[0] as int];
    let popped = pop_queue(board);
    let after = rule.apply(popped);
    assert(popped.domains == board.domains && popped.trail == board.trail);
    assert(queue_in_range(popped.queue, rules.len())) by {
        assert forall|q: int| 0 <= q < popped.queue.len() implies #[trigger] popped.queue[q]
            < rules.len() by {
            assert(popped.queue[q] == board.queue[q + 1]);
        }
    }
    lemma_rule_tracks(rule, popped);
    if rule.result(popped) == Ok::<bool, RuleError>(true) {
        let next = requeue(rules, after, rule);
        assert(next.domains == after.domains && next.trail == after.trail);
        lemma_enqueue_scope_in_range(rules, after.queue, rule.scope(), rule.scope().len());
    }
}

/// Queueing the watchers of cells on the grid keeps the queue in range.
pub proof fn lemma_enqueue_scope_in_range(
    rules: Seq<Rule>,
    queue: Seq<usize>,
    scope: Seq<CellIx>,
    n: nat,
)
    requires
        rules_on_grid(rules),
        queue_in_range(queue, rules.len()),
        crate::constraints::cells_on_grid(scope),
        n <= scope.len(),
    ensures
        queue_in_range(enqueue_scope(rules, queue, scope, n), rules.len()),
    decreases n,
{
    if n > 0 {
        lemma_enqueue_scope_in_range(rules, queue, scope, (n - 1) as nat);
        lemma_watch_index_sound(rules);
        lemma_watch_index_len(rules);
        let before = enqueue_scope(rules, queue, scope, (n - 1) as nat);
        let added = watch_index(rules)[scope[n - 1] as int];
        assert forall|q: int| 0 <= q < (before + added).len() implies #[trigger] (before + added)[q]
            < rules.len() by {
            if q >= before.len() {
                assert((before + added)[q] == added[q - before.len()]);
            }
        }
    }
}

/// The board together with the constraints in force and the index of who watches what.
pub struct Engine {
    /// The board, its trail and the queue of pending constraints.
    pub state: State,
    /// The constraints, in the order of registration.
    pub constraints: Vec<Constraint>,
    /// For each cell, the indices of the constraints whose scope names it.
    pub watchers: Vec<Vec<usize>>,
}

impl Engine {
    /// The constraints in force, as rules.
    pub open spec fn rules(&self) -> Seq<Rule> {
        rules_of(self.constraints@)
    }

    /// For each cell, the constraints recorded as watching it.
    pub open spec fn watching(&self) -> Seq<Seq<usize>> {
        Seq::new(self.watchers@.len(), |c: int| self.watchers@[c]@)
    }

    /// The board is well formed, every constraint lies on the grid, the queue names
    /// only registered constraints, and the watcher index is that of the constraints.
    pub open spec fn wf(&self) -> bool {
        &&& self.state.wf()
        &&& rules_on_grid(self.rules())
        &&& queue_in_range(self.state@.queue, self.rules().len())
        &&& self.watching() == watch_index(self.rules())
    }

    /// An engine with a fresh board and no constraints.
    pub fn new() -> (e: Engine)
        ensures
            e.state@ == Board::fresh(),
            e.constraints@.len() == 0,
            e.wf(),
    {
        let mut watchers: Vec<Vec<usize>> = Vec::new();
        let mut c: usize = 0;
        while c < NN
            invariant
                c <= NN,
                watchers@.len() == c,
                forall|k: int| 0 <= k < c ==> (#[trigger] watchers@[k])@ == Seq::<usize>::empty(),
            decreases NN - c,
        {
            watchers.push(Vec::new());
            c += 1;
        }
        let e = Engine { state: State::new(), constraints: Vec::new(), watchers };
        proof {
            assert(e.rules() =~= Seq::<Rule>::empty());
            assert(e.watching() =~= watch_index(e.rules()));
        }
        e
    }

    /// Registers `c`: it is appended to the constraints, and its index is appended to
    /// the watchers of every cell of its scope.
    pub fn add_constraint(&mut self, c: Constraint)
        requires
            old(self).wf(),
            c@.on_grid(),
        ensures
            final(self).constraints@ == old(self).constraints@.push(c),
            final(self).rules() == old(self).rules().push(c@),
            final(self).state == old(self).state,
            final(self).wf(),
    {
        let idx = self.constraints.len();
        let scope = c.scope();
        let ghost before = self.watching();
        proof {
            lemma_watch_index_len(self.rules());
        }
        let mut p: usize = 0;
        while p < scope.len()
            invariant
                p <= scope@.len(),
                scope@ == c@.scope(),
                c@.on_grid(),
                before.len() == NN,
                self.state == old(self).state,
                self.constraints == old(self).constraints,
                self.watching() == watch_scope(before, scope@, idx, p as nat),
                self.watching().len() == NN,
            decreases scope@.len() - p,
        {
            let i: u8 = scope[p];
            let ghost w0 = self.watching();
            self.watchers[i as usize].push(idx);
            assert(self.watching() =~= w0.update(i as int, w0[i as int].push(idx)));
            p += 1;
        }
        self.constraints.push(c);
        proof {
            let rules = self.rules();
            assert(rules =~= old(self).rules().push(c@));
            assert(rules.drop_last() =~= old(self).rules());
            assert(rules.last() == c@);
        }
    }

    /// Queues every constraint, in the order of registration.
    pub fn enqueue_all(&mut self)
        requires
            old(self).wf(),
        ensures
            final(self).state@ == (Board {
                queue: old(self).state@.queue + all_indices(old(self).constraints@.len()),
                ..old(self).state@
            }),
            final(self).constraints == old(self).constraints,
            final(self).watchers == old(self).watchers,
            final(self).wf(),
    {
        let n = self.constraints.len();
        let mut i: usize = 0;
        assert(self.state@.queue =~= old(self).state@.queue + all_indices(0));
        while i < n
            invariant
                i <= n,
                n == self.constraints@.len(),
                self.constraints == old(self).constraints,
                self.watchers == old(self).watchers,
                self.state@ == (Board {
                    queue: old(self).state@.queue + all_indices(i as nat),
                    ..old(self).state@
                }),
                self.wf(),
            decreases n - i,
        {
            let ghost prev = self.state@;
            self.state.queue.push_back(i);
            assert(self.state@.queue =~= old(self).state@.queue + all_indices((i + 1) as nat));
            assert(self.state@.domains == prev.domains && self.state@.trail == prev.trail);
            assert(self.rules().len() == n);
            i += 1;
        }
    }

    /// Queues the constraints that watch cell `i`.
    pub fn enqueue_cell_constraints(&mut self, i: CellIx)
        requires
            old(self).wf(),
            i < NN,
        ensures
            final(self).state@ == (Board {
                queue: old(self).state@.queue + watch_index(old(self).rules())[i as int],
                ..old(self).state@
            }),
            final(self).constraints == old(self).constraints,
            final(self).watchers == old(self).watchers,
            final(self).wf(),
    {
        proof {
            lemma_watch_index_len(self.rules());
            lemma_watch_index_sound(self.rules());
        }
        let ghost watching = self.watching()[i as int];
        let n = self.watchers[i as usize].len();
        let mut k: usize = 0;
        assert(self.state@.queue =~= old(self).state@.queue + watching.take(0));
        while k < n
            invariant
                k <= n,
                i < NN,
                n == watching.len(),
                self.watching().len() == NN,
                watching == self.watching()[i as int],
                watching == watch_index(old(self).rules())[i as int],
                forall|j: int| 0 <= j < watching.len() ==>
                    #[trigger] watching[j] < self.rules().len(),
                self.constraints == old(self).constraints,
                self.watchers == old(self).watchers,
                self.state@ == (Board {
                    queue: old(self).state@.queue + watching.take(k as int),
                    ..old(self).state@
                }),
                self.wf(),
            decreases n - k,
        {
            let ci = self.watchers[i as usize][k];
            let ghost prev = self.state@;
            self.state.queue.push_back(ci);
            assert(self.state@.queue =~= old(self).state@.queue + watching.take(k + 1));
            assert(self.state@.domains == prev.domains && self.state@.trail == prev.trail);
            assert(ci == watching[k as int]);
            k += 1;
        }
        assert(watching.take(n as int) =~= watching);
    }

    /// Runs the queued constraints until the queue is empty or one of them fails.
    pub fn propagate(&mut self) -> (r: Result<Solve, RuleError>)
        requires
            old(self).wf(),
        ensures
            r == drain(old(self).rules(), old(self).state@, false).0,
            final(self).state@ == drain(old(self).rules(), old(self).state@, false).1,
            final(self).constraints == old(self).constraints,
            final(self).watchers == old(self).watchers,
            final(self).wf(),
            propagate_laws(old(self).rules(), old(self).state@),
    {
        let ghost rules = self.rules();
        let ghost goal = drain(rules, self.state@, false);
        proof {
            assert(rules.len() == self.constraints.len());
            lemma_propagate_laws(rules, self.state@);
        }
        let mut any = false;
        while self.state.queue.len() > 0
            invariant
                self.wf(),
                self.constraints == old(self).constraints,
                self.watchers == old(self).watchers,
                rules == self.rules(),
                rules == old(self).rules(),
                goal == drain(rules, old(self).state@, false),
                drain(rules, self.state@, any) == goal,
                propagate_laws(rules, old(self).state@),
            decreases self.state@.weight(), self.state@.queue.len(),
        {
            let ghost board = self.state@;
            proof {
                lemma_rule_from_queue(rules, board);
                lemma_watch_index_len(rules);
                lemma_watch_index_sound(rules);
            }
            let ci = self.state.queue.pop_front().unwrap();
            let ghost rule = rules[ci as int];
            let ghost popped = pop_queue(board);
            assert(self.state@ == popped);
            let changed = match self.constraints[ci].propagate(&mut self.state) {
                Ok(changed) => changed,
                Err(e) => {
                    assert(queue_in_range(self.state@.queue, rules.len()));
                    assert(drain(rules, board, any) == (
                        Err::<Solve, RuleError>(e),
                        rule.apply(popped),
                    ));
                    return Err(e);
                },
            };
            let ghost after = self.state@;
            if changed {
                any = true;
                let scope = self.constraints[ci].scope();
                let mut p: usize = 0;
                while p < scope.len()
                    invariant
                        p <= scope@.len(),
                        scope@ == rule.scope(),
                        rule.on_grid(),
                        after.wf(),
                        rules_on_grid(rules),
                        rules == self.rules(),
                        self.constraints == old(self).constraints,
                        self.watchers == old(self).watchers,
                        self.watching() == watch_index(rules),
                        watch_index(rules).len() == NN,
                        forall|c: int, k: int|
                            0 <= c < NN && 0 <= k < watch_index(rules)[c].len()
                                ==> #[trigger] watch_index(rules)[c][k] < rules.len(),
                        self.state@ == (Board {
                            queue: enqueue_scope(rules, after.queue, scope@, p as nat),
                            ..after
                        }),
                    decreases scope@.len() - p,
                {
                    let j: u8 = scope[p];
                    let ghost watching = watch_index(rules)[j as int];
                    let ghost queued = self.state@.queue;
                    let n = self.watchers[j as usize].len();
                    assert(self.watching()[j as int] == watching);
                    let mut k: usize = 0;
                    assert(queued + watching.take(0) =~= queued);
                    while k < n
                        invariant
                            k <= n,
                            j < NN,
                            n == watching.len(),
                            self.constraints == old(self).constraints,
                            self.watchers == old(self).watchers,
                            self.watchers@.len() == NN,
                            self.watchers@[j as int]@ == watching,
                            self.state@ == (Board { queue: queued + watching.take(k as int),
                                ..after }),
                        decreases n - k,
                    {
                        let c2 = self.watchers[j as usize][k];
                        self.state.queue.push_back(c2);
                        assert(self.state@.queue =~= queued + watching.take(k + 1));
                        k += 1;
                    }
                    assert(watching.take(n as int) =~= watching);
                    p += 1;
                }
                assert(self.state@ == requeue(rules, after, rule));
            }
        }
        if any {
            Ok(Solve::Progress)
        } else {
            Ok(Solve::Stalled)
        }
    }
}

/// The watcher index has one entry for each cell.
pub proof fn lemma_watch_index_len(rules: Seq<Rule>)
    requires
        rules_on_grid(rules),
    ensures
        watch_index(rules).len() == NN,
    decreases rules.len(),
{
    if rules.len() > 0 {
        lemma_watch_index_len(rules.drop_last());
        lemma_watch_scope_len(
            watch_index(rules.drop_last()),
            rules.last().scope(),
            (rules.len() - 1) as usize,
            rules.last().scope().len(),
        );
    }
}

/// Entering a constraint for cells on the grid keeps the index's length.
pub proof fn lemma_watch_scope_len(index: Seq<Seq<usize>>, scope: Seq<CellIx>, ci: usize, n: nat)
    requires
        index.len() == NN,
        n <= scope.len(),
        crate::constraints::cells_on_grid(scope),
    ensures
        watch_scope(index, scope, ci, n).len() == NN,
    decreases n,
{
    if n > 0 {
        lemma_watch_scope_len(index, scope, ci, (n - 1) as nat);
    }
}

/// Every index that the watcher index holds names a registered constraint.
pub proof fn lemma_watch_index_sound(rules: Seq<Rule>)
    requires
        rules_on_grid(rules),
    ensures
        forall|c: int, k: int|
            0 <= c < NN && 0 <= k < watch_index(rules)[c].len() ==> #[trigger] watch_index(
                rules,
            )[c][k] < rules.len(),
    decreases rules.len(),
{
    if rules.len() > 0 {
        lemma_watch_index_sound(rules.drop_last());
        lemma_watch_index_len(rules.drop_last());
        lemma_watch_scope_sound(
            watch_index(rules.drop_last()),
            rules.last().scope(),
            (rules.len() - 1) as usize,
            rules.last().scope().len(),
            rules.len(),
        );
    }
}

/// Entering constraint `ci` keeps every entry of the index below `bound`.
pub proof fn lemma_watch_scope_sound(
    index: Seq<Seq<usize>>,
    scope: Seq<CellIx>,
    ci: usize,
    n: nat,
    bound: nat,
)
    requires
        index.len() == NN,
        n <= scope.len(),
        crate::constraints::cells_on_grid(scope),
        ci < bound,
        forall|c: int, k: int|
            0 <= c < NN && 0 <= k < index[c].len() ==> #[trigger] index[c][k] < bound,
    ensures
        forall|c: int, k: int|
            0 <= c < NN && 0 <= k < watch_scope(index, scope, ci, n)[c].len()
                ==> #[trigger] watch_scope(index, scope, ci, n)[c][k] < bound,
    decreases n,
{
    if n > 0 {
        lemma_watch_scope_sound(index, scope, ci, (n - 1) as nat, bound);
        lemma_watch_scope_len(index, scope, ci, (n - 1) as nat);
    }
}

/// No cell that had a candidate on `earlier` is empty on `later`.
pub open spec fn keeps_nonempty(later: Board, earlier: Board) -> bool {
    forall|c: int| 0 <= c < NN && earlier.domains[c] != 0 ==> #[trigger] later.domains[c] != 0
}

/// A well-formed board refines and extends itself.
pub proof fn lemma_board_refl(board: Board)
    requires
        board.wf(),
    ensures
        board.refines(board),
        board.extends(board),
{
    crate::constraints::lemma_start_tracks(board, Seq::empty());
}

/// Propagation only narrows: the board it leaves is well formed, refines the board
/// it began on, leads back to it when the trail is undone, and has emptied no cell.
/// When it ends without an error the queue is empty, and it reports progress exactly
/// when a rule changed the board or `any` was set before.
pub proof fn lemma_drain_tracks(rules: Seq<Rule>, board: Board, any: bool)
    requires
        ready(rules, board),
    ensures
        ({
            let (r, after) = drain(rules, board, any);
            &&& ready(rules, after)
            &&& after.refines(board)
            &&& after.extends(board)
            &&& keeps_nonempty(after, board)
            &&& after.weight() <= board.weight()
            &&& r is Ok ==> after.queue.len() == 0
            &&& r != Ok::<Solve, RuleError>(Solve::Solved)
            &&& r == Ok::<Solve, RuleError>(Solve::Stalled) ==> !any && after.domains
                == board.domains && after.trail == board.trail
            &&& r == Ok::<Solve, RuleError>(Solve::Progress) ==> any || after.weight()
                < board.weight()
        }),
    decreases board.weight(), board.queue.len(),
{
    lemma_board_refl(board);
    if board.queue.len() > 0 {
        lemma_rule_from_queue(rules, board);
        let rule = rules[board.queue[0] as int];
        let popped = pop_queue(board);
        let after = rule.apply(popped);
        assert(after.refines(board) && after.extends(board) && keeps_nonempty(after, board)) by {
            if rule.supported() {
                assert(after.refines(popped));
                assert(after.extends(popped));
                lemma_restore_queue(board, popped.queue, board.trail.len());
            } else {
                lemma_restore_queue(board, popped.queue, board.trail.len());
            }
        }
        lemma_refines_weight(after, board);
        match rule.result(popped) {
            Err(e) => {
                assert(queue_in_range(after.queue, rules.len()));
            },
            Ok(changed) => {
                let next = if changed {
                    requeue(rules, after, rule)
                } else {
                    after
                };
                lemma_drain_tracks(rules, next, any || changed);
                let end = drain(rules, next, any || changed).1;
                assert(next.domains == after.domains && next.trail == after.trail);
                assert(next.refines(board));
                lemma_extends_queue(after, next.queue, board);
                lemma_refines_trans(end, next, board);
                lemma_extends_trans(end, next, board);
                assert(keeps_nonempty(end, board));
            },
        }
    }
}

} // verus!
