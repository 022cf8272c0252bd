//! The constraints and the rule by which each one narrows the board.

use vstd::prelude::*;
use crate::domain::{
    admits, in_range, is_single, lemma_admits_ops, lemma_clear_digit, lemma_lowest_digit,
    lemma_single_bit, lemma_single_digit, lemma_within_refl, within,
};
use crate::fixpoint::{lemma_rule_laws, rule_laws};
use crate::state::{
    lemma_extends_trans, lemma_narrow_wf, lemma_refines_trans, lemma_refines_weight, Board, State,
};
use crate::types::{CellIx, Contradiction, Domain, RuleError, DIGITS_MASK, EVEN_MASK, NN};

verus! {

/// How far a rule has got: the board it has reached, whether any narrowing so far
/// changed a cell, and whether one of them would have emptied a cell.
pub ghost struct Step {
    pub board: Board,
    pub changed: bool,
    pub failed: bool,
}

impl Step {
    /// A rule that has done nothing yet.
    pub open spec fn start(board: Board) -> Step {
        Step { board, changed: false, failed: false }
    }

    /// A rule that gave up before touching the board.
    pub open spec fn fail(board: Board) -> Step {
        Step { board, changed: false, failed: true }
    }

    /// One more narrowing, unless the rule has failed already.
    pub open spec fn then_narrow(self, i: CellIx, mask: Domain) -> Step {
        if self.failed {
            self
        } else if self.board.narrow_fails(i, mask) {
            Step { board: self.board, changed: self.changed, failed: true }
        } else {
            Step {
                board: self.board.narrow(i, mask),
                changed: self.changed || self.board.narrow_changes(i, mask),
                failed: false,
            }
        }
    }

    /// What the rule reports.
    pub open spec fn result(self) -> Result<bool, Contradiction> {
        if self.failed {
            Err(Contradiction)
        } else {
            Ok(self.changed)
        }
    }

    /// What holds of a rule that began on `origin` and narrows only cells of `scope`:
    /// the board stays well formed and keeps its queue, no cell gains a digit or
    /// loses its last one, cells outside the scope are untouched, undoing the trail
    /// leads back to `origin`, and `changed` is set exactly when the board differs,
    /// in which case it has fewer candidates.
    pub open spec fn tracks(self, origin: Board, scope: Seq<CellIx>) -> bool {
        &&& self.board.wf()
        &&& self.board.queue == origin.queue
        &&& self.board.refines(origin)
        &&& self.board.extends(origin)
        &&& forall|c: int|
            0 <= c < NN && !scope.contains(c as CellIx) ==> #[trigger] self.board.domains[c]
                == origin.domains[c]
        &&& forall|c: int|
            0 <= c < NN && origin.domains[c] != 0 ==> #[trigger] self.board.domains[c] != 0
        &&& !self.changed ==> self.board == origin
        &&& self.changed ==> self.board.weight() < origin.weight()
    }
}

/// One more narrowing of a cell of the scope keeps what [`Step::tracks`] states.
pub proof fn lemma_then_narrow_tracks(
    step: Step,
    origin: Board,
    scope: Seq<CellIx>,
    i: CellIx,
    mask: Domain,
)
    requires
        step.tracks(origin, scope),
        i < NN,
        scope.contains(i),
    ensures
        step.then_narrow(i, mask).tracks(origin, scope),
{
    let next = step.then_narrow(i, mask);
    if !step.failed && !step.board.narrow_fails(i, mask) {
        lemma_narrow_wf(step.board, i, mask);
        lemma_refines_trans(next.board, step.board, origin);
        lemma_extends_trans(next.board, step.board, origin);
        lemma_refines_weight(step.board, origin);
        if !step.board.narrow_changes(i, mask) {
            assert(next.board == step.board);
        }
    }
}

/// A rule that has not begun tracks the board it is on.
pub proof fn lemma_start_tracks(origin: Board, scope: Seq<CellIx>)
    requires
        origin.wf(),
    ensures
        Step::start(origin).tracks(origin, scope),
        Step::fail(origin).tracks(origin, scope),
{
    assert forall|c: int| 0 <= c < origin.domains.len() implies within(
        #[trigger] origin.domains[c],
        origin.domains[c],
    ) by {
        lemma_within_refl(origin.domains[c]);
    }
}

/// The digits one away from a digit of `m`.
pub open spec fn white_reach(m: Domain) -> Domain {
    ((m << 1) | (m >> 1)) & DIGITS_MASK
}

/// The doubles of the digits `1..=4` of `m`.
pub open spec fn doubles(m: Domain) -> Domain {
    ((m & 0x2) << 1) | ((m & 0x4) << 2) | ((m & 0x8) << 3) | ((m & 0x10) << 4)
}

/// The halves of the digits `2, 4, 6, 8` of `m`.
pub open spec fn halves(m: Domain) -> Domain {
    ((m & 0x4) >> 1) | ((m & 0x10) >> 2) | ((m & 0x40) >> 3) | ((m & 0x100) >> 4)
}

/// The digits that are the double or the half of a digit of `m`.
pub open spec fn black_reach(m: Domain) -> Domain {
    (doubles(m) | halves(m & EVEN_MASK)) & DIGITS_MASK
}

/// The white-dot rule on cells `a` and `b`: each keeps the digits one away from a
/// digit that the other had when the rule began.
pub open spec fn white_step(board: Board, a: CellIx, b: CellIx) -> Step {
    Step::start(board).then_narrow(a, white_reach(board.domains[b as int])).then_narrow(
        b,
        white_reach(board.domains[a as int]),
    )
}

/// The black-dot rule on cells `a` and `b`: each keeps the doubles and halves of the
/// digits that the other had when the rule began.
pub open spec fn black_step(board: Board, a: CellIx, b: CellIx) -> Step {
    Step::start(board).then_narrow(a, black_reach(board.domains[b as int])).then_narrow(
        b,
        black_reach(board.domains[a as int]),
    )
}

/// How many of the first `n` positions of `cells` hold a cell that admits `d`.
pub open spec fn count_admitting(domains: Seq<Domain>, cells: Seq<CellIx>, d: u8, n: nat) -> nat
    decreases n,
{
    if n == 0 {
        0
    } else {
        count_admitting(domains, cells, d, (n - 1) as nat) + if admits(
            domains[cells[n - 1] as int],
            d,
        ) {
            1nat
        } else {
            0nat
        }
    }
}

/// The cell at the last of the first `n` positions of `cells` that admits `d`.
pub open spec fn last_admitting(domains: Seq<Domain>, cells: Seq<CellIx>, d: u8, n: nat) -> Option<
    CellIx,
>
    decreases n,
{
    if n == 0 {
        None
    } else if admits(domains[cells[n - 1] as int], d) {
        Some(cells[n - 1])
    } else {
        last_admitting(domains, cells, d, (n - 1) as nat)
    }
}

/// The digits that are the only candidate of one of the first `n` positions of `cells`.
pub open spec fn taken_mask(domains: Seq<Domain>, cells: Seq<CellIx>, n: nat) -> Domain
    decreases n,
{
    if n == 0 {
        0
    } else if is_single(domains[cells[n - 1] as int]) {
        taken_mask(domains, cells, (n - 1) as nat) | domains[cells[n - 1] as int]
    } else {
        taken_mask(domains, cells, (n - 1) as nat)
    }
}

/// Some cell of the scope has no candidate left.
pub open spec fn has_empty(domains: Seq<Domain>, cells: Seq<CellIx>) -> bool {
    exists|p: int| 0 <= p < cells.len() && domains[#[trigger] cells[p] as int] == 0
}

/// Two positions of the scope are finished with the same digit.
pub open spec fn has_duplicate(domains: Seq<Domain>, cells: Seq<CellIx>) -> bool {
    exists|p: int, q: int|
        0 <= p < q < cells.len() && is_single(domains[#[trigger] cells[p] as int])
            && domains[cells[p] as int] == domains[#[trigger] cells[q] as int]
}

/// Positions `x` and `y` of the scope both hold digit `d` and nothing else.
pub open spec fn both_finished_with(
    domains: Seq<Domain>,
    cells: Seq<CellIx>,
    d: u8,
    x: int,
    y: int,
) -> bool {
    domains[cells[x] as int] == 1u16 << d && domains[cells[y] as int] == 1u16 << d
}

/// Hidden singles for the digits `1..=n`: a digit that exactly one position of the
/// scope admitted on `board` is assigned to that position's cell, in increasing
/// order of the digit.
pub open spec fn hidden_singles(board: Board, cells: Seq<CellIx>, n: nat) -> Step
    decreases n,
{
    if n == 0 {
        Step::start(board)
    } else {
        let before = hidden_singles(board, cells, (n - 1) as nat);
        if count_admitting(board.domains, cells, n as u8, cells.len()) == 1 {
            before.then_narrow(
                last_admitting(board.domains, cells, n as u8, cells.len()).unwrap(),
                1u16 << (n as u8),
            )
        } else {
            before
        }
    }
}

/// Naked singles for the first `n` positions: every cell there that is not finished
/// loses the digits of `taken`.
pub open spec fn naked_singles(start: Step, cells: Seq<CellIx>, taken: Domain, n: nat) -> Step
    decreases n,
{
    if n == 0 {
        start
    } else {
        let before = naked_singles(start, cells, taken, (n - 1) as nat);
        if before.failed || is_single(before.board.domains[cells[n - 1] as int]) {
            before
        } else {
            before.then_narrow(cells[n - 1], !taken)
        }
    }
}

/// The all-different rule on the scope `cells`. It fails at once on an empty cell or
/// on two finished positions with one digit. Otherwise it assigns the hidden singles
/// and then removes, from every unfinished cell, the digits that were finished when
/// the rule began.
pub open spec fn all_diff_step(board: Board, cells: Seq<CellIx>) -> Step {
    if has_empty(board.domains, cells) || has_duplicate(board.domains, cells) {
        Step::fail(board)
    } else {
        let taken = taken_mask(board.domains, cells, cells.len());
        let hidden = hidden_singles(board, cells, 9);
        if taken == 0 {
            hidden
        } else {
            naked_singles(hidden, cells, taken, cells.len())
        }
    }
}

/// Whether every cell of `cells` lies on the grid.
pub open spec fn cells_on_grid(cells: Seq<CellIx>) -> bool {
    forall|p: int| 0 <= p < cells.len() ==> #[trigger] cells[p] < NN
}

/// Runs the all-different rule on the nine cells of `cells`, and reports whether
/// any of them changed.
pub fn propagate_all_diff(st: &mut State, cells: &[CellIx; 9]) -> (r: Result<bool, Contradiction>)
    requires
        old(st).wf(),
        cells_on_grid(cells@),
    ensures
        r == all_diff_step(old(st)@, cells@).result(),
        final(st)@ == all_diff_step(old(st)@, cells@).board,
        final(st).wf(),
        rule_laws(Rule::AllDifferent { cells: cells@ }, old(st)@),
{
    let ghost b0 = st@;
    let ghost cs = cells@;
    proof {
        lemma_rule_laws(Rule::AllDifferent { cells: cs }, b0);
    }
    let mut changed = false;

    let mut taken: Domain = 0;
    let mut count: [u8; 10] = [0;10];
    let mut last_pos: [Option<CellIx>; 10] = [None;10];

    let mut p: usize = 0;
    while p < 9
        invariant
            p <= 9,
            st@ == b0,
            b0.wf(),
            cs == cells@,
            cells_on_grid(cs),
            rule_laws(Rule::AllDifferent { cells: cs }, b0),
            forall|q: int| 0 <= q < p ==> b0.domains[#[trigger] cs[q] as int] != 0,
            taken == taken_mask(b0.domains, cs, p as nat),
            forall|e: u8|
                e < 10 ==> count[e as int] == #[trigger] count_admitting(
                    b0.domains,
                    cs,
                    e,
                    p as nat,
                ),
            forall|e: u8|
                e < 10 ==> last_pos[e as int] == #[trigger] last_admitting(
                    b0.domains,
                    cs,
                    e,
                    p as nat,
                ),
        decreases 9 - p,
    {
        let i: u8 = cells[p];
        let di: u16 = st.domains[i as usize];
        if di == 0 {
            assert(has_empty(b0.domains, cs));
            return Err(Contradiction);
        }
        let mut m: u16 = di;
        proof {
            assert(in_range(di));
            lemma_within_refl(di);
            assert forall|e: u8| e < 10 implies #[trigger] count_admitting(
                b0.domains,
                cs,
                e,
                p as nat,
            ) <= p by {
                lemma_count_bound(b0.domains, cs, e, p as nat);
            }
        }
        while m != 0
            invariant
                p < 9,
                cs.len() == 9,
                b0.wf(),
                cells_on_grid(cs),
                in_range(di),
                within(m, di),
                di == b0.domains[cs[p as int] as int],
                i == cs[p as int],
                forall|e: u8|
                    e < 10 ==> #[trigger] count_admitting(b0.domains, cs, e, p as nat) <= p,
                forall|e: u8|
                    e < 10 ==> count[e as int] == #[trigger] count_admitting(
                        b0.domains,
                        cs,
                        e,
                        p as nat,
                    ) + if admits(di, e) && !admits(m, e) {
                        1nat
                    } else {
                        0nat
                    },
                forall|e: u8|
                    e < 10 ==> last_pos[e as int] == if admits(di, e) && !admits(m, e) {
                        Some(i)
                    } else {
                        #[trigger] last_admitting(b0.domains, cs, e, p as nat)
                    },
            decreases m,
        {
            let d: u8 = m.trailing_zeros() as u8;
            proof {
                lemma_lowest_digit(m, di);
            }
            let ghost m_before = m;
            assert(count[d as int] <= count_admitting(b0.domains, cs, d, p as nat) + 1);
            m = m & !(1u16 << d);
            count[d as usize] = count[d as usize] + 1;
            last_pos[d as usize] = Some(i);
            proof {
                assert forall|e: u8| e < 10 implies (admits(di, e) && !admits(m, e)) == ((admits(
                    di,
                    e,
                ) && !admits(m_before, e)) || e == d) by {
                    lemma_clear_digit(m_before, di, d, e);
                }
            }
        }
        if di.count_ones() == 1 {
            taken = taken | di;
        }
        proof {
            assert forall|e: u8| e < 10 implies count[e as int] == #[trigger] count_admitting(
                b0.domains,
                cs,
                e,
                (p + 1) as nat,
            ) by {
                lemma_admits_ops(0, 0, e);
                assert(count[e as int] == count_admitting(b0.domains, cs, e, p as nat) + if admits(
                    di,
                    e,
                ) {
                    1nat
                } else {
                    0nat
                });
            }
            assert forall|e: u8| e < 10 implies last_pos[e as int] == #[trigger] last_admitting(
                b0.domains,
                cs,
                e,
                (p + 1) as nat,
            ) by {
                lemma_admits_ops(0, 0, e);
                assert(last_pos[e as int] == if admits(di, e) {
                    Some(i)
                } else {
                    last_admitting(b0.domains, cs, e, p as nat)
                });
            }
        }
        p += 1;
    }

    assert(!has_empty(b0.domains, cs));

    let mut d: u8 = 1;
    while d <= 9
        invariant
            1 <= d <= 10,
            st@ == b0,
            b0.wf(),
            cs == cells@,
            cells_on_grid(cs),
            rule_laws(Rule::AllDifferent { cells: cs }, b0),
            forall|e: u8|
                e < 10 ==> count[e as int] == #[trigger] count_admitting(b0.domains, cs, e, 9),
            forall|e: u8, x: int, y: int|
                1 <= e < d && 0 <= x < y < 9 ==> !#[trigger] both_finished_with(
                    b0.domains,
                    cs,
                    e,
                    x,
                    y,
                ),
        decreases 10 - d,
    {
        let bit: u16 = 1u16 << d;
        if count[d as usize] >= 2 {
            let mut singles_with_d: u8 = 0;
            let ghost mut first: int = 0;
            let mut q: usize = 0;
            while q < 9
                invariant
                    q <= 9,
                    st@ == b0,
                    cs == cells@,
                    cells_on_grid(cs),
                    rule_laws(Rule::AllDifferent { cells: cs }, b0),
                    b0.wf(),
                    1 <= d <= 9,
                    bit == 1u16 << d,
                    singles_with_d <= 1,
                    singles_with_d == 0 ==> forall|x: int|
                        0 <= x < q ==> b0.domains[#[trigger] cs[x] as int] != bit,
                    singles_with_d == 1 ==> 0 <= first < q && b0.domains[cs[first] as int] == bit
                        && forall|x: int|
                        0 <= x < q && x != first ==> b0.domains[#[trigger] cs[x] as int] != bit,
                decreases 9 - q,
            {
                let i: u8 = cells[q];
                if st.domains[i as usize] == bit {
                    singles_with_d = singles_with_d + 1;
                    if singles_with_d >= 2 {
                        proof {
                            lemma_single_bit(d);
                            assert(is_single(b0.domains[cs[first] as int]));
                            assert(has_duplicate(b0.domains, cs));
                        }
                        return Err(Contradiction);
                    }
                    proof {
                        first = q as int;
                    }
                }
                q += 1;
            }
        } else {
            proof {
                assert forall|x: int, y: int| 0 <= x < y < 9 implies !#[trigger] both_finished_with(
                    b0.domains,
                    cs,
                    d,
                    x,
                    y,
                ) by {
                    if b0.domains[cs[x] as int] == bit && b0.domains[cs[y] as int] == bit {
                        lemma_single_bit(d);
                        lemma_two_admitting(b0.domains, cs, d, x, y, 9);
                    }
                }
            }
        }
        d += 1;
    }

    proof {
        assert(!has_duplicate(b0.domains, cs)) by {
            if has_duplicate(b0.domains, cs) {
                let (x, y) = choose|x: int, y: int|
                    0 <= x < y < cs.len() && is_single(b0.domains[#[trigger] cs[x] as int])
                        && b0.domains[cs[x] as int] == b0.domains[#[trigger] cs[y] as int];
                let m = b0.domains[cs[x] as int];
                lemma_single_digit(m);
                let e = choose|e: u8| 1 <= e <= 9 && m == 1u16 << e;
                assert(both_finished_with(b0.domains, cs, e, x, y));
            }
        }
    }

    let mut d: u8 = 1;
    while d <= 9
        invariant
            1 <= d <= 10,
            b0.wf(),
            st.wf(),
            cs == cells@,
            cells_on_grid(cs),
            rule_laws(Rule::AllDifferent { cells: cs }, b0),
            forall|e: u8|
                e < 10 ==> count[e as int] == #[trigger] count_admitting(b0.domains, cs, e, 9),
            forall|e: u8|
                e < 10 ==> last_pos[e as int] == #[trigger] last_admitting(b0.domains, cs, e, 9),
            b0 == old(st)@,
            !has_empty(b0.domains, cs),
            !has_duplicate(b0.domains, cs),
            st@ == hidden_singles(b0, cs, (d - 1) as nat).board,
            changed == hidden_singles(b0, cs, (d - 1) as nat).changed,
            !hidden_singles(b0, cs, (d - 1) as nat).failed,
        decreases 10 - d,
    {
        if count[d as usize] == 1 {
            let bit: u16 = 1u16 << d;
            proof {
                lemma_last_admitting(b0.domains, cs, d, 9);
                lemma_single_bit(d);
            }
            let i: u8 = last_pos[d as usize].unwrap();
            match st.assign(i, bit) {
                Ok(c) => {
                    if c {
                        changed = true;
                    }
                },
                Err(e) => {
                    proof {
                        lemma_hidden_failed(b0, cs, d as nat, 9);
                        lemma_naked_failed(
                            hidden_singles(b0, cs, 9),
                            cs,
                            taken_mask(b0.domains, cs, 9),
                            9,
                        );
                    }
                    return Err(e);
                },
            }
        }
        d += 1;
    }

    if taken != 0 {
        let ghost hidden = hidden_singles(b0, cs, 9);
        let mut p: usize = 0;
        while p < 9
            invariant
                p <= 9,
                st.wf(),
                cs == cells@,
                cells_on_grid(cs),
                rule_laws(Rule::AllDifferent { cells: cs }, b0),
                b0 == old(st)@,
                !has_empty(b0.domains, cs),
                !has_duplicate(b0.domains, cs),
                hidden == hidden_singles(b0, cs, 9),
                taken != 0,
                taken == taken_mask(b0.domains, cs, 9),
                st@ == naked_singles(hidden, cs, taken, p as nat).board,
                changed == naked_singles(hidden, cs, taken, p as nat).changed,
                !naked_singles(hidden, cs, taken, p as nat).failed,
            decreases 9 - p,
        {
            let i: u8 = cells[p];
            let di: u16 = st.domains[i as usize];
            if di.count_ones() != 1 {
                let mask: u16 = di & !taken;
                proof {
                    assert(di & (di & !taken) == di & !taken) by (bit_vector);
                }
                match st.narrow(i, mask) {
                    Ok(c) => {
                        if c {
                            changed = true;
                        }
                    },
                    Err(e) => {
                        proof {
                            lemma_naked_failed_from(hidden, cs, taken, (p + 1) as nat, 9);
                        }
                        return Err(e);
                    },
                }
            }
            p += 1;
        }
    }

    Ok(changed)
}

/// No more positions admit a digit than there are positions.
pub proof fn lemma_count_bound(domains: Seq<Domain>, cells: Seq<CellIx>, d: u8, n: nat)
    ensures
        count_admitting(domains, cells, d, n) <= n,
    decreases n,
{
    if n > 0 {
        lemma_count_bound(domains, cells, d, (n - 1) as nat);
    }
}

/// Two positions that admit a digit are counted as at least two.
pub proof fn lemma_two_admitting(
    domains: Seq<Domain>,
    cells: Seq<CellIx>,
    d: u8,
    x: int,
    y: int,
    n: nat,
)
    requires
        0 <= x < y < n,
        admits(domains[cells[x] as int], d),
        admits(domains[cells[y] as int], d),
    ensures
        count_admitting(domains, cells, d, n) >= 2,
    decreases n,
{
    if y == n - 1 {
        lemma_one_admitting(domains, cells, d, x, (n - 1) as nat);
    } else {
        lemma_two_admitting(domains, cells, d, x, y, (n - 1) as nat);
    }
}

/// A position that admits a digit is counted.
pub proof fn lemma_one_admitting(domains: Seq<Domain>, cells: Seq<CellIx>, d: u8, x: int, n: nat)
    requires
        0 <= x < n,
        admits(domains[cells[x] as int], d),
    ensures
        count_admitting(domains, cells, d, n) >= 1,
    decreases n,
{
    if x < n - 1 {
        lemma_one_admitting(domains, cells, d, x, (n - 1) as nat);
    }
}

/// Where some position admits a digit, the last such position is known, and it is
/// the only one when the count is one.
pub proof fn lemma_last_admitting(domains: Seq<Domain>, cells: Seq<CellIx>, d: u8, n: nat)
    requires
        count_admitting(domains, cells, d, n) >= 1,
    ensures
        exists|x: int|
            0 <= x < n && #[trigger] cells[x] == last_admitting(domains, cells, d, n).unwrap()
                && admits(domains[cells[x] as int], d),
        last_admitting(domains, cells, d, n) is Some,
    decreases n,
{
    if n > 0 {
        if admits(domains[cells[n - 1] as int], d) {
            assert(cells[n - 1] == last_admitting(domains, cells, d, n).unwrap());
        } else {
            lemma_last_admitting(domains, cells, d, (n - 1) as nat);
            let x = choose|x: int|
                0 <= x < n - 1 && #[trigger] cells[x] == last_admitting(
                    domains,
                    cells,
                    d,
                    (n - 1) as nat,
                ).unwrap() && admits(domains[cells[x] as int], d);
            assert(cells[x] == last_admitting(domains, cells, d, n).unwrap());
        }
    }
}

/// A rule that has failed stays as it is through the remaining hidden singles.
pub proof fn lemma_hidden_failed(board: Board, cells: Seq<CellIx>, n: nat, m: nat)
    requires
        n <= m,
        hidden_singles(board, cells, n).failed,
    ensures
        hidden_singles(board, cells, m) == hidden_singles(board, cells, n),
    decreases m,
{
    if n < m {
        lemma_hidden_failed(board, cells, n, (m - 1) as nat);
    }
}

/// A rule that has failed stays as it is through the naked singles.
pub proof fn lemma_naked_failed(start: Step, cells: Seq<CellIx>, taken: Domain, n: nat)
    requires
        start.failed,
    ensures
        naked_singles(start, cells, taken, n) == start,
    decreases n,
{
    if n > 0 {
        lemma_naked_failed(start, cells, taken, (n - 1) as nat);
    }
}

/// A rule that fails at one position stays as it is through the positions after it.
pub proof fn lemma_naked_failed_from(
    start: Step,
    cells: Seq<CellIx>,
    taken: Domain,
    n: nat,
    m: nat,
)
    requires
        n <= m,
        naked_singles(start, cells, taken, n).failed,
    ensures
        naked_singles(start, cells, taken, m) == naked_singles(start, cells, taken, n),
    decreases m,
{
    if n < m {
        lemma_naked_failed_from(start, cells, taken, n, (m - 1) as nat);
    }
}

/// Runs the rule of a white dot between cells `a` and `b`, and reports whether
/// either changed.
pub fn propagate_kropki_white(st: &mut State, a: CellIx, b: CellIx) -> (r: Result<
    bool,
    Contradiction,
>)
    requires
        a < NN,
        b < NN,
    ensures
        r == white_step(old(st)@, a, b).result(),
        final(st)@ == white_step(old(st)@, a, b).board,
        old(st).wf() ==> final(st).wf() && rule_laws(Rule::KropkiWhite { a, b }, old(st)@),
{
    proof {
        if st.wf() {
            let rule = Rule::KropkiWhite { a, b };
            assert(rule.scope()[0] == a && rule.scope()[1] == b);
            lemma_rule_laws(rule, st@);
        }
    }
    let da: u16 = st.domains[a as usize];
    let db: u16 = st.domains[b as usize];

    let reach_from_b: u16 = ((db << 1) | (db >> 1)) & DIGITS_MASK;
    let reach_from_a: u16 = ((da << 1) | (da >> 1)) & DIGITS_MASK;
    let mut changed = false;
    match st.narrow(a, reach_from_b) {
        Ok(c) => {
            if c {
                changed = true;
            }
        },
        Err(e) => {
            return Err(e);
        },
    }
    match st.narrow(b, reach_from_a) {
        Ok(c) => {
            if c {
                changed = true;
            }
        },
        Err(e) => {
            return Err(e);
        },
    }
    Ok(changed)
}

/// Runs the rule of a black dot between cells `a` and `b`, and reports whether
/// either changed.
pub fn propagate_kropki_black(st: &mut State, a: CellIx, b: CellIx) -> (r: Result<
    bool,
    Contradiction,
>)
    requires
        a < NN,
        b < NN,
    ensures
        r == black_step(old(st)@, a, b).result(),
        final(st)@ == black_step(old(st)@, a, b).board,
        old(st).wf() ==> final(st).wf() && rule_laws(Rule::KropkiBlack { a, b }, old(st)@),
{
    proof {
        if st.wf() {
            let rule = Rule::KropkiBlack { a, b };
            assert(rule.scope()[0] == a && rule.scope()[1] == b);
            lemma_rule_laws(rule, st@);
        }
    }
    let da: u16 = st.domains[a as usize];
    let db: u16 = st.domains[b as usize];

    let double_from_b: u16 = double_digits(db) & DIGITS_MASK;  // a = 2 * b
    let evens_in_b: u16 = db & EVEN_MASK;  // only even b have a half in 1..9
    let half_from_b: u16 = halve_digits(evens_in_b) & DIGITS_MASK;  // a = b / 2
    let reach_from_b: u16 = (double_from_b | half_from_b) & DIGITS_MASK;

    let double_from_a: u16 = double_digits(da) & DIGITS_MASK;  // b = 2 * a
    let evens_in_a: u16 = da & EVEN_MASK;
    let half_from_a: u16 = halve_digits(evens_in_a) & DIGITS_MASK;  // b = a / 2
    let reach_from_a: u16 = (double_from_a | half_from_a) & DIGITS_MASK;

    proof {
        lemma_black_reach_parts(da);
        lemma_black_reach_parts(db);
    }
    let mut changed = false;
    match st.narrow(a, reach_from_b) {
        Ok(c) => {
            if c {
                changed = true;
            }
        },
        Err(e) => {
            return Err(e);
        },
    }
    match st.narrow(b, reach_from_a) {
        Ok(c) => {
            if c {
                changed = true;
            }
        },
        Err(e) => {
            return Err(e);
        },
    }
    Ok(changed)
}

/// Masking the doubles and the halves one by one gives the same set as masking their union.
proof fn lemma_black_reach_parts(m: Domain)
    ensures
        (((doubles(m) & DIGITS_MASK) | (halves(m & EVEN_MASK) & DIGITS_MASK)) & DIGITS_MASK)
            == black_reach(m),
{
    let d = doubles(m);
    let h = halves(m & EVEN_MASK);
    assert((((d & 0x3feu16) | (h & 0x3feu16)) & 0x3feu16) == ((d | h) & 0x3feu16)) by (bit_vector);
}

/// The mask with the double of each of the digits `1..=4` of `m`.
fn double_digits(m: Domain) -> (r: Domain)
    ensures
        r == doubles(m),
{
    ((m & 0x2) << 1) | ((m & 0x4) << 2) | ((m & 0x8) << 3) | ((m & 0x10) << 4)
}

/// The mask with the half of each of the digits `2, 4, 6, 8` of `m`.
fn halve_digits(m: Domain) -> (r: Domain)
    ensures
        r == halves(m),
{
    ((m & 0x4) >> 1) | ((m & 0x10) >> 2) | ((m & 0x40) >> 3) | ((m & 0x100) >> 4)
}

/// A constraint over a fixed scope of cells.
pub enum Constraint {
    /// The nine cells hold nine different digits.
    AllDifferent { cells: [CellIx; 9] },
    /// The digits of the two cells differ by one.
    KropkiWhite { a: CellIx, b: CellIx },
    /// The digit of one cell is twice the digit of the other.
    KropkiBlack { a: CellIx, b: CellIx },
    /// The digits increase strictly along the cells. No rule narrows by it yet.
    Thermo { cells: Vec<CellIx> },
}

/// A [`Constraint`] with its cells as a sequence.
pub ghost enum Rule {
    AllDifferent { cells: Seq<CellIx> },
    KropkiWhite { a: CellIx, b: CellIx },
    KropkiBlack { a: CellIx, b: CellIx },
    Thermo { cells: Seq<CellIx> },
}

impl View for Constraint {
    type V = Rule;

    open spec fn view(&self) -> Rule {
        match self {
            Constraint::AllDifferent { cells } => Rule::AllDifferent { cells: cells@ },
            Constraint::KropkiWhite { a, b } => Rule::KropkiWhite { a: *a, b: *b },
            Constraint::KropkiBlack { a, b } => Rule::KropkiBlack { a: *a, b: *b },
            Constraint::Thermo { cells } => Rule::Thermo { cells: cells@ },
        }
    }
}

impl Rule {
    /// The cells that the constraint speaks of, in the order it names them.
    pub open spec fn scope(self) -> Seq<CellIx> {
        match self {
            Rule::AllDifferent { cells } => cells,
            Rule::KropkiWhite { a, b } => seq![a, b],
            Rule::KropkiBlack { a, b } => seq![a, b],
            Rule::Thermo { cells } => cells,
        }
    }

    /// Every cell of the scope lies on the grid, and an all-different constraint
    /// has nine cells.
    pub open spec fn on_grid(self) -> bool {
        &&& cells_on_grid(self.scope())
        &&& self matches Rule::AllDifferent { cells } ==> cells.len() == 9
    }

    /// Whether a rule narrows by this constraint.
    pub open spec fn supported(self) -> bool {
        !(self is Thermo)
    }

    /// What the constraint's rule does on `board`.
    pub open spec fn step(self, board: Board) -> Step {
        match self {
            Rule::AllDifferent { cells } => all_diff_step(board, cells),
            Rule::KropkiWhite { a, b } => white_step(board, a, b),
            Rule::KropkiBlack { a, b } => black_step(board, a, b),
            Rule::Thermo { cells } => Step::start(board),
        }
    }

    /// What running the constraint on `board` reports.
    pub open spec fn result(self, board: Board) -> Result<bool, RuleError> {
        if !self.supported() {
            Err(RuleError::Unsupported)
        } else if self.step(board).failed {
            Err(RuleError::Contradiction)
        } else {
            Ok(self.step(board).changed)
        }
    }

    /// The board that running the constraint on `board` leaves.
    pub open spec fn apply(self, board: Board) -> Board {
        self.step(board).board
    }
}

impl Constraint {
    /// The cells that the constraint speaks of, in the order it names them.
    pub fn scope(&self) -> (cells: Vec<CellIx>)
        ensures
            cells@ == self@.scope(),
    {
        match self {
            Constraint::AllDifferent { cells } => {
                let mut out: Vec<CellIx> = Vec::new();
                let mut p: usize = 0;
                while p < 9
                    invariant
                        p <= 9,
                        out@ == cells@.take(p as int),
                    decreases 9 - p,
                {
                    out.push(cells[p]);
                    p += 1;
                }
                assert(cells@.take(9) =~= cells@);
                out
            },
            Constraint::KropkiWhite { a, b } => {
                let mut out: Vec<CellIx> = Vec::new();
                out.push(*a);
                out.push(*b);
                assert(out@ =~= seq![*a, *b]);
                out
            },
            Constraint::KropkiBlack { a, b } => {
                let mut out: Vec<CellIx> = Vec::new();
                out.push(*a);
                out.push(*b);
                assert(out@ =~= seq![*a, *b]);
                out
            },
            Constraint::Thermo { cells } => cells.clone(),
        }
    }

    /// Runs the constraint's rule on `state`. A constraint without a rule is
    /// reported as unsupported and leaves the state as it is.
    pub fn propagate(&self, state: &mut State) -> (r: Result<bool, RuleError>)
        requires
            old(state).wf(),
            self@.on_grid(),
        ensures
            r == self@.result(old(state)@),
            final(state)@ == self@.apply(old(state)@),
            final(state).wf(),
            rule_laws(self@, old(state)@),
    {
        let ghost scope = self@.scope();
        proof {
            lemma_rule_laws(self@, state@);
        }
        let outcome = match self {
            Constraint::AllDifferent { cells } => propagate_all_diff(state, cells),
            Constraint::KropkiWhite { a, b } => {
                assert(scope[0] == *a && scope[1] == *b);
                propagate_kropki_white(state, *a, *b)
            },
            Constraint::KropkiBlack { a, b } => {
                assert(scope[0] == *a && scope[1] == *b);
                propagate_kropki_black(state, *a, *b)
            },
            Constraint::Thermo { .. } => {
                return Err(RuleError::Unsupported);
            },
        };
        match outcome {
            Ok(changed) => Ok(changed),
            Err(_) => Err(RuleError::Contradiction),
        }
    }
}

/// Hidden singles keep what [`Step::tracks`] states.
pub proof fn lemma_hidden_tracks(board: Board, cells: Seq<CellIx>, n: nat)
    requires
        board.wf(),
        cells_on_grid(cells),
    ensures
        hidden_singles(board, cells, n).tracks(board, cells),
    decreases n,
{
    if n == 0 {
        lemma_start_tracks(board, cells);
    } else {
        lemma_hidden_tracks(board, cells, (n - 1) as nat);
        if count_admitting(board.domains, cells, n as u8, cells.len()) == 1 {
            lemma_last_admitting(board.domains, cells, n as u8, cells.len());
            let i = last_admitting(board.domains, cells, n as u8, cells.len()).unwrap();
            let x = choose|x: int| 0 <= x < cells.len() && #[trigger] cells[x] == i;
            assert(cells.contains(i));
            lemma_then_narrow_tracks(
                hidden_singles(board, cells, (n - 1) as nat),
                board,
                cells,
                i,
                1u16 << (n as u8),
            );
        }
    }
}

/// Naked singles keep what [`Step::tracks`] states.
pub proof fn lemma_naked_tracks(
    start: Step,
    origin: Board,
    cells: Seq<CellIx>,
    taken: Domain,
    n: nat,
)
    requires
        start.tracks(origin, cells),
        cells_on_grid(cells),
        n <= cells.len(),
    ensures
        naked_singles(start, cells, taken, n).tracks(origin, cells),
    decreases n,
{
    if n > 0 {
        lemma_naked_tracks(start, origin, cells, taken, (n - 1) as nat);
        assert(cells.contains(cells[n - 1]));
        lemma_then_narrow_tracks(
            naked_singles(start, cells, taken, (n - 1) as nat),
            origin,
            cells,
            cells[n - 1],
            !taken,
        );
    }
}

/// Whatever a rule does, it only narrows cells of its own scope, it records each
/// narrowing on the trail, and it reports a change exactly when it made one.
pub proof fn lemma_rule_tracks(rule: Rule, board: Board)
    requires
        board.wf(),
        rule.on_grid(),
    ensures
        rule.step(board).tracks(board, rule.scope()),
{
    let scope = rule.scope();
    lemma_start_tracks(board, scope);
    match rule {
        Rule::AllDifferent { cells } => {
            lemma_hidden_tracks(board, cells, 9);
            let taken = taken_mask(board.domains, cells, cells.len());
            lemma_naked_tracks(hidden_singles(board, cells, 9), board, cells, taken, cells.len());
        },
        Rule::KropkiWhite { a, b } => {
            assert(scope[0] == a && scope[1] == b);
            let first = Step::start(board).then_narrow(a, white_reach(board.domains[b as int]));
            lemma_then_narrow_tracks(
                Step::start(board),
                board,
                scope,
                a,
                white_reach(board.domains[b as int]),
            );
            lemma_then_narrow_tracks(first, board, scope, b, white_reach(board.domains[a as int]));
        },
        Rule::KropkiBlack { a, b } => {
            assert(scope[0] == a && scope[1] == b);
            let first = Step::start(board).then_narrow(a, black_reach(board.domains[b as int]));
            lemma_then_narrow_tracks(
                Step::start(board),
                board,
                scope,
                a,
                black_reach(board.domains[b as int]),
            );
            lemma_then_narrow_tracks(first, board, scope, b, black_reach(board.domains[a as int]));
        },
        Rule::Thermo { cells } => {},
    }
}

} // verus!
