//! Registering the classic groups and the dots between neighbouring cells.

use vstd::prelude::*;
use crate::constraints::{Constraint, Rule};
use crate::engine::Engine;
use crate::types::{idx, CellIx, N, NN};

verus! {

/// The cells of row `r`, left to right.
pub open spec fn row_cells(r: int) -> Seq<CellIx> {
    Seq::new(9, |p: int| (r * 9 + p) as CellIx)
}

/// The cells of column `c`, top to bottom.
pub open spec fn column_cells(c: int) -> Seq<CellIx> {
    Seq::new(9, |p: int| (p * 9 + c) as CellIx)
}

/// The cells of box `b`, row by row; the boxes themselves are counted row by row.
pub open spec fn box_cells(b: int) -> Seq<CellIx> {
    Seq::new(9, |p: int| (((b / 3) * 3 + p / 3) * 9 + (b % 3) * 3 + p % 3) as CellIx)
}

/// The 27 classic groups: the nine rows, then the nine columns, then the nine boxes.
pub open spec fn classic_group(k: int) -> Seq<CellIx> {
    if k < 9 {
        row_cells(k)
    } else if k < 18 {
        column_cells(k - 9)
    } else {
        box_cells(k - 18)
    }
}

/// One all-different constraint for each classic group.
pub open spec fn classic_rules() -> Seq<Rule> {
    Seq::new(27, |k: int| Rule::AllDifferent { cells: classic_group(k) })
}

/// Registers the 27 classic groups, in the order of [`classic_rules`].
pub fn add_all_sudoku_constraints(e: &mut Engine)
    requires
        old(e).wf(),
    ensures
        final(e).rules() == old(e).rules() + classic_rules(),
        final(e).state == old(e).state,
        final(e).wf(),
{
    let mut r: usize = 0;
    assert(e.rules() =~= old(e).rules() + classic_rules().take(0));
    while r < N
        invariant
            r <= N,
            e.wf(),
            e.state == old(e).state,
            e.rules() == old(e).rules() + classic_rules().take(r as int),
        decreases N - r,
    {
        let mut cells: [CellIx; 9] = [0u8;9];
        let mut c: usize = 0;
        while c < N
            invariant
                c <= N,
                r < N,
                forall|p: int| 0 <= p < c ==> cells@[p] == r * 9 + p,
            decreases N - c,
        {
            cells[c] = idx(r, c);
            c += 1;
        }
        assert(cells@ =~= classic_group(r as int));
        e.add_constraint(Constraint::AllDifferent { cells });
        assert(e.rules() =~= old(e).rules() + classic_rules().take(r + 1));
        r += 1;
    }

    let mut c: usize = 0;
    while c < N
        invariant
            c <= N,
            e.wf(),
            e.state == old(e).state,
            e.rules() == old(e).rules() + classic_rules().take(9 + c),
        decreases N - c,
    {
        let mut cells: [CellIx; 9] = [0u8;9];
        let mut r: usize = 0;
        while r < N
            invariant
                r <= N,
                c < N,
                forall|p: int| 0 <= p < r ==> cells@[p] == p * 9 + c,
            decreases N - r,
        {
            cells[r] = idx(r, c);
            r += 1;
        }
        assert(cells@ =~= classic_group(9 + c));
        e.add_constraint(Constraint::AllDifferent { cells });
        assert(e.rules() =~= old(e).rules() + classic_rules().take(9 + c + 1));
        c += 1;
    }

    let mut br: usize = 0;
    while br < 3
        invariant
            br <= 3,
            e.wf(),
            e.state == old(e).state,
            e.rules() == old(e).rules() + classic_rules().take(18 + br * 3),
        decreases 3 - br,
    {
        let mut bc: usize = 0;
        while bc < 3
            invariant
                bc <= 3,
                br < 3,
                e.wf(),
                e.state == old(e).state,
                e.rules() == old(e).rules() + classic_rules().take(18 + br * 3 + bc),
            decreases 3 - bc,
        {
            let mut cells: [CellIx; 9] = [0u8;9];
            let mut k: usize = 0;
            let mut dr: usize = 0;
            while dr < 3
                invariant
                    dr <= 3,
                    br < 3,
                    bc < 3,
                    k == dr * 3,
                    forall|p: int|
                        0 <= p < k ==> cells@[p] == (br * 3 + p / 3) * 9 + bc * 3 + p % 3,
                decreases 3 - dr,
            {
                let mut dc: usize = 0;
                while dc < 3
                    invariant
                        dc <= 3,
                        dr < 3,
                        br < 3,
                        bc < 3,
                        k == dr * 3 + dc,
                        forall|p: int|
                            0 <= p < k ==> cells@[p] == (br * 3 + p / 3) * 9 + bc * 3 + p % 3,
                    decreases 3 - dc,
                {
                    cells[k] = idx(br * 3 + dr, bc * 3 + dc);
                    k += 1;
                    dc += 1;
                }
                dr += 1;
            }
            assert(cells@ =~= classic_group(18 + br * 3 + bc));
            e.add_constraint(Constraint::AllDifferent { cells });
            assert(e.rules() =~= old(e).rules() + classic_rules().take(18 + br * 3 + bc + 1));
            bc += 1;
        }
        br += 1;
    }
    assert(classic_rules().take(27) =~= classic_rules());
}

/// Registers a white dot between the cells at `a_rc` and `b_rc`, each a row and a column.
pub fn add_kropki_white(e: &mut Engine, a_rc: (usize, usize), b_rc: (usize, usize))
    requires
        old(e).wf(),
        a_rc.0 < N,
        a_rc.1 < N,
        b_rc.0 < N,
        b_rc.1 < N,
    ensures
        final(e).rules() == old(e).rules().push(
            Rule::KropkiWhite {
                a: (a_rc.0 * 9 + a_rc.1) as CellIx,
                b: (b_rc.0 * 9 + b_rc.1) as CellIx,
            },
        ),
        final(e).state == old(e).state,
        final(e).wf(),
{
    let a = idx(a_rc.0, a_rc.1);
    let b = idx(b_rc.0, b_rc.1);
    let c = Constraint::KropkiWhite { a, b };
    assert(c@.scope()[0] == a && c@.scope()[1] == b);
    e.add_constraint(c);
}

/// Registers a black dot between the cells at `a_rc` and `b_rc`, each a row and a column.
pub fn add_kropki_black(e: &mut Engine, a_rc: (usize, usize), b_rc: (usize, usize))
    requires
        old(e).wf(),
        a_rc.0 < N,
        a_rc.1 < N,
        b_rc.0 < N,
        b_rc.1 < N,
    ensures
        final(e).rules() == old(e).rules().push(
            Rule::KropkiBlack {
                a: (a_rc.0 * 9 + a_rc.1) as CellIx,
                b: (b_rc.0 * 9 + b_rc.1) as CellIx,
            },
        ),
        final(e).state == old(e).state,
        final(e).wf(),
{
    let a = idx(a_rc.0, a_rc.1);
    let b = idx(b_rc.0, b_rc.1);
    let c = Constraint::KropkiBlack { a, b };
    assert(c@.scope()[0] == a && c@.scope()[1] == b);
    e.add_constraint(c);
}

/// Every cell lies in the group of its row, of its column and of its box, at the
/// position that its column, its row and its place in the box give.
pub proof fn lemma_groups_cover(i: CellIx)
    requires
        i < NN,
    ensures
        ({
            let r = i as int / 9;
            let c = i as int % 9;
            &&& classic_group(r)[c] == i
            &&& classic_group(9 + c)[r] == i
            &&& classic_group(18 + (r / 3) * 3 + c / 3)[(r % 3) * 3 + c % 3] == i
        }),
{
}

} // verus!
