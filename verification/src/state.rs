//! The board: one candidate mask per cell, and the trail that undoes narrowings.

use std::collections::VecDeque;
use vstd::prelude::*;
use crate::domain::{
    bit_count, in_range, is_single, lemma_within_count, lemma_within_refl, within,
};
use crate::types::{CellIx, Contradiction, Domain, DIGITS_MASK, NN};

verus! {

/// What a [`State`] holds, as plain sequences.
pub ghost struct Board {
    /// The candidate mask of each cell, row-major.
    pub domains: Seq<Domain>,
    /// Every narrowing not yet undone, oldest first: the cell and the mask it had before.
    pub trail: Seq<(CellIx, Domain)>,
    /// Indices of the constraints that wait to be run, next one first.
    pub queue: Seq<usize>,
}

impl Board {
    /// The board before anything is known: every digit possible everywhere.
    pub open spec fn fresh() -> Board {
        Board {
            domains: Seq::new(NN as nat, |c: int| DIGITS_MASK),
            trail: Seq::empty(),
            queue: Seq::empty(),
        }
    }

    /// There are 81 masks, none admits anything but `1..=9`, and every trail entry
    /// names a cell of the grid and such a mask.
    pub open spec fn wf(self) -> bool {
        &&& self.domains.len() == NN
        &&& forall|c: int| 0 <= c < NN ==> in_range(#[trigger] self.domains[c])
        &&& forall|k: int|
            0 <= k < self.trail.len() ==> (#[trigger] self.trail[k]).0 < NN && in_range(
                self.trail[k].1,
            )
    }

    /// Whether intersecting cell `i` with `mask` would leave it without a digit.
    pub open spec fn narrow_fails(self, i: CellIx, mask: Domain) -> bool {
        self.domains[i as int] & mask == 0
    }

    /// Whether intersecting cell `i` with `mask` removes some digit but not all.
    pub open spec fn narrow_changes(self, i: CellIx, mask: Domain) -> bool {
        self.domains[i as int] & mask != 0 && self.domains[i as int] & mask
            != self.domains[i as int]
    }

    /// The board after intersecting cell `i` with `mask`. Where that changes the
    /// cell, the previous mask goes onto the trail; where it would empty the cell,
    /// nothing is touched.
    pub open spec fn narrow(self, i: CellIx, mask: Domain) -> Board {
        if self.narrow_changes(i, mask) {
            Board {
                domains: self.domains.update(i as int, self.domains[i as int] & mask),
                trail: self.trail.push((i, self.domains[i as int])),
                queue: self.queue,
            }
        } else {
            self
        }
    }

    /// What `narrow` reports for cell `i` and `mask`.
    pub open spec fn narrow_result(self, i: CellIx, mask: Domain) -> Result<bool, Contradiction> {
        if self.narrow_fails(i, mask) {
            Err(Contradiction)
        } else {
            Ok(self.narrow_changes(i, mask))
        }
    }

    /// The board after the newest trail entry is written back and dropped.
    pub open spec fn undo_last(self) -> Board
        recommends
            self.trail.len() > 0,
    {
        Board {
            domains: self.domains.update(self.trail.last().0 as int, self.trail.last().1),
            trail: self.trail.drop_last(),
            queue: self.queue,
        }
    }

    /// The board after trail entries are undone, newest first, until at most `len` remain.
    pub open spec fn restore(self, len: nat) -> Board
        decreases self.trail.len(),
    {
        if self.trail.len() <= len {
            self
        } else {
            self.undo_last().restore(len)
        }
    }

    /// The board after the narrowings of `ops`, each a cell and a mask, in order. One
    /// that would empty its cell leaves the board as it is.
    pub open spec fn narrow_all(self, ops: Seq<(CellIx, Domain)>) -> Board
        decreases ops.len(),
    {
        if ops.len() == 0 {
            self
        } else {
            self.narrow_all(ops.drop_last()).narrow(ops.last().0, ops.last().1)
        }
    }

    /// How many candidates are left on the whole board.
    pub open spec fn weight(self) -> nat {
        weight_upto(self.domains, self.domains.len())
    }

    /// Every cell of `self` admits only digits that it admits in `earlier`.
    pub open spec fn refines(self, earlier: Board) -> bool {
        &&& self.domains.len() == earlier.domains.len()
        &&& forall|c: int|
            0 <= c < self.domains.len() ==> within(#[trigger] self.domains[c], earlier.domains[c])
    }

    /// Undoing the trail of `self` down to the length it had in `earlier` gives back
    /// the masks and the trail of `earlier`.
    pub open spec fn extends(self, earlier: Board) -> bool {
        &&& earlier.trail.len() <= self.trail.len()
        &&& self.restore(earlier.trail.len()).domains == earlier.domains
        &&& self.restore(earlier.trail.len()).trail == earlier.trail
    }
}

/// The candidate masks of the 81 cells, the undo trail, and the queue of pending constraints.
#[derive(Clone)]
pub struct State {
    /// The candidate mask of each cell, row-major.
    pub domains: [Domain; NN],
    /// Every narrowing not yet undone, oldest first: the cell and the mask it had before.
    pub trail: Vec<(CellIx, Domain)>,
    /// Indices of the constraints that wait to be run, next one first.
    pub queue: VecDeque<usize>,
}

impl View for State {
    type V = Board;

    open spec fn view(&self) -> Board {
        Board { domains: self.domains@, trail: self.trail@, queue: self.queue@ }
    }
}

impl State {
    /// See [`Board::wf`].
    pub open spec fn wf(&self) -> bool {
        self@.wf()
    }

    /// A fresh board with nothing on the trail and nothing queued.
    pub fn new() -> (s: State)
        ensures
            s@ == Board::fresh(),
            s.wf(),
    {
        let s = State {
            domains: [DIGITS_MASK;NN],
            trail: Vec::with_capacity(256),
            queue: VecDeque::new(),
        };
        proof {
            assert(s@.domains =~= Board::fresh().domains);
            lemma_within_refl(DIGITS_MASK);
        }
        s
    }

    /// Intersects the mask of cell `i` with `mask`.
    pub fn narrow(&mut self, i: CellIx, mask: Domain) -> (r: Result<bool, Contradiction>)
        requires
            i < NN,
        ensures
            r == old(self)@.narrow_result(i, mask),
            final(self)@ == old(self)@.narrow(i, mask),
            final(self)@.refines(old(self)@),
            final(self)@.extends(old(self)@),
            old(self).wf() ==> final(self).wf(),
    {
        proof {
            lemma_narrow_refines(self@, i, mask);
            lemma_narrow_undo(self@, i, mask);
        }
        let prev: u16 = self.domains[i as usize];
        let next: u16 = prev & mask;
        if next == 0 {
            return Err(Contradiction);
        }
        if next != prev {
            self.trail.push((i, prev));
            self.domains[i as usize] = next;
            proof {
                if old(self).wf() {
                    lemma_narrow_wf(old(self)@, i, mask);
                }
            }
            return Ok(true);
        }
        Ok(false)
    }

    /// Narrows cell `i` to the one digit of `single`.
    pub fn assign(&mut self, i: CellIx, single: Domain) -> (r: Result<bool, Contradiction>)
        requires
            i < NN,
            is_single(single),
        ensures
            r == old(self)@.narrow_result(i, single),
            final(self)@ == old(self)@.narrow(i, single),
            final(self)@.refines(old(self)@),
            final(self)@.extends(old(self)@),
            old(self).wf() ==> final(self).wf(),
    {
        self.narrow(i, single)
    }

    /// The candidates of every cell as nine-bit patterns: bit `d - 1` of an entry is
    /// set when the cell admits digit `d`.
    pub fn snapshot(&self) -> (masks: Vec<u16>)
        ensures
            masks@.len() == NN,
            forall|c: int| 0 <= c < NN ==> #[trigger] masks@[c] == self@.domains[c] >> 1,
    {
        let mut masks: Vec<u16> = Vec::new();
        let mut c: usize = 0;
        while c < NN
            invariant
                c <= NN,
                masks@.len() == c,
                forall|k: int| 0 <= k < c ==> #[trigger] masks@[k] == self@.domains[k] >> 1,
            decreases NN - c,
        {
            masks.push(self.domains[c] >> 1);
            c += 1;
        }
        masks
    }

    /// The current length of the trail, to hand to [`State::backtrack_to`] later.
    pub fn checkpoint(&self) -> (len: usize)
        ensures
            len == self@.trail.len(),
    {
        self.trail.len()
    }

    /// Undoes every narrowing recorded after the trail had length `trail_len`.
    pub fn backtrack_to(&mut self, trail_len: usize)
        requires
            old(self).wf(),
        ensures
            final(self)@ == old(self)@.restore(trail_len as nat),
            final(self)@.queue == old(self)@.queue,
            trail_len >= old(self)@.trail.len() ==> final(self)@ == old(self)@,
            trail_len <= old(self)@.trail.len() ==> final(self)@.trail == old(self)@.trail.take(
                trail_len as int,
            ),
            final(self).wf(),
    {
        proof {
            lemma_restore_trail(self@, trail_len as nat);
        }
        while self.trail.len() > trail_len
            invariant
                self.wf(),
                self@.restore(trail_len as nat) == old(self)@.restore(trail_len as nat),
            decreases self.trail.len(),
        {
            let ghost before = self@;
            let (i, prev) = self.trail.pop().unwrap();
            self.domains[i as usize] = prev;
            assert(self@ == before.undo_last());
        }
    }
}

/// How many candidates the first `n` cells have between them.
pub open spec fn weight_upto(domains: Seq<Domain>, n: nat) -> nat
    decreases n,
{
    if n == 0 {
        0
    } else {
        weight_upto(domains, (n - 1) as nat) + bit_count(domains[n - 1])
    }
}

/// Cells that only lose candidates do not gain weight.
pub proof fn lemma_weight_le(a: Seq<Domain>, b: Seq<Domain>, n: nat)
    requires
        n <= a.len(),
        n <= b.len(),
        forall|c: int| 0 <= c < n ==> within(#[trigger] a[c], b[c]),
    ensures
        weight_upto(a, n) <= weight_upto(b, n),
    decreases n,
{
    if n > 0 {
        lemma_weight_le(a, b, (n - 1) as nat);
        lemma_within_count(a[n - 1], b[n - 1]);
    }
}

/// Cells that only lose candidates, one of them at least one, lose weight.
pub proof fn lemma_weight_lt(a: Seq<Domain>, b: Seq<Domain>, n: nat, i: int)
    requires
        n <= a.len(),
        n <= b.len(),
        forall|c: int| 0 <= c < n ==> within(#[trigger] a[c], b[c]),
        0 <= i < n,
        a[i] != b[i],
    ensures
        weight_upto(a, n) < weight_upto(b, n),
    decreases n,
{
    lemma_within_count(a[n - 1], b[n - 1]);
    if i == n - 1 {
        lemma_weight_le(a, b, (n - 1) as nat);
    } else {
        lemma_weight_lt(a, b, (n - 1) as nat, i);
    }
}

/// A board that refines another weighs no more.
pub proof fn lemma_refines_weight(later: Board, earlier: Board)
    requires
        later.refines(earlier),
    ensures
        later.weight() <= earlier.weight(),
        later.domains != earlier.domains ==> later.weight() < earlier.weight(),
{
    lemma_weight_le(later.domains, earlier.domains, later.domains.len());
    if later.domains != earlier.domains {
        assert(!(later.domains =~= earlier.domains));
        let i = choose|i: int| 0 <= i < later.domains.len() && later.domains[i] !=
            earlier.domains[i];
        lemma_weight_lt(later.domains, earlier.domains, later.domains.len(), i);
    }
}

/// Refinement is transitive.
pub proof fn lemma_refines_trans(c: Board, b: Board, a: Board)
    requires
        c.refines(b),
        b.refines(a),
    ensures
        c.refines(a),
{
    assert forall|k: int| 0 <= k < c.domains.len() implies within(
        #[trigger] c.domains[k],
        a.domains[k],
    ) by {
        let x = c.domains[k];
        let y = b.domains[k];
        let z = a.domains[k];
        assert(within(x, y) && within(y, z));
        assert(x & y == x && y & z == y ==> x & z == x) by (bit_vector);
    }
}

/// Undoing down to a length at or beyond the trail's own changes nothing, and
/// undoing in two stages is undoing in one.
pub proof fn lemma_restore_restore(b: Board, mid: nat, len: nat)
    requires
        len <= mid,
    ensures
        b.restore(mid).restore(len) == b.restore(len),
        b.restore(mid).trail.len() <= b.trail.len(),
        mid <= b.trail.len() ==> b.restore(mid).trail.len() == mid,
        b.restore(mid).queue == b.queue,
        b.wf() ==> b.restore(mid).wf(),
    decreases b.trail.len(),
{
    if b.trail.len() > mid {
        lemma_restore_restore(b.undo_last(), mid, len);
        if b.wf() {
            assert(b.undo_last().wf());
        }
    }
}

/// Undoing cuts the trail back and leaves the queue alone.
pub proof fn lemma_restore_trail(b: Board, len: nat)
    ensures
        b.restore(len).queue == b.queue,
        len <= b.trail.len() ==> b.restore(len).trail == b.trail.take(len as int),
        len >= b.trail.len() ==> b.restore(len) == b,
    decreases b.trail.len(),
{
    if b.trail.len() > len {
        lemma_restore_trail(b.undo_last(), len);
        assert(b.trail.drop_last().take(len as int) =~= b.trail.take(len as int));
    } else if len == b.trail.len() {
        assert(b.trail.take(len as int) =~= b.trail);
    }
}

/// Undoing reads and writes the masks and the trail only: the queue rides along.
pub proof fn lemma_restore_queue(b: Board, queue: Seq<usize>, len: nat)
    ensures
        (Board { queue, ..b }).restore(len) == (Board { queue, ..b.restore(len) }),
    decreases b.trail.len(),
{
    if b.trail.len() > len {
        lemma_restore_queue(b.undo_last(), queue, len);
        assert((Board { queue, ..b }).undo_last() == (Board { queue, ..b.undo_last() }));
    }
}

/// Extension is transitive.
pub proof fn lemma_extends_trans(c: Board, b: Board, a: Board)
    requires
        c.extends(b),
        b.extends(a),
    ensures
        c.extends(a),
{
    lemma_restore_restore(c, b.trail.len(), a.trail.len());
    let r = c.restore(b.trail.len());
    lemma_restore_restore(c, b.trail.len(), b.trail.len());
    lemma_restore_queue(b, r.queue, a.trail.len());
    assert(r == (Board { queue: r.queue, ..b }));
}

/// A board that differs from another in its queue alone extends it, and whatever
/// that one extends.
pub proof fn lemma_extends_queue(b: Board, queue: Seq<usize>, a: Board)
    requires
        b.extends(a),
    ensures
        (Board { queue, ..b }).extends(a),
{
    lemma_restore_queue(b, queue, a.trail.len());
}

/// Narrowing keeps a board well formed.
pub proof fn lemma_narrow_wf(b: Board, i: CellIx, mask: Domain)
    requires
        b.wf(),
        i < NN,
    ensures
        b.narrow(i, mask).wf(),
        b.narrow(i, mask).refines(b),
        b.narrow(i, mask).extends(b),
        b.narrow_changes(i, mask) ==> b.narrow(i, mask).weight() < b.weight(),
{
    lemma_narrow_undo(b, i, mask);
    lemma_narrow_refines(b, i, mask);
    let d = b.domains[i as int];
    assert(in_range(d));
    assert(in_range(d) ==> in_range(d & mask)) by (bit_vector);
}

/// A narrowing takes candidates away and adds none, and takes some away when it
/// changes the cell.
pub proof fn lemma_narrow_refines(b: Board, i: CellIx, mask: Domain)
    requires
        i < b.domains.len(),
    ensures
        b.narrow(i, mask).refines(b),
        b.narrow_changes(i, mask) ==> b.narrow(i, mask).weight() < b.weight(),
        forall|c: int|
            0 <= c < b.domains.len() && b.domains[c] != 0 ==> #[trigger] b.narrow(
                i,
                mask,
            ).domains[c] != 0,
{
    let d = b.domains[i as int];
    assert(within(d & mask, d)) by {
        assert((d & mask) & d == (d & mask)) by (bit_vector);
    }
    let n = b.narrow(i, mask);
    assert forall|c: int| 0 <= c < n.domains.len() implies within(
        #[trigger] n.domains[c],
        b.domains[c],
    ) by {
        lemma_within_refl(b.domains[c]);
    }
    if b.narrow_changes(i, mask) {
        assert(n.domains[i as int] != b.domains[i as int]);
        lemma_refines_weight(n, b);
    }
}

/// Undoing the entry that a narrowing pushed gives back the board before it.
pub proof fn lemma_narrow_undo(b: Board, i: CellIx, mask: Domain)
    requires
        i < b.domains.len(),
    ensures
        b.narrow(i, mask).extends(b),
        b.narrow_changes(i, mask) ==> b.narrow(i, mask).undo_last() == b,
{
    let n = b.narrow(i, mask);
    if b.narrow_changes(i, mask) {
        let u = n.undo_last();
        assert(u.trail =~= b.trail);
        assert(u.domains =~= b.domains);
        assert(n.restore(b.trail.len()) == u.restore(b.trail.len()));
    }
}

/// Whether every narrowing of `ops` names a cell of the grid.
pub open spec fn ops_on_grid(ops: Seq<(CellIx, Domain)>) -> bool {
    forall|k: int| 0 <= k < ops.len() ==> (#[trigger] ops[k]).0 < NN
}

/// A board that refines another has, cell by cell, no more candidates.
pub proof fn lemma_refines_counts(later: Board, earlier: Board)
    requires
        later.refines(earlier),
    ensures
        forall|c: int|
            0 <= c < later.domains.len() ==> bit_count(#[trigger] later.domains[c]) <= bit_count(
                earlier.domains[c],
            ),
{
    assert forall|c: int| 0 <= c < later.domains.len() implies bit_count(
        #[trigger] later.domains[c],
    ) <= bit_count(earlier.domains[c]) by {
        lemma_within_count(later.domains[c], earlier.domains[c]);
    }
}

/// Narrowings only narrow: after any sequence of them the board is well formed, has
/// the queue it had, refines the board before them, and leads back to it when the
/// trail is undone.
pub proof fn lemma_narrow_all_tracks(b: Board, ops: Seq<(CellIx, Domain)>)
    requires
        b.wf(),
        ops_on_grid(ops),
    ensures
        b.narrow_all(ops).wf(),
        b.narrow_all(ops).queue == b.queue,
        b.narrow_all(ops).refines(b),
        b.narrow_all(ops).extends(b),
    decreases ops.len(),
{
    if ops.len() == 0 {
        lemma_narrow_wf(b, 0, 0);
        assert(b.refines(b)) by {
            assert forall|c: int| 0 <= c < b.domains.len() implies within(
                #[trigger] b.domains[c],
                b.domains[c],
            ) by {
                lemma_within_refl(b.domains[c]);
            }
        }
    } else {
        let before = b.narrow_all(ops.drop_last());
        lemma_narrow_all_tracks(b, ops.drop_last());
        lemma_narrow_wf(before, ops.last().0, ops.last().1);
        lemma_refines_trans(b.narrow_all(ops), before, b);
        lemma_extends_trans(b.narrow_all(ops), before, b);
    }
}

/// Monotonicity. Over any sequence of narrowings no cell gains a candidate: at the
/// end each cell's mask lies within the mask it began with, and its count of
/// candidates is no larger.
pub proof fn lemma_narrowing_is_monotone(b: Board, ops: Seq<(CellIx, Domain)>)
    requires
        b.wf(),
        ops_on_grid(ops),
    ensures
        forall|c: int|
            0 <= c < NN ==> within(#[trigger] b.narrow_all(ops).domains[c], b.domains[c])
                && bit_count(b.narrow_all(ops).domains[c]) <= bit_count(b.domains[c]),
{
    lemma_narrow_all_tracks(b, ops);
    lemma_refines_counts(b.narrow_all(ops), b);
}

/// Trail round trip. Take a checkpoint after the first `j` of the narrowings `ops`,
/// go on with the rest, and restore to the checkpoint: the board is exactly the one
/// at the checkpoint.
pub proof fn lemma_restore_round_trip(b: Board, ops: Seq<(CellIx, Domain)>, j: int)
    requires
        b.wf(),
        ops_on_grid(ops),
        0 <= j <= ops.len(),
    ensures
        b.narrow_all(ops).restore(b.narrow_all(ops.take(j)).trail.len()) == b.narrow_all(
            ops.take(j),
        ),
    decreases ops.len(),
{
    let mid = b.narrow_all(ops.take(j));
    let full = b.narrow_all(ops);
    if j == ops.len() {
        assert(ops.take(j) =~= ops);
    } else {
        let rest = ops.drop_last();
        let before = b.narrow_all(rest);
        assert(rest.take(j) =~= ops.take(j));
        lemma_restore_round_trip(b, rest, j);
        lemma_narrow_all_tracks(b, rest);
        lemma_narrow_undo(before, ops.last().0, ops.last().1);
        lemma_restore_restore(full, before.trail.len(), mid.trail.len());
        lemma_restore_restore(before, mid.trail.len(), mid.trail.len());
        let back = full.restore(before.trail.len());
        assert(back.domains == before.domains && back.trail == before.trail && back.queue
            == before.queue);
        assert(back == before);
    }
}

} // verus!
