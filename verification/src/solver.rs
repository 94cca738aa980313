//! The constraint tracker and the backtracking filler.

use vstd::prelude::*;

use crate::grid::block_has;
use crate::grid::cell;
use crate::grid::cell_filled;
use crate::grid::col_has;
use crate::grid::completable;
use crate::grid::dup_free;
use crate::grid::full;
use crate::grid::in_grid;
use crate::grid::keeps_filled;
use crate::grid::is_normalized_of;
use crate::grid::norm_cell;
use crate::grid::norm_dup_free;
use crate::grid::row_has;
use crate::grid::same_grid;
use crate::grid::sees;
use crate::grid::solved;
use crate::grid::values_ok;
use crate::grid::Matrix;

verus! {

// ---------------------------------------------------------------------------
// Bitmask model
// ---------------------------------------------------------------------------
/// The single bit that stands for digit `d` in a mask: bit `d - 1`.
pub closed spec fn digit_bit(d: u8) -> u16 {
    1u16 << ((d - 1) as u16)
}

/// The mask records digit `d`.
pub closed spec fn mask_has(m: u16, d: u8) -> bool {
    m & digit_bit(d) != 0
}

proof fn lemma_bit_or(m: u16, v: u8, d: u8)
    by (bit_vector)
    requires
        1 <= v <= 9,
        1 <= d <= 9,
    ensures
        mask_has(m | digit_bit(v), d) <==> (mask_has(m, d) || d == v),
{
}

proof fn lemma_bit_restore(m: u16, v: u8)
    by (bit_vector)
    requires
        1 <= v <= 9,
        !mask_has(m, v),
    ensures
        (m | digit_bit(v)) & !digit_bit(v) == m,
{
}

proof fn lemma_bit_or3(a: u16, b: u16, c: u16, d: u8)
    by (bit_vector)
    requires
        1 <= d <= 9,
    ensures
        mask_has(a | b | c, d) <==> (mask_has(a, d) || mask_has(b, d) || mask_has(c, d)),
{
}

proof fn lemma_mask_empty(d: u8)
    by (bit_vector)
    requires
        1 <= d <= 9,
    ensures
        !mask_has(0u16, d),
{
}

// ---------------------------------------------------------------------------
// The tracker and its model
// ---------------------------------------------------------------------------
/// A state manager that records, per row, per column and per 3x3 block,
/// which digits are already placed, as bitmasks.
pub struct StateManager {
    row: [u16; 9],
    col: [u16; 9],
    sub_mtx: [[u16; 3]; 3],
}

/// The mask of row `y`.
pub closed spec fn row_mask(t: StateManager, y: int) -> u16 {
    t.row[y]
}

/// The mask of column `x`.
pub closed spec fn col_mask(t: StateManager, x: int) -> u16 {
    t.col[x]
}

/// The mask of block (bx, by).
pub closed spec fn block_mask(t: StateManager, bx: int, by: int) -> u16 {
    t.sub_mtx[by][bx]
}

/// Digit `d` may not be placed at (x, y): its row, column or block already
/// records it.
pub closed spec fn blocked(t: StateManager, x: int, y: int, d: u8) -> bool {
    mask_has(row_mask(t, y), d) || mask_has(col_mask(t, x), d) || mask_has(
        block_mask(t, x / 3, y / 3),
        d,
    )
}

/// Every mask of the tracker is zero.
pub closed spec fn empty_tracker(t: StateManager) -> bool {
    (forall|i: int| 0 <= i < 9 ==> #[trigger] row_mask(t, i) == 0) && (forall|i: int|
        0 <= i < 9 ==> #[trigger] col_mask(t, i) == 0) && (forall|bx: int, by: int|
        0 <= bx < 3 && 0 <= by < 3 ==> #[trigger] block_mask(t, bx, by) == 0)
}

/// The two trackers hold the same masks.
spec fn same_tracker(a: StateManager, b: StateManager) -> bool {
    (forall|i: int| 0 <= i < 9 ==> #[trigger] row_mask(a, i) == row_mask(b, i)) && (forall|i: int|
        0 <= i < 9 ==> #[trigger] col_mask(a, i) == col_mask(b, i)) && (forall|bx: int, by: int|
        0 <= bx < 3 && 0 <= by < 3 ==> #[trigger] block_mask(a, bx, by) == block_mask(b, bx, by))
}

/// `t1` is `t0` with the bit of `val` set in the three masks covering (x, y).
pub closed spec fn tracker_after_set(
    t0: StateManager,
    t1: StateManager,
    x: int,
    y: int,
    val: u8,
) -> bool {
    row_mask(t1, y) == row_mask(t0, y) | digit_bit(val) && col_mask(t1, x) == col_mask(t0, x)
        | digit_bit(val) && block_mask(t1, x / 3, y / 3) == block_mask(t0, x / 3, y / 3)
        | digit_bit(val) && (forall|i: int|
        0 <= i < 9 && i != y ==> #[trigger] row_mask(t1, i) == row_mask(t0, i)) && (forall|i: int|
        0 <= i < 9 && i != x ==> #[trigger] col_mask(t1, i) == col_mask(t0, i)) && (forall|
        bx: int,
        by: int,
    |
        0 <= bx < 3 && 0 <= by < 3 && !(bx == x / 3 && by == y / 3) ==> #[trigger] block_mask(
            t1,
            bx,
            by,
        ) == block_mask(t0, bx, by))
}

/// `t1` is `t0` with the bit of `val` cleared in the three masks covering
/// (x, y).
pub closed spec fn tracker_after_remove(
    t0: StateManager,
    t1: StateManager,
    x: int,
    y: int,
    val: u8,
) -> bool {
    row_mask(t1, y) == row_mask(t0, y) & !digit_bit(val) && col_mask(t1, x) == col_mask(t0, x)
        & !digit_bit(val) && block_mask(t1, x / 3, y / 3) == block_mask(t0, x / 3, y / 3)
        & !digit_bit(val) && (forall|i: int|
        0 <= i < 9 && i != y ==> #[trigger] row_mask(t1, i) == row_mask(t0, i)) && (forall|i: int|
        0 <= i < 9 && i != x ==> #[trigger] col_mask(t1, i) == col_mask(t0, i)) && (forall|
        bx: int,
        by: int,
    |
        0 <= bx < 3 && 0 <= by < 3 && !(bx == x / 3 && by == y / 3) ==> #[trigger] block_mask(
            t1,
            bx,
            by,
        ) == block_mask(t0, bx, by))
}

/// Count of the digits in 1..=d that are not blocked at (x, y).
pub closed spec fn free_upto(t: StateManager, x: int, y: int, d: int) -> nat
    decreases d,
{
    if d <= 0 {
        0
    } else {
        free_upto(t, x, y, d - 1) + if blocked(t, x, y, d as u8) {
            0nat
        } else {
            1nat
        }
    }
}

/// Count of the digits 1..=9 that are not blocked at (x, y): the number of
/// candidates of the cell.
pub closed spec fn free_count(t: StateManager, x: int, y: int) -> nat {
    free_upto(t, x, y, 9)
}

/// If every digit is excluded for a cell, the cell has no candidates.
/// This is the dead-end case of candidate enumeration.
pub proof fn lemma_all_blocked_no_candidates(t: StateManager, x: int, y: int)
    requires
        forall|d: u8| 1 <= d <= 9 ==> blocked(t, x, y, d),
    ensures
        free_count(t, x, y) == 0,
{
    assert forall|d: int| 0 <= d <= 9 implies free_upto(t, x, y, d) == 0 by {
        lemma_all_blocked_upto(t, x, y, d);
    }
}

proof fn lemma_all_blocked_upto(t: StateManager, x: int, y: int, d: int)
    requires
        forall|dd: u8| 1 <= dd <= 9 ==> blocked(t, x, y, dd),
        d <= 9,
    ensures
        free_upto(t, x, y, d) == 0,
    decreases d,
{
    if d > 0 {
        lemma_all_blocked_upto(t, x, y, d - 1);
    }
}

impl StateManager {
    /// A tracker with nothing placed.
    pub fn new() -> (r: StateManager)
        ensures
            empty_tracker(r),
    {
        StateManager { row: [0; 9], col: [0; 9], sub_mtx: [[0; 3]; 3] }
    }

    /// Place `val` at (x, y) if its row, column and block all still allow it;
    /// report whether it was placed. On failure nothing changes.
    pub fn set(&mut self, x: usize, y: usize, val: u8) -> (r: bool)
        requires
            x < 9,
            y < 9,
            1 <= val <= 9,
        ensures
            r == !blocked(*old(self), x as int, y as int, val),
            !r ==> *final(self) == *old(self),
            r ==> tracker_after_set(*old(self), *final(self), x as int, y as int, val),
    {
        if !self.is_settable(x, y, val) {
            return false;
        }
        let flag: u16 = Self::flag(val);
        self.row[y] = self.row[y] | flag;
        self.col[x] = self.col[x] | flag;
        self.sub_mtx[y / 3][x / 3] = self.sub_mtx[y / 3][x / 3] | flag;

        true
    }

    /// Clear the bit of `val` in the three masks covering (x, y). The caller
    /// pairs this with an earlier successful `set` of the same digit there.
    pub fn remove(&mut self, x: usize, y: usize, val: u8)
        requires
            x < 9,
            y < 9,
            1 <= val <= 9,
        ensures
            tracker_after_remove(*old(self), *final(self), x as int, y as int, val),
    {
        let mask: u16 = !Self::flag(val);
        self.row[y] = self.row[y] & mask;
        self.col[x] = self.col[x] & mask;
        self.sub_mtx[y / 3][x / 3] = self.sub_mtx[y / 3][x / 3] & mask;
    }

    /// The legal digits of (x, y), as an ascending lazy sequence.
    pub fn candidates(&self, x: usize, y: usize) -> (r: Candidates)
        requires
            x < 9,
            y < 9,
        ensures
            r.wf(),
            r.pos() == 0,
            forall|d: u8|
                1 <= d <= 9 ==> (#[trigger] r.excluded(d) <==> blocked(
                    *self,
                    x as int,
                    y as int,
                    d,
                )),
    {
        let bits: u16 = self.bits(x, y);
        Candidates::new(bits)
    }

    /// How many digits are still legal at (x, y).
    pub fn num_candidates(&self, x: usize, y: usize) -> (r: u8)
        requires
            x < 9,
            y < 9,
        ensures
            r == free_count(*self, x as int, y as int),
    {
        let bits: u16 = self.bits(x, y);
        let mut n: u8 = 0;
        let mut d: u8 = 1;
        while d <= 9
            invariant
                1 <= d <= 10,
                n < d,
                x < 9,
                y < 9,
                forall|dd: u8|
                    1 <= dd <= 9 ==> (#[trigger] mask_has(bits, dd) <==> blocked(
                        *self,
                        x as int,
                        y as int,
                        dd,
                    )),
                n == free_upto(*self, x as int, y as int, d - 1),
            decreases 10 - d,
        {
            proof {
                assert(mask_has(bits, d) <==> blocked(*self, x as int, y as int, d));
            }
            if bits & (1u16 << ((d - 1) as u16)) == 0 {
                n = n + 1;
            }
            proof {
                assert(free_upto(*self, x as int, y as int, d as int) == free_upto(
                    *self,
                    x as int,
                    y as int,
                    d - 1,
                ) + (if blocked(*self, x as int, y as int, d) {
                    0nat
                } else {
                    1nat
                }));
            }
            d = d + 1;
        }
        n
    }

    fn flag(val: u8) -> (r: u16)
        requires
            1 <= val <= 9,
        ensures
            r == digit_bit(val),
    {
        1u16 << ((val - 1) as u16)
    }

    fn bits(&self, x: usize, y: usize) -> (r: u16)
        requires
            x < 9,
            y < 9,
        ensures
            forall|d: u8|
                1 <= d <= 9 ==> (#[trigger] mask_has(r, d) <==> blocked(
                    *self,
                    x as int,
                    y as int,
                    d,
                )),
    {
        let r: u16 = self.row[y] | self.col[x] | self.sub_mtx[y / 3][x / 3];
        proof {
            assert forall|d: u8|
                1 <= d <= 9 implies (#[trigger] mask_has(r, d) <==> blocked(
                *self,
                x as int,
                y as int,
                d,
            )) by {
                lemma_bit_or3(
                    self.row[y as int],
                    self.col[x as int],
                    self.sub_mtx[y as int / 3][x as int / 3],
                    d,
                );
            }
        }
        r
    }

    fn is_settable(&self, x: usize, y: usize, val: u8) -> (r: bool)
        requires
            x < 9,
            y < 9,
            1 <= val <= 9,
        ensures
            r == !blocked(*self, x as int, y as int, val),
    {
        let flag: u16 = Self::flag(val);
        let bits: u16 = self.bits(x, y);
        let res: bool = (bits & flag) == 0;
        proof {
            assert(mask_has(bits, val) <==> blocked(*self, x as int, y as int, val));
        }
        res
    }
}

// ---------------------------------------------------------------------------
// Candidate enumeration
// ---------------------------------------------------------------------------
/// A lazy, finite, non-restartable ascending sequence of the digits whose
/// bits are absent from the mask it was built from.
pub struct Candidates {
    bits: u16,
    i: u8,
    mask: Ghost<u16>,
}

impl Candidates {
    /// The mask this enumeration was built from.
    pub closed spec fn source(self) -> u16 {
        self.mask@
    }

    /// Digit `d` is excluded: its bit is set in the source mask.
    pub closed spec fn excluded(self, d: u8) -> bool {
        mask_has(self.mask@, d)
    }

    /// The enumeration has yielded all digits up to `pos`.
    pub closed spec fn pos(self) -> int {
        self.i as int
    }

    /// The unread part of the complement is what is left of the source.
    pub closed spec fn wf(self) -> bool {
        self.i <= 9 && self.bits == (!self.mask@) >> (self.i as u16)
    }

    /// Enumerate the digits 1..=9 whose bits are clear in `bits`, ascending.
    pub fn new(bits: u16) -> (r: Candidates)
        ensures
            r.wf(),
            r.pos() == 0,
            r.source() == bits,
    {
        proof {
            assert(!bits == (!bits) >> 0u16) by (bit_vector);
        }
        Candidates { bits: !bits, i: 0, mask: Ghost(bits) }
    }

    /// The next not-excluded digit above the current position, if any. The
    /// position never moves back, so after a `None` every later call
    /// returns `None` again: the sequence is finite and non-restartable.
    pub fn next(&mut self) -> (r: Option<u8>)
        requires
            old(self).wf(),
        ensures
            final(self).wf(),
            final(self).source() == old(self).source(),
            match r {
                Some(v) => 1 <= v <= 9 && old(self).pos() < v && !old(self).excluded(v)
                    && final(self).pos() == v
                    && (forall|d: u8| old(self).pos() < d < v ==> old(self).excluded(d)),
                None => final(self).pos() >= old(self).pos() && (forall|d: u8|
                    old(self).pos() < d <= 9 ==> old(self).excluded(d)) && (forall|d: u8|
                    final(self).pos() < d <= 9 ==> final(self).excluded(d)),
            },
    {
        while self.bits != 0 && self.i < 9
            invariant
                self.i <= 9,
                self.mask == old(self).mask,
                old(self).i <= self.i,
                self.bits == (!self.mask@) >> (self.i as u16),
                forall|d: u8| old(self).i < d <= self.i ==> mask_has(self.mask@, d),
            decreases 9 - self.i,
        {
            let current: u16 = self.bits;
            let ghost prev: u8 = self.i;
            proof {
                lemma_shift_step(self.mask@, prev);
            }
            self.bits = self.bits >> 1;
            self.i = self.i + 1;

            if current & 1 == 1 {
                proof {
                    lemma_low_bit_free(self.mask@, prev, current);
                }
                return Some(self.i);
            }
            proof {
                lemma_low_bit_blocked(self.mask@, prev, current);
            }
        }
        proof {
            if self.i < 9 {
                assert forall|d: u8| self.i < d <= 9 implies mask_has(self.mask@, d) by {
                    lemma_rest_blocked(self.mask@, self.i, d);
                }
            }
        }
        None
    }
}

proof fn lemma_shift_step(m: u16, i: u8)
    by (bit_vector)
    requires
        i < 9,
    ensures
        ((!m) >> (i as u16)) >> 1 == (!m) >> ((i + 1) as u16),
{
}

proof fn lemma_low_bit_free(m: u16, i: u8, c: u16)
    by (bit_vector)
    requires
        i < 9,
        c == (!m) >> (i as u16),
        c & 1 == 1,
    ensures
        !mask_has(m, (i + 1) as u8),
{
}

proof fn lemma_low_bit_blocked(m: u16, i: u8, c: u16)
    by (bit_vector)
    requires
        i < 9,
        c == (!m) >> (i as u16),
        c & 1 != 1,
    ensures
        mask_has(m, (i + 1) as u8),
{
}

proof fn lemma_rest_blocked(m: u16, i: u8, d: u8)
    by (bit_vector)
    requires
        i < 9,
        (!m) >> (i as u16) == 0,
        i < d <= 9,
    ensures
        mask_has(m, d),
{
}

// ---------------------------------------------------------------------------
// The empty-cell worklist
// ---------------------------------------------------------------------------
/// The worklist holds the coordinates (x, y).
spec fn wl_has(wl: Seq<(usize, usize)>, x: int, y: int) -> bool {
    exists|k: int| 0 <= k < wl.len() && wl[k].0 as int == x && wl[k].1 as int == y
}

/// Every entry of the worklist lies on the grid.
spec fn wl_coords_ok(wl: Seq<(usize, usize)>) -> bool {
    forall|k: int| 0 <= k < wl.len() ==> in_grid(#[trigger] wl[k].0 as int, wl[k].1 as int)
}

/// The worklist holds exactly the coordinates of the empty cells, once each.
spec fn wl_ok(m: Matrix, wl: Seq<(usize, usize)>) -> bool {
    wl.no_duplicates() && wl_coords_ok(wl) && (forall|x: int, y: int|
        #![trigger cell(m, x, y)]
        #![trigger wl_has(wl, x, y)]
        in_grid(x, y) ==> (cell(m, x, y) == 0 <==> wl_has(wl, x, y)))
}

/// Each mask records exactly the digits placed in its row, column or block.
spec fn tracker_matches(t: StateManager, m: Matrix) -> bool {
    (forall|y: int, d: u8|
        0 <= y < 9 && 1 <= d <= 9 ==> ((#[trigger] mask_has(row_mask(t, y), d)) <==> row_has(
            m,
            y,
            d,
        ))) && (forall|x: int, d: u8|
        0 <= x < 9 && 1 <= d <= 9 ==> ((#[trigger] mask_has(col_mask(t, x), d)) <==> col_has(
            m,
            x,
            d,
        ))) && (forall|bx: int, by: int, d: u8|
        0 <= bx < 3 && 0 <= by < 3 && 1 <= d <= 9 ==> ((#[trigger] mask_has(
            block_mask(t, bx, by),
            d,
        )) <==> block_has(m, bx, by, d)))
}

/// The invariant of the search: the grid holds only digits and zeroes with no
/// duplicate in any unit, the tracker mirrors it, and the worklist lists its
/// empty cells.
spec fn search_inv(m: Matrix, t: StateManager, wl: Seq<(usize, usize)>) -> bool {
    values_ok(m) && dup_free(m) && tracker_matches(t, m) && wl_ok(m, wl)
}

proof fn lemma_blocked_same(a: StateManager, b: StateManager, x: int, y: int, d: u8)
    requires
        same_tracker(a, b),
        in_grid(x, y),
    ensures
        blocked(a, x, y, d) == blocked(b, x, y, d),
{
    assert(row_mask(a, y) == row_mask(b, y));
    assert(col_mask(a, x) == col_mask(b, x));
    assert(block_mask(a, x / 3, y / 3) == block_mask(b, x / 3, y / 3));
}

proof fn lemma_same_grid_units(a: Matrix, b: Matrix)
    requires
        same_grid(a, b),
    ensures
        forall|y: int, d: u8|
            #![trigger row_has(a, y, d)]
            #![trigger row_has(b, y, d)]
            0 <= y < 9 ==> (row_has(a, y, d) <==> row_has(b, y, d)),
        forall|x: int, d: u8|
            #![trigger col_has(a, x, d)]
            #![trigger col_has(b, x, d)]
            0 <= x < 9 ==> (col_has(a, x, d) <==> col_has(b, x, d)),
        forall|bx: int, by: int, d: u8|
            #![trigger block_has(a, bx, by, d)]
            #![trigger block_has(b, bx, by, d)]
            0 <= bx < 3 && 0 <= by < 3 ==> (block_has(a, bx, by, d) <==> block_has(b, bx, by, d)),
{
    assert forall|y: int, d: u8| 0 <= y < 9 implies (row_has(a, y, d) <==> row_has(b, y, d)) by {
        if row_has(a, y, d) {
            let xx = choose|xx: int| 0 <= xx < 9 && cell(a, xx, y) == d;
            assert(cell(b, xx, y) == d);
        }
        if row_has(b, y, d) {
            let xx = choose|xx: int| 0 <= xx < 9 && cell(b, xx, y) == d;
            assert(cell(a, xx, y) == d);
        }
    }
    assert forall|x: int, d: u8| 0 <= x < 9 implies (col_has(a, x, d) <==> col_has(b, x, d)) by {
        if col_has(a, x, d) {
            let yy = choose|yy: int| 0 <= yy < 9 && cell(a, x, yy) == d;
            assert(cell(b, x, yy) == d);
        }
        if col_has(b, x, d) {
            let yy = choose|yy: int| 0 <= yy < 9 && cell(b, x, yy) == d;
            assert(cell(a, x, yy) == d);
        }
    }
    assert forall|bx: int, by: int, d: u8| 0 <= bx < 3 && 0 <= by < 3 implies (block_has(
        a,
        bx,
        by,
        d,
    ) <==> block_has(b, bx, by, d)) by {
        if block_has(a, bx, by, d) {
            let (xx, yy) = choose|xx: int, yy: int|
                in_grid(xx, yy) && xx / 3 == bx && yy / 3 == by && cell(a, xx, yy) == d;
            assert(cell(b, xx, yy) == d);
        }
        if block_has(b, bx, by, d) {
            let (xx, yy) = choose|xx: int, yy: int|
                in_grid(xx, yy) && xx / 3 == bx && yy / 3 == by && cell(b, xx, yy) == d;
            assert(cell(a, xx, yy) == d);
        }
    }
}

proof fn lemma_inv_transfer(
    m1: Matrix,
    t1: StateManager,
    wla: Seq<(usize, usize)>,
    m2: Matrix,
    t2: StateManager,
    wlb: Seq<(usize, usize)>,
)
    requires
        search_inv(m1, t1, wla),
        same_grid(m1, m2),
        same_tracker(t1, t2),
        wlb.no_duplicates(),
        wl_coords_ok(wlb),
        forall|x: int, y: int|
            in_grid(x, y) ==> (wl_has(wla, x, y) <==> #[trigger] wl_has(wlb, x, y)),
    ensures
        search_inv(m2, t2, wlb),
{
    lemma_same_grid_units(m1, m2);
    assert forall|x: int, y: int| in_grid(x, y) implies cell(m2, x, y) <= 9 by {
        assert(cell(m2, x, y) == cell(m1, x, y));
    }
    assert forall|x1: int, y1: int, x2: int, y2: int|
        sees(x1, y1, x2, y2) && cell_filled(m2, x1, y1) implies cell(m2, x1, y1) != cell(
        m2,
        x2,
        y2,
    ) by {
        assert(cell(m2, x1, y1) == cell(m1, x1, y1));
        assert(cell(m2, x2, y2) == cell(m1, x2, y2));
    }
    assert forall|y: int, d: u8| 0 <= y < 9 && 1 <= d <= 9 implies (mask_has(
        row_mask(t2, y),
        d,
    ) <==> row_has(m2, y, d)) by {
        assert(row_mask(t2, y) == row_mask(t1, y));
        assert(mask_has(row_mask(t1, y), d) <==> row_has(m1, y, d));
    }
    assert forall|x: int, d: u8| 0 <= x < 9 && 1 <= d <= 9 implies (mask_has(
        col_mask(t2, x),
        d,
    ) <==> col_has(m2, x, d)) by {
        assert(col_mask(t2, x) == col_mask(t1, x));
        assert(mask_has(col_mask(t1, x), d) <==> col_has(m1, x, d));
    }
    assert forall|bx: int, by: int, d: u8|
        0 <= bx < 3 && 0 <= by < 3 && 1 <= d <= 9 implies (mask_has(
        block_mask(t2, bx, by),
        d,
    ) <==> block_has(m2, bx, by, d)) by {
        assert(block_mask(t2, bx, by) == block_mask(t1, bx, by));
        assert(mask_has(block_mask(t1, bx, by), d) <==> block_has(m1, bx, by, d));
    }
    assert forall|x: int, y: int| in_grid(x, y) implies (cell(m2, x, y) == 0 <==> wl_has(
        wlb,
        x,
        y,
    )) by {
        assert(cell(m2, x, y) == cell(m1, x, y));
        assert(cell(m1, x, y) == 0 <==> wl_has(wla, x, y));
        assert(wl_has(wla, x, y) <==> wl_has(wlb, x, y));
    }
    assert(tracker_matches(t2, m2));
    assert(wl_ok(m2, wlb));
}

proof fn lemma_set_transfer(t0: StateManager, tp: StateManager, tn: StateManager, x: int, y: int, val: u8)
    requires
        same_tracker(t0, tp),
        tracker_after_set(tp, tn, x, y, val),
        in_grid(x, y),
    ensures
        tracker_after_set(t0, tn, x, y, val),
{
    assert(row_mask(tp, y) == row_mask(t0, y));
    assert(col_mask(tp, x) == col_mask(t0, x));
    assert(block_mask(tp, x / 3, y / 3) == block_mask(t0, x / 3, y / 3));
    assert forall|i: int| 0 <= i < 9 && i != y implies #[trigger] row_mask(tn, i) == row_mask(
        t0,
        i,
    ) by {
        assert(row_mask(tn, i) == row_mask(tp, i));
        assert(row_mask(tp, i) == row_mask(t0, i));
    }
    assert forall|i: int| 0 <= i < 9 && i != x implies #[trigger] col_mask(tn, i) == col_mask(
        t0,
        i,
    ) by {
        assert(col_mask(tn, i) == col_mask(tp, i));
        assert(col_mask(tp, i) == col_mask(t0, i));
    }
    assert forall|bx: int, by: int|
        0 <= bx < 3 && 0 <= by < 3 && !(bx == x / 3 && by == y / 3) implies #[trigger] block_mask(
        tn,
        bx,
        by,
    ) == block_mask(t0, bx, by) by {
        assert(block_mask(tn, bx, by) == block_mask(tp, bx, by));
        assert(block_mask(tp, bx, by) == block_mask(t0, bx, by));
    }
}

proof fn lemma_wl_swap_remove(s: Seq<(usize, usize)>, i: int)
    requires
        s.no_duplicates(),
        0 <= i < s.len(),
    ensures
        ({
            let t = s.update(i, s.last()).drop_last();
            &&& t.no_duplicates()
            &&& t.len() == s.len() - 1
            &&& !wl_has(t, s[i].0 as int, s[i].1 as int)
            &&& forall|x: int, y: int|
                #![trigger wl_has(t, x, y)]
                wl_has(t, x, y) <==> (wl_has(s, x, y) && !(s[i].0 as int == x && s[i].1 as int
                    == y))
        }),
{
    let t = s.update(i, s.last()).drop_last();
    let n = s.len() as int;
    assert forall|k: int| 0 <= k < n - 1 implies t[k] == (if k == i {
        s[n - 1]
    } else {
        s[k]
    }) by {
        assert(t[k] == s.update(i, s.last())[k]);
    }
    assert forall|k1: int, k2: int|
        0 <= k1 < t.len() && 0 <= k2 < t.len() && k1 != k2 implies t[k1] != t[k2] by {
        let f1 = if k1 == i { n - 1 } else { k1 };
        let f2 = if k2 == i { n - 1 } else { k2 };
        assert(t[k1] == s[f1]);
        assert(t[k2] == s[f2]);
        assert(s[f1] != s[f2]);
    }
    assert(t.no_duplicates());
    assert forall|k: int| 0 <= k < n - 1 implies t[k] != s[i] by {
        let f = if k == i { n - 1 } else { k };
        assert(f != i);
        assert(t[k] == s[f]);
        assert(s[f] != s[i]);
    }
    assert forall|x: int, y: int| wl_has(t, x, y) implies (wl_has(s, x, y) && !(s[i].0 as int == x
        && s[i].1 as int == y)) by {
        let k = choose|k: int| 0 <= k < t.len() && t[k].0 as int == x && t[k].1 as int == y;
        let f = if k == i { n - 1 } else { k };
        assert(t[k] == s[f]);
        assert(0 <= f < n && s[f].0 as int == x && s[f].1 as int == y);
        assert(wl_has(s, x, y));
        if s[i].0 as int == x && s[i].1 as int == y {
            assert(s[f].0 == s[i].0 && s[f].1 == s[i].1);
            assert(s[f] == s[i]);
            assert(false);
        }
    }
    assert forall|x: int, y: int|
        wl_has(s, x, y) && !(s[i].0 as int == x && s[i].1 as int == y) implies wl_has(
        t,
        x,
        y,
    ) by {
        let k = choose|k: int| 0 <= k < n && s[k].0 as int == x && s[k].1 as int == y;
        assert(k != i);
        if k == n - 1 {
            assert(i < n - 1);
            assert(t[i] == s[n - 1]);
            assert(wl_has(t, x, y));
        } else {
            assert(t[k] == s[k]);
            assert(wl_has(t, x, y));
        }
    }
}

proof fn lemma_wl_push(s: Seq<(usize, usize)>, p: (usize, usize))
    requires
        s.no_duplicates(),
        !wl_has(s, p.0 as int, p.1 as int),
    ensures
        s.push(p).no_duplicates(),
        s.push(p).len() == s.len() + 1,
        forall|x: int, y: int|
            #![trigger wl_has(s.push(p), x, y)]
            wl_has(s.push(p), x, y) <==> (wl_has(s, x, y) || (p.0 as int == x && p.1 as int == y)),
{
    let t = s.push(p);
    let n = s.len() as int;
    assert(t[n] == p);
    assert forall|k1: int, k2: int|
        0 <= k1 < t.len() && 0 <= k2 < t.len() && k1 != k2 implies t[k1] != t[k2] by {
        if k1 < n && k2 < n {
            assert(t[k1] == s[k1]);
            assert(t[k2] == s[k2]);
            assert(s[k1] != s[k2]);
        } else if k1 < n {
            assert(t[k1] == s[k1]);
            if s[k1] == p {
                assert(s[k1].0 as int == p.0 as int && s[k1].1 as int == p.1 as int);
                assert(wl_has(s, p.0 as int, p.1 as int));
                assert(false);
            }
        } else {
            assert(k2 < n);
            assert(t[k2] == s[k2]);
            if s[k2] == p {
                assert(s[k2].0 as int == p.0 as int && s[k2].1 as int == p.1 as int);
                assert(wl_has(s, p.0 as int, p.1 as int));
                assert(false);
            }
        }
    }
    assert(t.no_duplicates());
    assert forall|x: int, y: int| wl_has(t, x, y) implies (wl_has(s, x, y) || (p.0 as int == x
        && p.1 as int == y)) by {
        let k = choose|k: int| 0 <= k < t.len() && t[k].0 as int == x && t[k].1 as int == y;
        if k < n {
            assert(t[k] == s[k]);
            assert(wl_has(s, x, y));
        } else {
            assert(t[k] == p);
        }
    }
    assert forall|x: int, y: int|
        wl_has(s, x, y) || (p.0 as int == x && p.1 as int == y) implies wl_has(t, x, y) by {
        if wl_has(s, x, y) {
            let k = choose|k: int| 0 <= k < n && s[k].0 as int == x && s[k].1 as int == y;
            assert(t[k] == s[k]);
            assert(wl_has(t, x, y));
        } else {
            assert(t[n] == p);
            assert(wl_has(t, x, y));
        }
    }
}

proof fn lemma_place(
    m0: Matrix,
    m1: Matrix,
    t0: StateManager,
    t1: StateManager,
    x: int,
    y: int,
    val: u8,
)
    requires
        in_grid(x, y),
        1 <= val <= 9,
        values_ok(m0),
        dup_free(m0),
        tracker_matches(t0, m0),
        cell(m0, x, y) == 0,
        !blocked(t0, x, y, val),
        cell(m1, x, y) == val,
        forall|a: int, b: int|
            in_grid(a, b) && !(a == x && b == y) ==> #[trigger] cell(m1, a, b) == cell(m0, a, b),
        tracker_after_set(t0, t1, x, y, val),
    ensures
        values_ok(m1),
        dup_free(m1),
        tracker_matches(t1, m1),
{
    assert forall|a: int, b: int| in_grid(a, b) implies cell(m1, a, b) <= 9 by {
        if !(a == x && b == y) {
            assert(cell(m1, a, b) == cell(m0, a, b));
        }
    }
    // No digit equal to val is placed in the row, column or block of (x, y).
    assert(!mask_has(row_mask(t0, y), val));
    assert(!mask_has(col_mask(t0, x), val));
    assert(!mask_has(block_mask(t0, x / 3, y / 3), val));
    assert(!row_has(m0, y, val));
    assert(!col_has(m0, x, val));
    assert(!block_has(m0, x / 3, y / 3, val));
    assert forall|x1: int, y1: int, x2: int, y2: int|
        sees(x1, y1, x2, y2) && cell_filled(m1, x1, y1) implies cell(m1, x1, y1) != cell(
        m1,
        x2,
        y2,
    ) by {
        if x1 == x && y1 == y {
            assert(cell(m1, x2, y2) == cell(m0, x2, y2));
            if cell(m0, x2, y2) == val {
                if y2 == y {
                    assert(row_has(m0, y, val));
                } else if x2 == x {
                    assert(col_has(m0, x, val));
                } else {
                    assert(x2 / 3 == x / 3 && y2 / 3 == y / 3);
                    assert(block_has(m0, x / 3, y / 3, val));
                }
                assert(false);
            }
        } else if x2 == x && y2 == y {
            assert(cell(m1, x1, y1) == cell(m0, x1, y1));
            if cell(m0, x1, y1) == val {
                if y1 == y {
                    assert(row_has(m0, y, val));
                } else if x1 == x {
                    assert(col_has(m0, x, val));
                } else {
                    assert(x1 / 3 == x / 3 && y1 / 3 == y / 3);
                    assert(block_has(m0, x / 3, y / 3, val));
                }
                assert(false);
            }
        } else {
            assert(cell(m1, x1, y1) == cell(m0, x1, y1));
            assert(cell(m1, x2, y2) == cell(m0, x2, y2));
            assert(cell_filled(m0, x1, y1));
        }
    }
    // Row masks.
    assert forall|j: int, d: u8| 0 <= j < 9 && 1 <= d <= 9 implies (mask_has(
        row_mask(t1, j),
        d,
    ) <==> row_has(m1, j, d)) by {
        if j != y {
            assert(row_mask(t1, j) == row_mask(t0, j));
            assert(mask_has(row_mask(t0, j), d) <==> row_has(m0, j, d));
            if row_has(m0, j, d) {
                let xx = choose|xx: int| 0 <= xx < 9 && cell(m0, xx, j) == d;
                assert(cell(m1, xx, j) == d);
            }
            if row_has(m1, j, d) {
                let xx = choose|xx: int| 0 <= xx < 9 && cell(m1, xx, j) == d;
                assert(cell(m0, xx, j) == d);
            }
        } else {
            lemma_bit_or(row_mask(t0, y), val, d);
            assert(mask_has(row_mask(t0, y), d) <==> row_has(m0, y, d));
            if row_has(m0, y, d) {
                let xx = choose|xx: int| 0 <= xx < 9 && cell(m0, xx, y) == d;
                assert(xx != x);
                assert(cell(m1, xx, y) == d);
            }
            if d == val {
                assert(cell(m1, x, y) == d);
            }
            if row_has(m1, y, d) && d != val {
                let xx = choose|xx: int| 0 <= xx < 9 && cell(m1, xx, y) == d;
                assert(xx != x);
                assert(cell(m0, xx, y) == d);
            }
        }
    }
    // Column masks.
    assert forall|j: int, d: u8| 0 <= j < 9 && 1 <= d <= 9 implies (mask_has(
        col_mask(t1, j),
        d,
    ) <==> col_has(m1, j, d)) by {
        if j != x {
            assert(col_mask(t1, j) == col_mask(t0, j));
            assert(mask_has(col_mask(t0, j), d) <==> col_has(m0, j, d));
            if col_has(m0, j, d) {
                let yy = choose|yy: int| 0 <= yy < 9 && cell(m0, j, yy) == d;
                assert(cell(m1, j, yy) == d);
            }
            if col_has(m1, j, d) {
                let yy = choose|yy: int| 0 <= yy < 9 && cell(m1, j, yy) == d;
                assert(cell(m0, j, yy) == d);
            }
        } else {
            lemma_bit_or(col_mask(t0, x), val, d);
            assert(mask_has(col_mask(t0, x), d) <==> col_has(m0, x, d));
            if col_has(m0, x, d) {
                let yy = choose|yy: int| 0 <= yy < 9 && cell(m0, x, yy) == d;
                assert(yy != y);
                assert(cell(m1, x, yy) == d);
            }
            if d == val {
                assert(cell(m1, x, y) == d);
            }
            if col_has(m1, x, d) && d != val {
                let yy = choose|yy: int| 0 <= yy < 9 && cell(m1, x, yy) == d;
                assert(yy != y);
                assert(cell(m0, x, yy) == d);
            }
        }
    }
    // Block masks.
    assert forall|bx: int, by: int, d: u8|
        0 <= bx < 3 && 0 <= by < 3 && 1 <= d <= 9 implies (mask_has(
        block_mask(t1, bx, by),
        d,
    ) <==> block_has(m1, bx, by, d)) by {
        if !(bx == x / 3 && by == y / 3) {
            assert(block_mask(t1, bx, by) == block_mask(t0, bx, by));
            assert(mask_has(block_mask(t0, bx, by), d) <==> block_has(m0, bx, by, d));
            if block_has(m0, bx, by, d) {
                let (xx, yy) = choose|xx: int, yy: int|
                    in_grid(xx, yy) && xx / 3 == bx && yy / 3 == by && cell(m0, xx, yy) == d;
                assert(!(xx == x && yy == y));
                assert(cell(m1, xx, yy) == d);
            }
            if block_has(m1, bx, by, d) {
                let (xx, yy) = choose|xx: int, yy: int|
                    in_grid(xx, yy) && xx / 3 == bx && yy / 3 == by && cell(m1, xx, yy) == d;
                assert(!(xx == x && yy == y));
                assert(cell(m0, xx, yy) == d);
            }
        } else {
            lemma_bit_or(block_mask(t0, bx, by), val, d);
            assert(mask_has(block_mask(t0, bx, by), d) <==> block_has(m0, bx, by, d));
            if block_has(m0, bx, by, d) {
                let (xx, yy) = choose|xx: int, yy: int|
                    in_grid(xx, yy) && xx / 3 == bx && yy / 3 == by && cell(m0, xx, yy) == d;
                assert(!(xx == x && yy == y));
                assert(cell(m1, xx, yy) == d);
            }
            if d == val {
                assert(cell(m1, x, y) == d);
            }
            if block_has(m1, bx, by, d) && d != val {
                let (xx, yy) = choose|xx: int, yy: int|
                    in_grid(xx, yy) && xx / 3 == bx && yy / 3 == by && cell(m1, xx, yy) == d;
                assert(!(xx == x && yy == y));
                assert(cell(m0, xx, yy) == d);
            }
        }
    }
    assert(tracker_matches(t1, m1));
}

/// Some solved grid completes `m` and places the digit `d` at (x, y).
spec fn completable_with(m: Matrix, x: int, y: int, d: u8) -> bool {
    exists|s: Matrix| solved(s) && #[trigger] keeps_filled(m, s) && cell(s, x, y) == d
}

proof fn lemma_free_upto_zero(t: StateManager, x: int, y: int, k: int)
    requires
        0 <= k <= 9,
        free_upto(t, x, y, 9) == 0,
    ensures
        free_upto(t, x, y, k) == 0,
    decreases 9 - k,
{
    if k < 9 {
        lemma_free_upto_zero(t, x, y, k + 1);
    }
}

proof fn lemma_all_blocked_of_no_free(t: StateManager, x: int, y: int)
    requires
        free_count(t, x, y) == 0,
    ensures
        forall|d: u8| 1 <= d <= 9 ==> blocked(t, x, y, d),
{
    assert forall|d: u8| 1 <= d <= 9 implies blocked(t, x, y, d) by {
        lemma_free_upto_zero(t, x, y, d as int);
        lemma_free_upto_zero(t, x, y, d - 1);
        assert(free_upto(t, x, y, d as int) == free_upto(t, x, y, d - 1) + (if blocked(
            t,
            x,
            y,
            d,
        ) {
            0nat
        } else {
            1nat
        }));
    }
}

/// A digit that the tracker already blocks at an empty cell can stand there
/// in no completion: the digit it conflicts with is kept by every completion.
proof fn lemma_blocked_not_completable(m: Matrix, t: StateManager, x: int, y: int, d: u8)
    requires
        in_grid(x, y),
        1 <= d <= 9,
        tracker_matches(t, m),
        cell(m, x, y) == 0,
        blocked(t, x, y, d),
    ensures
        !completable_with(m, x, y, d),
{
    if completable_with(m, x, y, d) {
        let s = choose|s: Matrix|
            solved(s) && #[trigger] keeps_filled(m, s) && cell(s, x, y) == d;
        if mask_has(row_mask(t, y), d) {
            assert(row_has(m, y, d));
            let a = choose|a: int| 0 <= a < 9 && cell(m, a, y) == d;
            assert(a != x);
            assert(cell_filled(m, a, y));
            assert(cell(s, a, y) == d);
            assert(sees(a, y, x, y));
            assert(cell_filled(s, a, y));
            assert(cell(s, a, y) != cell(s, x, y));
            assert(false);
        } else if mask_has(col_mask(t, x), d) {
            assert(col_has(m, x, d));
            let b = choose|b: int| 0 <= b < 9 && cell(m, x, b) == d;
            assert(b != y);
            assert(cell_filled(m, x, b));
            assert(cell(s, x, b) == d);
            assert(sees(x, b, x, y));
            assert(cell_filled(s, x, b));
            assert(cell(s, x, b) != cell(s, x, y));
            assert(false);
        } else {
            assert(mask_has(block_mask(t, x / 3, y / 3), d));
            assert(block_has(m, x / 3, y / 3, d));
            let (a, b) = choose|a: int, b: int|
                in_grid(a, b) && a / 3 == x / 3 && b / 3 == y / 3 && cell(m, a, b) == d;
            assert(!(a == x && b == y));
            assert(cell_filled(m, a, b));
            assert(cell(s, a, b) == d);
            assert(sees(a, b, x, y));
            assert(cell_filled(s, a, b));
            assert(cell(s, a, b) != cell(s, x, y));
            assert(false);
        }
    }
}

/// Fill every cell on the worklist with a digit by depth-first search over
/// the most constrained cell, undoing each trial that fails. On success the
/// grid is a complete solution that keeps every already placed digit; the
/// search is exhaustive, so failure means no such solution exists, and it
/// leaves grid and tracker exactly as before, with the worklist holding the
/// same cells. An already full grid is returned at once, untouched.
fn fill(mtx: &mut Matrix, empty_cells: &mut Vec<(usize, usize)>, manager: &mut StateManager) -> (r:
    bool)
    requires
        search_inv(*old(mtx), *old(manager), old(empty_cells)@),
    ensures
        search_inv(*final(mtx), *final(manager), final(empty_cells)@),
        old(empty_cells)@.len() == 0 ==> (r && *final(mtx) == *old(mtx) && *final(manager)
            == *old(manager) && final(empty_cells)@.len() == 0),
        r ==> solved(*final(mtx)) && keeps_filled(*old(mtx), *final(mtx)),
        !r ==> same_grid(*old(mtx), *final(mtx)) && same_tracker(*old(manager), *final(manager))
            && final(empty_cells)@.len() == old(empty_cells)@.len(),
        r <==> completable(*old(mtx)),
    decreases old(empty_cells)@.len(),
{
    if empty_cells.len() == 0 {
        proof {
            assert forall|a: int, b: int| in_grid(a, b) implies cell_filled(*mtx, a, b) by {
                assert(cell(*mtx, a, b) == 0 <==> wl_has(empty_cells@, a, b));
                assert(cell(*mtx, a, b) <= 9);
            }
            assert(keeps_filled(*old(mtx), *mtx));
            assert(completable(*old(mtx)));
        }
        return true;
    }
    // Select the cell with the fewest candidates (first of the minima).
    let n: usize = empty_cells.len();
    let first: (usize, usize) = empty_cells[0];
    proof {
        assert(in_grid(empty_cells@[0].0 as int, empty_cells@[0].1 as int));
    }
    let mut min_idx: usize = 0;
    let mut min_cnt: u8 = manager.num_candidates(first.0, first.1);
    let mut k: usize = 1;
    while k < n
        invariant
            1 <= k <= n,
            min_idx < k,
            n == empty_cells@.len(),
            wl_coords_ok(empty_cells@),
        decreases n - k,
    {
        proof {
            assert(in_grid(empty_cells@[k as int].0 as int, empty_cells@[k as int].1 as int));
        }
        let p: (usize, usize) = empty_cells[k];
        let c: u8 = manager.num_candidates(p.0, p.1);
        if c < min_cnt {
            min_idx = k;
            min_cnt = c;
        }
        k = k + 1;
    }
    proof {
        lemma_wl_swap_remove(empty_cells@, min_idx as int);
        assert(in_grid(
            empty_cells@[min_idx as int].0 as int,
            empty_cells@[min_idx as int].1 as int,
        ));
        assert(wl_has(
            empty_cells@,
            empty_cells@[min_idx as int].0 as int,
            empty_cells@[min_idx as int].1 as int,
        ));
    }
    let picked: (usize, usize) = empty_cells.swap_remove(min_idx);
    let x: usize = picked.0;
    let y: usize = picked.1;

    let ghost g0: Matrix = *mtx;
    let ghost t0: StateManager = *manager;
    let ghost wl1: Seq<(usize, usize)> = empty_cells@;
    proof {
        assert(cell(g0, x as int, y as int) == 0);
        assert(!wl_has(wl1, x as int, y as int));
        assert forall|a: int, b: int| in_grid(a, b) implies (cell(g0, a, b) == 0 <==> (wl_has(
            wl1,
            a,
            b,
        ) || (a == x as int && b == y as int))) by {
            assert(cell(g0, a, b) == 0 <==> wl_has(old(empty_cells)@, a, b));
        }
    }
    // Backtrack at once if the cell has no candidates.
    if manager.num_candidates(x, y) == 0 {
        empty_cells.push((x, y));
        proof {
            lemma_wl_push(wl1, (x, y));
            assert forall|a: int, b: int| in_grid(a, b) implies (wl_has(old(empty_cells)@, a, b)
                <==> wl_has(empty_cells@, a, b)) by {
                assert(wl_has(empty_cells@, a, b) <==> (wl_has(wl1, a, b) || ((x as int) == a && (
                y as int) == b)));
                assert(cell(g0, a, b) == 0 <==> wl_has(old(empty_cells)@, a, b));
            }
            assert forall|k: int| 0 <= k < empty_cells@.len() implies in_grid(
                #[trigger] empty_cells@[k].0 as int,
                empty_cells@[k].1 as int,
            ) by {
                if k < wl1.len() {
                    assert(empty_cells@[k] == wl1[k]);
                    assert(in_grid(wl1[k].0 as int, wl1[k].1 as int));
                } else {
                    assert(empty_cells@[k] == (x, y));
                }
            }
            assert(wl_coords_ok(empty_cells@));
            lemma_inv_transfer(g0, t0, old(empty_cells)@, *mtx, *manager, empty_cells@);
            // A cell with no candidates admits no completion at all.
            if completable(g0) {
                let s = choose|s: Matrix| solved(s) && #[trigger] keeps_filled(g0, s);
                let dv = cell(s, x as int, y as int);
                assert(cell_filled(s, x as int, y as int));
                lemma_all_blocked_of_no_free(t0, x as int, y as int);
                assert(blocked(t0, x as int, y as int, dv));
                lemma_blocked_not_completable(g0, t0, x as int, y as int, dv);
                assert(completable_with(g0, x as int, y as int, dv));
                assert(false);
            }
        }
        return false;
    }
    // Try each candidate digit in ascending order.
    let mut it: Candidates = manager.candidates(x, y);
    let ghost src: u16 = it.source();
    proof {
        assert forall|d: u8| 1 <= d <= 9 implies (#[trigger] mask_has(src, d) <==> blocked(
            t0,
            x as int,
            y as int,
            d,
        )) by {
            assert(it.excluded(d) <==> blocked(*manager, x as int, y as int, d));
        }
    }
    loop
        invariant
            x < 9,
            y < 9,
            cell(g0, x as int, y as int) == 0,
            values_ok(g0),
            dup_free(g0),
            tracker_matches(t0, g0),
            wl1.no_duplicates(),
            wl_coords_ok(wl1),
            !wl_has(wl1, x as int, y as int),
            wl1.len() + 1 == old(empty_cells)@.len(),
            forall|a: int, b: int|
                in_grid(a, b) ==> (#[trigger] cell(g0, a, b) == 0 <==> (wl_has(wl1, a, b) || (a
                    == x as int && b == y as int))),
            search_inv(*old(mtx), *old(manager), old(empty_cells)@),
            *old(mtx) == g0,
            *old(manager) == t0,
            it.wf(),
            it.source() == src,
            forall|d: u8|
                1 <= d <= 9 ==> (#[trigger] mask_has(src, d) <==> blocked(
                    t0,
                    x as int,
                    y as int,
                    d,
                )),
            same_grid(g0, *mtx),
            same_tracker(t0, *manager),
            empty_cells@.no_duplicates(),
            wl_coords_ok(empty_cells@),
            empty_cells@.len() == wl1.len(),
            forall|a: int, b: int|
                in_grid(a, b) ==> (#[trigger] wl_has(empty_cells@, a, b) <==> wl_has(wl1, a, b)),
            forall|d: u8|
                1 <= d <= it.pos() && !mask_has(src, d) ==> !#[trigger] completable_with(
                    g0,
                    x as int,
                    y as int,
                    d,
                ),
        ensures
            same_grid(g0, *mtx),
            same_tracker(t0, *manager),
            empty_cells@.no_duplicates(),
            wl_coords_ok(empty_cells@),
            empty_cells@.len() == wl1.len(),
            forall|a: int, b: int|
                in_grid(a, b) ==> (#[trigger] wl_has(empty_cells@, a, b) <==> wl_has(wl1, a, b)),
            forall|d: u8|
                1 <= d <= 9 && !mask_has(src, d) ==> !#[trigger] completable_with(
                    g0,
                    x as int,
                    y as int,
                    d,
                ),
        decreases 9 - it.pos(),
    {
        let ghost it0: Candidates = it;
        match it.next() {
            None => {
                proof {
                    assert forall|d: u8|
                        1 <= d <= 9 && !mask_has(src, d) implies !completable_with(
                        g0,
                        x as int,
                        y as int,
                        d,
                    ) by {
                        if d > it0.pos() {
                            assert(it0.excluded(d));
                            assert(mask_has(src, d));
                        }
                    }
                }
                break;
            },
            Some(val) => {
                proof {
                    assert(!mask_has(src, val));
                    assert(!blocked(t0, x as int, y as int, val));
                    lemma_blocked_same(t0, *manager, x as int, y as int, val);
                }
                let ghost t_pre: StateManager = *manager;
                let placed: bool = manager.set(x, y, val);
                proof {
                    assert(placed);
                    lemma_set_transfer(t0, t_pre, *manager, x as int, y as int, val);
                }
                let ghost m_before: Matrix = *mtx;
                mtx[y][x] = val;
                proof {
                    assert forall|a: int, b: int|
                        in_grid(a, b) && !(a == x as int && b == y as int) implies #[trigger] cell(
                        *mtx,
                        a,
                        b,
                    ) == cell(g0, a, b) by {
                        assert(cell(*mtx, a, b) == cell(m_before, a, b));
                        assert(cell(m_before, a, b) == cell(g0, a, b));
                    }
                    assert(cell(*mtx, x as int, y as int) == val);
                    lemma_place(g0, *mtx, t0, *manager, x as int, y as int, val);
                    assert forall|a: int, b: int| in_grid(a, b) implies (#[trigger] cell(
                        *mtx,
                        a,
                        b,
                    ) == 0 <==> wl_has(empty_cells@, a, b)) by {
                        if a == x as int && b == y as int {
                            assert(cell(*mtx, a, b) == val);
                            assert(wl_has(empty_cells@, a, b) <==> wl_has(wl1, a, b));
                        } else {
                            assert(cell(*mtx, a, b) == cell(g0, a, b));
                            assert(wl_has(empty_cells@, a, b) <==> wl_has(wl1, a, b));
                        }
                    }
                    assert(wl_ok(*mtx, empty_cells@));
                    assert(search_inv(*mtx, *manager, empty_cells@));
                }
                let ghost m_trial: Matrix = *mtx;
                let ghost t_trial: StateManager = *manager;
                let ghost wl_trial: Seq<(usize, usize)> = empty_cells@;
                if fill(mtx, empty_cells, manager) {
                    proof {
                        assert forall|a: int, b: int|
                            in_grid(a, b) && cell_filled(g0, a, b) implies #[trigger] cell(
                            *mtx,
                            a,
                            b,
                        ) == cell(g0, a, b) by {
                            assert(!(a == x as int && b == y as int));
                            assert(cell(m_trial, a, b) == cell(g0, a, b));
                            assert(cell_filled(m_trial, a, b));
                            assert(cell(*mtx, a, b) == cell(m_trial, a, b));
                        }
                        assert(keeps_filled(*old(mtx), *mtx));
                        assert(solved(*mtx));
                        assert(completable(*old(mtx)));
                    }
                    return true;
                }
                let ghost t_fail: StateManager = *manager;
                let ghost m_fail: Matrix = *mtx;
                let ghost wl_fail: Seq<(usize, usize)> = empty_cells@;
                manager.remove(x, y, val);
                mtx[y][x] = 0;
                proof {
                    // The tracker is back to the masks it had before the trial.
                    lemma_bit_restore(row_mask(t0, y as int), val);
                    lemma_bit_restore(col_mask(t0, x as int), val);
                    lemma_bit_restore(block_mask(t0, x as int / 3, y as int / 3), val);
                    assert(row_mask(t_fail, y as int) == row_mask(t_trial, y as int));
                    assert(col_mask(t_fail, x as int) == col_mask(t_trial, x as int));
                    assert(block_mask(t_fail, x as int / 3, y as int / 3) == block_mask(
                        t_trial,
                        x as int / 3,
                        y as int / 3,
                    ));
                    assert(row_mask(*manager, y as int) == row_mask(t0, y as int));
                    assert(col_mask(*manager, x as int) == col_mask(t0, x as int));
                    assert(block_mask(*manager, x as int / 3, y as int / 3) == block_mask(
                        t0,
                        x as int / 3,
                        y as int / 3,
                    ));
                    assert forall|i: int| 0 <= i < 9 implies #[trigger] row_mask(t0, i)
                        == row_mask(*manager, i) by {
                        if i != y as int {
                            assert(row_mask(*manager, i) == row_mask(t_fail, i));
                            assert(row_mask(t_fail, i) == row_mask(t_trial, i));
                            assert(row_mask(t_trial, i) == row_mask(t0, i));
                        }
                    }
                    assert forall|i: int| 0 <= i < 9 implies #[trigger] col_mask(t0, i)
                        == col_mask(*manager, i) by {
                        if i != x as int {
                            assert(col_mask(*manager, i) == col_mask(t_fail, i));
                            assert(col_mask(t_fail, i) == col_mask(t_trial, i));
                            assert(col_mask(t_trial, i) == col_mask(t0, i));
                        }
                    }
                    assert forall|bx: int, by: int| 0 <= bx < 3 && 0 <= by < 3 implies #[trigger]
                    block_mask(t0, bx, by) == block_mask(*manager, bx, by) by {
                        if !(bx == x as int / 3 && by == y as int / 3) {
                            assert(block_mask(*manager, bx, by) == block_mask(t_fail, bx, by));
                            assert(block_mask(t_fail, bx, by) == block_mask(t_trial, bx, by));
                            assert(block_mask(t_trial, bx, by) == block_mask(t0, bx, by));
                        }
                    }
                    assert(same_tracker(t0, *manager));
                    // The grid is back to the cells it had before the trial.
                    assert forall|a: int, b: int| in_grid(a, b) implies #[trigger] cell(g0, a, b)
                        == cell(*mtx, a, b) by {
                        if !(a == x as int && b == y as int) {
                            assert(cell(*mtx, a, b) == cell(m_fail, a, b));
                            assert(cell(m_fail, a, b) == cell(m_trial, a, b));
                            assert(cell(m_trial, a, b) == cell(g0, a, b));
                        }
                    }
                    assert(same_grid(g0, *mtx));
                    // The worklist still lists the same cells.
                    assert forall|a: int, b: int| in_grid(a, b) implies (#[trigger] wl_has(
                        empty_cells@,
                        a,
                        b,
                    ) <==> wl_has(wl1, a, b)) by {
                        assert(cell(m_fail, a, b) == 0 <==> wl_has(wl_fail, a, b));
                        assert(cell(m_fail, a, b) == cell(m_trial, a, b));
                        if a == x as int && b == y as int {
                            assert(cell(m_trial, a, b) == val);
                        } else {
                            assert(cell(m_trial, a, b) == cell(g0, a, b));
                            assert(cell(g0, a, b) == 0 <==> (wl_has(wl1, a, b) || (a == x as int
                                && b == y as int)));
                        }
                    }
                    // The failed trial rules this digit out: a completion
                    // placing it here would complete the trial grid too.
                    if completable_with(g0, x as int, y as int, val) {
                        let s = choose|s: Matrix|
                            solved(s) && #[trigger] keeps_filled(g0, s) && cell(
                                s,
                                x as int,
                                y as int,
                            ) == val;
                        assert forall|a: int, b: int|
                            in_grid(a, b) && cell_filled(m_trial, a, b) implies #[trigger] cell(
                            s,
                            a,
                            b,
                        ) == cell(m_trial, a, b) by {
                            if !(a == x as int && b == y as int) {
                                assert(cell(m_trial, a, b) == cell(g0, a, b));
                                assert(cell_filled(g0, a, b));
                                assert(cell(s, a, b) == cell(g0, a, b));
                            } else {
                                assert(cell(m_trial, a, b) == val);
                            }
                        }
                        assert(keeps_filled(m_trial, s));
                        assert(completable(m_trial));
                        assert(false);
                    }
                    assert forall|d: u8|
                        1 <= d <= it.pos() && !mask_has(src, d) implies !completable_with(
                        g0,
                        x as int,
                        y as int,
                        d,
                    ) by {
                        if d <= it0.pos() {
                        } else if d < val {
                            assert(it0.excluded(d));
                            assert(mask_has(src, d));
                        } else {
                            assert(d == val);
                        }
                    }
                }
            },
        }
    }
    // Every candidate failed: restore the cell to the worklist and report
    // failure one level up.
    let ghost wl_cur: Seq<(usize, usize)> = empty_cells@;
    let ghost m_exit: Matrix = *mtx;
    empty_cells.push((x, y));
    mtx[y][x] = 0;
    proof {
        assert forall|a: int, b: int| in_grid(a, b) implies #[trigger] cell(g0, a, b) == cell(
            *mtx,
            a,
            b,
        ) by {
            if !(a == x as int && b == y as int) {
                assert(cell(*mtx, a, b) == cell(m_exit, a, b));
                assert(cell(m_exit, a, b) == cell(g0, a, b));
            }
        }
        assert(wl_has(wl_cur, x as int, y as int) <==> wl_has(wl1, x as int, y as int));
        lemma_wl_push(wl_cur, (x, y));
        assert(empty_cells@ == wl_cur.push((x, y)));
        assert forall|a: int, b: int| in_grid(a, b) implies (wl_has(old(empty_cells)@, a, b)
            <==> wl_has(empty_cells@, a, b)) by {
            assert(wl_has(empty_cells@, a, b) <==> (wl_has(wl_cur, a, b) || ((x as int) == a && (
            y as int) == b)));
            assert(wl_has(wl_cur, a, b) <==> wl_has(wl1, a, b));
            assert(cell(g0, a, b) == 0 <==> wl_has(old(empty_cells)@, a, b));
        }
        assert forall|k: int| 0 <= k < empty_cells@.len() implies in_grid(
            #[trigger] empty_cells@[k].0 as int,
            empty_cells@[k].1 as int,
        ) by {
            if k < wl_cur.len() {
                assert(empty_cells@[k] == wl_cur[k]);
                assert(in_grid(wl_cur[k].0 as int, wl_cur[k].1 as int));
            } else {
                assert(empty_cells@[k] == (x, y));
            }
        }
        assert(wl_coords_ok(empty_cells@));
        assert(same_grid(g0, *mtx));
        lemma_inv_transfer(g0, t0, old(empty_cells)@, *mtx, *manager, empty_cells@);
        // Every digit was either blocked from the start or ruled out by a
        // failed trial, so no completion fills this cell at all.
        if completable(g0) {
            let s = choose|s: Matrix| solved(s) && #[trigger] keeps_filled(g0, s);
            let dv = cell(s, x as int, y as int);
            assert(cell_filled(s, x as int, y as int));
            if mask_has(src, dv) {
                assert(blocked(t0, x as int, y as int, dv));
                lemma_blocked_not_completable(g0, t0, x as int, y as int, dv);
                assert(completable_with(g0, x as int, y as int, dv));
                assert(false);
            } else {
                assert(!completable_with(g0, x as int, y as int, dv));
                assert(completable_with(g0, x as int, y as int, dv));
                assert(false);
            }
        }
    }
    false
}

// ---------------------------------------------------------------------------
// Validating the given digits, scanning the grid cell by cell
// ---------------------------------------------------------------------------
/// The cell (a, b) comes before position `p` in the row-major scan.
spec fn scanned(a: int, b: int, p: int) -> bool {
    b * 9 + a < p
}

spec fn row_has_pre(m: Matrix, yy: int, d: u8, p: int) -> bool {
    exists|a: int| 0 <= a < 9 && scanned(a, yy, p) && cell(m, a, yy) == d
}

spec fn col_has_pre(m: Matrix, xx: int, d: u8, p: int) -> bool {
    exists|b: int| 0 <= b < 9 && scanned(xx, b, p) && cell(m, xx, b) == d
}

spec fn block_has_pre(m: Matrix, bx: int, by: int, d: u8, p: int) -> bool {
    exists|a: int, b: int|
        in_grid(a, b) && a / 3 == bx && b / 3 == by && scanned(a, b, p) && cell(m, a, b) == d
}

/// Each mask records exactly the digits among the first `p` scanned cells of
/// its row, column or block.
spec fn matches_pre(t: StateManager, m: Matrix, p: int) -> bool {
    (forall|y: int, d: u8|
        0 <= y < 9 && 1 <= d <= 9 ==> ((#[trigger] mask_has(row_mask(t, y), d)) <==> row_has_pre(
            m,
            y,
            d,
            p,
        ))) && (forall|x: int, d: u8|
        0 <= x < 9 && 1 <= d <= 9 ==> ((#[trigger] mask_has(col_mask(t, x), d)) <==> col_has_pre(
            m,
            x,
            d,
            p,
        ))) && (forall|bx: int, by: int, d: u8|
        0 <= bx < 3 && 0 <= by < 3 && 1 <= d <= 9 ==> ((#[trigger] mask_has(
            block_mask(t, bx, by),
            d,
        )) <==> block_has_pre(m, bx, by, d, p)))
}

/// No duplicate among the first `p` scanned cells.
spec fn dup_free_pre(m: Matrix, p: int) -> bool {
    forall|x1: int, y1: int, x2: int, y2: int|
        sees(x1, y1, x2, y2) && scanned(x1, y1, p) && scanned(x2, y2, p) && cell_filled(m, x1, y1)
            ==> #[trigger] cell(m, x1, y1) != #[trigger] cell(m, x2, y2)
}

proof fn lemma_scan_start(m: Matrix, t: StateManager)
    requires
        empty_tracker(t),
    ensures
        matches_pre(t, m, 0),
        dup_free_pre(m, 0),
{
    assert forall|y: int, d: u8| 0 <= y < 9 && 1 <= d <= 9 implies !(#[trigger] mask_has(
        row_mask(t, y),
        d,
    )) by {
        assert(row_mask(t, y) == 0);
        lemma_mask_empty(d);
    }
    assert forall|x: int, d: u8| 0 <= x < 9 && 1 <= d <= 9 implies !(#[trigger] mask_has(
        col_mask(t, x),
        d,
    )) by {
        assert(col_mask(t, x) == 0);
        lemma_mask_empty(d);
    }
    assert forall|bx: int, by: int, d: u8|
        0 <= bx < 3 && 0 <= by < 3 && 1 <= d <= 9 implies !(#[trigger] mask_has(
        block_mask(t, bx, by),
        d,
    )) by {
        assert(block_mask(t, bx, by) == 0);
        lemma_mask_empty(d);
    }
}

proof fn lemma_scan_empty(m: Matrix, t: StateManager, x: int, y: int)
    requires
        in_grid(x, y),
        cell(m, x, y) == 0,
        matches_pre(t, m, y * 9 + x),
        dup_free_pre(m, y * 9 + x),
    ensures
        matches_pre(t, m, y * 9 + x + 1),
        dup_free_pre(m, y * 9 + x + 1),
{
    let p = y * 9 + x;
    assert forall|x1: int, y1: int, x2: int, y2: int|
        sees(x1, y1, x2, y2) && scanned(x1, y1, p + 1) && scanned(x2, y2, p + 1) && cell_filled(
            m,
            x1,
            y1,
        ) implies cell(m, x1, y1) != cell(m, x2, y2) by {
        if x1 == x && y1 == y {
            assert(false);
        } else if x2 == x && y2 == y {
            assert(cell(m, x2, y2) == 0);
        } else {
            assert(scanned(x1, y1, p) && scanned(x2, y2, p));
        }
    }
    assert forall|j: int, d: u8| 0 <= j < 9 && 1 <= d <= 9 implies ((#[trigger] mask_has(
        row_mask(t, j),
        d,
    )) <==> row_has_pre(m, j, d, p + 1)) by {
        if row_has_pre(m, j, d, p) {
            let a = choose|a: int| 0 <= a < 9 && scanned(a, j, p) && cell(m, a, j) == d;
            assert(scanned(a, j, p + 1));
        }
        if row_has_pre(m, j, d, p + 1) {
            let a = choose|a: int| 0 <= a < 9 && scanned(a, j, p + 1) && cell(m, a, j) == d;
            assert(!(a == x && j == y));
            assert(scanned(a, j, p));
        }
    }
    assert forall|j: int, d: u8| 0 <= j < 9 && 1 <= d <= 9 implies ((#[trigger] mask_has(
        col_mask(t, j),
        d,
    )) <==> col_has_pre(m, j, d, p + 1)) by {
        if col_has_pre(m, j, d, p) {
            let b = choose|b: int| 0 <= b < 9 && scanned(j, b, p) && cell(m, j, b) == d;
            assert(scanned(j, b, p + 1));
        }
        if col_has_pre(m, j, d, p + 1) {
            let b = choose|b: int| 0 <= b < 9 && scanned(j, b, p + 1) && cell(m, j, b) == d;
            assert(!(j == x && b == y));
            assert(scanned(j, b, p));
        }
    }
    assert forall|bx: int, by: int, d: u8|
        0 <= bx < 3 && 0 <= by < 3 && 1 <= d <= 9 implies ((#[trigger] mask_has(
        block_mask(t, bx, by),
        d,
    )) <==> block_has_pre(m, bx, by, d, p + 1)) by {
        if block_has_pre(m, bx, by, d, p) {
            let (a, b) = choose|a: int, b: int|
                in_grid(a, b) && a / 3 == bx && b / 3 == by && scanned(a, b, p) && cell(m, a, b)
                    == d;
            assert(scanned(a, b, p + 1));
        }
        if block_has_pre(m, bx, by, d, p + 1) {
            let (a, b) = choose|a: int, b: int|
                in_grid(a, b) && a / 3 == bx && b / 3 == by && scanned(a, b, p + 1) && cell(
                    m,
                    a,
                    b,
                ) == d;
            assert(!(a == x && b == y));
            assert(scanned(a, b, p));
        }
    }
}

proof fn lemma_scan_filled(
    m: Matrix,
    t0: StateManager,
    t1: StateManager,
    x: int,
    y: int,
    val: u8,
)
    requires
        in_grid(x, y),
        1 <= val <= 9,
        cell(m, x, y) == val,
        matches_pre(t0, m, y * 9 + x),
        dup_free_pre(m, y * 9 + x),
        !blocked(t0, x, y, val),
        tracker_after_set(t0, t1, x, y, val),
    ensures
        matches_pre(t1, m, y * 9 + x + 1),
        dup_free_pre(m, y * 9 + x + 1),
{
    let p = y * 9 + x;
    assert(!mask_has(row_mask(t0, y), val));
    assert(!mask_has(col_mask(t0, x), val));
    assert(!mask_has(block_mask(t0, x / 3, y / 3), val));
    assert forall|x1: int, y1: int, x2: int, y2: int|
        sees(x1, y1, x2, y2) && scanned(x1, y1, p + 1) && scanned(x2, y2, p + 1) && cell_filled(
            m,
            x1,
            y1,
        ) implies cell(m, x1, y1) != cell(m, x2, y2) by {
        if x1 == x && y1 == y {
            assert(scanned(x2, y2, p));
            if cell(m, x2, y2) == val {
                if y2 == y {
                    assert(row_has_pre(m, y, val, p));
                } else if x2 == x {
                    assert(col_has_pre(m, x, val, p));
                } else {
                    assert(x2 / 3 == x / 3 && y2 / 3 == y / 3);
                    assert(block_has_pre(m, x / 3, y / 3, val, p));
                }
                assert(false);
            }
        } else if x2 == x && y2 == y {
            assert(scanned(x1, y1, p));
            if cell(m, x1, y1) == val {
                if y1 == y {
                    assert(row_has_pre(m, y, val, p));
                } else if x1 == x {
                    assert(col_has_pre(m, x, val, p));
                } else {
                    assert(x1 / 3 == x / 3 && y1 / 3 == y / 3);
                    assert(block_has_pre(m, x / 3, y / 3, val, p));
                }
                assert(false);
            }
        } else {
            assert(scanned(x1, y1, p) && scanned(x2, y2, p));
        }
    }
    assert forall|j: int, d: u8| 0 <= j < 9 && 1 <= d <= 9 implies ((#[trigger] mask_has(
        row_mask(t1, j),
        d,
    )) <==> row_has_pre(m, j, d, p + 1)) by {
        if j != y {
            assert(row_mask(t1, j) == row_mask(t0, j));
            if row_has_pre(m, j, d, p) {
                let a = choose|a: int| 0 <= a < 9 && scanned(a, j, p) && cell(m, a, j) == d;
                assert(scanned(a, j, p + 1));
            }
            if row_has_pre(m, j, d, p + 1) {
                let a = choose|a: int| 0 <= a < 9 && scanned(a, j, p + 1) && cell(m, a, j) == d;
                assert(!(a == x && j == y));
                assert(scanned(a, j, p));
            }
        } else {
            lemma_bit_or(row_mask(t0, y), val, d);
            if row_has_pre(m, y, d, p) {
                let a = choose|a: int| 0 <= a < 9 && scanned(a, y, p) && cell(m, a, y) == d;
                assert(scanned(a, y, p + 1));
            }
            if d == val {
                assert(scanned(x, y, p + 1));
                assert(row_has_pre(m, y, d, p + 1));
            }
            if row_has_pre(m, y, d, p + 1) && d != val {
                let a = choose|a: int| 0 <= a < 9 && scanned(a, y, p + 1) && cell(m, a, y) == d;
                assert(a != x);
                assert(scanned(a, y, p));
            }
        }
    }
    assert forall|j: int, d: u8| 0 <= j < 9 && 1 <= d <= 9 implies ((#[trigger] mask_has(
        col_mask(t1, j),
        d,
    )) <==> col_has_pre(m, j, d, p + 1)) by {
        if j != x {
            assert(col_mask(t1, j) == col_mask(t0, j));
            if col_has_pre(m, j, d, p) {
                let b = choose|b: int| 0 <= b < 9 && scanned(j, b, p) && cell(m, j, b) == d;
                assert(scanned(j, b, p + 1));
            }
            if col_has_pre(m, j, d, p + 1) {
                let b = choose|b: int| 0 <= b < 9 && scanned(j, b, p + 1) && cell(m, j, b) == d;
                assert(!(j == x && b == y));
                assert(scanned(j, b, p));
            }
        } else {
            lemma_bit_or(col_mask(t0, x), val, d);
            if col_has_pre(m, x, d, p) {
                let b = choose|b: int| 0 <= b < 9 && scanned(x, b, p) && cell(m, x, b) == d;
                assert(scanned(x, b, p + 1));
            }
            if d == val {
                assert(scanned(x, y, p + 1));
                assert(col_has_pre(m, x, d, p + 1));
            }
            if col_has_pre(m, x, d, p + 1) && d != val {
                let b = choose|b: int| 0 <= b < 9 && scanned(x, b, p + 1) && cell(m, x, b) == d;
                assert(b != y);
                assert(scanned(x, b, p));
            }
        }
    }
    assert forall|bx: int, by: int, d: u8|
        0 <= bx < 3 && 0 <= by < 3 && 1 <= d <= 9 implies ((#[trigger] mask_has(
        block_mask(t1, bx, by),
        d,
    )) <==> block_has_pre(m, bx, by, d, p + 1)) by {
        if !(bx == x / 3 && by == y / 3) {
            assert(block_mask(t1, bx, by) == block_mask(t0, bx, by));
            if block_has_pre(m, bx, by, d, p) {
                let (a, b) = choose|a: int, b: int|
                    in_grid(a, b) && a / 3 == bx && b / 3 == by && scanned(a, b, p) && cell(
                        m,
                        a,
                        b,
                    ) == d;
                assert(scanned(a, b, p + 1));
            }
            if block_has_pre(m, bx, by, d, p + 1) {
                let (a, b) = choose|a: int, b: int|
                    in_grid(a, b) && a / 3 == bx && b / 3 == by && scanned(a, b, p + 1) && cell(
                        m,
                        a,
                        b,
                    ) == d;
                assert(!(a == x && b == y));
                assert(scanned(a, b, p));
            }
        } else {
            lemma_bit_or(block_mask(t0, bx, by), val, d);
            if block_has_pre(m, bx, by, d, p) {
                let (a, b) = choose|a: int, b: int|
                    in_grid(a, b) && a / 3 == bx && b / 3 == by && scanned(a, b, p) && cell(
                        m,
                        a,
                        b,
                    ) == d;
                assert(scanned(a, b, p + 1));
            }
            if d == val {
                assert(scanned(x, y, p + 1));
                assert(block_has_pre(m, bx, by, d, p + 1));
            }
            if block_has_pre(m, bx, by, d, p + 1) && d != val {
                let (a, b) = choose|a: int, b: int|
                    in_grid(a, b) && a / 3 == bx && b / 3 == by && scanned(a, b, p + 1) && cell(
                        m,
                        a,
                        b,
                    ) == d;
                assert(!(a == x && b == y));
                assert(scanned(a, b, p));
            }
        }
    }
}

proof fn lemma_scan_conflict(m: Matrix, t0: StateManager, x: int, y: int, val: u8)
    requires
        in_grid(x, y),
        1 <= val <= 9,
        cell(m, x, y) == val,
        matches_pre(t0, m, y * 9 + x),
        blocked(t0, x, y, val),
    ensures
        !dup_free(m),
        exists|a: int, b: int| #[trigger] sees(a, b, x, y) && cell(m, a, b) == val,
{
    let p = y * 9 + x;
    if mask_has(row_mask(t0, y), val) {
        assert(row_has_pre(m, y, val, p));
        let a = choose|a: int| 0 <= a < 9 && scanned(a, y, p) && cell(m, a, y) == val;
        assert(a < x);
        assert(sees(a, y, x, y));
        assert(cell(m, a, y) == cell(m, x, y));
    } else if mask_has(col_mask(t0, x), val) {
        assert(col_has_pre(m, x, val, p));
        let b = choose|b: int| 0 <= b < 9 && scanned(x, b, p) && cell(m, x, b) == val;
        assert(b < y);
        assert(sees(x, b, x, y));
        assert(cell(m, x, b) == cell(m, x, y));
    } else {
        assert(mask_has(block_mask(t0, x / 3, y / 3), val));
        assert(block_has_pre(m, x / 3, y / 3, val, p));
        let (a, b) = choose|a: int, b: int|
            in_grid(a, b) && a / 3 == x / 3 && b / 3 == y / 3 && scanned(a, b, p) && cell(m, a, b)
                == val;
        assert(!(a == x && b == y));
        assert(sees(a, b, x, y));
        assert(cell(m, a, b) == cell(m, x, y));
    }
}

proof fn lemma_scan_done(m: Matrix, t: StateManager)
    requires
        matches_pre(t, m, 81),
        dup_free_pre(m, 81),
    ensures
        tracker_matches(t, m),
        dup_free(m),
{
    assert forall|x1: int, y1: int, x2: int, y2: int|
        sees(x1, y1, x2, y2) && cell_filled(m, x1, y1) implies cell(m, x1, y1) != cell(
        m,
        x2,
        y2,
    ) by {
        assert(scanned(x1, y1, 81) && scanned(x2, y2, 81));
    }
    assert forall|j: int, d: u8| 0 <= j < 9 && 1 <= d <= 9 implies ((#[trigger] mask_has(
        row_mask(t, j),
        d,
    )) <==> row_has(m, j, d)) by {
        if row_has_pre(m, j, d, 81) {
            let a = choose|a: int| 0 <= a < 9 && scanned(a, j, 81) && cell(m, a, j) == d;
            assert(row_has(m, j, d));
        }
        if row_has(m, j, d) {
            let a = choose|a: int| 0 <= a < 9 && cell(m, a, j) == d;
            assert(scanned(a, j, 81));
            assert(row_has_pre(m, j, d, 81));
        }
    }
    assert forall|j: int, d: u8| 0 <= j < 9 && 1 <= d <= 9 implies ((#[trigger] mask_has(
        col_mask(t, j),
        d,
    )) <==> col_has(m, j, d)) by {
        if col_has_pre(m, j, d, 81) {
            let b = choose|b: int| 0 <= b < 9 && scanned(j, b, 81) && cell(m, j, b) == d;
            assert(col_has(m, j, d));
        }
        if col_has(m, j, d) {
            let b = choose|b: int| 0 <= b < 9 && cell(m, j, b) == d;
            assert(scanned(j, b, 81));
            assert(col_has_pre(m, j, d, 81));
        }
    }
    assert forall|bx: int, by: int, d: u8|
        0 <= bx < 3 && 0 <= by < 3 && 1 <= d <= 9 implies ((#[trigger] mask_has(
        block_mask(t, bx, by),
        d,
    )) <==> block_has(m, bx, by, d)) by {
        if block_has_pre(m, bx, by, d, 81) {
            let (a, b) = choose|a: int, b: int|
                in_grid(a, b) && a / 3 == bx && b / 3 == by && scanned(a, b, 81) && cell(m, a, b)
                    == d;
            assert(block_has(m, bx, by, d));
        }
        if block_has(m, bx, by, d) {
            let (a, b) = choose|a: int, b: int|
                in_grid(a, b) && a / 3 == bx && b / 3 == by && cell(m, a, b) == d;
            assert(scanned(a, b, 81));
            assert(block_has_pre(m, bx, by, d, 81));
        }
    }
}

// ---------------------------------------------------------------------------
// The entry point
// ---------------------------------------------------------------------------
/// Solve the Sudoku.
///
/// Every cell value outside 1..=9 is treated as empty and zeroed. The
/// result is `true` exactly when some complete valid grid keeps every given
/// digit: on success the grid holds such a solution, and a grid that is
/// already complete and valid is returned unchanged. Otherwise — the given
/// digits already repeat within a row, column or block, or the exhaustive
/// search ran out of branches — the result is `false` and the grid holds
/// the given digits with every other cell zero.
pub fn solve(mtx: &mut Matrix) -> (r: bool)
    ensures
        r ==> solved(*final(mtx)),
        r ==> forall|x: int, y: int|
            in_grid(x, y) && cell_filled(*old(mtx), x, y) ==> #[trigger] cell(*final(mtx), x, y)
                == cell(*old(mtx), x, y),
        !r ==> is_normalized_of(*old(mtx), *final(mtx)),
        r <==> completable(*old(mtx)),
        !norm_dup_free(*old(mtx)) ==> !r,
        full(*old(mtx)) && dup_free(*old(mtx)) ==> r,
{
    let mut manager: StateManager = StateManager::new();
    let mut empty_cells: Vec<(usize, usize)> = Vec::new();

    // First pass: zero every out-of-range value and collect the empty cells.
    let mut y: usize = 0;
    while y < 9
        invariant
            y <= 9,
            forall|a: int, b: int|
                in_grid(a, b) && b < y as int ==> #[trigger] cell(*mtx, a, b) == norm_cell(
                    cell(*old(mtx), a, b),
                ),
            forall|a: int, b: int|
                in_grid(a, b) && b >= y as int ==> #[trigger] cell(*mtx, a, b) == cell(
                    *old(mtx),
                    a,
                    b,
                ),
            empty_cells@.no_duplicates(),
            wl_coords_ok(empty_cells@),
            forall|k: int|
                0 <= k < empty_cells@.len() ==> (#[trigger] empty_cells@[k].1 as int) < y as int,
            forall|a: int, b: int|
                in_grid(a, b) && b < y as int ==> ((norm_cell(#[trigger] cell(*old(mtx), a, b))
                    == 0) <==> wl_has(empty_cells@, a, b)),
        decreases 9 - y,
    {
        let mut x: usize = 0;
        while x < 9
            invariant
                x <= 9,
                y < 9,
                forall|a: int, b: int|
                    in_grid(a, b) && b < y as int ==> #[trigger] cell(*mtx, a, b) == norm_cell(
                        cell(*old(mtx), a, b),
                    ),
                forall|a: int|
                    0 <= a < x as int ==> #[trigger] cell(*mtx, a, y as int) == norm_cell(
                        cell(*old(mtx), a, y as int),
                    ),
                forall|a: int, b: int|
                    in_grid(a, b) && (b > y as int || (b == y as int && a >= x as int))
                        ==> #[trigger] cell(*mtx, a, b) == cell(*old(mtx), a, b),
                empty_cells@.no_duplicates(),
                wl_coords_ok(empty_cells@),
                forall|k: int|
                    0 <= k < empty_cells@.len() ==> ((#[trigger] empty_cells@[k].1 as int)
                        < y as int || (empty_cells@[k].1 as int == y as int
                        && (empty_cells@[k].0 as int) < x as int)),
                forall|a: int, b: int|
                    in_grid(a, b) && (b < y as int || (b == y as int && a < x as int)) ==> ((
                    norm_cell(#[trigger] cell(*old(mtx), a, b)) == 0) <==> wl_has(
                        empty_cells@,
                        a,
                        b,
                    )),
            decreases 9 - x,
        {
            let val: u8 = mtx[y][x];
            if val < 1 || val > 9 {
                proof {
                    if wl_has(empty_cells@, x as int, y as int) {
                        let k = choose|k: int|
                            0 <= k < empty_cells@.len() && empty_cells@[k].0 as int == x as int
                                && empty_cells@[k].1 as int == y as int;
                        assert(false);
                    }
                    lemma_wl_push(empty_cells@, (x, y));
                }
                let ghost wl_before: Seq<(usize, usize)> = empty_cells@;
                let ghost m_before: Matrix = *mtx;
                empty_cells.push((x, y));
                mtx[y][x] = 0;
                proof {
                    assert(empty_cells@ == wl_before.push((x, y)));
                    assert forall|k: int| 0 <= k < empty_cells@.len() implies in_grid(
                        #[trigger] empty_cells@[k].0 as int,
                        empty_cells@[k].1 as int,
                    ) by {
                        if k < wl_before.len() {
                            assert(empty_cells@[k] == wl_before[k]);
                            assert(in_grid(wl_before[k].0 as int, wl_before[k].1 as int));
                        } else {
                            assert(empty_cells@[k] == (x, y));
                        }
                    }
                    assert forall|k: int| 0 <= k < empty_cells@.len() implies ((
                    #[trigger] empty_cells@[k].1 as int) < y as int || (empty_cells@[k].1 as int
                        == y as int && (empty_cells@[k].0 as int) < x as int + 1)) by {
                        if k < wl_before.len() {
                            assert(empty_cells@[k] == wl_before[k]);
                        } else {
                            assert(empty_cells@[k] == (x, y));
                        }
                    }
                    assert forall|a: int, b: int| in_grid(a, b) && b < y as int implies #[trigger]
                    cell(*mtx, a, b) == norm_cell(cell(*old(mtx), a, b)) by {
                        assert(cell(*mtx, a, b) == cell(m_before, a, b));
                    }
                    assert(cell(m_before, x as int, y as int) == cell(
                        *old(mtx),
                        x as int,
                        y as int,
                    ));
                    assert(norm_cell(cell(*old(mtx), x as int, y as int)) == 0);
                    assert forall|a: int| 0 <= a < x as int + 1 implies #[trigger] cell(
                        *mtx,
                        a,
                        y as int,
                    ) == norm_cell(cell(*old(mtx), a, y as int)) by {
                        if a < x as int {
                            assert(cell(*mtx, a, y as int) == cell(m_before, a, y as int));
                        } else {
                            assert(cell(*mtx, x as int, y as int) == 0);
                        }
                    }
                    assert forall|a: int, b: int|
                        in_grid(a, b) && (b > y as int || (b == y as int && a >= x as int
                            + 1)) implies #[trigger] cell(*mtx, a, b) == cell(
                        *old(mtx),
                        a,
                        b,
                    ) by {
                        assert(cell(*mtx, a, b) == cell(m_before, a, b));
                    }
                    assert forall|a: int, b: int|
                        in_grid(a, b) && (b < y as int || (b == y as int && a < x as int
                            + 1)) implies ((norm_cell(#[trigger] cell(*old(mtx), a, b)) == 0)
                        <==> wl_has(empty_cells@, a, b)) by {
                        assert(wl_has(empty_cells@, a, b) <==> (wl_has(wl_before, a, b) || (
                        x as int == a && y as int == b)));
                        if !(a == x as int && b == y as int) {
                            if wl_has(wl_before, a, b) {
                                let k = choose|k: int|
                                    0 <= k < wl_before.len() && wl_before[k].0 as int == a
                                        && wl_before[k].1 as int == b;
                                assert(!(b == y as int && a >= x as int));
                            }
                        }
                    }
                }
            } else {
                proof {
                    assert(cell(*mtx, x as int, y as int) == val);
                    assert(cell(*mtx, x as int, y as int) == cell(*old(mtx), x as int, y as int));
                    assert(norm_cell(cell(*old(mtx), x as int, y as int)) == val);
                    if wl_has(empty_cells@, x as int, y as int) {
                        let k = choose|k: int|
                            0 <= k < empty_cells@.len() && empty_cells@[k].0 as int == x as int
                                && empty_cells@[k].1 as int == y as int;
                        assert(false);
                    }
                }
            }
            x = x + 1;
        }
        y = y + 1;
    }
    proof {
        assert(is_normalized_of(*old(mtx), *mtx));
        assert(values_ok(*mtx)) by {
            assert forall|a: int, b: int| in_grid(a, b) implies #[trigger] cell(*mtx, a, b)
                <= 9 by {
                assert(cell(*mtx, a, b) == norm_cell(cell(*old(mtx), a, b)));
            }
        }
        lemma_scan_start(*mtx, manager);
    }
    let ghost m_norm: Matrix = *mtx;

    // Second pass: record every given digit in the tracker; reject the grid
    // as soon as one repeats within its row, column or block.
    let mut y2: usize = 0;
    while y2 < 9
        invariant
            y2 <= 9,
            *mtx == m_norm,
            is_normalized_of(*old(mtx), *mtx),
            values_ok(*mtx),
            empty_cells@.no_duplicates(),
            wl_coords_ok(empty_cells@),
            forall|a: int, b: int|
                in_grid(a, b) ==> ((#[trigger] cell(*mtx, a, b) == 0) <==> wl_has(
                    empty_cells@,
                    a,
                    b,
                )),
            matches_pre(manager, *mtx, y2 as int * 9),
            dup_free_pre(*mtx, y2 as int * 9),
        decreases 9 - y2,
    {
        let mut x2: usize = 0;
        while x2 < 9
            invariant
                x2 <= 9,
                y2 < 9,
                *mtx == m_norm,
                is_normalized_of(*old(mtx), *mtx),
                values_ok(*mtx),
                empty_cells@.no_duplicates(),
                wl_coords_ok(empty_cells@),
                forall|a: int, b: int|
                    in_grid(a, b) ==> ((#[trigger] cell(*mtx, a, b) == 0) <==> wl_has(
                        empty_cells@,
                        a,
                        b,
                    )),
                matches_pre(manager, *mtx, y2 as int * 9 + x2 as int),
                dup_free_pre(*mtx, y2 as int * 9 + x2 as int),
            decreases 9 - x2,
        {
            let val: u8 = mtx[y2][x2];
            if val != 0 {
                proof {
                    assert(cell(*mtx, x2 as int, y2 as int) == val);
                    assert(1 <= val <= 9);
                }
                let ghost t_pre: StateManager = manager;
                let ok: bool = manager.set(x2, y2, val);
                if !ok {
                    proof {
                        lemma_scan_conflict(*mtx, t_pre, x2 as int, y2 as int, val);
                        // The two given digits that clash are kept by any
                        // completion, so none exists.
                        if completable(*old(mtx)) {
                            let s = choose|s: Matrix|
                                solved(s) && #[trigger] keeps_filled(*old(mtx), s);
                            let (a, b) = choose|a: int, b: int|
                                #[trigger] sees(a, b, x2 as int, y2 as int) && cell(*mtx, a, b)
                                    == val;
                            assert(in_grid(a, b));
                            assert(cell(*mtx, a, b) == norm_cell(cell(*old(mtx), a, b)));
                            assert(cell(*old(mtx), a, b) == val);
                            assert(cell(*mtx, x2 as int, y2 as int) == norm_cell(
                                cell(*old(mtx), x2 as int, y2 as int),
                            ));
                            assert(cell(*old(mtx), x2 as int, y2 as int) == val);
                            assert(cell_filled(*old(mtx), a, b));
                            assert(cell_filled(*old(mtx), x2 as int, y2 as int));
                            assert(cell(s, a, b) == val);
                            assert(cell(s, x2 as int, y2 as int) == val);
                            assert(cell_filled(s, a, b));
                            assert(cell(s, a, b) != cell(s, x2 as int, y2 as int));
                            assert(false);
                        }
                        if norm_dup_free(*old(mtx)) {
                            assert forall|a1: int, b1: int, a2: int, b2: int|
                                sees(a1, b1, a2, b2) && cell_filled(*mtx, a1, b1) implies
                                #[trigger] cell(*mtx, a1, b1) != #[trigger] cell(
                                *mtx,
                                a2,
                                b2,
                            ) by {
                                assert(cell(*mtx, a1, b1) == norm_cell(cell(*old(mtx), a1, b1)));
                                assert(cell(*mtx, a2, b2) == norm_cell(cell(*old(mtx), a2, b2)));
                            }
                            assert(dup_free(*mtx));
                            assert(false);
                        }
                    }
                    return false;
                }
                proof {
                    lemma_scan_filled(*mtx, t_pre, manager, x2 as int, y2 as int, val);
                }
            } else {
                proof {
                    lemma_scan_empty(*mtx, manager, x2 as int, y2 as int);
                }
            }
            x2 = x2 + 1;
        }
        y2 = y2 + 1;
    }
    proof {
        lemma_scan_done(*mtx, manager);
        assert(search_inv(*mtx, manager, empty_cells@));
        if full(*old(mtx)) {
            if empty_cells@.len() > 0 {
                assert(in_grid(empty_cells@[0].0 as int, empty_cells@[0].1 as int));
                assert(wl_has(empty_cells@, empty_cells@[0].0 as int, empty_cells@[0].1 as int));
                assert(cell(*mtx, empty_cells@[0].0 as int, empty_cells@[0].1 as int) == 0);
                assert(cell_filled(*old(mtx), empty_cells@[0].0 as int, empty_cells@[0].1 as int));
                assert(false);
            }
        }
        if !norm_dup_free(*old(mtx)) {
            assert forall|a1: int, b1: int, a2: int, b2: int|
                sees(a1, b1, a2, b2) && 1 <= norm_cell(cell(*old(mtx), a1, b1)) implies norm_cell(
                cell(*old(mtx), a1, b1),
            ) != norm_cell(cell(*old(mtx), a2, b2)) by {
                assert(cell(*mtx, a1, b1) == norm_cell(cell(*old(mtx), a1, b1)));
                assert(cell(*mtx, a2, b2) == norm_cell(cell(*old(mtx), a2, b2)));
                assert(cell_filled(*mtx, a1, b1));
            }
            assert(false);
        }
    }
    let ghost wl_at_fill: Seq<(usize, usize)> = empty_cells@;
    let result: bool = fill(mtx, &mut empty_cells, &mut manager);
    proof {
        if result {
            assert forall|a: int, b: int|
                in_grid(a, b) && cell_filled(*old(mtx), a, b) implies #[trigger] cell(*mtx, a, b)
                == cell(*old(mtx), a, b) by {
                assert(cell(m_norm, a, b) == norm_cell(cell(*old(mtx), a, b)));
                assert(cell_filled(m_norm, a, b));
                assert(cell(*mtx, a, b) == cell(m_norm, a, b));
            }
            assert(keeps_filled(*old(mtx), *mtx));
            assert(solved(*mtx));
            assert(completable(*old(mtx)));
        } else {
            assert forall|a: int, b: int| in_grid(a, b) implies #[trigger] cell(*mtx, a, b)
                == norm_cell(cell(*old(mtx), a, b)) by {
                assert(cell(*mtx, a, b) == cell(m_norm, a, b));
            }
            // A completion of the input would complete the normalized grid
            // too, and the exhausted search ruled that out.
            if completable(*old(mtx)) {
                let s = choose|s: Matrix| solved(s) && #[trigger] keeps_filled(*old(mtx), s);
                assert forall|a: int, b: int|
                    in_grid(a, b) && cell_filled(m_norm, a, b) implies #[trigger] cell(s, a, b)
                    == cell(m_norm, a, b) by {
                    assert(cell(m_norm, a, b) == norm_cell(cell(*old(mtx), a, b)));
                    assert(cell(*old(mtx), a, b) == cell(m_norm, a, b));
                    assert(cell_filled(*old(mtx), a, b));
                    assert(cell(s, a, b) == cell(*old(mtx), a, b));
                }
                assert(keeps_filled(m_norm, s));
                assert(completable(m_norm));
                assert(false);
            }
        }
    }
    result
}

} // verus!
