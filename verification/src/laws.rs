//! Laws of solved grids: each unit of a solved grid holds every digit
//! exactly once.

use vstd::prelude::*;

use vstd::set_lib::lemma_int_range;
use vstd::set_lib::lemma_len_subset;
use vstd::set_lib::lemma_subset_equality;
use vstd::set_lib::set_int_range;

use crate::grid::block_has;
use crate::grid::cell;
use crate::grid::cell_filled;
use crate::grid::col_has;
use crate::grid::in_grid;
use crate::grid::row_has;
use crate::grid::sees;
use crate::grid::solved;
use crate::grid::Matrix;

verus! {

/// Nine pairwise distinct values out of 1..=9 cover all of 1..=9.
proof fn lemma_nine_distinct_cover(vals: Seq<int>)
    requires
        vals.len() == 9,
        vals.no_duplicates(),
        forall|k: int| 0 <= k < 9 ==> 1 <= #[trigger] vals[k] <= 9,
    ensures
        forall|d: int| 1 <= d <= 9 ==> vals.contains(d),
{
    let s = vals.to_set();
    vals.unique_seq_to_set();
    vstd::seq_lib::seq_to_set_is_finite::<int>(vals);
    lemma_int_range(1, 10);
    assert forall|v: int| s.contains(v) implies set_int_range(1, 10).contains(v) by {
        assert(vals.contains(v));
        let k = choose|k: int| 0 <= k < vals.len() && vals[k] == v;
        assert(1 <= vals[k] <= 9);
    }
    assert(s.subset_of(set_int_range(1, 10)));
    lemma_len_subset(s, set_int_range(1, 10));
    lemma_subset_equality(s, set_int_range(1, 10));
    assert forall|d: int| 1 <= d <= 9 implies vals.contains(d) by {
        assert(set_int_range(1, 10).contains(d));
        assert(s.contains(d));
    }
}

/// In a solved grid every row, every column and every 3x3 block holds each
/// digit 1..=9 exactly once: some cell of the unit holds the digit, and no
/// two distinct cells of a common unit hold the same value.
pub proof fn lemma_solved_units(m: Matrix)
    requires
        solved(m),
    ensures
        forall|y: int, d: u8| 0 <= y < 9 && 1 <= d <= 9 ==> #[trigger] row_has(m, y, d),
        forall|x: int, d: u8| 0 <= x < 9 && 1 <= d <= 9 ==> #[trigger] col_has(m, x, d),
        forall|bx: int, by: int, d: u8|
            0 <= bx < 3 && 0 <= by < 3 && 1 <= d <= 9 ==> #[trigger] block_has(m, bx, by, d),
        forall|x1: int, y1: int, x2: int, y2: int|
            sees(x1, y1, x2, y2) ==> #[trigger] cell(m, x1, y1) != #[trigger] cell(m, x2, y2),
{
    assert forall|x1: int, y1: int, x2: int, y2: int| sees(x1, y1, x2, y2) implies #[trigger] cell(
        m,
        x1,
        y1,
    ) != #[trigger] cell(m, x2, y2) by {
        assert(cell_filled(m, x1, y1));
    }
    assert forall|y: int, d: u8| 0 <= y < 9 && 1 <= d <= 9 implies #[trigger] row_has(
        m,
        y,
        d,
    ) by {
        let vals = Seq::new(9, |k: int| cell(m, k, y) as int);
        assert forall|k: int| 0 <= k < 9 implies 1 <= #[trigger] vals[k] <= 9 by {
            assert(cell_filled(m, k, y));
        }
        assert forall|k1: int, k2: int|
            0 <= k1 < 9 && 0 <= k2 < 9 && k1 != k2 implies vals[k1] != vals[k2] by {
            assert(sees(k1, y, k2, y));
            assert(cell_filled(m, k1, y));
            assert(cell(m, k1, y) != cell(m, k2, y));
        }
        assert(vals.no_duplicates());
        lemma_nine_distinct_cover(vals);
        assert(vals.contains(d as int));
        let k = choose|k: int| 0 <= k < vals.len() && vals[k] == d as int;
        assert(cell(m, k, y) == d);
    }
    assert forall|x: int, d: u8| 0 <= x < 9 && 1 <= d <= 9 implies #[trigger] col_has(
        m,
        x,
        d,
    ) by {
        let vals = Seq::new(9, |k: int| cell(m, x, k) as int);
        assert forall|k: int| 0 <= k < 9 implies 1 <= #[trigger] vals[k] <= 9 by {
            assert(cell_filled(m, x, k));
        }
        assert forall|k1: int, k2: int|
            0 <= k1 < 9 && 0 <= k2 < 9 && k1 != k2 implies vals[k1] != vals[k2] by {
            assert(sees(x, k1, x, k2));
            assert(cell_filled(m, x, k1));
            assert(cell(m, x, k1) != cell(m, x, k2));
        }
        assert(vals.no_duplicates());
        lemma_nine_distinct_cover(vals);
        assert(vals.contains(d as int));
        let k = choose|k: int| 0 <= k < vals.len() && vals[k] == d as int;
        assert(cell(m, x, k) == d);
    }
    assert forall|bx: int, by: int, d: u8|
        0 <= bx < 3 && 0 <= by < 3 && 1 <= d <= 9 implies #[trigger] block_has(m, bx, by, d) by {
        let vals = Seq::new(9, |k: int| cell(m, 3 * bx + k % 3, 3 * by + k / 3) as int);
        assert forall|k: int| 0 <= k < 9 implies 1 <= #[trigger] vals[k] <= 9 by {
            assert(in_grid(3 * bx + k % 3, 3 * by + k / 3));
            assert(cell_filled(m, 3 * bx + k % 3, 3 * by + k / 3));
        }
        assert forall|k1: int, k2: int|
            0 <= k1 < 9 && 0 <= k2 < 9 && k1 != k2 implies vals[k1] != vals[k2] by {
            let a1 = 3 * bx + k1 % 3;
            let b1 = 3 * by + k1 / 3;
            let a2 = 3 * bx + k2 % 3;
            let b2 = 3 * by + k2 / 3;
            assert(!(a1 == a2 && b1 == b2));
            assert(a1 / 3 == bx && a2 / 3 == bx && b1 / 3 == by && b2 / 3 == by);
            assert(sees(a1, b1, a2, b2));
            assert(cell_filled(m, a1, b1));
            assert(cell(m, a1, b1) != cell(m, a2, b2));
        }
        assert(vals.no_duplicates());
        lemma_nine_distinct_cover(vals);
        assert(vals.contains(d as int));
        let k = choose|k: int| 0 <= k < vals.len() && vals[k] == d as int;
        assert(in_grid(3 * bx + k % 3, 3 * by + k / 3));
        assert((3 * bx + k % 3) / 3 == bx && (3 * by + k / 3) / 3 == by);
        assert(cell(m, 3 * bx + k % 3, 3 * by + k / 3) == d);
    }
}

} // verus!
