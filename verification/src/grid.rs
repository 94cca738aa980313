//! The grid model: the `Matrix` type and the specification of what a
//! well-formed, duplicate-free and solved grid is.

use vstd::prelude::*;

verus! {

/// A Sudoku grid: 9 rows of 9 cells, row major, so `m[y][x]` is the cell in
/// column `x` of row `y`. Digits 1..=9 are placed values; 0 means empty.
pub type Matrix = [[u8; 9]; 9];

/// The coordinates (x, y) lie on the grid.
pub open spec fn in_grid(x: int, y: int) -> bool {
    0 <= x < 9 && 0 <= y < 9
}

/// The value of the cell in column `x` of row `y`.
pub open spec fn cell(m: Matrix, x: int, y: int) -> u8 {
    m[y][x]
}

/// The cell holds a placed digit.
pub open spec fn cell_filled(m: Matrix, x: int, y: int) -> bool {
    1 <= cell(m, x, y) <= 9
}

/// Every cell holds 0 or a digit (no out-of-range values).
pub open spec fn values_ok(m: Matrix) -> bool {
    forall|x: int, y: int| in_grid(x, y) ==> (#[trigger] cell(m, x, y)) <= 9
}

/// Every cell holds a placed digit.
pub open spec fn full(m: Matrix) -> bool {
    forall|x: int, y: int| in_grid(x, y) ==> #[trigger] cell_filled(m, x, y)
}

/// Two distinct cells constrain each other: same row, same column, or same
/// 3x3 block.
pub open spec fn sees(x1: int, y1: int, x2: int, y2: int) -> bool {
    in_grid(x1, y1) && in_grid(x2, y2) && !(x1 == x2 && y1 == y2) && (y1 == y2 || x1 == x2 || (x1
        / 3 == x2 / 3 && y1 / 3 == y2 / 3))
}

/// No placed digit is repeated within a row, a column, or a block.
pub open spec fn dup_free(m: Matrix) -> bool {
    forall|x1: int, y1: int, x2: int, y2: int|
        sees(x1, y1, x2, y2) && cell_filled(m, x1, y1) ==> #[trigger] cell(m, x1, y1)
            != #[trigger] cell(m, x2, y2)
}

/// A complete, constraint-satisfying grid.
pub open spec fn solved(m: Matrix) -> bool {
    full(m) && dup_free(m)
}

/// How a cell value is normalized on input: digits stay, everything else
/// becomes empty.
pub open spec fn norm_cell(v: u8) -> u8 {
    if 1 <= v <= 9 {
        v
    } else {
        0
    }
}

/// `b` is `a` with every out-of-range value zeroed.
pub open spec fn is_normalized_of(a: Matrix, b: Matrix) -> bool {
    forall|x: int, y: int| in_grid(x, y) ==> cell(b, x, y) == norm_cell(#[trigger] cell(a, x, y))
}

/// The placed digits of `a`, after normalization, already violate no
/// constraint.
pub open spec fn norm_dup_free(m: Matrix) -> bool {
    forall|x1: int, y1: int, x2: int, y2: int|
        sees(x1, y1, x2, y2) && 1 <= norm_cell(#[trigger] cell(m, x1, y1)) ==> norm_cell(
            cell(m, x1, y1),
        ) != norm_cell(#[trigger] cell(m, x2, y2))
}

/// `b` agrees with `a` on every cell that `a` has filled.
pub open spec fn keeps_filled(a: Matrix, b: Matrix) -> bool {
    forall|x: int, y: int|
        in_grid(x, y) && cell_filled(a, x, y) ==> #[trigger] cell(b, x, y) == #[trigger] cell(
            a,
            x,
            y,
        )
}

/// `a` and `b` hold the same value in every cell.
pub open spec fn same_grid(a: Matrix, b: Matrix) -> bool {
    forall|x: int, y: int| in_grid(x, y) ==> #[trigger] cell(a, x, y) == #[trigger] cell(b, x, y)
}

/// Some solved grid completes `m`: it satisfies every constraint and keeps
/// every digit that `m` has placed.
pub open spec fn completable(m: Matrix) -> bool {
    exists|s: Matrix| solved(s) && #[trigger] keeps_filled(m, s)
}

/// Row `y` contains the digit `d` somewhere.
pub open spec fn row_has(m: Matrix, y: int, d: u8) -> bool {
    exists|x: int| 0 <= x < 9 && cell(m, x, y) == d
}

/// Column `x` contains the digit `d` somewhere.
pub open spec fn col_has(m: Matrix, x: int, d: u8) -> bool {
    exists|y: int| 0 <= y < 9 && cell(m, x, y) == d
}

/// Block (bx, by) contains the digit `d` somewhere.
pub open spec fn block_has(m: Matrix, bx: int, by: int, d: u8) -> bool {
    exists|x: int, y: int|
        in_grid(x, y) && x / 3 == bx && y / 3 == by && cell(m, x, y) == d
}

} // verus!
