//! The mathematical model of a Sudoku board.
//!
//! A board is a flat sequence of 81 cell values in row-major order: the
//! cell in row `r` and column `c` sits at index `9 * r + c`.  A value of
//! `0` marks an empty cell; `1` through `9` are placed digits.

use vstd::prelude::*;

verus! {

/// A well-formed board: 81 cells, each holding 0 (empty) or a digit 1..=9.
pub open spec fn grid_wf(s: Seq<u8>) -> bool {
    s.len() == 81 && forall|i: int| 0 <= i < 81 ==> #[trigger] s[i] <= 9
}

/// The flat index of the cell in row `r`, column `c`.
pub open spec fn cell(r: int, c: int) -> int {
    9 * r + c
}

/// Whether two flat positions share a row, a column, or a 3x3 box.
/// A position shares a unit with itself.
pub open spec fn same_unit(p: int, q: int) -> bool {
    ||| p / 9 == q / 9
    ||| p % 9 == q % 9
    ||| ((p / 9) / 3 == (q / 9) / 3 && (p % 9) / 3 == (q % 9) / 3)
}

/// No two distinct cells of one unit hold the same non-zero value.
pub open spec fn no_duplicates(s: Seq<u8>) -> bool {
    forall|p: int, q: int|
        0 <= p < 81 && 0 <= q < 81 && p != q && #[trigger] same_unit(p, q) && s[p] != 0 ==> s[p]
            != s[q]
}

/// Every cell holds a digit 1..=9: no cell is left empty.
pub open spec fn full(s: Seq<u8>) -> bool {
    s.len() == 81 && forall|i: int| 0 <= i < 81 ==> 1 <= #[trigger] s[i] <= 9
}

/// A completely solved board: full, and free of duplicates in every row,
/// column and box.
pub open spec fn solved_grid(s: Seq<u8>) -> bool {
    full(s) && no_duplicates(s)
}

/// `s` keeps every non-zero (given) cell of `g` at its value.
pub open spec fn keeps_givens(g: Seq<u8>, s: Seq<u8>) -> bool {
    forall|i: int| 0 <= i < 81 && g[i] != 0 ==> #[trigger] s[i] == g[i]
}

/// `s` is a solution of the puzzle `g`: a solved board that keeps all of
/// `g`'s givens.
pub open spec fn is_solution_of(g: Seq<u8>, s: Seq<u8>) -> bool {
    s.len() == 81 && solved_grid(s) && keeps_givens(g, s)
}

/// Digit `v` appears nowhere in the row, the column, or the box of
/// position `p`, so placing it at `p` clashes with nothing.
pub open spec fn fits(s: Seq<u8>, p: int, v: u8) -> bool {
    forall|q: int| 0 <= q < 81 && #[trigger] same_unit(p, q) ==> s[q] != v
}

/// The cell value encoded by one input byte: an ASCII digit maps to its
/// numeric value (`0` meaning an empty cell), every other byte is
/// rejected.
pub fn digit_value(b: u8) -> (r: Option<u8>)
    ensures
        48 <= b <= 57 ==> r == Some((b - 48) as u8),
        !(48 <= b <= 57) ==> r is None,
{
    if b >= 48 && b <= 57 {
        Some(b - 48)
    } else {
        None
    }
}

} // verus!
