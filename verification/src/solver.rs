//! The backtracking search.
//!
//! Cells are visited in row-major order and candidates are tried in
//! ascending order `1..=9`.  The board is mutated in place: a trial digit
//! is written, the search recurses, and the digit is erased again when
//! the recursion cannot be extended to a full solution.

use crate::grid::{
    cell, fits, full, grid_wf, is_solution_of, keeps_givens, no_duplicates, same_unit,
};
use vstd::arithmetic::div_mod::{lemma_fundamental_div_mod, lemma_fundamental_div_mod_converse};
use vstd::prelude::*;

verus! {

/// The boards the search can accept when it runs from position `pos` on:
/// `s` keeps every cell that is already decided (every cell before `pos`
/// and every non-zero cell), assigns a digit to every cell from `pos` on,
/// and no cell that the search itself fills repeats a value anywhere in
/// its unit.  Clashes already present among the decided cells of `g` are
/// not examined, just as the search never re-checks them.
pub open spec fn completes_from(g: Seq<u8>, s: Seq<u8>, pos: int) -> bool {
    &&& s.len() == 81
    &&& (forall|i: int| 0 <= i < 81 && (i < pos || g[i] != 0) ==> #[trigger] s[i] == g[i])
    &&& (forall|i: int| 0 <= i < 81 && pos <= i ==> 1 <= #[trigger] s[i] <= 9)
    &&& (forall|p: int, q: int|
        0 <= p < 81 && 0 <= q < 81 && p != q && #[trigger] same_unit(p, q) && ((g[p] == 0 && p
            >= pos) || (g[q] == 0 && q >= pos)) ==> s[p] != s[q])
}

/// Read from position `pos` on, `s` equals `t` up to position `k` and is
/// strictly larger there (`k == 81` means they agree to the end).
pub open spec fn lex_witness(s: Seq<u8>, t: Seq<u8>, pos: int, k: int) -> bool {
    &&& pos <= k <= 81
    &&& (forall|i: int| pos <= i < k ==> #[trigger] s[i] == t[i])
    &&& (k == 81 || s[k] > t[k])
}

/// In row-major reading order from position `pos` on, `s` comes no
/// earlier than `t`.
pub open spec fn lex_at_least(s: Seq<u8>, t: Seq<u8>, pos: int) -> bool {
    exists|k: int| lex_witness(s, t, pos, k)
}

/// Everything `solve` decides, as one statement relating the input board
/// `g`, the returned flag, and the final board `out`: the search succeeds
/// exactly when some completion of the whole board exists; on success the
/// board holds the first completion in row-major ascending-candidate
/// order, and on failure it is left exactly as it was.
pub open spec fn search_outcome(g: Seq<u8>, solved: bool, out: Seq<u8>) -> bool {
    &&& (solved <==> exists|s: Seq<u8>| completes_from(g, s, 0))
    &&& (solved ==> completes_from(g, out, 0) && (forall|s: Seq<u8>|
        #[trigger] completes_from(g, s, 0) ==> lex_at_least(s, out, 0)))
    &&& (!solved ==> out == g)
}

/// The three conflict scans of the search: is digit `v` absent from row
/// `row`, from column `col`, and from the 3x3 box around `(row, col)`?
fn fits_cell(sudoku: &Vec<u8>, row: usize, col: usize, v: u8) -> (r: bool)
    requires
        grid_wf(sudoku@),
        row < 9,
        col < 9,
        1 <= v <= 9,
    ensures
        r == fits(sudoku@, cell(row as int, col as int), v),
{
    let ghost s = sudoku@;
    let ghost p = cell(row as int, col as int);
    proof {
        lemma_fundamental_div_mod_converse(p, 9, row as int, col as int);
    }
    // scan the row
    let mut j: usize = 0;
    while j < 9
        invariant
            grid_wf(s),
            sudoku@ == s,
            row < 9,
            col < 9,
            p == cell(row as int, col as int),
            p / 9 == row as int,
            p % 9 == col as int,
            j <= 9,
            forall|c2: int| 0 <= c2 < j ==> s[cell(row as int, c2)] != v,
        decreases 9 - j,
    {
        if sudoku[9 * row + j] == v {
            proof {
                let q = cell(row as int, j as int);
                lemma_fundamental_div_mod_converse(q, 9, row as int, j as int);
                assert(same_unit(p, q));
                assert(!fits(s, p, v));
            }
            return false;
        }
        j += 1;
    }
    // scan the column
    let mut i: usize = 0;
    while i < 9
        invariant
            grid_wf(s),
            sudoku@ == s,
            row < 9,
            col < 9,
            p == cell(row as int, col as int),
            p / 9 == row as int,
            p % 9 == col as int,
            i <= 9,
            forall|r2: int| 0 <= r2 < i ==> s[cell(r2, col as int)] != v,
        decreases 9 - i,
    {
        if sudoku[9 * i + col] == v {
            proof {
                let q = cell(i as int, col as int);
                lemma_fundamental_div_mod_converse(q, 9, i as int, col as int);
                assert(same_unit(p, q));
                assert(!fits(s, p, v));
            }
            return false;
        }
        i += 1;
    }
    // scan the 3x3 box
    let area_row = row - row % 3;
    let area_col = col - col % 3;
    let mut j2: usize = 0;
    while j2 < 3
        invariant
            grid_wf(s),
            sudoku@ == s,
            row < 9,
            col < 9,
            p == cell(row as int, col as int),
            p / 9 == row as int,
            p % 9 == col as int,
            area_row == 3 * ((row as int) / 3),
            area_col == 3 * ((col as int) / 3),
            j2 <= 3,
            forall|r2: int, c2: int|
                area_row <= r2 < area_row + j2 && area_col <= c2 < area_col + 3 ==> s[cell(r2, c2)]
                    != v,
        decreases 3 - j2,
    {
        let mut k: usize = 0;
        while k < 3
            invariant
                grid_wf(s),
                sudoku@ == s,
                row < 9,
                col < 9,
                p == cell(row as int, col as int),
                area_row == 3 * ((row as int) / 3),
                area_col == 3 * ((col as int) / 3),
                j2 < 3,
                k <= 3,
                forall|r2: int, c2: int|
                    area_row <= r2 < area_row + j2 && area_col <= c2 < area_col + 3 ==> s[cell(
                        r2,
                        c2,
                    )] != v,
                forall|q: int|
                    9 * (area_row + j2) + area_col <= q < 9 * (area_row + j2) + area_col + k
                        ==> s[q] != v,
            decreases 3 - k,
        {
            if sudoku[9 * (area_row + j2) + (area_col + k)] == v {
                proof {
                    let r2 = area_row + j2;
                    let c2 = area_col + k;
                    let q = cell(r2 as int, c2 as int);
                    lemma_fundamental_div_mod_converse(q, 9, r2 as int, c2 as int);
                    lemma_fundamental_div_mod_converse(r2 as int, 3, (row as int) / 3, j2 as int);
                    lemma_fundamental_div_mod_converse(c2 as int, 3, (col as int) / 3, k as int);
                    assert(same_unit(p, q));
                    assert(!fits(s, p, v));
                }
                return false;
            }
            k += 1;
        }
        proof {
            assert forall|r2: int, c2: int|
                area_row <= r2 < area_row + j2 + 1 && area_col <= c2 < area_col
                    + 3 implies s[cell(r2, c2)] != v by {
                if r2 == area_row + j2 {
                    assert(s[9 * r2 + c2] != v);
                }
            }
        }
        j2 += 1;
    }
    proof {
        assert forall|q: int| 0 <= q < 81 && same_unit(p, q) implies s[q] != v by {
            let r2 = q / 9;
            let c2 = q % 9;
            lemma_fundamental_div_mod(q, 9);
            assert(q == cell(r2, c2));
            assert(0 <= r2 < 9 && 0 <= c2 < 9);
            if r2 == row as int {
                assert(s[cell(row as int, c2)] != v);
            } else if c2 == col as int {
                assert(s[cell(r2, col as int)] != v);
            } else {
                assert(r2 / 3 == (row as int) / 3 && c2 / 3 == (col as int) / 3);
                lemma_fundamental_div_mod(r2, 3);
                lemma_fundamental_div_mod(c2, 3);
                assert(area_row <= r2 < area_row + 3 && area_col <= c2 < area_col + 3);
                assert(s[cell(r2, c2)] != v);
            }
        }
    }
    true
}

/// At a position past the last cell nothing is left to fill: the board
/// completes itself.
proof fn lemma_completes_at_end(g: Seq<u8>, pos: int)
    requires
        g.len() == 81,
        pos >= 81,
    ensures
        completes_from(g, g, pos),
{
}

/// Skipping a given cell: the completions from `pos` and from `pos + 1`
/// are the same boards when the cell at `pos` is non-zero.
proof fn lemma_skip_given(g: Seq<u8>, pos: int)
    requires
        grid_wf(g),
        0 <= pos < 81,
        g[pos] != 0,
    ensures
        forall|s: Seq<u8>|
            #![trigger completes_from(g, s, pos)]
            #![trigger completes_from(g, s, pos + 1)]
            completes_from(g, s, pos) <==> completes_from(g, s, pos + 1),
{
    assert forall|s: Seq<u8>|
        completes_from(g, s, pos) <==> completes_from(g, s, pos + 1) by {
        if completes_from(g, s, pos + 1) {
            assert forall|i: int| 0 <= i < 81 && pos <= i implies 1 <= #[trigger] s[i] <= 9 by {
                if i == pos {
                    assert(s[pos] == g[pos]);
                }
            }
            assert(completes_from(g, s, pos));
        }
    }
}

/// Placing an accepted candidate: the completions of the updated board
/// from `pos + 1` are exactly those completions of `g` from `pos` that
/// put `v` at `pos`.
proof fn lemma_place_candidate(g: Seq<u8>, pos: int, v: u8)
    requires
        grid_wf(g),
        0 <= pos < 81,
        g[pos] == 0,
        1 <= v <= 9,
        fits(g, pos, v),
    ensures
        forall|s: Seq<u8>|
            #[trigger] completes_from(g.update(pos, v), s, pos + 1) ==> completes_from(g, s, pos),
        forall|s: Seq<u8>|
            #[trigger] completes_from(g, s, pos) && s[pos] == v ==> completes_from(
                g.update(pos, v),
                s,
                pos + 1,
            ),
{
    let g2 = g.update(pos, v);
    assert forall|s: Seq<u8>|
        completes_from(g2, s, pos + 1) implies completes_from(g, s, pos) by {
        assert forall|i: int|
            0 <= i < 81 && (i < pos || g[i] != 0) implies #[trigger] s[i] == g[i] by {
            assert(s[i] == g2[i]);
        }
        assert forall|i: int| 0 <= i < 81 && pos <= i implies 1 <= #[trigger] s[i] <= 9 by {
            if i == pos {
                assert(s[pos] == g2[pos]);
            }
        }
        assert forall|p: int, q: int|
            0 <= p < 81 && 0 <= q < 81 && p != q && #[trigger] same_unit(p, q) && ((g[p] == 0 && p
                >= pos) || (g[q] == 0 && q >= pos)) implies s[p] != s[q] by {
            if (g2[p] == 0 && p >= pos + 1) || (g2[q] == 0 && q >= pos + 1) {
                assert(s[p] != s[q]);
            } else if p == pos {
                assert(s[p] == g2[pos]);
                if g[q] != 0 {
                    assert(s[q] == g[q]);
                    assert(g[q] != v);
                } else {
                    assert(s[q] == g[q]);
                }
            } else {
                assert(q == pos);
                assert(s[q] == g2[pos]);
                assert(same_unit(pos, p));
                if g[p] != 0 {
                    assert(s[p] == g[p]);
                    assert(g[p] != v);
                } else {
                    assert(s[p] == g[p]);
                }
            }
        }
        assert(completes_from(g, s, pos));
    }
    assert forall|s: Seq<u8>|
        completes_from(g, s, pos) && s[pos] == v implies completes_from(g2, s, pos + 1) by {
        assert forall|i: int|
            0 <= i < 81 && (i < pos + 1 || g2[i] != 0) implies #[trigger] s[i] == g2[i] by {
            if i == pos {
            } else {
                assert(g2[i] == g[i]);
                assert(s[i] == g[i]);
            }
        }
        assert forall|p: int, q: int|
            0 <= p < 81 && 0 <= q < 81 && p != q && #[trigger] same_unit(p, q) && ((g2[p] == 0 && p
                >= pos + 1) || (g2[q] == 0 && q >= pos + 1)) implies s[p] != s[q] by {
            assert((g[p] == 0 && p >= pos) || (g[q] == 0 && q >= pos));
        }
        assert(completes_from(g2, s, pos + 1));
    }
}

/// A candidate that clashes with a value already in its unit appears at
/// its cell in no completion of the board.
proof fn lemma_clash_excluded(g: Seq<u8>, pos: int, v: u8)
    requires
        grid_wf(g),
        0 <= pos < 81,
        g[pos] == 0,
        1 <= v <= 9,
        !fits(g, pos, v),
    ensures
        forall|s: Seq<u8>| #[trigger] completes_from(g, s, pos) ==> s[pos] != v,
{
    let q = choose|q: int| 0 <= q < 81 && #[trigger] same_unit(pos, q) && g[q] == v;
    assert(0 <= q < 81 && same_unit(pos, q) && g[q] == v);
    assert(q != pos);
    assert forall|s: Seq<u8>| completes_from(g, s, pos) implies s[pos] != v by {
        assert(s[q] == g[q]);
        assert(s[pos] != s[q]);
    }
}

/// A lex ordering that holds from `pos + 1` on extends to `pos` when the
/// two boards agree at `pos`.
proof fn lemma_lex_extend(s: Seq<u8>, t: Seq<u8>, pos: int)
    requires
        0 <= pos < 81,
        lex_at_least(s, t, pos + 1),
        s[pos] == t[pos],
    ensures
        lex_at_least(s, t, pos),
{
    let pos1 = pos + 1;
    let k = choose|k: int| lex_witness(s, t, pos1, k);
    assert(lex_witness(s, t, pos1, k));
    assert(lex_witness(s, t, pos, k));
}

/// Every genuine solution of `g` is a completion of the whole board, so
/// an exhaustive search that finds no completion has missed no solution.
pub proof fn lemma_solution_completes(g: Seq<u8>)
    requires
        grid_wf(g),
    ensures
        forall|s: Seq<u8>| #[trigger] is_solution_of(g, s) ==> completes_from(g, s, 0),
{
    assert forall|s: Seq<u8>| is_solution_of(g, s) implies completes_from(g, s, 0) by {
        assert forall|p: int, q: int|
            0 <= p < 81 && 0 <= q < 81 && p != q && #[trigger] same_unit(p, q) && ((g[p] == 0 && p
                >= 0) || (g[q] == 0 && q >= 0)) implies s[p] != s[q] by {
            assert(1 <= s[p] <= 9);
        }
        assert(completes_from(g, s, 0));
    }
}

/// A completion of a well-formed board is itself well-formed.
proof fn lemma_completion_wf(g: Seq<u8>, s: Seq<u8>, pos: int)
    requires
        grid_wf(g),
        completes_from(g, s, pos),
    ensures
        grid_wf(s),
{
    assert forall|i: int| 0 <= i < 81 implies #[trigger] s[i] <= 9 by {
        if i < pos || g[i] != 0 {
            assert(s[i] == g[i]);
        } else {
            assert(1 <= s[i] <= 9);
        }
    }
}

/// On a board whose givens are free of duplicates, every completion of
/// the whole board is a genuine solution.
pub proof fn lemma_completion_is_solution(g: Seq<u8>)
    requires
        grid_wf(g),
        no_duplicates(g),
    ensures
        forall|s: Seq<u8>| #[trigger] completes_from(g, s, 0) ==> is_solution_of(g, s),
{
    assert forall|s: Seq<u8>| completes_from(g, s, 0) implies is_solution_of(g, s) by {
        assert forall|p: int, q: int|
            0 <= p < 81 && 0 <= q < 81 && p != q && #[trigger] same_unit(p, q) && s[p]
                != 0 implies s[p] != s[q] by {
            if (g[p] == 0 && p >= 0) || (g[q] == 0 && q >= 0) {
                assert(s[p] != s[q]);
            } else {
                assert(s[p] == g[p] && s[q] == g[q]);
                assert(g[p] != g[q]);
            }
        }
        assert(is_solution_of(g, s));
    }
}

/// One step of the search: fill the board from position `(row, col)` on,
/// visiting cells left to right, top to bottom.
///
/// Returns true exactly when the board can be completed from this
/// position; the board then holds the first such completion in
/// ascending-candidate order, and otherwise is left as it was found.
#[verifier::loop_isolation(false)]
pub fn solve_cell(sudoku: &mut Vec<u8>, row: usize, col: usize) -> (solved: bool)
    requires
        grid_wf(old(sudoku)@),
        row <= 9,
        col < 9,
        row == 9 ==> col == 0,
    ensures
        grid_wf(final(sudoku)@),
        solved <==> exists|s: Seq<u8>|
            completes_from(old(sudoku)@, s, cell(row as int, col as int)),
        solved ==> completes_from(old(sudoku)@, final(sudoku)@, cell(row as int, col as int)),
        solved ==> forall|s: Seq<u8>|
            #[trigger] completes_from(old(sudoku)@, s, cell(row as int, col as int))
                ==> lex_at_least(s, final(sudoku)@, cell(row as int, col as int)),
        !solved ==> final(sudoku)@ == old(sudoku)@,
    decreases 90 - 9 * (row as int) - (col as int),
{
    let ghost g = sudoku@;
    let ghost p = cell(row as int, col as int);

    // past the last row: every cell is placed, report success
    if row == 9 {
        proof {
            lemma_completes_at_end(g, p);
            assert forall|s: Seq<u8>|
                completes_from(g, s, p) implies lex_at_least(s, sudoku@, p) by {
                assert(lex_witness(s, sudoku@, p, 81));
            }
        }
        return true;
    }
    // the next cell's coordinates, wrapping to the next row after column 8
    let next_col: usize = (col + 1) % 9;
    let next_row: usize = if next_col >= col {
        row
    } else {
        row + 1
    };
    let ghost np = cell(next_row as int, next_col as int);
    proof {
        assert(np == p + 1);
        assert(next_row == 9 ==> next_col == 0);
    }
    let idx: usize = 9 * row + col;
    // a cell holding a given is never edited: move on
    if sudoku[idx] != 0 {
        let solved = solve_cell(sudoku, next_row, next_col);
        proof {
            lemma_skip_given(g, p);
            if solved {
                assert(completes_from(g, sudoku@, p));
                assert forall|s: Seq<u8>|
                    completes_from(g, s, p) implies lex_at_least(s, sudoku@, p) by {
                    assert(completes_from(g, s, p + 1));
                    assert(s[p] == g[p] && sudoku@[p] == g[p]);
                    lemma_lex_extend(s, sudoku@, p);
                }
            } else {
                assert forall|s: Seq<u8>| !completes_from(g, s, p) by {
                    if completes_from(g, s, p) {
                        assert(completes_from(g, s, p + 1));
                    }
                }
            }
        }
        return solved;
    }
    proof {
        assert(g[p] == 0);
    }
    // try each candidate digit in ascending order
    let mut v: u8 = 1;
    while v <= 9
        invariant
            sudoku@ == g,
            1 <= v <= 10,
            forall|s: Seq<u8>| #[trigger] completes_from(g, s, p) ==> v <= s[p],
        decreases 10 - v,
    {
        if fits_cell(sudoku, row, col, v) {
            // tentatively place the candidate and search on
            sudoku.set(idx, v);
            proof {
                assert(sudoku@ =~= g.update(p, v));
                lemma_place_candidate(g, p, v);
            }
            let found = solve_cell(sudoku, next_row, next_col);
            if found {
                proof {
                    let g2 = g.update(p, v);
                    assert(completes_from(g2, sudoku@, p + 1));
                    assert(completes_from(g, sudoku@, p));
                    lemma_completion_wf(g, sudoku@, p);
                    assert forall|s: Seq<u8>|
                        completes_from(g, s, p) implies lex_at_least(s, sudoku@, p) by {
                        assert(sudoku@[p] == g2[p]);
                        if s[p] == v {
                            assert(completes_from(g2, s, p + 1));
                            assert(lex_at_least(s, sudoku@, p + 1));
                            lemma_lex_extend(s, sudoku@, p);
                        } else {
                            assert(v <= s[p]);
                            assert(lex_witness(s, sudoku@, p, p));
                        }
                    }
                }
                return true;
            }
            // the candidate leads nowhere: erase it and try the next
            sudoku.set(idx, 0);
            proof {
                assert(sudoku@ =~= g);
                assert forall|s: Seq<u8>| completes_from(g, s, p) implies v + 1 <= s[p] by {
                    if s[p] == v {
                        assert(completes_from(g.update(p, v), s, p + 1));
                        assert(false);
                    }
                }
            }
        } else {
            proof {
                lemma_clash_excluded(g, p, v);
                assert forall|s: Seq<u8>| completes_from(g, s, p) implies v + 1 <= s[p] by {
                    assert(s[p] != v);
                }
            }
        }
        v = v + 1;
    }
    // no digit fits this cell: report failure with the board unchanged
    proof {
        assert forall|s: Seq<u8>| !completes_from(g, s, p) by {
            if completes_from(g, s, p) {
                assert(1 <= s[p] <= 9);
                assert(10 <= s[p]);
            }
        }
    }
    false
}

/// Solve the board in place.
///
/// On success the board holds a full solution: the first one in
/// row-major, ascending-candidate search order.  On failure the board is
/// left exactly as it was given, every originally empty cell zero again.
/// Success is owed whenever a solution exists; when the givens
/// themselves hide a duplicate, the search reports whatever its
/// exhaustive run produces, exactly as `search_outcome` states.
pub fn solve(sudoku: &mut Vec<u8>) -> (solved: bool)
    requires
        grid_wf(old(sudoku)@),
    ensures
        grid_wf(final(sudoku)@),
        solved ==> full(final(sudoku)@) && keeps_givens(old(sudoku)@, final(sudoku)@),
        solved && no_duplicates(old(sudoku)@) ==> is_solution_of(old(sudoku)@, final(sudoku)@),
        (exists|s: Seq<u8>| is_solution_of(old(sudoku)@, s)) ==> solved,
        !solved ==> final(sudoku)@ == old(sudoku)@,
        search_outcome(old(sudoku)@, solved, final(sudoku)@),
{
    let ghost g = sudoku@;
    let solved = solve_cell(sudoku, 0, 0);
    proof {
        assert(cell(0, 0) == 0);
        if solved {
            assert(completes_from(g, sudoku@, 0));
            assert(full(sudoku@));
            assert(keeps_givens(g, sudoku@));
            if no_duplicates(g) {
                lemma_completion_is_solution(g);
            }
        } else {
            lemma_solution_completes(g);
            assert forall|s: Seq<u8>| !is_solution_of(g, s) by {
                if is_solution_of(g, s) {
                    assert(completes_from(g, s, 0));
                }
            }
        }
    }
    solved
}

} // verus!
