//! Properties of the solver that relate whole runs of the search: the
//! outcome is deterministic, and a solved board is a fixed point.

use crate::solver::{completes_from, lex_at_least, lex_witness, search_outcome};
use crate::grid::{grid_wf, solved_grid};
use vstd::prelude::*;

verus! {

/// Read from position `pos` on, mutual `lex_at_least` forces two boards
/// to agree cell by cell.
proof fn lemma_lex_antisym(s: Seq<u8>, t: Seq<u8>, pos: int)
    requires
        lex_at_least(s, t, pos),
        lex_at_least(t, s, pos),
    ensures
        forall|i: int| pos <= i < 81 ==> s[i] == t[i],
{
    let k1 = choose|k: int| lex_witness(s, t, pos, k);
    let k2 = choose|k: int| lex_witness(t, s, pos, k);
    assert(lex_witness(s, t, pos, k1));
    assert(lex_witness(t, s, pos, k2));
    if k1 < k2 {
        assert(t[k1] == s[k1]);
        assert(false);
    } else if k2 < k1 {
        assert(s[k2] == t[k2]);
        assert(false);
    } else if k1 < 81 {
        assert(false);
    }
}

/// The search never draws on anything but the board it is given: two
/// runs on the same board return the same flag and leave the same board.
pub proof fn lemma_solve_deterministic(
    g: Seq<u8>,
    solved1: bool,
    out1: Seq<u8>,
    solved2: bool,
    out2: Seq<u8>,
)
    requires
        search_outcome(g, solved1, out1),
        search_outcome(g, solved2, out2),
    ensures
        solved1 == solved2,
        out1 == out2,
{
    if solved1 {
        assert(lex_at_least(out1, out2, 0));
        assert(lex_at_least(out2, out1, 0));
        lemma_lex_antisym(out1, out2, 0);
        assert(out1 =~= out2);
    }
}

/// A board that is already completely solved is a fixed point of the
/// search: the run succeeds at once and changes nothing.
pub proof fn lemma_idempotent_on_solved(g: Seq<u8>, solved: bool, out: Seq<u8>)
    requires
        grid_wf(g),
        solved_grid(g),
        search_outcome(g, solved, out),
    ensures
        solved,
        out == g,
{
    assert(completes_from(g, g, 0));
    assert(completes_from(g, out, 0));
    assert forall|i: int| 0 <= i < 81 implies out[i] == g[i] by {
        assert(1 <= g[i]);
    }
    assert(out =~= g);
}

} // verus!
