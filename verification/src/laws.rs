//! The engine's cross-cutting guarantees, each stated and proved over the
//! board model and the `search` function that `solve` returns.

use vstd::prelude::*;
use crate::grid::{
    board_full, board_valid, cells_in_range, completes, has_completion, is_board,
    lemma_safe_no_peer, move_ok, peers, safe_at,
};
use crate::search::{lemma_search_complete, lemma_search_full, search};

verus! {

/// Self-consistency of a finished grid: on a fully filled valid board,
/// every cell's own value validates as a move into that cell.
pub proof fn lemma_full_valid_self_consistent(b: Seq<u8>, i: int)
    requires
        is_board(b),
        cells_in_range(b),
        board_full(b),
        board_valid(b),
        0 <= i < 81,
    ensures
        move_ok(b, i, b[i]),
{
    assert forall|j: int| 0 <= j < 81 && j != i && #[trigger] peers(i, j) implies b[j] != b[i] by {
        assert(b[i] != b[j]);
    }
}

/// Agreement of the two checkers: a value the solver's scan admits at an
/// empty cell also validates, as an external move, against the board that
/// now holds it.
pub proof fn lemma_safe_move_validates(b: Seq<u8>, i: int, v: u8)
    requires
        is_board(b),
        0 <= i < 81,
        1 <= v <= 9,
        b[i] == 0,
        safe_at(b, i, v),
    ensures
        move_ok(b.update(i, v), i, v),
{
    lemma_safe_no_peer(b, i, v);
    let b2 = b.update(i, v);
    assert forall|j: int| 0 <= j < 81 && j != i && #[trigger] peers(i, j) implies b2[j] != v by {
        assert(b[j] != v);
    }
}

/// A board that is already a complete valid grid searches to itself, so
/// `solve` returns true at once and leaves it unchanged.
pub proof fn lemma_solve_complete_grid(b: Seq<u8>)
    requires
        is_board(b),
        board_full(b),
        board_valid(b),
    ensures
        search(b, 0) == Some(b),
{
    lemma_search_full(b, 0);
}

/// The solver misses nothing: whenever some full valid grid extends the
/// filled cells of `b`, the search succeeds. Contrapositively, a `false`
/// from `solve` means the board has no completion at all.
pub proof fn lemma_solvable_search_some(b: Seq<u8>)
    requires
        is_board(b),
        has_completion(b),
    ensures
        search(b, 0) is Some,
{
    let c = choose|c: Seq<u8>| completes(b, c);
    lemma_search_complete(b, c, 0);
}

} // verus!
