//! The solver as a mathematical function: depth-first search over cell
//! positions with chronological backtracking, candidates tried in
//! ascending order. The executable solver returns exactly what `search`
//! denotes, so its result is a function of the starting board.

use vstd::prelude::*;
use crate::grid::{
    board_valid, cell_at, col_of, completes, is_board, lemma_box_scan_peer, lemma_col_scan_peer,
    lemma_place_keeps_valid, lemma_row_scan_peer, peers, row_of, safe_at,
};

verus! {

/// The outcome of the backtracking search from position `i`: the first
/// completion the candidate order reaches, or `None` when every branch
/// is exhausted.
pub open spec fn search(b: Seq<u8>, i: int) -> Option<Seq<u8>>
    decreases 81 - i, 10int,
{
    if i < 0 || i >= 81 {
        Some(b)
    } else if b[i] != 0 {
        search(b, i + 1)
    } else {
        try_nums(b, i, 1)
    }
}

/// Candidates `n..=9` tried in order at the empty cell `i`.
pub open spec fn try_nums(b: Seq<u8>, i: int, n: int) -> Option<Seq<u8>>
    decreases 81 - i, 10 - n,
{
    if i < 0 || i >= 81 || n < 1 || n > 9 {
        None
    } else if safe_at(b, i, n as u8) {
        match search(b.update(i, n as u8), i + 1) {
            Some(c) => Some(c),
            None => try_nums(b, i, n + 1),
        }
    } else {
        try_nums(b, i, n + 1)
    }
}

/// What any found completion looks like: cells before `i` and filled
/// cells are untouched, cells from `i` on are filled, and every cell the
/// search wrote holds a digit 1..=9.
pub proof fn lemma_search_frame(b: Seq<u8>, i: int)
    requires
        is_board(b),
        0 <= i <= 81,
    ensures
        match search(b, i) {
            Some(c) => {
                &&& c.len() == 81
                &&& (forall|j: int| 0 <= j < i ==> c[j] == b[j])
                &&& (forall|j: int| 0 <= j < 81 && b[j] != 0 ==> c[j] == b[j])
                &&& (forall|j: int| i <= j < 81 ==> c[j] != 0 && (b[j] != 0 || 1 <= c[j] <= 9))
            },
            None => true,
        },
    decreases 81 - i, 10int,
{
    if i < 81 {
        if b[i] != 0 {
            lemma_search_frame(b, i + 1);
        } else {
            lemma_try_frame(b, i, 1);
        }
    }
}

pub proof fn lemma_try_frame(b: Seq<u8>, i: int, n: int)
    requires
        is_board(b),
        0 <= i < 81,
        b[i] == 0,
        1 <= n,
    ensures
        match try_nums(b, i, n) {
            Some(c) => {
                &&& c.len() == 81
                &&& (forall|j: int| 0 <= j < i ==> c[j] == b[j])
                &&& (forall|j: int| 0 <= j < 81 && b[j] != 0 ==> c[j] == b[j])
                &&& (forall|j: int| i <= j < 81 ==> c[j] != 0 && (b[j] != 0 || 1 <= c[j] <= 9))
            },
            None => true,
        },
    decreases 81 - i, 10 - n,
{
    if n <= 9 {
        if safe_at(b, i, n as u8) {
            let b2 = b.update(i, n as u8);
            lemma_search_frame(b2, i + 1);
            if search(b2, i + 1) is None {
                lemma_try_frame(b, i, n + 1);
            }
        } else {
            lemma_try_frame(b, i, n + 1);
        }
    }
}

/// Soundness: searching a valid board only ever yields a valid board.
pub proof fn lemma_search_sound(b: Seq<u8>, i: int)
    requires
        is_board(b),
        board_valid(b),
        0 <= i <= 81,
    ensures
        match search(b, i) {
            Some(c) => board_valid(c),
            None => true,
        },
    decreases 81 - i, 10int,
{
    if i < 81 {
        if b[i] != 0 {
            lemma_search_sound(b, i + 1);
        } else {
            lemma_try_sound(b, i, 1);
        }
    }
}

pub proof fn lemma_try_sound(b: Seq<u8>, i: int, n: int)
    requires
        is_board(b),
        board_valid(b),
        0 <= i < 81,
        b[i] == 0,
        1 <= n,
    ensures
        match try_nums(b, i, n) {
            Some(c) => board_valid(c),
            None => true,
        },
    decreases 81 - i, 10 - n,
{
    if n <= 9 {
        if safe_at(b, i, n as u8) {
            let b2 = b.update(i, n as u8);
            lemma_place_keeps_valid(b, i, n as u8);
            lemma_search_sound(b2, i + 1);
            if search(b2, i + 1) is None {
                lemma_try_sound(b, i, n + 1);
            }
        } else {
            lemma_try_sound(b, i, n + 1);
        }
    }
}

/// Completeness: when some full valid grid extends the filled cells of
/// `b`, the search cannot fail.
pub proof fn lemma_search_complete(b: Seq<u8>, c: Seq<u8>, i: int)
    requires
        is_board(b),
        completes(b, c),
        0 <= i <= 81,
    ensures
        search(b, i) is Some,
    decreases 81 - i, 10int,
{
    if i < 81 {
        if b[i] != 0 {
            lemma_search_complete(b, c, i + 1);
        } else {
            lemma_safe_for_completion(b, c, i);
            lemma_try_complete(b, c, i, 1);
        }
    }
}

/// The digit the completion holds at an empty cell passes the scan.
proof fn lemma_safe_for_completion(b: Seq<u8>, c: Seq<u8>, i: int)
    requires
        is_board(b),
        completes(b, c),
        0 <= i < 81,
        b[i] == 0,
    ensures
        1 <= c[i] <= 9,
        safe_at(b, i, c[i]),
{
    let v = c[i];
    assert forall|k: int| 0 <= k < 9 implies b[cell_at(row_of(i), k)] != v by {
        lemma_row_scan_peer(i, k);
        let j = cell_at(row_of(i), k);
        if b[j] != 0 {
            if j != i {
                assert(peers(i, j));
                assert(c[i] != c[j]);
            }
        }
    }
    assert forall|k: int| 0 <= k < 9 implies b[cell_at(k, col_of(i))] != v by {
        lemma_col_scan_peer(i, k);
        let j = cell_at(k, col_of(i));
        if b[j] != 0 {
            if j != i {
                assert(peers(i, j));
                assert(c[i] != c[j]);
            }
        }
    }
    assert forall|r: int, c2: int|
        0 <= r < 9 && 0 <= c2 < 9 && r / 3 == row_of(i) / 3 && c2 / 3 == col_of(i) / 3 implies b[
        cell_at(r, c2)] != v by {
        lemma_box_scan_peer(i, r, c2);
        let j = cell_at(r, c2);
        if b[j] != 0 {
            if j != i {
                assert(peers(i, j));
                assert(c[i] != c[j]);
            }
        }
    }
}

pub proof fn lemma_try_complete(b: Seq<u8>, c: Seq<u8>, i: int, n: int)
    requires
        is_board(b),
        completes(b, c),
        0 <= i < 81,
        b[i] == 0,
        1 <= n <= c[i],
    ensures
        try_nums(b, i, n) is Some,
    decreases 81 - i, 10 - n,
{
    lemma_safe_for_completion(b, c, i);
    let v = c[i];
    if n == v {
        let b2 = b.update(i, v);
        assert(completes(b2, c));
        lemma_search_complete(b2, c, i + 1);
    } else {
        if safe_at(b, i, n as u8) {
            let b2 = b.update(i, n as u8);
            if search(b2, i + 1) is None {
                lemma_try_complete(b, c, i, n + 1);
            }
        } else {
            lemma_try_complete(b, c, i, n + 1);
        }
    }
}

/// A board whose cells from `i` on are all filled searches to itself.
pub proof fn lemma_search_full(b: Seq<u8>, i: int)
    requires
        is_board(b),
        0 <= i <= 81,
        forall|j: int| i <= j < 81 ==> b[j] != 0,
    ensures
        search(b, i) == Some(b),
    decreases 81 - i,
{
    if i < 81 {
        lemma_search_full(b, i + 1);
    }
}

} // verus!
