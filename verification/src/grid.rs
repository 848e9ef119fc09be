//! The mathematical model of the board: cell geometry (rows, columns,
//! 3x3 boxes), validity of a position, and counting of empty cells.

use vstd::prelude::*;

verus! {

/// Row of cell index `i` in the row-major 9x9 grid.
pub open spec fn row_of(i: int) -> int {
    i / 9
}

/// Column of cell index `i`.
pub open spec fn col_of(i: int) -> int {
    i % 9
}

/// Cell index of row `r`, column `c`.
pub open spec fn cell_at(r: int, c: int) -> int {
    r * 9 + c
}

/// A board is the fixed flat sequence of 81 cells, 0 meaning empty.
pub open spec fn is_board(b: Seq<u8>) -> bool {
    b.len() == 81
}

/// Every cell holds 0 (empty) or a digit 1..=9.
pub open spec fn cells_in_range(b: Seq<u8>) -> bool {
    forall|i: int| 0 <= i < 81 ==> b[i] <= 9
}

/// Cells `i` and `j` share a row, a column, or a 3x3 box.
pub open spec fn peers(i: int, j: int) -> bool {
    ||| row_of(i) == row_of(j)
    ||| col_of(i) == col_of(j)
    ||| (row_of(i) / 3 == row_of(j) / 3 && col_of(i) / 3 == col_of(j) / 3)
}

/// No two distinct cells of one row, column or box hold the same digit.
pub open spec fn board_valid(b: Seq<u8>) -> bool {
    forall|i: int, j: int|
        0 <= i < 81 && 0 <= j < 81 && i != j && #[trigger] peers(i, j) && b[i] != 0 ==> b[i]
            != b[j]
}

/// Every cell is filled.
pub open spec fn board_full(b: Seq<u8>) -> bool {
    forall|i: int| 0 <= i < 81 ==> b[i] != 0
}

/// `v` appears nowhere in the row, the column, or the box of cell `i`:
/// the scan the solver makes before placing `v` at an empty cell `i`.
pub open spec fn safe_at(b: Seq<u8>, i: int, v: u8) -> bool {
    &&& (forall|k: int| 0 <= k < 9 ==> b[cell_at(row_of(i), k)] != v)
    &&& (forall|k: int| 0 <= k < 9 ==> b[cell_at(k, col_of(i))] != v)
    &&& (forall|r: int, c: int|
        0 <= r < 9 && 0 <= c < 9 && r / 3 == row_of(i) / 3 && c / 3 == col_of(i) / 3
            ==> b[cell_at(r, c)] != v)
}

/// What external move validation answers: the index and value are in
/// range and no peer other than cell `i` itself already holds `v`.
pub open spec fn move_ok(b: Seq<u8>, i: int, v: u8) -> bool {
    &&& 0 <= i < 81
    &&& 1 <= v <= 9
    &&& forall|j: int| 0 <= j < 81 && j != i && #[trigger] peers(i, j) ==> b[j] != v
}

/// `c` is a full valid grid that agrees with `b` on every filled cell of `b`.
pub open spec fn completes(b: Seq<u8>, c: Seq<u8>) -> bool {
    &&& is_board(c)
    &&& cells_in_range(c)
    &&& board_full(c)
    &&& board_valid(c)
    &&& forall|j: int| 0 <= j < 81 && b[j] != 0 ==> c[j] == b[j]
}

/// Some full valid grid extends the filled cells of `b`.
pub open spec fn has_completion(b: Seq<u8>) -> bool {
    exists|c: Seq<u8>| completes(b, c)
}

/// Cell `i` lies in the 3x3 box whose top-left corner is `(r0, c0)`.
pub open spec fn in_box(i: int, r0: int, c0: int) -> bool {
    r0 <= row_of(i) < r0 + 3 && c0 <= col_of(i) < c0 + 3
}

/// The `m`-th cell (row-major, `0 <= m < 9`) of the 3x3 box whose
/// top-left corner is `(r0, c0)`.
pub open spec fn box_cell(r0: int, c0: int, m: int) -> int {
    cell_at(r0 + m / 3, c0 + m % 3)
}

/// Number of empty cells among the first `n`.
pub open spec fn zeros_below(b: Seq<u8>, n: int) -> int
    decreases n,
{
    if n <= 0 {
        0
    } else {
        zeros_below(b, n - 1) + if b[n - 1] == 0 {
            1int
        } else {
            0int
        }
    }
}

/// Number of empty cells of the board.
pub open spec fn num_zeros(b: Seq<u8>) -> int {
    zeros_below(b, 81)
}

pub proof fn lemma_cell_at(r: int, c: int)
    requires
        0 <= r < 9,
        0 <= c < 9,
    ensures
        0 <= cell_at(r, c) < 81,
        row_of(cell_at(r, c)) == r,
        col_of(cell_at(r, c)) == c,
{
    assert((r * 9 + c) / 9 == r && (r * 9 + c) % 9 == c) by (nonlinear_arith)
        requires
            0 <= r < 9 && 0 <= c < 9,
    ;
}

pub proof fn lemma_decompose(i: int)
    requires
        0 <= i < 81,
    ensures
        0 <= row_of(i) < 9,
        0 <= col_of(i) < 9,
        i == cell_at(row_of(i), col_of(i)),
{
    assert(0 <= i / 9 < 9 && 0 <= i % 9 < 9 && i == (i / 9) * 9 + (i % 9)) by (nonlinear_arith)
        requires
            0 <= i < 81,
    ;
}

/// If the scan around cell `i` finds `v` nowhere, then no peer of `i`
/// (including `i` itself) holds `v`.
pub proof fn lemma_safe_no_peer(b: Seq<u8>, i: int, v: u8)
    requires
        is_board(b),
        0 <= i < 81,
        safe_at(b, i, v),
    ensures
        forall|j: int| 0 <= j < 81 && #[trigger] peers(i, j) ==> b[j] != v,
{
    assert forall|j: int| 0 <= j < 81 && #[trigger] peers(i, j) implies b[j] != v by {
        lemma_decompose(i);
        lemma_decompose(j);
        if row_of(j) == row_of(i) {
            assert(j == cell_at(row_of(i), col_of(j)));
            assert(b[cell_at(row_of(i), col_of(j))] != v);
        } else if col_of(j) == col_of(i) {
            assert(j == cell_at(row_of(j), col_of(i)));
            assert(b[cell_at(row_of(j), col_of(i))] != v);
        } else {
            assert(j == cell_at(row_of(j), col_of(j)));
            assert(b[cell_at(row_of(j), col_of(j))] != v);
        }
    }
}

/// The cell the row scan visits at offset `k` is a peer of `i`.
pub proof fn lemma_row_scan_peer(i: int, k: int)
    requires
        0 <= i < 81,
        0 <= k < 9,
    ensures
        0 <= cell_at(row_of(i), k) < 81,
        peers(i, cell_at(row_of(i), k)),
        col_of(cell_at(row_of(i), k)) == k,
{
    lemma_decompose(i);
    lemma_cell_at(row_of(i), k);
}

/// The cell the column scan visits at offset `k` is a peer of `i`.
pub proof fn lemma_col_scan_peer(i: int, k: int)
    requires
        0 <= i < 81,
        0 <= k < 9,
    ensures
        0 <= cell_at(k, col_of(i)) < 81,
        peers(i, cell_at(k, col_of(i))),
        row_of(cell_at(k, col_of(i))) == k,
{
    lemma_decompose(i);
    lemma_cell_at(k, col_of(i));
}

/// The cell the box scan visits at `(r, c)` is a peer of `i`.
pub proof fn lemma_box_scan_peer(i: int, r: int, c: int)
    requires
        0 <= i < 81,
        0 <= r < 9,
        0 <= c < 9,
        r / 3 == row_of(i) / 3,
        c / 3 == col_of(i) / 3,
    ensures
        0 <= cell_at(r, c) < 81,
        peers(i, cell_at(r, c)),
        row_of(cell_at(r, c)) == r,
        col_of(cell_at(r, c)) == c,
{
    lemma_decompose(i);
    lemma_cell_at(r, c);
}

/// Division by 3 of an offset within a block of 3.
pub proof fn lemma_div3_offset(q: int, d: int)
    requires
        0 <= q,
        0 <= d < 3,
    ensures
        (3 * q + d) / 3 == q,
        (3 * q + d) % 3 == d,
{
    assert((3 * q + d) / 3 == q && (3 * q + d) % 3 == d) by (nonlinear_arith)
        requires
            0 <= q && 0 <= d < 3,
    ;
}

/// Placing a value the scan admits at an empty cell keeps the board valid.
pub proof fn lemma_place_keeps_valid(b: Seq<u8>, i: int, v: u8)
    requires
        is_board(b),
        board_valid(b),
        0 <= i < 81,
        1 <= v <= 9,
        b[i] == 0,
        safe_at(b, i, v),
    ensures
        board_valid(b.update(i, v)),
{
    lemma_safe_no_peer(b, i, v);
    let b2 = b.update(i, v);
    assert forall|x: int, y: int|
        0 <= x < 81 && 0 <= y < 81 && x != y && #[trigger] peers(x, y) && b2[x] != 0 implies b2[x]
        != b2[y] by {
        if x == i {
            assert(peers(i, y));
        } else if y == i {
            assert(peers(x, i) == peers(i, x));
            assert(peers(i, x));
        } else {
            assert(peers(x, y));
        }
    }
}

pub proof fn lemma_box_cell(r0: int, c0: int, m: int)
    requires
        0 <= r0 <= 6,
        0 <= c0 <= 6,
        0 <= m < 9,
    ensures
        0 <= box_cell(r0, c0, m) < 81,
        row_of(box_cell(r0, c0, m)) == r0 + m / 3,
        col_of(box_cell(r0, c0, m)) == c0 + m % 3,
        in_box(box_cell(r0, c0, m), r0, c0),
{
    assert(0 <= m / 3 < 3 && 0 <= m % 3 < 3) by (nonlinear_arith)
        requires
            0 <= m < 9,
    ;
    lemma_cell_at(r0 + m / 3, c0 + m % 3);
}

/// Distinct row-major offsets name distinct cells of one box.
pub proof fn lemma_box_cell_inj(r0: int, c0: int, m1: int, m2: int)
    requires
        0 <= r0 <= 6,
        0 <= c0 <= 6,
        0 <= m1 < 9,
        0 <= m2 < 9,
        m1 != m2,
    ensures
        box_cell(r0, c0, m1) != box_cell(r0, c0, m2),
{
    lemma_box_cell(r0, c0, m1);
    lemma_box_cell(r0, c0, m2);
    assert(m1 == 3 * (m1 / 3) + m1 % 3 && m2 == 3 * (m2 / 3) + m2 % 3) by (nonlinear_arith);
}

/// Every cell of a box is one of its nine row-major cells.
pub proof fn lemma_in_box_index(r0: int, c0: int, j: int)
    requires
        0 <= r0 <= 6,
        0 <= c0 <= 6,
        0 <= j < 81,
        in_box(j, r0, c0),
    ensures
        0 <= 3 * (row_of(j) - r0) + (col_of(j) - c0) < 9,
        box_cell(r0, c0, 3 * (row_of(j) - r0) + (col_of(j) - c0)) == j,
{
    lemma_decompose(j);
    let a = row_of(j) - r0;
    let d = col_of(j) - c0;
    lemma_div3_offset(a, d);
    assert(box_cell(r0, c0, 3 * a + d) == cell_at(row_of(j), col_of(j)));
}

/// A board whose filled cells lie in the three diagonal boxes, each box
/// without a repeated digit, is valid: those boxes share no row, column
/// or box.
pub proof fn lemma_diagonal_valid(b: Seq<u8>)
    requires
        is_board(b),
        forall|j: int|
            0 <= j < 81 && b[j] != 0 ==> in_box(j, 0, 0) || in_box(j, 3, 3) || in_box(j, 6, 6),
        forall|r0: int, x: int, y: int|
            (r0 == 0 || r0 == 3 || r0 == 6) && 0 <= x < 81 && 0 <= y < 81 && x != y
                && #[trigger] in_box(x, r0, r0) && #[trigger] in_box(y, r0, r0) ==> b[x] != b[y],
    ensures
        board_valid(b),
{
    assert forall|x: int, y: int|
        0 <= x < 81 && 0 <= y < 81 && x != y && #[trigger] peers(x, y) && b[x] != 0 implies b[x]
        != b[y] by {
        if b[y] != 0 {
            lemma_decompose(x);
            lemma_decompose(y);
            let rx = if in_box(x, 0, 0) {
                0int
            } else if in_box(x, 3, 3) {
                3int
            } else {
                6int
            };
            let ry = if in_box(y, 0, 0) {
                0int
            } else if in_box(y, 3, 3) {
                3int
            } else {
                6int
            };
            assert(in_box(x, rx, rx) && in_box(y, ry, ry));
            assert(rx == ry);
            assert(b[x] != b[y]);
        }
    }
}

/// Blanking cells of a valid board keeps it valid.
pub proof fn lemma_blank_keeps_valid(b: Seq<u8>, c: Seq<u8>)
    requires
        is_board(b),
        is_board(c),
        board_valid(c),
        forall|j: int| 0 <= j < 81 ==> b[j] == c[j] || b[j] == 0,
    ensures
        board_valid(b),
{
    assert forall|x: int, y: int|
        0 <= x < 81 && 0 <= y < 81 && x != y && #[trigger] peers(x, y) && b[x] != 0 implies b[x]
        != b[y] by {
        assert(b[x] == c[x]);
        if b[y] != 0 {
            assert(b[y] == c[y]);
        }
    }
}

pub proof fn lemma_zeros_bounds(b: Seq<u8>, n: int)
    requires
        0 <= n,
    ensures
        0 <= zeros_below(b, n) <= n,
    decreases n,
{
    if n > 0 {
        lemma_zeros_bounds(b, n - 1);
    }
}

/// Blanking one filled cell raises the count of empty cells by one.
pub proof fn lemma_zeros_update(b: Seq<u8>, i: int, n: int)
    requires
        0 <= i < n <= b.len(),
        b[i] != 0,
    ensures
        zeros_below(b.update(i, 0u8), n) == zeros_below(b, n) + 1,
    decreases n,
{
    let b2 = b.update(i, 0u8);
    if i == n - 1 {
        lemma_zeros_agree(b, b2, n - 1);
    } else {
        lemma_zeros_update(b, i, n - 1);
    }
}

/// Boards equal below `n` count the same empty cells there.
pub proof fn lemma_zeros_agree(b: Seq<u8>, c: Seq<u8>, n: int)
    requires
        forall|j: int| 0 <= j < n ==> b[j] == c[j],
    ensures
        zeros_below(b, n) == zeros_below(c, n),
    decreases n,
{
    if n > 0 {
        lemma_zeros_agree(b, c, n - 1);
    }
}

/// A fully filled prefix has no empty cells.
pub proof fn lemma_zeros_full(b: Seq<u8>, n: int)
    requires
        0 <= n,
        forall|j: int| 0 <= j < n ==> b[j] != 0,
    ensures
        zeros_below(b, n) == 0,
    decreases n,
{
    if n > 0 {
        lemma_zeros_full(b, n - 1);
    }
}

/// An all-empty prefix is counted whole.
pub proof fn lemma_zeros_empty(b: Seq<u8>, n: int)
    requires
        0 <= n,
        forall|j: int| 0 <= j < n ==> b[j] == 0,
    ensures
        zeros_below(b, n) == n,
    decreases n,
{
    if n > 0 {
        lemma_zeros_empty(b, n - 1);
    }
}

} // verus!
