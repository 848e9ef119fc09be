//! The Sudoku engine: board state, constraint checking, the backtracking
//! solver, and the seeded generator.

use vstd::prelude::*;
use crate::grid::{
    board_full, board_valid, box_cell, cell_at, cells_in_range, col_of, completes, has_completion,
    in_box, is_board, lemma_blank_keeps_valid, lemma_box_cell, lemma_box_cell_inj,
    lemma_box_scan_peer, lemma_cell_at, lemma_col_scan_peer, lemma_decompose, lemma_diagonal_valid,
    lemma_div3_offset, lemma_in_box_index, lemma_row_scan_peer, lemma_zeros_bounds,
    lemma_zeros_empty, lemma_zeros_full, lemma_zeros_update, move_ok, num_zeros, peers, row_of,
    safe_at,
};
use crate::search::{lemma_search_frame, lemma_search_sound, search, try_nums};
use crate::rng::{str_eq, SeededRng};

verus! {

/// The engine: one 81-cell board in row-major order, 0 for an empty cell.
pub struct SudokuCore {
    cells: Vec<u8>,
}

impl View for SudokuCore {
    type V = Seq<u8>;

    closed spec fn view(&self) -> Seq<u8> {
        self.cells@
    }
}

impl SudokuCore {
    /// The board always keeps its fixed size of 81 cells.
    pub open spec fn wf(&self) -> bool {
        self@.len() == 81
    }

    /// An empty engine: 81 empty cells.
    pub fn new() -> (s: Self)
        ensures
            s.wf(),
            forall|j: int| 0 <= j < 81 ==> s@[j] == 0,
    {
        let mut cells: Vec<u8> = Vec::new();
        let mut k: usize = 0;
        while k < 81
            invariant
                cells@.len() == k,
                k <= 81,
                forall|j: int| 0 <= j < k ==> cells@[j] == 0,
            decreases 81 - k,
        {
            cells.push(0);
            k = k + 1;
        }
        SudokuCore { cells }
    }

    /// A snapshot of the current board.
    pub fn get_board(&self) -> (b: Vec<u8>)
        requires
            self.wf(),
        ensures
            b@ == self@,
    {
        let mut b: Vec<u8> = Vec::new();
        let mut k: usize = 0;
        while k < 81
            invariant
                self.wf(),
                b@.len() == k,
                k <= 81,
                forall|j: int| 0 <= j < k ==> b@[j] == self@[j],
            decreases 81 - k,
        {
            b.push(self.cells[k]);
            k = k + 1;
        }
        proof {
            assert(b@ =~= self@);
        }
        b
    }

    /// Replaces the board iff the supplied sequence has length 81;
    /// otherwise the prior state is kept unchanged.
    pub fn set_board(&mut self, board: Vec<u8>)
        ensures
            final(self)@ == if board@.len() == 81 {
                board@
            } else {
                old(self)@
            },
    {
        if board.len() == 81 {
            self.cells = board;
        }
    }

    /// The solver's scan: is it safe to put `num` into the (empty) cell
    /// `index`? True iff `num` appears nowhere in the cell's row, column
    /// or box.
    fn is_safe(&self, index: usize, num: u8) -> (r: bool)
        requires
            self.wf(),
            index < 81,
        ensures
            r == safe_at(self@, index as int, num),
    {
        let row = index / 9;
        let col = index % 9;
        proof {
            lemma_decompose(index as int);
        }
        let mut k: usize = 0;
        while k < 9
            invariant
                self.wf(),
                index < 81,
                k <= 9,
                row == row_of(index as int),
                col == col_of(index as int),
                forall|m: int|
                    0 <= m < k ==> self@[cell_at(row as int, m)] != num && self@[cell_at(
                        m,
                        col as int,
                    )] != num,
            decreases 9 - k,
        {
            proof {
                lemma_cell_at(row as int, k as int);
                lemma_cell_at(k as int, col as int);
            }
            if self.cells[row * 9 + k] == num {
                proof {
                    assert(self@[cell_at(row_of(index as int), k as int)] == num);
                }
                return false;
            }
            if self.cells[k * 9 + col] == num {
                proof {
                    assert(self@[cell_at(k as int, col_of(index as int))] == num);
                }
                return false;
            }
            k = k + 1;
        }
        let start_row = (row / 3) * 3;
        let start_col = (col / 3) * 3;
        let mut di: usize = 0;
        while di < 3
            invariant
                self.wf(),
                index < 81,
                di <= 3,
                row == row_of(index as int),
                col == col_of(index as int),
                start_row == 3 * (row_of(index as int) / 3),
                start_col == 3 * (col_of(index as int) / 3),
                forall|r: int, c: int|
                    start_row <= r < start_row + di && start_col <= c < start_col + 3
                        ==> self@[cell_at(r, c)] != num,
            decreases 3 - di,
        {
            let mut dj: usize = 0;
            while dj < 3
                invariant
                    self.wf(),
                    index < 81,
                    di < 3,
                    dj <= 3,
                    row == row_of(index as int),
                    col == col_of(index as int),
                    start_row == 3 * (row_of(index as int) / 3),
                    start_col == 3 * (col_of(index as int) / 3),
                    forall|r: int, c: int|
                        start_row <= r < start_row + di && start_col <= c < start_col + 3
                            ==> self@[cell_at(r, c)] != num,
                    forall|r: int, c: int|
                        r == start_row + di && start_col <= c < start_col + dj ==> self@[cell_at(
                            r,
                            c,
                        )] != num,
                decreases 3 - dj,
            {
                proof {
                    lemma_box_scan_peer(index as int, start_row + di, start_col + dj);
                    lemma_div3_offset(row_of(index as int) / 3, di as int);
                    lemma_div3_offset(col_of(index as int) / 3, dj as int);
                }
                if self.cells[(start_row + di) * 9 + (start_col + dj)] == num {
                    proof {
                        let r: int = start_row + di;
                        let c: int = start_col + dj;
                        assert(self@[cell_at(r, c)] == num);
                        assert(r / 3 == row_of(index as int) / 3 && c / 3 == col_of(index as int) / 3);
                    }
                    return false;
                }
                dj = dj + 1;
            }
            di = di + 1;
        }
        proof {
            assert forall|r: int, c: int|
                0 <= r < 9 && 0 <= c < 9 && r / 3 == row_of(index as int) / 3 && c / 3 == col_of(
                    index as int,
                ) / 3 implies self@[cell_at(r, c)] != num by {
                lemma_div3_offset(r / 3, r % 3);
                lemma_div3_offset(c / 3, c % 3);
            }
        }
        true
    }

    /// Validation of an externally supplied move: true iff `index` and
    /// `value` are in range and no other cell of the same row, column or
    /// box already holds `value`. The cell at `index` itself is excluded,
    /// so a value already sitting there validates against its own cell.
    pub fn validate_move(&self, index: usize, value: u8) -> (r: bool)
        requires
            self.wf(),
        ensures
            r == move_ok(self@, index as int, value),
    {
        if index >= 81 || value < 1 || value > 9 {
            return false;
        }
        let row = index / 9;
        let col = index % 9;
        proof {
            lemma_decompose(index as int);
        }
        let mut k: usize = 0;
        while k < 9
            invariant
                self.wf(),
                index < 81,
                k <= 9,
                row == row_of(index as int),
                col == col_of(index as int),
                forall|m: int| 0 <= m < k && m != col ==> self@[cell_at(row as int, m)] != value,
            decreases 9 - k,
        {
            proof {
                lemma_row_scan_peer(index as int, k as int);
            }
            if k != col && self.cells[row * 9 + k] == value {
                proof {
                    let j: int = cell_at(row as int, k as int);
                    assert(peers(index as int, j));
                    assert(col_of(j) == k as int && col_of(index as int) == col as int);
                    assert(j != index as int);
                    assert(self@[j] == value);
                }
                return false;
            }
            k = k + 1;
        }
        let mut k: usize = 0;
        while k < 9
            invariant
                self.wf(),
                index < 81,
                k <= 9,
                row == row_of(index as int),
                col == col_of(index as int),
                forall|m: int| 0 <= m < k && m != row ==> self@[cell_at(m, col as int)] != value,
            decreases 9 - k,
        {
            proof {
                lemma_col_scan_peer(index as int, k as int);
            }
            if k != row && self.cells[k * 9 + col] == value {
                proof {
                    let j: int = cell_at(k as int, col as int);
                    assert(peers(index as int, j));
                    assert(row_of(j) == k as int && row_of(index as int) == row as int);
                    assert(j != index as int);
                    assert(self@[j] == value);
                }
                return false;
            }
            k = k + 1;
        }
        let start_row = (row / 3) * 3;
        let start_col = (col / 3) * 3;
        let mut di: usize = 0;
        while di < 3
            invariant
                self.wf(),
                index < 81,
                di <= 3,
                row == row_of(index as int),
                col == col_of(index as int),
                start_row == 3 * (row_of(index as int) / 3),
                start_col == 3 * (col_of(index as int) / 3),
                forall|r: int, c: int|
                    start_row <= r < start_row + di && start_col <= c < start_col + 3 && !(r == row
                        && c == col) ==> self@[cell_at(r, c)] != value,
            decreases 3 - di,
        {
            let mut dj: usize = 0;
            while dj < 3
                invariant
                    self.wf(),
                    index < 81,
                    di < 3,
                    dj <= 3,
                    row == row_of(index as int),
                    col == col_of(index as int),
                    start_row == 3 * (row_of(index as int) / 3),
                    start_col == 3 * (col_of(index as int) / 3),
                    forall|r: int, c: int|
                        start_row <= r < start_row + di && start_col <= c < start_col + 3 && !(r
                            == row && c == col) ==> self@[cell_at(r, c)] != value,
                    forall|r: int, c: int|
                        r == start_row + di && start_col <= c < start_col + dj && !(r == row && c
                            == col) ==> self@[cell_at(r, c)] != value,
                decreases 3 - dj,
            {
                let r = start_row + di;
                let c = start_col + dj;
                proof {
                    lemma_box_scan_peer(index as int, r as int, c as int);
                    lemma_div3_offset(row_of(index as int) / 3, di as int);
                    lemma_div3_offset(col_of(index as int) / 3, dj as int);
                }
                if (r != row || c != col) && self.cells[r * 9 + c] == value {
                    proof {
                        let j: int = cell_at(r as int, c as int);
                        assert(peers(index as int, j));
                        assert(row_of(j) == r as int && col_of(j) == c as int);
                        assert(j != index as int);
                        assert(self@[j] == value);
                    }
                    return false;
                }
                dj = dj + 1;
            }
            di = di + 1;
        }
        proof {
            assert forall|j: int|
                0 <= j < 81 && j != index as int && #[trigger] peers(index as int, j) implies self@[j]
                != value by {
                lemma_decompose(j);
                if row_of(j) == row_of(index as int) {
                    assert(j == cell_at(row as int, col_of(j)));
                } else if col_of(j) == col_of(index as int) {
                    assert(j == cell_at(row_of(j), col as int));
                } else {
                    lemma_div3_offset(row_of(j) / 3, row_of(j) % 3);
                    lemma_div3_offset(col_of(j) / 3, col_of(j) % 3);
                    assert(j == cell_at(row_of(j), col_of(j)));
                    assert(!(row_of(j) == row && col_of(j) == col));
                    assert(self@[cell_at(row_of(j), col_of(j))] != value);
                }
            }
        }
        true
    }

    /// Depth-first search from cell `index` on: tries 1..=9 at each empty
    /// cell, undoing a placement whose continuation fails. Returns exactly
    /// what the `search` function denotes, so the outcome and the final
    /// board are functions of the starting board.
    fn backtrack(&mut self, index: usize) -> (r: bool)
        requires
            old(self).wf(),
            index <= 81,
        ensures
            final(self).wf(),
            match search(old(self)@, index as int) {
                Some(c) => r && final(self)@ == c,
                None => !r && final(self)@ == old(self)@,
            },
        decreases 81 - index,
    {
        if index == 81 {
            return true;
        }
        if self.cells[index] != 0 {
            return self.backtrack(index + 1);
        }
        let ghost b0 = self@;
        let mut num: u8 = 1;
        while num <= 9
            invariant
                self.wf(),
                self@ == b0,
                b0 == old(self)@,
                b0.len() == 81,
                index < 81,
                b0[index as int] == 0,
                1 <= num <= 10,
                search(b0, index as int) == try_nums(b0, index as int, num as int),
            decreases 10 - num,
        {
            if self.is_safe(index, num) {
                self.cells[index] = num;
                let ghost b1 = self@;
                proof {
                    assert(b1 =~= b0.update(index as int, num));
                }
                if self.backtrack(index + 1) {
                    proof {
                        let c = search(b1, index as int + 1).unwrap();
                        assert(try_nums(b0, index as int, num as int) == Some(c));
                    }
                    return true;
                }
                proof {
                    assert(search(b1, index as int + 1) is None);
                    assert(try_nums(b0, index as int, num as int) == try_nums(
                        b0,
                        index as int,
                        num as int + 1,
                    ));
                }
                self.cells[index] = 0;
                proof {
                    assert(self@ =~= b0);
                }
            } else {
                proof {
                    assert(try_nums(b0, index as int, num as int) == try_nums(
                        b0,
                        index as int,
                        num as int + 1,
                    ));
                }
            }
            num = num + 1;
        }
        false
    }

    /// Attempts to complete the current board in place. On success the
    /// board is the completion the search order finds: full, every filled
    /// cell of the input kept, and valid whenever the input was valid. On
    /// failure the board is unchanged, and (for a valid input) failure
    /// means no completion exists at all.
    pub fn solve(&mut self) -> (r: bool)
        requires
            old(self).wf(),
        ensures
            final(self).wf(),
            r == (search(old(self)@, 0) is Some),
            r ==> Some(final(self)@) == search(old(self)@, 0),
            r ==> board_full(final(self)@),
            r ==> forall|j: int|
                0 <= j < 81 && old(self)@[j] != 0 ==> final(self)@[j] == old(self)@[j],
            r ==> forall|j: int|
                0 <= j < 81 ==> final(self)@[j] != 0 && (old(self)@[j] != 0 || 1 <= final(self)@[j]
                    <= 9),
            r && board_valid(old(self)@) ==> board_valid(final(self)@),
            !r ==> final(self)@ == old(self)@,
    {
        proof {
            lemma_search_frame(old(self)@, 0);
            if board_valid(old(self)@) {
                lemma_search_sound(old(self)@, 0);
            }
        }
        self.backtrack(0)
    }

    /// Fills the nine cells of the 3x3 box with corner `(row, col)` in
    /// row-major order, each value drawn without replacement from the
    /// shrinking pool of the digits 1..=9: the box ends up holding each
    /// digit exactly once, and no cell outside the box moves.
    fn fill_box(&mut self, row: usize, col: usize, rng: &mut SeededRng)
        requires
            old(self).wf(),
            row <= 6,
            col <= 6,
        ensures
            final(self).wf(),
            forall|j: int|
                0 <= j < 81 && !in_box(j, row as int, col as int) ==> final(self)@[j] == old(self)@[j],
            forall|j: int|
                0 <= j < 81 && #[trigger] in_box(j, row as int, col as int) ==> 1 <= final(self)@[j]
                    <= 9,
            forall|x: int, y: int|
                0 <= x < 81 && 0 <= y < 81 && x != y && #[trigger] in_box(x, row as int, col as int)
                    && #[trigger] in_box(y, row as int, col as int) ==> final(self)@[x] != final(self)@[y],
            final(rng).seed() == old(rng).seed(),
    {
        let mut nums: Vec<u8> = Vec::new();
        let mut v: u8 = 1;
        while v <= 9
            invariant
                nums@.len() + 1 == v,
                1 <= v <= 10,
                forall|a: int| 0 <= a < nums@.len() ==> nums@[a] == a + 1,
            decreases 10 - v,
        {
            nums.push(v);
            v = v + 1;
        }
        let mut k: usize = 0;
        while k < 9
            invariant
                self.wf(),
                row <= 6,
                col <= 6,
                k <= 9,
                nums@.len() == 9 - k,
                rng.seed() == old(rng).seed(),
                forall|a: int| 0 <= a < nums@.len() ==> 1 <= #[trigger] nums@[a] <= 9,
                forall|a1: int, a2: int| 0 <= a1 < a2 < nums@.len() ==> nums@[a1] != nums@[a2],
                forall|m: int|
                    0 <= m < k ==> 1 <= #[trigger] self@[box_cell(row as int, col as int, m)] <= 9,
                forall|m1: int, m2: int|
                    0 <= m1 < m2 < k ==> self@[box_cell(row as int, col as int, m1)] != self@[
                        box_cell(row as int, col as int, m2)],
                forall|m: int, a: int|
                    0 <= m < k && 0 <= a < nums@.len() ==> self@[box_cell(
                        row as int,
                        col as int,
                        m,
                    )] != nums@[a],
                forall|j: int|
                    0 <= j < 81 && !in_box(j, row as int, col as int) ==> self@[j] == old(self)@[j],
            decreases 9 - k,
        {
            let pool = nums.len() as u64;
            let draw = rng.draw_below(pool);
            let r_idx = draw as usize;
            let val = nums.remove(r_idx);
            let di = k / 3;
            let dj = k % 3;
            proof {
                lemma_div3_offset(k as int / 3, k as int % 3);
                lemma_box_cell(row as int, col as int, k as int);
            }
            let ghost prev = self@;
            let ghost old_nums = nums@.insert(r_idx as int, val);
            self.cells[(row + di) * 9 + (col + dj)] = val;
            proof {
                let idx = box_cell(row as int, col as int, k as int);
                assert(self@ == prev.update(idx, val));
                assert forall|m: int| 0 <= m < k implies self@[box_cell(
                    row as int,
                    col as int,
                    m,
                )] == prev[box_cell(row as int, col as int, m)] by {
                    lemma_box_cell(row as int, col as int, m);
                    lemma_box_cell_inj(row as int, col as int, m, k as int);
                }
            }
            k = k + 1;
        }
        proof {
            assert forall|j: int|
                0 <= j < 81 && #[trigger] in_box(j, row as int, col as int) implies 1 <= self@[j]
                <= 9 by {
                lemma_in_box_index(row as int, col as int, j);
                let m = 3 * (row_of(j) - row) + (col_of(j) - col);
                assert(1 <= self@[box_cell(row as int, col as int, m)] <= 9);
            }
            assert forall|x: int, y: int|
                0 <= x < 81 && 0 <= y < 81 && x != y && #[trigger] in_box(
                    x,
                    row as int,
                    col as int,
                ) && #[trigger] in_box(y, row as int, col as int) implies self@[x] != self@[y] by {
                lemma_in_box_index(row as int, col as int, x);
                lemma_in_box_index(row as int, col as int, y);
                let mx = 3 * (row_of(x) - row) + (col_of(x) - col);
                let my = 3 * (row_of(y) - row) + (col_of(y) - col);
                if mx < my {
                    assert(self@[box_cell(row as int, col as int, mx)] != self@[box_cell(
                        row as int,
                        col as int,
                        my,
                    )]);
                } else {
                    assert(self@[box_cell(row as int, col as int, my)] != self@[box_cell(
                        row as int,
                        col as int,
                        mx,
                    )]);
                }
            }
        }
    }

    /// A cell that still holds a digit, chosen by drawing random indices;
    /// after a bounded number of fruitless draws the scan falls back to
    /// the first filled cell, which keeps the search total.
    fn pick_nonzero(&self, rng: &mut SeededRng) -> (idx: usize)
        requires
            self.wf(),
            num_zeros(self@) < 81,
        ensures
            idx < 81,
            self@[idx as int] != 0,
            final(rng).seed() == old(rng).seed(),
    {
        let mut tries: u64 = 4096;
        while tries > 0
            invariant
                self.wf(),
                rng.seed() == old(rng).seed(),
            decreases tries,
        {
            let draw = rng.draw_below(81);
            let idx = draw as usize;
            if self.cells[idx] != 0 {
                return idx;
            }
            tries = tries - 1;
        }
        let mut j: usize = 0;
        loop
            invariant
                self.wf(),
                num_zeros(self@) < 81,
                rng.seed() == old(rng).seed(),
                j < 81,
                forall|m: int| 0 <= m < j ==> self@[m] == 0,
            decreases 81 - j,
        {
            if self.cells[j] != 0 {
                return j;
            }
            proof {
                if j == 80 {
                    lemma_zeros_empty(self@, 81);
                    assert(false);
                }
            }
            j = j + 1;
        }
    }

    /// Blanks exactly `count` filled cells, each chosen through the
    /// random index stream; every other cell keeps its digit.
    fn remove_digits(&mut self, count: u8, rng: &mut SeededRng)
        requires
            old(self).wf(),
            count as int <= 81 - num_zeros(old(self)@),
        ensures
            final(self).wf(),
            num_zeros(final(self)@) == num_zeros(old(self)@) + count,
            forall|j: int|
                0 <= j < 81 ==> final(self)@[j] == old(self)@[j] || final(self)@[j] == 0,
            final(rng).seed() == old(rng).seed(),
    {
        let mut removed: u8 = 0;
        while removed < count
            invariant
                self.wf(),
                removed <= count,
                count as int <= 81 - num_zeros(old(self)@),
                num_zeros(self@) == num_zeros(old(self)@) + removed,
                forall|j: int| 0 <= j < 81 ==> self@[j] == old(self)@[j] || self@[j] == 0,
                rng.seed() == old(rng).seed(),
            decreases count - removed,
        {
            proof {
                lemma_zeros_bounds(old(self)@, 81);
            }
            let idx = self.pick_nonzero(rng);
            let ghost prev = self@;
            self.cells[idx] = 0;
            proof {
                assert(self@ == prev.update(idx as int, 0u8));
                lemma_zeros_update(prev, idx as int, 81);
            }
            removed = removed + 1;
        }
    }

    /// Produces a puzzle from a seed string and a difficulty label: the
    /// three diagonal boxes are filled at random, the solver completes
    /// them into a full valid grid, and `removal_count` cells are blanked.
    /// The result is `None` only if the random diagonal fill admits no
    /// completion, which the design treats as unreachable; the partial
    /// board is left in place then so the caller can see it.
    pub fn generate_with_seed(&mut self, seed_str: &str, difficulty: &str) -> (out: Option<
        Vec<u8>,
    >)
        ensures
            final(self).wf(),
            match out {
                Some(board) => {
                    &&& board@ == final(self)@
                    &&& is_board(board@)
                    &&& cells_in_range(board@)
                    &&& board_valid(board@)
                    &&& num_zeros(board@) == removal_count(difficulty@)
                    &&& has_completion(board@)
                },
                None => search(final(self)@, 0) is None,
            },
    {
        let bytes = seed_str.as_bytes();
        let mut key: Vec<u8> = Vec::new();
        let mut k: usize = 0;
        while k < 32
            invariant
                key@.len() == k,
                k <= 32,
            decreases 32 - k,
        {
            if k < bytes.len() {
                key.push(bytes[k]);
            } else {
                key.push(0);
            }
            k = k + 1;
        }
        let mut rng = SeededRng::from_seed_key(&key);
        let fresh = Self::new();
        self.cells = fresh.cells;
        self.fill_box(0, 0, &mut rng);
        let ghost g1 = self@;
        self.fill_box(3, 3, &mut rng);
        let ghost g2 = self@;
        self.fill_box(6, 6, &mut rng);
        let ghost g3 = self@;
        proof {
            assert forall|x: int, y: int|
                0 <= x < 81 && 0 <= y < 81 && x != y && #[trigger] in_box(x, 3, 3)
                    && #[trigger] in_box(y, 3, 3) implies g3[x] != g3[y] by {
                assert(!in_box(x, 6, 6) && !in_box(y, 6, 6));
                assert(g3[x] == g2[x] && g3[y] == g2[y]);
            }
            assert forall|x: int, y: int|
                0 <= x < 81 && 0 <= y < 81 && x != y && #[trigger] in_box(x, 0, 0)
                    && #[trigger] in_box(y, 0, 0) implies g3[x] != g3[y] by {
                assert(!in_box(x, 6, 6) && !in_box(y, 6, 6));
                assert(!in_box(x, 3, 3) && !in_box(y, 3, 3));
                assert(g3[x] == g2[x] && g3[y] == g2[y]);
                assert(g2[x] == g1[x] && g2[y] == g1[y]);
            }
            assert forall|j: int|
                0 <= j < 81 && g3[j] != 0 implies in_box(j, 0, 0) || in_box(j, 3, 3) || in_box(
                    j,
                    6,
                    6,
                ) by {
                if !in_box(j, 0, 0) && !in_box(j, 3, 3) && !in_box(j, 6, 6) {
                    assert(g3[j] == g2[j] && g2[j] == g1[j] && g1[j] == 0);
                }
            }
            lemma_diagonal_valid(g3);
            assert(cells_in_range(g3)) by {
                assert forall|j: int| 0 <= j < 81 implies g3[j] <= 9 by {
                    if !in_box(j, 0, 0) && !in_box(j, 3, 3) && !in_box(j, 6, 6) {
                        assert(g3[j] == g2[j] && g2[j] == g1[j] && g1[j] == 0);
                    } else if in_box(j, 0, 0) {
                        assert(!in_box(j, 3, 3) && !in_box(j, 6, 6));
                        assert(g3[j] == g2[j] && g2[j] == g1[j]);
                    } else if in_box(j, 3, 3) {
                        assert(!in_box(j, 6, 6));
                        assert(g3[j] == g2[j]);
                    }
                }
            }
        }
        let solved = self.solve();
        if !solved {
            return None;
        }
        proof {
            assert(cells_in_range(self@)) by {
                assert forall|j: int| 0 <= j < 81 implies self@[j] <= 9 by {
                    assert(self@[j] != 0 && (g3[j] != 0 || 1 <= self@[j] <= 9));
                }
            }
            lemma_zeros_full(self@, 81);
        }
        let ghost full_grid = self@;
        let count: u8 = if str_eq(difficulty, "Zen") {
            30
        } else if str_eq(difficulty, "Focus") {
            45
        } else if str_eq(difficulty, "Master") {
            55
        } else {
            40
        };
        proof {
            assert(count as int == removal_count(difficulty@));
        }
        self.remove_digits(count, &mut rng);
        proof {
            assert(completes(self@, full_grid));
            lemma_blank_keeps_valid(self@, full_grid);
            assert(cells_in_range(self@)) by {
                assert forall|j: int| 0 <= j < 81 implies self@[j] <= 9 by {
                    assert(self@[j] == full_grid[j] || self@[j] == 0);
                }
            }
        }
        let board = self.get_board();
        Some(board)
    }
}

/// How many filled cells each difficulty label blanks; an unrecognized
/// label falls back to the default of 40.
pub open spec fn removal_count(d: Seq<char>) -> int {
    if d == "Zen"@ {
        30
    } else if d == "Focus"@ {
        45
    } else if d == "Master"@ {
        55
    } else {
        40
    }
}

} // verus!
