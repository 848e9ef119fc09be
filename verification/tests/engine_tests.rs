use sudoku_core::SudokuCore;

/// A complete valid grid: row `r`, column `c` holds
/// `(3 * (r % 3) + r / 3 + c) % 9 + 1`.
fn canonical_grid() -> Vec<u8> {
    let mut g = Vec::new();
    for r in 0..9u8 {
        for c in 0..9u8 {
            g.push((3 * (r % 3) + r / 3 + c) % 9 + 1);
        }
    }
    g
}

fn nonzero_count(b: &[u8]) -> usize {
    b.iter().filter(|&&v| v != 0).count()
}

#[test]
fn new_board_is_empty() {
    let engine = SudokuCore::new();
    let b = engine.get_board();
    assert_eq!(b.len(), 81);
    assert!(b.iter().all(|&v| v == 0));
}

#[test]
fn set_board_wrong_length_is_ignored() {
    let mut engine = SudokuCore::new();
    let mut prior = engine.get_board();
    prior[0] = 7;
    engine.set_board(prior.clone());
    engine.set_board(vec![1u8; 80]);
    assert_eq!(engine.get_board(), prior);
    engine.set_board(vec![1u8; 82]);
    assert_eq!(engine.get_board(), prior);
    engine.set_board(Vec::new());
    assert_eq!(engine.get_board(), prior);
}

#[test]
fn set_board_full_length_replaces_exactly() {
    let mut engine = SudokuCore::new();
    let grid = canonical_grid();
    engine.set_board(grid.clone());
    assert_eq!(engine.get_board(), grid);
}

#[test]
fn full_valid_grid_validates_every_own_cell() {
    let mut engine = SudokuCore::new();
    let grid = canonical_grid();
    engine.set_board(grid.clone());
    for i in 0..81 {
        assert!(engine.validate_move(i, grid[i]), "cell {} failed", i);
    }
}

#[test]
fn validate_rejects_out_of_range_inputs() {
    let engine = SudokuCore::new();
    assert!(!engine.validate_move(81, 5));
    assert!(!engine.validate_move(1000, 5));
    assert!(!engine.validate_move(0, 0));
    assert!(!engine.validate_move(0, 10));
}

#[test]
fn validate_detects_peer_conflicts() {
    let mut engine = SudokuCore::new();
    let mut board = vec![0u8; 81];
    board[0] = 5;
    engine.set_board(board);
    assert!(!engine.validate_move(1, 5)); // same row
    assert!(!engine.validate_move(9, 5)); // same column
    assert!(!engine.validate_move(10, 5)); // same box
    assert!(engine.validate_move(1, 6));
    assert!(engine.validate_move(80, 5)); // shares nothing with cell 0
}

#[test]
fn safe_placement_still_validates_once_placed() {
    // A value the solver's scan would admit at an empty cell keeps
    // validating after it has been written into that cell.
    let mut engine = SudokuCore::new();
    let mut board = vec![0u8; 81];
    board[0] = 5;
    engine.set_board(board.clone());
    assert!(engine.validate_move(1, 6));
    board[1] = 6;
    engine.set_board(board);
    assert!(engine.validate_move(1, 6));
}

#[test]
fn solve_on_complete_grid_is_true_and_unchanged() {
    let mut engine = SudokuCore::new();
    let grid = canonical_grid();
    engine.set_board(grid.clone());
    assert!(engine.solve());
    assert_eq!(engine.get_board(), grid);
}

#[test]
fn solve_fills_empty_board_with_valid_grid() {
    let mut engine = SudokuCore::new();
    assert!(engine.solve());
    let b = engine.get_board();
    assert_eq!(nonzero_count(&b), 81);
    for i in 0..81 {
        assert!((1..=9).contains(&b[i]));
        assert!(engine.validate_move(i, b[i]));
    }
}

#[test]
fn solve_on_unsolvable_board_is_false_and_unchanged() {
    // Row 0 holds 1..=8 beside the empty corner cell, whose only
    // remaining candidate 9 already sits in its column: no completion.
    let mut board = vec![0u8; 81];
    for c in 1..9 {
        board[c] = c as u8;
    }
    board[9] = 9;
    let mut engine = SudokuCore::new();
    engine.set_board(board.clone());
    assert!(!engine.solve());
    assert_eq!(engine.get_board(), board);
}

#[test]
fn solve_preserves_prefilled_cells() {
    let grid = canonical_grid();
    let mut board = vec![0u8; 81];
    for i in 0..27 {
        board[i] = grid[i];
    }
    let mut engine = SudokuCore::new();
    engine.set_board(board.clone());
    assert!(engine.solve());
    let solved = engine.get_board();
    for i in 0..81 {
        if board[i] != 0 {
            assert_eq!(solved[i], board[i]);
        }
    }
}

#[test]
fn generation_is_deterministic_in_the_seed() {
    let mut a = SudokuCore::new();
    let mut b = SudokuCore::new();
    let pa = a.generate_with_seed("garden", "Zen").unwrap();
    let pb = b.generate_with_seed("garden", "Zen").unwrap();
    assert_eq!(pa, pb);
    let mut c = SudokuCore::new();
    let pc = c.generate_with_seed("volcano", "Zen").unwrap();
    assert_ne!(pa, pc);
}

#[test]
fn generation_counts_zen() {
    let mut engine = SudokuCore::new();
    let puzzle = engine.generate_with_seed("seed-a", "Zen").unwrap();
    assert_eq!(nonzero_count(&puzzle), 81 - 30);
}

#[test]
fn generation_counts_focus() {
    let mut engine = SudokuCore::new();
    let puzzle = engine.generate_with_seed("seed-b", "Focus").unwrap();
    assert_eq!(nonzero_count(&puzzle), 81 - 45);
}

#[test]
fn generation_counts_master() {
    let mut engine = SudokuCore::new();
    let puzzle = engine.generate_with_seed("seed-c", "Master").unwrap();
    assert_eq!(nonzero_count(&puzzle), 81 - 55);
}

#[test]
fn generation_counts_default_label() {
    let mut engine = SudokuCore::new();
    let puzzle = engine.generate_with_seed("seed-d", "Nightmare").unwrap();
    assert_eq!(nonzero_count(&puzzle), 81 - 40);
}

#[test]
fn generated_puzzle_is_solvable_to_a_valid_grid() {
    let mut engine = SudokuCore::new();
    let puzzle = engine.generate_with_seed("rivers", "Zen").unwrap();
    let mut solver = SudokuCore::new();
    solver.set_board(puzzle.clone());
    assert!(solver.solve());
    let solved = solver.get_board();
    assert_eq!(nonzero_count(&solved), 81);
    for i in 0..81 {
        if puzzle[i] != 0 {
            assert_eq!(solved[i], puzzle[i]);
        }
        assert!(solver.validate_move(i, solved[i]));
    }
}

#[test]
fn generated_puzzle_cells_are_in_range() {
    let mut engine = SudokuCore::new();
    let puzzle = engine.generate_with_seed("meadow", "Focus").unwrap();
    assert_eq!(puzzle.len(), 81);
    assert!(puzzle.iter().all(|&v| v <= 9));
}
