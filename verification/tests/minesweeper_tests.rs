use queensgame::minesweeper::{
    build_room_minesweeper_board, clamp_room_minesweeper_tile_axis, MinesweeperBoard, MinesweeperCell,
    MinesweeperCellState, MinesweeperStatus, MINESWEEPER_EXPERT_HEIGHT, MINESWEEPER_EXPERT_MINES,
    MINESWEEPER_EXPERT_WIDTH,
};
use std::collections::BTreeSet;

#[test]
fn minesweeper_expert_starts_with_classic_dimensions() {
    let board = MinesweeperBoard::new_expert(42);

    assert_eq!(board.width(), 30);
    assert_eq!(board.height(), 16);
    assert_eq!(board.mine_count(), 99);
    assert_eq!(board.cell_count(), 480);
    assert_eq!(board.remaining_mines(), 99);
}

#[test]
fn minesweeper_no_guess_mode_is_opt_in_for_board_constructor() {
    assert!(!MinesweeperBoard::new_expert(42).is_no_guess());
    assert!(MinesweeperBoard::new_no_guess_expert(42).is_no_guess());
}

#[test]
fn minesweeper_first_reveal_keeps_opening_safe() {
    let mut board = MinesweeperBoard::new_expert(42);
    let first = board.index(8, 15).expect("valid cell");
    let opening = std::iter::once(first)
        .chain(board.neighbors(first))
        .collect::<BTreeSet<_>>();

    let result = board.reveal_cell(first);

    assert!(result.changed);
    assert!(result.started);
    assert_eq!(board.status(), MinesweeperStatus::Playing);
    assert_eq!(board.mine_indices().len(), 99);
    for index in opening {
        assert!(!board.is_mine(index));
    }
}

#[test]
fn minesweeper_no_guess_first_reveal_is_solver_proven() {
    let mut board = MinesweeperBoard::new_no_guess_expert(42);
    let first = board.index(8, 15).expect("valid cell");
    let opening = std::iter::once(first)
        .chain(board.neighbors(first))
        .collect::<BTreeSet<_>>();

    let result = board.reveal_cell(first);

    assert!(result.changed);
    assert!(result.started);
    assert_eq!(board.status(), MinesweeperStatus::Playing);
    assert_eq!(board.mine_indices().len(), 99);
    for index in opening {
        assert!(!board.is_mine(index));
    }
    assert!(board.can_solve_without_guessing_from(first));
}

#[test]
fn minesweeper_no_guess_generation_handles_fixed_expert_starts() {
    for (seed, row, col) in [(1, 0, 0), (7, 15, 29), (12345, 4, 17)] {
        let mut board = MinesweeperBoard::new_no_guess_expert(seed);
        let first = board.index(row, col).expect("valid cell");

        let result = board.reveal_cell(first);

        assert!(result.changed);
        assert_eq!(board.mine_indices().len(), 99);
        assert!(board.can_solve_without_guessing_from(first));
    }
}

#[test]
fn room_minesweeper_tile_axes_are_clamped() {
    assert_eq!(clamp_room_minesweeper_tile_axis(0), 1);
    assert_eq!(clamp_room_minesweeper_tile_axis(2), 2);
    assert_eq!(clamp_room_minesweeper_tile_axis(99), 3);
}

#[test]
fn room_minesweeper_stitches_no_guess_tiles_without_whole_board_verification() {
    let board = build_room_minesweeper_board(2, 1, 123);

    assert_eq!(board.tile_rows, 2);
    assert_eq!(board.tile_cols, 1);
    assert_eq!(board.board.width(), MINESWEEPER_EXPERT_WIDTH);
    assert_eq!(board.board.height(), MINESWEEPER_EXPERT_HEIGHT * 2);
    assert_eq!(board.board.mine_count(), MINESWEEPER_EXPERT_MINES * 2);
    assert_eq!(board.starting_cells.len(), 2);
    assert_eq!(board.board.mine_indices().len(), MINESWEEPER_EXPERT_MINES * 2);

    for start in board.starting_cells {
        let row = start / board.board.width();
        let col = start % board.board.width();
        let tile_row = row % MINESWEEPER_EXPERT_HEIGHT;
        let tile_col = col % MINESWEEPER_EXPERT_WIDTH;
        assert!(tile_row >= 4);
        assert!(tile_col >= 4);
        assert!(MINESWEEPER_EXPERT_HEIGHT - 1 - tile_row >= 4);
        assert!(MINESWEEPER_EXPERT_WIDTH - 1 - tile_col >= 4);
    }
}

#[test]
fn minesweeper_marks_toggle_and_counter_can_go_negative() {
    let mut board = MinesweeperBoard::new(2, 2, 1, 7);

    assert!(board.toggle_mark(0));
    assert_eq!(board.cell_state(0), Some(MinesweeperCellState::Flagged));
    assert_eq!(board.remaining_mines(), 0);
    assert!(board.toggle_mark(1));
    assert_eq!(board.remaining_mines(), -1);
    assert!(board.toggle_mark(0));
    assert_eq!(board.cell_state(0), Some(MinesweeperCellState::Hidden));
}

#[test]
fn minesweeper_chording_reveals_neighbors_when_flags_match() {
    let mine = 0;
    let center = 4;
    let mut board = MinesweeperBoard::from_mines(3, 3, BTreeSet::from([mine]), 9);
    board.set_playing();
    assert!(board.toggle_mark(mine));
    assert_eq!(board.reveal_safe_cells(center), vec![center]);

    let result = board.chord(center);

    assert!(result.changed);
    assert_eq!(board.status(), MinesweeperStatus::Won);
    assert_eq!(board.cell_state(mine), Some(MinesweeperCellState::Flagged));
    for neighbor in board.neighbors(center) {
        if neighbor != mine {
            assert_eq!(board.cell_state(neighbor), Some(MinesweeperCellState::Revealed));
        }
    }
}

#[test]
fn minesweeper_chording_with_wrong_flag_loses() {
    let mine = 0;
    let wrong_flag = 1;
    let center = 4;
    let mut board = MinesweeperBoard::from_mines(3, 3, BTreeSet::from([mine]), 9);
    board.set_playing();
    assert!(board.toggle_mark(wrong_flag));
    assert_eq!(board.reveal_safe_cells(center), vec![center]);

    let result = board.chord(center);

    assert!(result.changed);
    assert_eq!(board.status(), MinesweeperStatus::Lost);
    assert!(board.cell(mine).is_some_and(MinesweeperCell::detonated));
}

#[test]
fn minesweeper_revealing_all_safe_cells_wins() {
    let mut board = MinesweeperBoard::from_mines(2, 1, BTreeSet::from([1]), 11);

    let result = board.reveal_cell(0);

    assert!(result.changed);
    assert_eq!(board.status(), MinesweeperStatus::Won);
    assert_eq!(board.cell_state(1), Some(MinesweeperCellState::Flagged));
}

#[test]
fn first_reveal_on_a_plain_board_never_hits_a_mine() {
    for seed in [3, 5, 8, 13] {
        let mut board = MinesweeperBoard::new(9, 9, 10, seed);
        let first = board.index(4, 4).expect("valid cell");
        board.reveal_cell(first);
        assert_ne!(board.status(), MinesweeperStatus::Lost);
        assert!(!board.is_mine(first));
    }
}

#[test]
fn toggling_a_mark_twice_restores_the_cell() {
    let mut board = MinesweeperBoard::new(3, 3, 1, 1);
    assert!(board.toggle_mark(4));
    assert!(board.toggle_mark(4));
    assert_eq!(board.cell_state(4), Some(MinesweeperCellState::Hidden));
    assert_eq!(board.remaining_mines(), 1);
}

#[test]
fn neighbours_are_listed_in_increasing_order() {
    let board = MinesweeperBoard::new_expert(3);
    for index in [0usize, 29, 31, 45, 479, 450] {
        let neighbors = board.neighbors(index);
        assert!(neighbors.windows(2).all(|pair| pair[0] < pair[1]));
        assert!(neighbors.len() <= 8);
    }
    assert_eq!(board.neighbors(0), vec![1, 30, 31]);
    assert_eq!(board.neighbors(31), vec![0, 1, 2, 30, 32, 60, 61, 62]);
}
