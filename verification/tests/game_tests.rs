use queensgame::minesweeper::{MinesweeperBoard, MinesweeperBootstrap, MinesweeperCellState, MinesweeperStatus};
use queensgame::minesweeper_game::{minesweeper_chord_target, minesweeper_pressed_neighbors, MinesweeperGameState};
use queensgame::nonogram::{validate_nonogram_solution, NonogramBootstrap, NonogramCellState, NonogramPuzzle};
use queensgame::nonogram_game::{nonogram_status, NonogramGameState};
use queensgame::nonogram_input::{
    display_clues, nonogram_cell_aria, nonogram_cell_class, nonogram_cell_class_at, nonogram_cross_paint_action,
    nonogram_drag_counter_label, nonogram_drag_counter_style, nonogram_fill_paint_action, nonogram_marked_error_cells,
    nonogram_primary_paint_action, nonogram_shape_button_class, nonogram_shape_indexes, NonogramDragState,
    NonogramInputShape, NonogramPaintAction,
};
use queensgame::queens::{CellState, Puzzle};
use queensgame::queens_game::GameState;
use queensgame::room_view::{format_duration_ms, format_time, ordinal_place};
use std::collections::BTreeSet;

#[test]
fn minesweeper_pressed_neighbors_only_include_unopened_cells() {
    let hidden = 0;
    let flagged = 2;
    let revealed = 3;
    let center = 4;
    let mut board = MinesweeperBoard::from_mines(3, 3, BTreeSet::from([hidden, flagged]), 42);
    assert!(board.toggle_mark(flagged));
    assert_eq!(board.reveal_safe_cells(center), vec![center]);
    assert_eq!(board.reveal_safe_cells(revealed), vec![revealed]);

    let pressed = minesweeper_pressed_neighbors(&board, center);

    assert!(pressed.contains(&hidden));
    assert!(!pressed.contains(&flagged));
    assert!(!pressed.contains(&revealed));
}

#[test]
fn minesweeper_chord_target_needs_an_opened_number() {
    let mut board = MinesweeperBoard::from_mines(3, 3, BTreeSet::from([0]), 42);
    assert_eq!(minesweeper_chord_target(&board, 4), None);
    assert_eq!(board.reveal_safe_cells(4), vec![4]);
    assert_eq!(minesweeper_chord_target(&board, 4), Some(4));
    assert_eq!(minesweeper_chord_target(&board, 9), None);
    assert!(minesweeper_pressed_neighbors(&board, 8).is_empty());
}

#[test]
fn minesweeper_game_clock_starts_on_first_reveal() {
    let bootstrap = MinesweeperBootstrap { width: 9, height: 9, mines: 10 };
    let mut game = MinesweeperGameState::new(&bootstrap, 5);
    assert_eq!(game.started_at_ms, None);
    game.reveal_cell(40, 10_000);
    assert_eq!(game.started_at_ms, Some(10_000));
    assert_eq!(game.board.cell_state(40), Some(MinesweeperCellState::Revealed));
    if game.board.status() == MinesweeperStatus::Playing {
        game.tick(12_345);
        assert_eq!(game.timer_seconds(), 2);
    }
    game.elapsed_ms = 5_000_000;
    assert_eq!(game.timer_seconds(), 999);
}

#[test]
fn minesweeper_game_toggle_mark_only_touches_the_board() {
    let bootstrap = MinesweeperBootstrap { width: 9, height: 9, mines: 10 };
    let mut game = MinesweeperGameState::new(&bootstrap, 5);
    game.toggle_mark(3);
    assert_eq!(game.board.cell_state(3), Some(MinesweeperCellState::Flagged));
    assert_eq!(game.started_at_ms, None);
    game.set_face_down(true);
    assert!(game.face_down);
}

#[test]
fn nonogram_cell_classes_include_state_and_conflict() {
    assert_eq!(nonogram_cell_class(NonogramCellState::Filled, true), "nonogram-cell filled conflict");
    assert_eq!(nonogram_cell_class(NonogramCellState::Crossed, false), "nonogram-cell crossed");
}

#[test]
fn nonogram_cell_classes_include_five_cell_guides() {
    assert_eq!(
        nonogram_cell_class_at(NonogramCellState::Hidden, false, 4, 4, 10, 10),
        "nonogram-cell major-right major-bottom"
    );
    assert_eq!(nonogram_cell_class_at(NonogramCellState::Hidden, false, 9, 9, 10, 10), "nonogram-cell");
}

#[test]
fn nonogram_primary_paint_action_toggles_matching_marks() {
    let remove_fill = nonogram_primary_paint_action(NonogramCellState::Filled, NonogramCellState::Filled);
    assert_eq!(remove_fill.next_cell(NonogramCellState::Filled), Some(NonogramCellState::Hidden));
    assert_eq!(remove_fill.next_cell(NonogramCellState::Crossed), None);

    let remove_cross = nonogram_primary_paint_action(NonogramCellState::Crossed, NonogramCellState::Crossed);
    assert_eq!(remove_cross.next_cell(NonogramCellState::Crossed), Some(NonogramCellState::Hidden));
    assert_eq!(remove_cross.next_cell(NonogramCellState::Filled), None);
}

#[test]
fn nonogram_cross_paint_action_toggles_crosses() {
    let add_cross = nonogram_cross_paint_action(NonogramCellState::Filled);
    assert_eq!(add_cross.next_cell(NonogramCellState::Filled), Some(NonogramCellState::Crossed));

    let remove_cross = nonogram_cross_paint_action(NonogramCellState::Crossed);
    assert_eq!(remove_cross.next_cell(NonogramCellState::Crossed), Some(NonogramCellState::Hidden));
    assert_eq!(remove_cross.next_cell(NonogramCellState::Filled), None);
}

#[test]
fn nonogram_fill_paint_action_sets_fill_elsewhere() {
    assert_eq!(
        nonogram_fill_paint_action(NonogramCellState::Crossed),
        NonogramPaintAction::SetState(NonogramCellState::Filled)
    );
    assert_eq!(
        nonogram_fill_paint_action(NonogramCellState::Filled),
        NonogramPaintAction::ClearMatching(NonogramCellState::Filled)
    );
    assert_eq!(
        nonogram_primary_paint_action(NonogramCellState::Hidden, NonogramCellState::Hidden),
        NonogramPaintAction::SetState(NonogramCellState::Hidden)
    );
}

#[test]
fn nonogram_shape_indexes_build_lines() {
    assert_eq!(nonogram_shape_indexes(10, 10, 23, 26, NonogramInputShape::Line), vec![23, 24, 25, 26]);
    assert_eq!(nonogram_shape_indexes(10, 10, 23, 53, NonogramInputShape::Line), vec![23, 33, 43, 53]);
    assert_eq!(nonogram_shape_indexes(10, 10, 23, 46, NonogramInputShape::Line), vec![23, 24, 25, 26]);
}

#[test]
fn nonogram_shape_indexes_build_rectangles() {
    assert_eq!(
        nonogram_shape_indexes(10, 10, 12, 34, NonogramInputShape::Rect),
        vec![12, 13, 14, 22, 23, 24, 32, 33, 34]
    );
}

#[test]
fn nonogram_shape_indexes_reject_cells_off_the_board() {
    assert_eq!(nonogram_shape_indexes(10, 10, 12, 100, NonogramInputShape::Free), Vec::<usize>::new());
    assert_eq!(nonogram_shape_indexes(0, 10, 0, 0, NonogramInputShape::Line), Vec::<usize>::new());
    assert_eq!(nonogram_shape_indexes(usize::MAX, 2, 0, 1, NonogramInputShape::Rect), Vec::<usize>::new());
    assert_eq!(nonogram_shape_indexes(10, 10, 12, 41, NonogramInputShape::Free), vec![41]);
    assert_eq!(nonogram_shape_indexes(10, 10, 34, 12, NonogramInputShape::Line), vec![32, 33, 34]);
    assert_eq!(nonogram_shape_indexes(10, 10, 34, 4, NonogramInputShape::Line), vec![4, 14, 24, 34]);
}

#[test]
fn nonogram_free_drag_keeps_touched_cells() {
    let mut cells = vec![NonogramCellState::Hidden; 9];
    let mut drag = NonogramDragState::default();
    drag.start(0, NonogramPaintAction::SetState(NonogramCellState::Filled), &cells);

    assert!(drag.apply(3, 3, NonogramInputShape::Free, &mut cells, 0));
    assert!(drag.apply(3, 3, NonogramInputShape::Free, &mut cells, 1));

    assert_eq!(drag.count(), 2);
    assert_eq!(cells[0], NonogramCellState::Filled);
    assert_eq!(cells[1], NonogramCellState::Filled);
}

#[test]
fn nonogram_rect_drag_restores_cells_outside_current_rect() {
    let mut cells = vec![NonogramCellState::Hidden; 9];
    let mut drag = NonogramDragState::default();
    drag.start(0, NonogramPaintAction::SetState(NonogramCellState::Filled), &cells);

    assert!(drag.apply(3, 3, NonogramInputShape::Rect, &mut cells, 4));
    assert!(drag.apply(3, 3, NonogramInputShape::Rect, &mut cells, 1));

    assert_eq!(drag.count(), 2);
    assert_eq!(cells[0], NonogramCellState::Filled);
    assert_eq!(cells[1], NonogramCellState::Filled);
    assert_eq!(cells[3], NonogramCellState::Hidden);
    assert_eq!(cells[4], NonogramCellState::Hidden);
}

#[test]
fn nonogram_drag_does_nothing_before_it_starts() {
    let mut cells = vec![NonogramCellState::Hidden; 9];
    let mut drag = NonogramDragState::default();
    assert!(!drag.is_active());
    assert!(!drag.apply(3, 3, NonogramInputShape::Free, &mut cells, 0));
    drag.set_pointer_position(5, 5);
    assert_eq!(drag.pointer_position(), None);
    drag.start(0, NonogramPaintAction::SetState(NonogramCellState::Crossed), &cells);
    assert!(!drag.apply(3, 3, NonogramInputShape::Free, &mut cells, 9));
    assert!(drag.apply(3, 3, NonogramInputShape::Free, &mut cells, 8));
    assert!(!drag.apply(3, 3, NonogramInputShape::Free, &mut cells, 8));
    assert_eq!(cells[8], NonogramCellState::Crossed);
    drag.finish();
    assert!(!drag.is_active());
    assert_eq!(drag.count(), 0);
}

#[test]
fn nonogram_line_counter_includes_attached_filled_segment() {
    let mut cells = vec![
        NonogramCellState::Filled,
        NonogramCellState::Hidden,
        NonogramCellState::Hidden,
        NonogramCellState::Hidden,
    ];
    let mut drag = NonogramDragState::default();
    drag.start(1, NonogramPaintAction::SetState(NonogramCellState::Filled), &cells);

    assert!(drag.apply(4, 1, NonogramInputShape::Line, &mut cells, 2));
    drag.set_pointer_position(100, 100);

    assert_eq!(nonogram_drag_counter_label(&drag, 4, 1, NonogramInputShape::Line), Some("2 (3)".to_string()));
}

#[test]
fn nonogram_line_counter_uses_stroke_count_without_attachment() {
    let mut cells = vec![NonogramCellState::Hidden; 4];
    let mut drag = NonogramDragState::default();
    drag.start(1, NonogramPaintAction::SetState(NonogramCellState::Filled), &cells);

    assert!(drag.apply(4, 1, NonogramInputShape::Line, &mut cells, 2));
    drag.set_pointer_position(100, 100);

    assert_eq!(nonogram_drag_counter_label(&drag, 4, 1, NonogramInputShape::Line), Some("2".to_string()));
}

#[test]
fn nonogram_column_counter_includes_filled_cells_above_and_below() {
    let mut cells = vec![NonogramCellState::Hidden; 5];
    cells[0] = NonogramCellState::Filled;
    cells[4] = NonogramCellState::Filled;
    let mut drag = NonogramDragState::default();
    drag.start(1, NonogramPaintAction::SetState(NonogramCellState::Filled), &cells);
    assert!(drag.apply(1, 5, NonogramInputShape::Line, &mut cells, 3));
    assert_eq!(nonogram_drag_counter_label(&drag, 1, 5, NonogramInputShape::Line), None);
    drag.set_pointer_position(-3, 40);
    assert_eq!(nonogram_drag_counter_label(&drag, 1, 5, NonogramInputShape::Line), Some("3 (5)".to_string()));
    assert_eq!(nonogram_drag_counter_style(&drag), Some("left: -3px; top: 40px".to_string()));
    assert_eq!(nonogram_drag_counter_label(&drag, 1, 5, NonogramInputShape::Free), Some("3".to_string()));
}

#[test]
fn nonogram_marked_error_cells_ignores_hidden_misses() {
    let puzzle = NonogramPuzzle {
        width: 3,
        height: 1,
        seed: 1,
        row_clues: vec![vec![1, 1]],
        col_clues: vec![vec![1], vec![], vec![1]],
        solution: vec![true, false, true],
    };
    let cells = vec![NonogramCellState::Hidden, NonogramCellState::Filled, NonogramCellState::Crossed];
    let validation = validate_nonogram_solution(&puzzle, &cells);

    assert_eq!(nonogram_marked_error_cells(&validation, &cells), BTreeSet::from([1, 2]));
}

#[test]
fn nonogram_labels_describe_cells_and_clues() {
    assert_eq!(nonogram_cell_aria(0, 4, NonogramCellState::Hidden), "Row 1, column 5, empty");
    assert_eq!(nonogram_cell_aria(11, 2, NonogramCellState::Crossed), "Row 12, column 3, crossed");
    assert_eq!(display_clues(&[]), vec!["0".to_string()]);
    assert_eq!(display_clues(&[3, 12]), vec!["3".to_string(), "12".to_string()]);
    assert_eq!(nonogram_shape_button_class(NonogramInputShape::Line, NonogramInputShape::Line), "mode-button active");
    assert_eq!(nonogram_shape_button_class(NonogramInputShape::Line, NonogramInputShape::Rect), "mode-button");
}

fn small_game() -> NonogramGameState {
    NonogramGameState::new(&NonogramBootstrap { width: 5, height: 5 }, 11, 1_000)
}

#[test]
fn nonogram_game_starts_empty_and_unsolved() {
    let game = small_game();
    assert_eq!(game.puzzle.width, 5);
    assert_eq!(game.cells, vec![NonogramCellState::Hidden; 25]);
    assert!(!game.completed);
    assert!(!game.can_undo());
    assert!(!game.can_redo());
    assert_eq!(nonogram_status(&game), "Find every filled square.");
}

#[test]
fn nonogram_undo_and_redo_take_back_each_other() {
    let mut game = small_game();
    game.apply_fill(0, 2_000);
    assert_eq!(game.cells[0], NonogramCellState::Filled);
    assert!(game.can_undo());
    game.apply_cross(1, 2_100);
    assert_eq!(game.cells[1], NonogramCellState::Crossed);
    game.undo(3_000);
    assert_eq!(game.cells[1], NonogramCellState::Hidden);
    assert_eq!(game.cells[0], NonogramCellState::Filled);
    assert!(game.can_redo());
    game.redo(3_500);
    assert_eq!(game.cells[1], NonogramCellState::Crossed);
    game.undo(4_000);
    game.undo(4_100);
    assert_eq!(game.cells, vec![NonogramCellState::Hidden; 25]);
    assert!(!game.can_undo());
    game.undo(4_200);
    assert_eq!(game.cells, vec![NonogramCellState::Hidden; 25]);
    game.apply_fill(3, 5_000);
    assert!(!game.can_redo());
}

#[test]
fn nonogram_drag_is_one_undo_step() {
    let mut game = small_game();
    game.set_shape(NonogramInputShape::Line);
    game.start_primary_drag(0, 2_000);
    game.drag_cell(3, 2_100);
    game.update_drag_pointer(10, 20);
    assert_eq!(game.drag.count(), 4);
    game.finish_drag(2_200);
    assert_eq!(&game.cells[0..4], &[NonogramCellState::Filled; 4]);
    assert!(!game.drag.is_active());
    game.undo(3_000);
    assert_eq!(game.cells, vec![NonogramCellState::Hidden; 25]);
    assert!(!game.can_undo());
    game.redo(3_100);
    assert_eq!(&game.cells[0..4], &[NonogramCellState::Filled; 4]);
}

#[test]
fn nonogram_game_is_solved_when_the_picture_is_filled() {
    let mut game = small_game();
    let solution = game.puzzle.solution.clone();
    for (index, filled) in solution.iter().enumerate() {
        if *filled {
            game.set_cell(index, NonogramCellState::Filled, 1_000 + 100 * index as u64);
        }
    }
    assert!(game.completed);
    assert!(game.validation.complete);
    let solved_ms = game.elapsed_ms;
    game.tick(99_000);
    assert_eq!(game.elapsed_ms, solved_ms);
    assert!(nonogram_status(&game).starts_with("Solved in 00:0"));
}

#[test]
fn room_view_formats_times_and_places() {
    assert_eq!(format_duration_ms(83_456), "01:23.4");
    assert_eq!(format_duration_ms(0), "00:00.0");
    assert_eq!(format_time(3_725), "62:05");
    assert_eq!(ordinal_place(1), "1st");
    assert_eq!(ordinal_place(3), "3rd");
    assert_eq!(ordinal_place(4), "");
}

fn quadrant_puzzle() -> Puzzle {
    Puzzle {
        id: 7,
        size: 4,
        colors: vec!["#0".into(), "#1".into(), "#2".into(), "#3".into()],
        regions: vec![vec![0, 0, 1, 1], vec![0, 0, 1, 1], vec![2, 2, 3, 3], vec![2, 2, 3, 3]],
    }
}

#[test]
fn queens_game_queen_rules_out_its_lines_and_undo_takes_it_back() {
    let mut game = GameState::new_room(quadrant_puzzle(), 1_000);
    assert_eq!(game.states, vec![CellState::Empty; 16]);
    game.toggle_queen(1, 2_000);
    assert_eq!(game.states[1], CellState::Queen);
    assert_eq!(game.states[0], CellState::AutoMark);
    assert_eq!(game.states[13], CellState::AutoMark);
    assert_eq!(game.states[15], CellState::Empty);
    game.toggle_mark(15, 2_500);
    assert_eq!(game.states[15], CellState::Mark);
    game.undo(3_000);
    assert_eq!(game.states[15], CellState::Empty);
    assert_eq!(game.states[1], CellState::Queen);
    game.undo(3_100);
    assert_eq!(game.states, vec![CellState::Empty; 16]);
}

#[test]
fn queens_game_is_completed_by_a_solution() {
    let mut game = GameState::new_room(quadrant_puzzle(), 1_000);
    for index in [1, 7, 8, 14] {
        game.toggle_queen(index, 6_500);
    }
    assert!(game.completed);
    assert_eq!(game.completed_seconds, 5);
    assert_eq!(game.elapsed_seconds(60_000), 5);
    let saved = game.saved_game();
    assert!(saved.completed);
    assert_eq!(saved.states.len(), 16);
    let mut other = GameState::new_room(quadrant_puzzle(), 9_000);
    other.load_saved(&saved, 9_000);
    assert_eq!(other.states, game.states);
    assert!(other.completed);
}
