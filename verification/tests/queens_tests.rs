use queensgame::queens::{
    build_cells, invalidated_by_queen, next_puzzle_id, puzzle_archive_bootstrap, puzzle_bootstrap,
    random_room_puzzle_id, validate_solution, CellState, CellView, Puzzle, ValidateResponse,
};
use queensgame::queens_view::{cell_aria, cell_class, mode_button_class, replay_cell_class, validation_status, Mode};
use queensgame::rooms::test_puzzle;
use std::collections::BTreeSet;

fn diagonal_puzzle() -> Puzzle {
    Puzzle {
        id: 1,
        size: 2,
        colors: vec!["#000000".into(), "#FFFFFF".into()],
        regions: vec![vec![0, 0], vec![1, 1]],
    }
}

#[test]
fn lib_validation_rejects_diagonal_touching() {
    let puzzle = diagonal_puzzle();

    let response = validate_solution(&puzzle, &vec![[0, 0], [1, 1]]);
    assert!(!response.complete);
    assert_eq!(response.conflict_cells.len(), 2);
}

#[test]
fn main_validation_rejects_diagonal_touching() {
    let puzzle = diagonal_puzzle();

    let response = validate_solution(&puzzle, &vec![[0, 0], [1, 1]]);
    assert!(!response.complete);
    assert_eq!(response.conflict_cells.len(), 2);
}

#[test]
fn queen_invalidates_rows_columns_regions_and_touching_diagonals() {
    let puzzle = Puzzle {
        id: 1,
        size: 4,
        colors: vec!["#000000".into(), "#FFFFFF".into(), "#FF0000".into(), "#00FF00".into()],
        regions: vec![vec![0, 1, 1, 3], vec![0, 1, 2, 3], vec![0, 2, 2, 3], vec![0, 0, 2, 3]],
    };

    assert!(invalidated_by_queen(&puzzle, 1, 1, 1, 0));
    assert!(invalidated_by_queen(&puzzle, 1, 1, 0, 1));
    assert!(invalidated_by_queen(&puzzle, 1, 1, 0, 2));
    assert!(invalidated_by_queen(&puzzle, 1, 1, 0, 0));
    assert!(!invalidated_by_queen(&puzzle, 1, 1, 3, 3));
}

#[test]
fn validation_accepts_a_solved_board_and_reports_messages() {
    let puzzle = Puzzle {
        id: 7,
        size: 4,
        colors: vec!["#0".into(), "#1".into(), "#2".into(), "#3".into()],
        regions: vec![vec![0, 0, 1, 1], vec![0, 0, 1, 1], vec![2, 2, 3, 3], vec![2, 2, 3, 3]],
    };
    let solved = validate_solution(&puzzle, &vec![[0, 1], [1, 3], [2, 0], [3, 2]]);
    assert!(solved.complete);
    assert!(solved.messages.is_empty());
    assert_eq!(solved.satisfied_rows, 4);

    let partial = validate_solution(&puzzle, &vec![[0, 1], [9, 9]]);
    assert!(!partial.complete);
    assert_eq!(partial.queen_count, 1);
    assert_eq!(partial.messages[0], "Ignored out-of-bounds queen at 10,10.");
    assert_eq!(partial.messages[1], "Place exactly 4 queens.");
}

#[test]
fn random_room_puzzle_id_uses_unplayed_puzzles_first() {
    let puzzles = vec![test_puzzle(1), test_puzzle(2), test_puzzle(3)];
    let played = BTreeSet::from([1, 2]);

    assert_eq!(random_room_puzzle_id(&puzzles, &played), Some(3));

    let played = BTreeSet::from([1, 2, 3]);
    let next = random_room_puzzle_id(&puzzles, &played);
    assert!(matches!(next, Some(1..=3)));
}

#[test]
fn lib_random_room_puzzle_id_uses_unplayed_puzzles_first() {
    let puzzles = vec![test_puzzle(1), test_puzzle(2), test_puzzle(3)];
    let played = BTreeSet::from([1, 2]);

    assert_eq!(random_room_puzzle_id(&puzzles, &played), Some(3));

    let played = BTreeSet::from([1, 2, 3]);
    let next = random_room_puzzle_id(&puzzles, &played);
    assert!(matches!(next, Some(1..=3)));
}

#[test]
fn main_random_room_puzzle_id_uses_unplayed_puzzles_first() {
    let puzzles = vec![test_puzzle(1), test_puzzle(2), test_puzzle(3)];
    let played = BTreeSet::from([1, 2]);

    assert_eq!(random_room_puzzle_id(&puzzles, &played), Some(3));

    let played = BTreeSet::from([1, 2, 3]);
    let next = random_room_puzzle_id(&puzzles, &played);
    assert!(matches!(next, Some(1..=3)));
}

#[test]
fn random_room_puzzle_id_needs_puzzles() {
    assert_eq!(random_room_puzzle_id(&Vec::new(), &BTreeSet::new()), None);
}

#[test]
fn next_puzzle_id_wraps_to_first_puzzle() {
    let puzzles = vec![test_puzzle(10), test_puzzle(20)];

    assert_eq!(next_puzzle_id(&puzzles, 10), Some(20));
    assert_eq!(next_puzzle_id(&puzzles, 20), Some(10));
    assert_eq!(next_puzzle_id(&Vec::new(), 20), None);
}

#[test]
fn puzzle_bootstrap_marks_active_nav() {
    let puzzles = vec![test_puzzle(1), test_puzzle(2)];
    let bootstrap = puzzle_bootstrap(&puzzles, 2).expect("puzzle");

    assert_eq!(bootstrap.puzzle.id, 2);
    assert_eq!(bootstrap.total, 2);
    assert_eq!(
        bootstrap.puzzle_nav.iter().map(|nav| (nav.id, nav.active)).collect::<Vec<_>>(),
        vec![(1, false), (2, true)]
    );
    assert!(puzzle_bootstrap(&puzzles, 3).is_none());
    let archive = puzzle_archive_bootstrap(&puzzles);
    assert_eq!(archive.total, 2);
    assert!(archive.puzzle_nav.iter().all(|nav| !nav.active));
}

#[test]
fn build_cells_marks_region_borders() {
    let puzzle = diagonal_puzzle();
    let cells = build_cells(&puzzle);
    assert_eq!(cells.len(), 4);
    assert_eq!(cells[2].region, 1);
    assert!(cells[2].border_top);
    assert!(cells[1].border_right);
    assert!(!cells[1].border_left);
    assert_eq!(cells[0].class_name(), "cell border-top border-left");
}

#[test]
fn cell_states_keep_their_storage_codes() {
    for state in [CellState::Empty, CellState::Mark, CellState::Queen, CellState::AutoMark] {
        assert_eq!(CellState::from_storage_code(state.storage_code()), state);
    }
    assert_eq!(CellState::from_storage_code(9), CellState::Empty);
}

fn cell() -> CellView {
    CellView {
        row: 1,
        col: 2,
        region: 0,
        color: "#ffffff".to_string(),
        border_top: false,
        border_right: false,
        border_bottom: false,
        border_left: false,
    }
}

#[test]
fn cell_class_adds_state_and_conflict_markers() {
    let class_name = cell_class(&cell(), CellState::Queen, &vec![[1, 2]]);

    assert!(class_name.contains("cell"));
    assert!(class_name.contains("queen"));
    assert!(class_name.contains("conflict"));
    assert_eq!(cell_class(&cell(), CellState::AutoMark, &Vec::new()), "cell marked auto-marked");
    assert_eq!(replay_cell_class(&cell(), CellState::Mark), "cell replay-cell marked");
}

#[test]
fn cell_aria_describes_markers() {
    assert_eq!(cell_aria(&cell(), CellState::Queen), "Row 2, column 3, queen");
    assert_eq!(cell_aria(&cell(), CellState::Mark), "Row 2, column 3, marked");
    assert_eq!(cell_aria(&cell(), CellState::Empty), "Row 2, column 3");
}

#[test]
fn validation_status_includes_first_message() {
    let status = validation_status(
        &ValidateResponse {
            complete: false,
            queen_count: 0,
            expected_queens: 9,
            satisfied_rows: 1,
            satisfied_columns: 2,
            satisfied_regions: 3,
            conflict_cells: Vec::new(),
            messages: vec!["Place exactly 9 queens.".to_string()],
        },
        9,
    );

    assert_eq!(status, "1/9 rows · 2/9 columns · 3/9 regions - Place exactly 9 queens.");
}

#[test]
fn mode_button_marks_the_current_mode() {
    assert_eq!(mode_button_class(Mode::Mark, Mode::Mark), "mode-button active");
    assert_eq!(mode_button_class(Mode::Mark, Mode::Queen), "mode-button");
}
