use queensgame::nonogram::{
    build_nonogram_puzzle, fallback_solution, generate_nonogram_puzzle, generated_solution,
    nonogram_has_human_solution, nonogram_interest_score, puzzle_has_no_trivial_clues,
    target_nonogram_interest_score, validate_nonogram_solution, NonogramCellState,
};
use queensgame::race_puzzles::nonogram_filled_cells_are_complete;

#[test]
fn clues_are_generated_for_rows_and_columns() {
    let puzzle = build_nonogram_puzzle(
        5,
        5,
        1,
        vec![
            true, true, false, false, true, false, false, false, false, false, true, false, true, true, false,
            false, true, true, false, false, false, false, false, true, true,
        ],
    );

    assert_eq!(puzzle.row_clues, vec![vec![2, 1], vec![], vec![1, 2], vec![2], vec![2]]);
    assert_eq!(puzzle.col_clues, vec![vec![1, 1], vec![1, 1], vec![2], vec![1, 1], vec![1, 1]]);
}

#[test]
fn generated_puzzle_has_human_solution() {
    let puzzle = generate_nonogram_puzzle(10, 10, 42);

    assert_eq!(puzzle.width, 10);
    assert_eq!(puzzle.height, 10);
    assert!(nonogram_has_human_solution(&puzzle));
    assert!(puzzle_has_no_trivial_clues(&puzzle));
    assert!(nonogram_interest_score(&puzzle) >= target_nonogram_interest_score(10, 10));
}

#[test]
fn generated_puzzles_avoid_empty_and_full_clues() {
    for seed in [1, 2, 3, 42, 777, 2024] {
        let puzzle = generate_nonogram_puzzle(10, 10, seed);

        assert!(
            puzzle_has_no_trivial_clues(&puzzle),
            "seed {seed} produced trivial clues: rows={:?} cols={:?}",
            puzzle.row_clues,
            puzzle.col_clues
        );
    }
}

#[test]
fn raw_generated_solutions_are_balanced_by_threshold() {
    for seed in [1, 2, 3, 42, 777, 2024] {
        let solution = generated_solution(10, 10, seed);
        let filled = solution.iter().filter(|filled| **filled).count();

        assert!((45..=55).contains(&filled), "seed {seed} produced {filled} filled cells");
    }
}

#[test]
fn fallback_puzzle_avoids_trivial_clues_and_has_gaps() {
    let puzzle = build_nonogram_puzzle(10, 10, 99, fallback_solution(10, 10, 99));

    assert!(puzzle_has_no_trivial_clues(&puzzle));
    assert!(nonogram_interest_score(&puzzle) >= target_nonogram_interest_score(10, 10));
    assert!(nonogram_has_human_solution(&puzzle));
}

#[test]
fn validation_checks_exact_filled_cells() {
    let puzzle = build_nonogram_puzzle(2, 2, 7, vec![true, false, false, true]);
    let valid = vec![
        NonogramCellState::Filled,
        NonogramCellState::Crossed,
        NonogramCellState::Hidden,
        NonogramCellState::Filled,
    ];
    let invalid = vec![
        NonogramCellState::Filled,
        NonogramCellState::Filled,
        NonogramCellState::Hidden,
        NonogramCellState::Filled,
    ];

    assert!(validate_nonogram_solution(&puzzle, &valid).complete);
    assert!(!validate_nonogram_solution(&puzzle, &invalid).complete);
}

#[test]
fn nonogram_filled_cells_must_match_solution_exactly() {
    let puzzle = build_nonogram_puzzle(2, 2, 1, vec![true, false, false, true]);

    assert!(nonogram_filled_cells_are_complete(&puzzle, &vec![0, 3]));
    assert!(!nonogram_filled_cells_are_complete(&puzzle, &vec![0, 1, 3]));
    assert!(!nonogram_filled_cells_are_complete(&puzzle, &vec![0]));
}

#[test]
fn filled_cells_outside_the_grid_or_repeated_are_refused() {
    let puzzle = build_nonogram_puzzle(2, 2, 1, vec![true, false, false, true]);

    assert!(!nonogram_filled_cells_are_complete(&puzzle, &vec![0, 3, 4]));
    assert!(!nonogram_filled_cells_are_complete(&puzzle, &vec![0, 3, 3]));
    assert!(nonogram_filled_cells_are_complete(&puzzle, &vec![3, 0]));
}

#[test]
fn generated_puzzles_are_clamped_to_the_allowed_size() {
    let small = generate_nonogram_puzzle(1, 2, 5);
    assert_eq!((small.width, small.height), (5, 5));
    let wide = generate_nonogram_puzzle(40, 6, 5);
    assert_eq!((wide.width, wide.height), (15, 6));
    assert!(puzzle_has_no_trivial_clues(&wide));
}

#[test]
fn validation_of_a_wrong_sized_grid_marks_every_cell() {
    let puzzle = build_nonogram_puzzle(2, 2, 7, vec![true, false, false, true]);
    let result = validate_nonogram_solution(&puzzle, &vec![NonogramCellState::Filled]);
    assert!(!result.complete);
    assert_eq!(result.incorrect_cells, vec![0, 1, 2, 3]);
}
