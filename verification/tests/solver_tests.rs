use queensgame::minesweeper::MinesweeperBoard;
use queensgame::solver::{can_solve_without_guessing_from, combination_deductions, Constraint};
use std::collections::BTreeSet;

fn constraint<const N: usize>(cells: [usize; N], mines: usize) -> Constraint {
    Constraint { cells: cells.to_vec(), mines }
}

fn flags(n: usize, set: &[usize]) -> Vec<bool> {
    (0..n).map(|i| set.contains(&i)).collect()
}

#[test]
fn component_solver_finds_corner_mine_from_group_counts() {
    let constraints = vec![constraint([0, 1], 1), constraint([2, 3], 1), constraint([0, 1, 2, 3, 4], 3)];
    let global = constraint([0, 1, 2, 3, 4], 3);

    let deductions = combination_deductions(&constraints, &global, 5).expect("deductions");

    assert_eq!(deductions.mines, flags(5, &[4]));
    assert_eq!(deductions.safe, flags(5, &[]));
}

#[test]
fn component_solver_finds_corner_safe_from_group_counts() {
    let constraints = vec![constraint([0, 1], 1), constraint([2, 3], 1), constraint([0, 1, 2, 3, 4], 2)];
    let global = constraint([0, 1, 2, 3, 4], 2);

    let deductions = combination_deductions(&constraints, &global, 5).expect("deductions");

    assert_eq!(deductions.safe, flags(5, &[4]));
    assert_eq!(deductions.mines, flags(5, &[]));
}

#[test]
fn global_mine_count_marks_unconstrained_cells_safe() {
    let constraints = vec![constraint([0, 1], 1), constraint([2, 3], 1)];
    let global = constraint([0, 1, 2, 3, 4], 2);

    let deductions = combination_deductions(&constraints, &global, 5).expect("deductions");

    assert_eq!(deductions.safe, flags(5, &[4]));
    assert_eq!(deductions.mines, flags(5, &[]));
}

fn board_from_minesweeper_online_rows(rows: &[&str]) -> MinesweeperBoard {
    let width = rows[0].len();
    let height = rows.len();
    let mut mines = BTreeSet::new();
    for (row, cells) in rows.iter().enumerate() {
        assert_eq!(cells.len(), width);
        for (col, cell) in cells.bytes().enumerate() {
            if cell == b'*' {
                mines.insert(row * width + col);
            }
        }
    }

    let board = MinesweeperBoard::from_mines(width, height, mines, 1);
    assert_eq!(board.width(), 30);
    assert_eq!(board.height(), 16);
    assert_eq!(board.mine_count(), 99);

    for (row, cells) in rows.iter().enumerate() {
        for (col, cell) in cells.bytes().enumerate() {
            let index = board.index(row, col).expect("fixture cell");
            let board_cell = board.cell(index).expect("fixture cell");
            if cell == b'*' {
                assert!(board_cell.mine());
            } else {
                assert_eq!(board_cell.adjacent_mines(), cell - b'0');
            }
        }
    }

    board
}

#[test]
fn solver_solves_minesweeper_online_challenge_from_top_right_opening() {
    let board = board_from_minesweeper_online_rows(&[
        "2*31111101*11*11*2*11111*10000",
        "2*3*11*10122211223111*22110000",
        "22311111001*2102*21123*2012210",
        "1*2211000123*102*33*22*201**32",
        "23*2*10012*2110124**21110245**",
        "*21333101*3210002**3101111**42",
        "2322**10112*10113*42101*224*20",
        "1**332100122212*213*20223*2110",
        "123*100002*32*32313*201*333100",
        "0022200002*5*32*2*2222333**210",
        "124*2011112**3234212*4**324*20",
        "1***311*1024*33**102**4*213*20",
        "14*5*111223*3*3*4212332234*321",
        "24*422112**343312*11*101***21*",
        "**23*32*3343**1022211101232111",
        "2212*3*22*2*32101*100000000000",
    ]);
    let first_reveal = board.index(0, 29).expect("top-right cell");

    assert!(can_solve_without_guessing_from(&board, first_reveal));
}

#[test]
fn solver_never_approves_a_first_click_on_a_mine() {
    let board = MinesweeperBoard::from_mines(3, 3, BTreeSet::from([0]), 1);
    assert!(!can_solve_without_guessing_from(&board, 0));
    assert!(!can_solve_without_guessing_from(&board, 9));
}

#[test]
fn combination_fails_when_the_total_cannot_be_split() {
    let constraints = vec![constraint([0, 1], 1)];
    let global = constraint([0, 1, 2], 3);

    assert!(combination_deductions(&constraints, &global, 3).is_none());
}

#[test]
fn combination_fails_on_an_impossible_local_count() {
    let constraints = vec![constraint([0, 1], 3)];
    let global = constraint([0, 1, 2], 1);

    assert!(combination_deductions(&constraints, &global, 3).is_none());
}
