use vstd::prelude::*;

pub mod grid;
pub mod mine_rng;
pub mod minesweeper;
pub mod nonogram;
pub mod queens;
pub mod room;
pub mod display_name;
pub mod rooms;
pub mod room_minesweeper;
pub mod race_minesweeper;
pub mod medals;
pub mod race_puzzles;
pub mod solver;
pub mod text;
pub mod routing;
pub mod mouse;
pub mod pages;
pub mod room_service;
pub mod room_snapshot;
pub mod room_web;
pub mod queens_view;
pub mod queens_game;
pub mod room_view;
pub mod minesweeper_game;
pub mod nonogram_input;
pub mod nonogram_game;

verus! {

} // verus!
