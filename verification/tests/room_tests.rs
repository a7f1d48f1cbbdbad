use queensgame::display_name::{normalize_display_name, DISPLAY_NAME_MAX_CHARS};
use queensgame::minesweeper::{
    MinesweeperBoard, MinesweeperCell, MINESWEEPER_EXPERT_HEIGHT, MINESWEEPER_EXPERT_MINES, MINESWEEPER_EXPERT_WIDTH,
};
use queensgame::race_minesweeper::{
    claim_minesweeper_revealed_cells, detonate_room_minesweeper_mine, prepare_room_minesweeper_game,
    room_minesweeper_chord_flags, room_minesweeper_player_can_act, room_minesweeper_player_can_point,
};
use queensgame::room::{
    append_mouse_recording, append_recording_frame, recording_frame_is_valid, RoomGameKind, RoomMedalCounts,
    RoomMinesweeperCellSnapshot, RoomMinesweeperSnapshot, RoomMouseEvent, RoomMouseRecording, RoomMouseSample,
    RoomPhase, RoomPlayerSnapshot, RoomPuzzleChoice, RoomRecording, RoomRecordingFrame, RoomSnapshot,
    ROOM_MOUSE_EVENT_ENTER, ROOM_MOUSE_EVENT_PRIMARY_DOWN,
};
use queensgame::room_minesweeper::{
    merge_optimistic_room_minesweeper_snapshot, optimistic_room_minesweeper_reveal_snapshot,
    room_minesweeper_chord_flags as snapshot_chord_flags,
};
use queensgame::room_service::complete_room_race;
use queensgame::room_snapshot::{hide_other_players_flags, room_minesweeper_snapshot, snapshot_room};
use queensgame::rooms::{add_test_player, room_all_racers_done, test_puzzle, test_room, Room, RoomPlayer, ServerMinesweeperGame, ServerRoomPhase};
use std::collections::{BTreeMap, BTreeSet};

fn player<'a>(room: &'a Room, id: &str) -> &'a RoomPlayer {
    room.players.iter().find(|player| player.id == id).expect("player")
}

fn player_mut<'a>(room: &'a mut Room, id: &str) -> &'a mut RoomPlayer {
    room.players.iter_mut().find(|player| player.id == id).expect("player")
}

#[test]
fn recording_frames_validate_and_append_in_order() {
    let mut recording = RoomRecording { frames: Vec::new() };
    let first = RoomRecordingFrame { elapsed_ms: 10, states: vec![0, 1, 2, 3] };
    let replacement = RoomRecordingFrame { elapsed_ms: 10, states: vec![3, 2, 1, 0] };
    let older = RoomRecordingFrame { elapsed_ms: 9, states: vec![0, 0, 0, 0] };

    assert!(recording_frame_is_valid(&first, 4));
    assert!(!recording_frame_is_valid(&RoomRecordingFrame { elapsed_ms: 11, states: vec![4] }, 1));
    assert!(append_recording_frame(&mut recording, first));
    assert!(append_recording_frame(&mut recording, replacement));
    assert!(!append_recording_frame(&mut recording, older));
    assert_eq!(recording.frames.len(), 1);
    assert_eq!(recording.frames[0].states, vec![3, 2, 1, 0]);
}

#[test]
fn mouse_recording_chunks_append_in_order() {
    let mut recording = RoomMouseRecording {
        samples: vec![RoomMouseSample(10, 1, 1)],
        events: vec![RoomMouseEvent(12, ROOM_MOUSE_EVENT_ENTER, 1, 1, Some(0))],
    };
    let next = RoomMouseRecording {
        samples: vec![RoomMouseSample(20, 2, 2)],
        events: vec![RoomMouseEvent(22, ROOM_MOUSE_EVENT_PRIMARY_DOWN, 2, 2, Some(1))],
    };
    let older = RoomMouseRecording { samples: vec![RoomMouseSample(19, 3, 3)], events: Vec::new() };

    assert!(append_mouse_recording(&mut recording, next));
    assert!(!append_mouse_recording(&mut recording, older));
    assert_eq!(recording.samples.len(), 2);
    assert_eq!(recording.events.len(), 2);
}

#[test]
fn display_names_are_trimmed_and_required() {
    assert_eq!(normalize_display_name("  Ada  "), Some("Ada".to_string()));
    assert_eq!(normalize_display_name("   "), None);

    let long_name = "abcdefghijklmnopqrstuvwxyzABCDEFGHIJK";
    let normalized = normalize_display_name(long_name).expect("name is not empty");
    assert_eq!(normalized.chars().count(), DISPLAY_NAME_MAX_CHARS);
}

fn completed_queens_room() -> Room {
    let mut room = test_room(RoomPuzzleChoice::Puzzle { id: 2 });
    room.active_puzzle_id = Some(2);
    add_test_player(&mut room, "ada", Some(1_200), false, 1);
    add_test_player(&mut room, "bea", Some(900), false, 2);
    add_test_player(&mut room, "cam", None, true, 3);
    add_test_player(&mut room, "dee", Some(1_500), false, 4);
    room
}

fn check_completed_queens_room() {
    let puzzles = vec![test_puzzle(1), test_puzzle(2), test_puzzle(3), test_puzzle(4)];
    let mut room = completed_queens_room();

    assert!(room_all_racers_done(&room));
    complete_room_race(&mut room, &puzzles, 42);

    assert!(room.played_puzzle_ids.contains(&2));
    assert!(matches!(room.puzzle_choice, RoomPuzzleChoice::Puzzle { id: 3 }));
    assert!(matches!(room.phase, ServerRoomPhase::Complete { started_at_ms: 42 }));
    assert_eq!(player(&room, "bea").medals.gold, 1);
    assert_eq!(player(&room, "ada").medals.silver, 1);
    assert_eq!(player(&room, "dee").medals.bronze, 1);
    assert_eq!(player(&room, "cam").medals.total(), 0);
}

#[test]
fn lib_completing_room_race_records_puzzle_and_awards_medals() {
    check_completed_queens_room();
}

#[test]
fn main_completing_room_race_records_puzzle_and_awards_medals() {
    check_completed_queens_room();
}

fn check_completed_minesweeper_room() {
    let puzzles = vec![test_puzzle(1)];
    let mut room = test_room(RoomPuzzleChoice::Random);
    room.game_kind = RoomGameKind::Minesweeper;
    add_test_player(&mut room, "ada", None, false, 1);
    add_test_player(&mut room, "bea", None, false, 2);
    add_test_player(&mut room, "cam", None, false, 3);

    player_mut(&mut room, "ada").minesweeper_score = 12;
    player_mut(&mut room, "ada").minesweeper_last_score_ms = Some(800);
    player_mut(&mut room, "bea").minesweeper_score = 14;
    player_mut(&mut room, "bea").minesweeper_last_score_ms = Some(900);
    player_mut(&mut room, "cam").minesweeper_score = 12;
    player_mut(&mut room, "cam").minesweeper_last_score_ms = Some(700);

    complete_room_race(&mut room, &puzzles, 99);

    assert_eq!(player(&room, "bea").medals.gold, 1);
    assert_eq!(player(&room, "cam").medals.silver, 1);
    assert_eq!(player(&room, "ada").medals.bronze, 1);
    assert!(matches!(room.phase, ServerRoomPhase::Complete { started_at_ms: 99 }));
}

#[test]
fn lib_completing_minesweeper_race_awards_medals_by_score() {
    check_completed_minesweeper_room();
}

#[test]
fn main_completing_minesweeper_race_awards_medals_by_score() {
    check_completed_minesweeper_room();
}

fn check_default_tile() {
    let mut room = test_room(RoomPuzzleChoice::Random);
    room.game_kind = RoomGameKind::Minesweeper;
    for index in 0..5 {
        add_test_player(&mut room, &format!("p{index}"), None, false, index);
    }

    prepare_room_minesweeper_game(&mut room, 1_000);
    let game = room.minesweeper.as_ref().expect("minesweeper game");

    assert_eq!(room.minesweeper_tile_rows, 1);
    assert_eq!(room.minesweeper_tile_cols, 1);
    assert_eq!(game.board.width(), MINESWEEPER_EXPERT_WIDTH);
    assert_eq!(game.board.height(), MINESWEEPER_EXPERT_HEIGHT);
    assert_eq!(game.starting_cells.len(), 1);
}

#[test]
fn lib_minesweeper_room_defaults_to_one_tile_even_with_many_players() {
    check_default_tile();
}

#[test]
fn main_minesweeper_room_defaults_to_one_tile_even_with_many_players() {
    check_default_tile();
}

fn check_configured_tiles() {
    let mut room = test_room(RoomPuzzleChoice::Random);
    room.game_kind = RoomGameKind::Minesweeper;
    room.minesweeper_tile_rows = 3;
    room.minesweeper_tile_cols = 2;
    add_test_player(&mut room, "ada", None, false, 1);

    prepare_room_minesweeper_game(&mut room, 1_000);
    let game = room.minesweeper.as_ref().expect("minesweeper game");

    assert_eq!(game.board.width(), MINESWEEPER_EXPERT_WIDTH * 2);
    assert_eq!(game.board.height(), MINESWEEPER_EXPERT_HEIGHT * 3);
    assert_eq!(game.board.mine_count(), MINESWEEPER_EXPERT_MINES * 6);
    assert_eq!(game.starting_cells.len(), 6);
}

#[test]
fn lib_minesweeper_room_uses_configured_tile_grid() {
    check_configured_tiles();
}

#[test]
fn main_minesweeper_room_uses_configured_tile_grid() {
    check_configured_tiles();
}

#[test]
fn minesweeper_chord_flags_include_other_players_detonated_mines() {
    let mut board = MinesweeperBoard::from_mines(2, 2, BTreeSet::from([1]), 7);
    assert_eq!(board.reveal_safe_cells(0), vec![0]);
    assert!(board.detonate_mine(1));
    let game = ServerMinesweeperGame {
        board,
        starting_cells: Vec::new(),
        cell_owners: BTreeMap::from([(1, "bea".to_string())]),
    };

    let ada_flags = room_minesweeper_chord_flags(&game, &BTreeSet::new(), "ada");
    let bea_flags = room_minesweeper_chord_flags(&game, &BTreeSet::new(), "bea");

    assert!(ada_flags.contains(&1));
    assert!(!bea_flags.contains(&1));
}

fn check_point_during_countdown() {
    let mut room = test_room(RoomPuzzleChoice::Random);
    room.game_kind = RoomGameKind::Minesweeper;
    add_test_player(&mut room, "ada", None, false, 1);
    prepare_room_minesweeper_game(&mut room, 1_000);
    room.race_player_ids.clear();
    room.phase = ServerRoomPhase::Countdown { starts_at_ms: 10 };

    assert!(room.race_player_ids.is_empty());
    assert!(room_minesweeper_player_can_point(&room, "ada"));
    assert!(!room_minesweeper_player_can_act(&room, "ada"));
}

#[test]
fn lib_minesweeper_players_can_point_during_countdown_before_race_ids_exist() {
    check_point_during_countdown();
}

#[test]
fn main_minesweeper_players_can_point_during_countdown_before_race_ids_exist() {
    check_point_during_countdown();
}

fn minesweeper_room() -> Room {
    let mut room = test_room(RoomPuzzleChoice::Random);
    room.game_kind = RoomGameKind::Minesweeper;
    add_test_player(&mut room, "ada", None, false, 1);
    prepare_room_minesweeper_game(&mut room, 1_000);
    room
}

fn check_snapshot_hidden_data() {
    let room = minesweeper_room();

    let snapshot = room_minesweeper_snapshot(room.minesweeper.as_ref().expect("minesweeper game"));

    assert!(snapshot.cells.iter().any(|cell| !cell.revealed && cell.mine));
    assert!(snapshot.cells.iter().all(|cell| cell.adjacent_mines.is_some()));
}

#[test]
fn lib_minesweeper_snapshot_includes_hidden_board_data_for_optimistic_play() {
    check_snapshot_hidden_data();
}

#[test]
fn main_minesweeper_snapshot_includes_hidden_board_data_for_optimistic_play() {
    check_snapshot_hidden_data();
}

fn check_number_owner() {
    let mut room = minesweeper_room();
    let game = room.minesweeper.as_mut().expect("minesweeper game");
    let index = game
        .board
        .cells()
        .iter()
        .position(|cell| !cell.mine() && cell.adjacent_mines() > 0)
        .expect("numbered safe cell");

    let revealed = game.board.reveal_safe_cells(index);
    assert_eq!(claim_minesweeper_revealed_cells(game, "ada", &revealed), 1);
    let snapshot = room_minesweeper_snapshot(game);

    assert_eq!(snapshot.cells[index].owner_id.as_deref(), Some("ada"));
}

#[test]
fn lib_minesweeper_snapshot_marks_number_owner_after_reveal() {
    check_number_owner();
}

#[test]
fn main_minesweeper_snapshot_marks_number_owner_after_reveal() {
    check_number_owner();
}

fn check_detonated_owner() {
    let mut room = minesweeper_room();
    let game = room.minesweeper.as_mut().expect("minesweeper game");
    let index = game.board.cells().iter().position(|cell| cell.mine()).expect("mine cell");

    detonate_room_minesweeper_mine(game, "ada", index);
    let snapshot = room_minesweeper_snapshot(game);

    assert!(snapshot.cells[index].revealed);
    assert!(snapshot.cells[index].detonated);
    assert_eq!(snapshot.cells[index].owner_id.as_deref(), Some("ada"));
}

#[test]
fn lib_minesweeper_snapshot_marks_detonated_mine_owner() {
    check_detonated_owner();
}

#[test]
fn main_minesweeper_snapshot_marks_detonated_mine_owner() {
    check_detonated_owner();
}

fn check_personalized_snapshot() {
    let mut room = test_room(RoomPuzzleChoice::Random);
    room.game_kind = RoomGameKind::Minesweeper;
    add_test_player(&mut room, "ada", None, false, 1);
    add_test_player(&mut room, "bea", None, false, 2);
    player_mut(&mut room, "ada").minesweeper_flags.extend([1, 2]);
    player_mut(&mut room, "bea").minesweeper_flags.extend([3, 4]);

    let mut snapshot = snapshot_room(&room, &Vec::new());
    hide_other_players_flags(&mut snapshot, "ada");

    let ada = snapshot.players.iter().find(|player| player.id == "ada").expect("ada");
    let bea = snapshot.players.iter().find(|player| player.id == "bea").expect("bea");
    assert_eq!(ada.minesweeper_flags, vec![1, 2]);
    assert!(bea.minesweeper_flags.is_empty());
}

#[test]
fn lib_personalized_room_snapshot_hides_other_minesweeper_flags() {
    check_personalized_snapshot();
}

#[test]
fn main_personalized_room_snapshot_hides_other_minesweeper_flags() {
    check_personalized_snapshot();
}

fn detonated_and_hidden_cells() -> Vec<RoomMinesweeperCellSnapshot> {
    vec![
        RoomMinesweeperCellSnapshot {
            revealed: true,
            mine: true,
            detonated: true,
            start: false,
            adjacent_mines: Some(0),
            owner_id: Some("bea".to_string()),
        },
        RoomMinesweeperCellSnapshot {
            revealed: false,
            mine: false,
            detonated: false,
            start: false,
            adjacent_mines: Some(1),
            owner_id: None,
        },
    ]
}

#[test]
fn lib_chord_flags_include_other_players_detonated_mines() {
    let cells = detonated_and_hidden_cells();

    let ada_flags = snapshot_chord_flags(&cells, &BTreeSet::from([1]), "ada");
    let bea_flags = snapshot_chord_flags(&cells, &BTreeSet::new(), "bea");

    assert_eq!(ada_flags, BTreeSet::from([0, 1]));
    assert!(bea_flags.is_empty());
}

#[test]
fn room_minesweeper_logic_chord_flags_include_other_players_detonated_mines() {
    let cells = detonated_and_hidden_cells();

    let ada_flags = snapshot_chord_flags(&cells, &BTreeSet::from([1]), "ada");
    let bea_flags = snapshot_chord_flags(&cells, &BTreeSet::new(), "bea");

    assert_eq!(ada_flags, BTreeSet::from([0, 1]));
    assert!(bea_flags.is_empty());
}

fn test_player(id: &str) -> RoomPlayerSnapshot {
    RoomPlayerSnapshot {
        id: id.to_string(),
        name: id.to_string(),
        ready: false,
        connected: true,
        finish_ms: None,
        gave_up: false,
        medals: RoomMedalCounts::default(),
        recording: Some(RoomRecording {
            frames: vec![RoomRecordingFrame { elapsed_ms: 1_500, states: Vec::new() }],
        }),
        mouse_recording: None::<RoomMouseRecording>,
        minesweeper_score: 0,
        minesweeper_eliminated: false,
        minesweeper_last_score_ms: None,
        minesweeper_flags: Vec::new(),
        pointer: None,
    }
}

fn test_snapshot(cells: Vec<RoomMinesweeperCellSnapshot>) -> RoomSnapshot {
    RoomSnapshot {
        slug: "ROOMTEST".to_string(),
        game_kind: RoomGameKind::Minesweeper,
        phase: RoomPhase::Racing { started_at_ms: 10 },
        puzzle_choice: RoomPuzzleChoice::Random,
        minesweeper_time_limit_seconds: 99,
        minesweeper_tile_rows: 1,
        minesweeper_tile_cols: 1,
        played_puzzle_ids: Vec::new(),
        players: vec![test_player("ada")],
        puzzle: None,
        minesweeper: Some(RoomMinesweeperSnapshot {
            width: 2,
            height: 2,
            mines: cells.iter().filter(|cell| cell.mine).count(),
            starting_cells: Vec::new(),
            cells,
        }),
        nonogram: None,
        winner_id: None,
    }
}

fn test_cell(mine: bool, adjacent_mines: u8, revealed: bool, owner_id: Option<&str>) -> RoomMinesweeperCellSnapshot {
    RoomMinesweeperCellSnapshot {
        revealed,
        mine,
        detonated: false,
        start: false,
        adjacent_mines: Some(adjacent_mines),
        owner_id: owner_id.map(str::to_string),
    }
}

#[test]
fn optimistic_reveal_opens_safe_area_and_scores_numbers() {
    let mut snapshot = RoomSnapshot {
        minesweeper: Some(RoomMinesweeperSnapshot {
            width: 3,
            height: 3,
            mines: 1,
            starting_cells: Vec::new(),
            cells: vec![
                test_cell(false, 0, false, None),
                test_cell(false, 0, false, None),
                test_cell(false, 0, false, None),
                test_cell(false, 0, false, None),
                test_cell(false, 1, false, None),
                test_cell(false, 1, false, None),
                test_cell(false, 0, false, None),
                test_cell(false, 1, false, None),
                test_cell(true, 0, false, None),
            ],
        }),
        ..test_snapshot(Vec::new())
    };

    optimistic_room_minesweeper_reveal_snapshot(&mut snapshot, "ada", 0, || 110);

    let board = snapshot.minesweeper.as_ref().expect("board");
    assert!(board.cells[..8].iter().all(|cell| cell.revealed));
    assert!(!board.cells[8].revealed);
    assert_eq!(snapshot.players[0].minesweeper_score, 3);
    assert_eq!(snapshot.players[0].minesweeper_last_score_ms, Some(100));
    assert_eq!(board.cells[4].owner_id.as_deref(), Some("ada"));
    assert_eq!(board.cells[0].owner_id, None);
}

fn check_merge_preserves() {
    let mut current = test_snapshot(vec![
        test_cell(false, 1, true, Some("ada")),
        test_cell(true, 0, false, None),
        test_cell(false, 1, false, None),
        test_cell(false, 1, false, None),
    ]);
    current.players[0].minesweeper_score = 1;
    current.players[0].minesweeper_last_score_ms = Some(500);
    current.players[0].minesweeper_flags = vec![1];
    let mut next = test_snapshot(vec![
        test_cell(false, 1, false, None),
        test_cell(true, 0, false, None),
        test_cell(false, 1, false, None),
        test_cell(false, 1, false, None),
    ]);

    merge_optimistic_room_minesweeper_snapshot(&current, &mut next, "ada");

    let board = next.minesweeper.as_ref().expect("board");
    assert!(board.cells[0].revealed);
    assert_eq!(board.cells[0].owner_id.as_deref(), Some("ada"));
    assert_eq!(next.players[0].minesweeper_score, 1);
    assert_eq!(next.players[0].minesweeper_last_score_ms, Some(500));
    assert_eq!(next.players[0].minesweeper_flags, vec![1]);
}

#[test]
fn lib_merge_preserves_optimistic_reveals_from_older_server_snapshot() {
    check_merge_preserves();
}

#[test]
fn room_minesweeper_logic_merge_preserves_optimistic_reveals_from_older_server_snapshot() {
    check_merge_preserves();
}

fn check_merge_authoritative() {
    let current = test_snapshot(vec![
        test_cell(false, 1, true, Some("ada")),
        test_cell(true, 0, false, None),
        test_cell(false, 1, false, None),
        test_cell(false, 1, false, None),
    ]);
    let mut next = test_snapshot(vec![
        test_cell(false, 1, true, Some("bea")),
        test_cell(true, 0, false, None),
        test_cell(false, 1, false, None),
        test_cell(false, 1, false, None),
    ]);
    next.players[0].minesweeper_score = 0;

    merge_optimistic_room_minesweeper_snapshot(&current, &mut next, "ada");

    let board = next.minesweeper.as_ref().expect("board");
    assert_eq!(board.cells[0].owner_id.as_deref(), Some("bea"));
    assert_eq!(next.players[0].minesweeper_score, 0);
}

#[test]
fn lib_merge_keeps_server_revealed_cells_authoritative() {
    check_merge_authoritative();
}

#[test]
fn room_minesweeper_logic_merge_keeps_server_revealed_cells_authoritative() {
    check_merge_authoritative();
}

#[test]
fn merge_does_not_carry_reveals_across_races() {
    let current = test_snapshot(vec![
        test_cell(false, 1, true, Some("ada")),
        test_cell(true, 0, false, None),
        test_cell(false, 1, false, None),
        test_cell(false, 1, false, None),
    ]);
    let mut next = test_snapshot(vec![
        test_cell(false, 1, false, None),
        test_cell(true, 0, false, None),
        test_cell(false, 1, false, None),
        test_cell(false, 1, false, None),
    ]);
    next.phase = RoomPhase::Racing { started_at_ms: 20 };

    merge_optimistic_room_minesweeper_snapshot(&current, &mut next, "ada");

    let board = next.minesweeper.as_ref().expect("board");
    assert!(!board.cells[0].revealed);
}

#[test]
fn detonated_mine_cells_report_as_such() {
    let mut board = MinesweeperBoard::from_mines(2, 1, BTreeSet::from([1]), 3);
    assert!(board.detonate_mine(1));
    assert!(board.cell(1).is_some_and(MinesweeperCell::detonated));
    assert!(!board.detonate_mine(0));
}

#[test]
fn display_names_drop_unicode_white_space_at_both_ends() {
    assert_eq!(normalize_display_name("\u{3000}\u{a0}Ada\u{2029}\t"), Some("Ada".to_string()));
    assert_eq!(normalize_display_name("\u{85}\u{200a}"), None);
    assert_eq!(normalize_display_name(" A\u{a0}B "), Some("A\u{a0}B".to_string()));
}
