use queensgame::room::{RoomGameKind, RoomLivePointer, RoomPuzzleChoice, RoomRecording, RoomRecordingFrame, RoomServerMessage};
use queensgame::room_service::{
    disconnect_player, finish_player, give_up_player, join_room_player, select_random_puzzle, select_room_game,
    select_room_puzzle, set_player_ready, set_room_minesweeper_tiles, set_room_minesweeper_time_limit,
    start_room_race, store_recording_frame, toggle_room_minesweeper_flag, update_room_pointer, RoomUpdate,
};
use queensgame::room_web::{check_join_params, create_room_display_name, CreateRoomForm, JoinParams, RoomError};
use queensgame::rooms::{elapsed_millis_u64, test_puzzle, test_room, Room, ServerRoomPhase};
use queensgame::room_snapshot::snapshot_room;

fn ids(room: &Room) -> Vec<String> {
    room.players.iter().map(|p| p.id.clone()).collect()
}

#[test]
fn joining_players_are_kept_in_id_order() {
    let mut room = test_room(RoomPuzzleChoice::Random);
    join_room_player(&mut room, "cam", "Cam".to_string());
    join_room_player(&mut room, "ada", "Ada".to_string());
    join_room_player(&mut room, "bea", "Bea".to_string());
    assert_eq!(ids(&room), vec!["ada", "bea", "cam"]);
    assert_eq!(room.players[2].joined_order, 1);
    assert_eq!(room.players[0].joined_order, 2);

    room.players[0].ready = true;
    disconnect_player(&mut room, "ada");
    assert!(!room.players[0].connected);
    assert!(!room.players[0].ready);
    join_room_player(&mut room, "ada", "Ada L".to_string());
    assert!(room.players[0].connected);
    assert_eq!(room.players[0].name, "Ada L");
    assert_eq!(room.players.len(), 3);
}

#[test]
fn everybody_ready_starts_the_countdown_and_then_the_race() {
    let puzzles = vec![test_puzzle(1), test_puzzle(2)];
    let mut room = test_room(RoomPuzzleChoice::Puzzle { id: 2 });
    join_room_player(&mut room, "ada", "Ada".to_string());
    join_room_player(&mut room, "bea", "Bea".to_string());

    assert_eq!(set_player_ready(&mut room, "ada", true, 1_000), (RoomUpdate::Snapshot, None));
    assert_eq!(set_player_ready(&mut room, "bea", true, 1_000), (RoomUpdate::Snapshot, Some(4_000)));
    assert_eq!(room.phase, ServerRoomPhase::Countdown { starts_at_ms: 4_000 });
    assert_eq!(set_player_ready(&mut room, "bea", false, 1_500), (RoomUpdate::Ignored, None));

    assert_eq!(start_room_race(&mut room, &puzzles, 3_999, 4_000), (RoomUpdate::Ignored, None));
    assert_eq!(start_room_race(&mut room, &puzzles, 4_000, 4_001), (RoomUpdate::Snapshot, None));
    assert_eq!(room.phase, ServerRoomPhase::Racing { started_at_ms: 4_001 });
    assert_eq!(room.active_puzzle_id, Some(2));
    assert_eq!(room.race_player_ids, vec!["ada".to_string(), "bea".to_string()]);
    assert!(room.players.iter().all(|p| !p.ready));
}

#[test]
fn giving_up_ends_the_race_when_everybody_is_done() {
    let puzzles = vec![test_puzzle(1)];
    let mut room = test_room(RoomPuzzleChoice::Puzzle { id: 1 });
    join_room_player(&mut room, "ada", "Ada".to_string());
    set_player_ready(&mut room, "ada", true, 0);
    start_room_race(&mut room, &puzzles, 3_000, 3_000);

    assert_eq!(give_up_player(&mut room, &puzzles, "zed"), RoomUpdate::Ignored);
    assert_eq!(give_up_player(&mut room, &puzzles, "ada"), RoomUpdate::Snapshot);
    assert!(room.players[0].gave_up);
    assert_eq!(room.phase, ServerRoomPhase::Complete { started_at_ms: 3_000 });
    assert!(room.played_puzzle_ids.contains(&1));
    let snapshot = snapshot_room(&room, &puzzles);
    assert_eq!(snapshot.winner_id, None);
}

#[test]
fn finishing_checks_the_board_and_the_replay() {
    let puzzles = vec![test_puzzle(1)];
    let mut room = test_room(RoomPuzzleChoice::Puzzle { id: 1 });
    join_room_player(&mut room, "ada", "Ada".to_string());
    set_player_ready(&mut room, "ada", true, 0);
    start_room_race(&mut room, &puzzles, 3_000, 3_000);

    let empty_replay = RoomRecording { frames: Vec::new() };
    assert_eq!(
        finish_player(&mut room, &puzzles, "ada", &Vec::new(), empty_replay, 10),
        RoomUpdate::Error("Submitted solution for puzzle 1 is not complete.".to_string())
    );
    let wrong_replay = RoomRecording { frames: vec![RoomRecordingFrame { elapsed_ms: 5, states: vec![0] }] };
    assert_eq!(
        finish_player(&mut room, &puzzles, "ada", &vec![[0, 0]], wrong_replay, 10),
        RoomUpdate::Error("Submitted replay does not match the finished board.".to_string())
    );

    assert_eq!(
        store_recording_frame(&mut room, &puzzles, "ada", RoomRecordingFrame { elapsed_ms: 5, states: vec![2] }),
        RoomUpdate::Send(RoomServerMessage::RecordingFrame {
            player_id: "ada".to_string(),
            frame: RoomRecordingFrame { elapsed_ms: 5, states: vec![2] },
        })
    );
    let replay = RoomRecording { frames: vec![RoomRecordingFrame { elapsed_ms: 5, states: vec![2] }] };
    assert_eq!(finish_player(&mut room, &puzzles, "ada", &vec![[0, 0]], replay, 10), RoomUpdate::Snapshot);
    assert_eq!(room.players[0].finish_ms, Some(10));
    assert_eq!(room.players[0].medals.gold, 1);
    let snapshot = snapshot_room(&room, &puzzles);
    assert_eq!(snapshot.winner_id, Some("ada".to_string()));
    assert_eq!(snapshot.puzzle.map(|p| p.id), Some(1));
}

#[test]
fn setup_changes_only_apply_between_races() {
    let puzzles = vec![test_puzzle(1)];
    let mut room = test_room(RoomPuzzleChoice::Random);
    assert_eq!(
        select_room_puzzle(&mut room, &puzzles, 5),
        RoomUpdate::Error("Puzzle 5 does not exist.".to_string())
    );
    assert_eq!(select_room_puzzle(&mut room, &puzzles, 1), RoomUpdate::Snapshot);
    assert_eq!(room.puzzle_choice, RoomPuzzleChoice::Puzzle { id: 1 });
    assert_eq!(select_random_puzzle(&mut room), RoomUpdate::Snapshot);
    assert_eq!(room.puzzle_choice, RoomPuzzleChoice::Random);
    assert_eq!(set_room_minesweeper_tiles(&mut room, 5, 0), RoomUpdate::Ignored);
    assert_eq!(select_room_game(&mut room, RoomGameKind::Minesweeper), RoomUpdate::Snapshot);
    assert_eq!(set_room_minesweeper_tiles(&mut room, 5, 0), RoomUpdate::Snapshot);
    assert_eq!((room.minesweeper_tile_rows, room.minesweeper_tile_cols), (3, 1));
    assert_eq!(set_room_minesweeper_time_limit(&mut room, 5), RoomUpdate::Snapshot);
    assert_eq!(room.minesweeper_time_limit_seconds, 30);
    room.phase = ServerRoomPhase::Racing { started_at_ms: 1 };
    assert_eq!(select_room_game(&mut room, RoomGameKind::Queens), RoomUpdate::Ignored);
    assert_eq!(room.game_kind, RoomGameKind::Minesweeper);
}

#[test]
fn minesweeper_race_flags_and_pointers() {
    let puzzles = vec![test_puzzle(1)];
    let mut room = test_room(RoomPuzzleChoice::Random);
    select_room_game(&mut room, RoomGameKind::Minesweeper);
    join_room_player(&mut room, "ada", "Ada".to_string());
    let (_, starts) = set_player_ready(&mut room, "ada", true, 100);
    assert_eq!(starts, Some(5_100));
    let (update, timeout) = start_room_race(&mut room, &puzzles, 5_100, 5_200);
    assert_eq!(update, RoomUpdate::Snapshot);
    assert_eq!(timeout, Some((5_200, 60)));

    let board = &room.minesweeper.as_ref().expect("board").board;
    let hidden = (0..board.cell_count())
        .find(|i| board.cell_state(*i) != Some(queensgame::minesweeper::MinesweeperCellState::Revealed))
        .expect("hidden cell");
    assert_eq!(toggle_room_minesweeper_flag(&mut room, "ada", hidden), RoomUpdate::Snapshot);
    assert!(room.players[0].minesweeper_flags.contains(&hidden));
    assert_eq!(toggle_room_minesweeper_flag(&mut room, "ada", hidden), RoomUpdate::Snapshot);
    assert!(room.players[0].minesweeper_flags.is_empty());

    let pointer = RoomLivePointer { x: 1, y: 2, cell_index: None, active_click: false, updated_at_ms: 0 };
    let update = update_room_pointer(&mut room, "ada", Some(pointer), 7_000);
    let stamped = RoomLivePointer { updated_at_ms: 7_000, ..pointer };
    assert_eq!(
        update,
        RoomUpdate::Send(RoomServerMessage::PointerUpdate { player_id: "ada".to_string(), pointer: Some(stamped) })
    );
    assert_eq!(room.players[0].pointer, Some(stamped));
}

#[test]
fn web_checks_name_the_problem() {
    let form = CreateRoomForm { display_name: "  ".to_string() };
    assert_eq!(create_room_display_name(&form), Err(RoomError::BadRequest("Enter a display name.".to_string())));
    let form = CreateRoomForm { display_name: " Ada ".to_string() };
    assert_eq!(create_room_display_name(&form), Ok("Ada".to_string()));

    let params = JoinParams { player_id: " ".to_string(), name: "Ada".to_string() };
    assert_eq!(check_join_params(&params, true), Err(RoomError::BadRequest("Missing player id".to_string())));
    let params = JoinParams { player_id: "p1".to_string(), name: "".to_string() };
    assert_eq!(check_join_params(&params, true), Err(RoomError::BadRequest("Missing display name".to_string())));
    let params = JoinParams { player_id: "p1".to_string(), name: "Ada".to_string() };
    assert_eq!(check_join_params(&params, false), Err(RoomError::NotFound));
    assert_eq!(check_join_params(&params, true), Ok("Ada".to_string()));
}

#[test]
fn elapsed_times_saturate() {
    assert_eq!(elapsed_millis_u64(12), 12);
    assert_eq!(elapsed_millis_u64(u128::MAX), u64::MAX);
}
