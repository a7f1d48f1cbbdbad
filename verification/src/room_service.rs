//! What each request does to a room. The server loop holds the rooms, the clock and the
//! players' connections: it finds the room, hands these rules the room and the times they
//! need, and then sends what the rule asks for.

use vstd::prelude::*;
use crate::medals::{
    award_room_minesweeper_medals, finish_entries, medals_awarded, medals_can_grow, minesweeper_entries,
    ranked_ids, ranking_of, RankEntry,
};
use crate::grid::neighbor_seq;
use crate::room::RoomLivePointer;
use crate::grid::flood_fill_ok;
use crate::minesweeper::{
    all_safe_open, blocked_cells, placement_step, reveal_all, MinesweeperBoard, MinesweeperCell, MinesweeperCellState, MinesweeperMineCellState, clamp_room_minesweeper_tile_axis, clamp_room_minesweeper_time_limit_seconds, clamp_tile_axis_spec,
    ROOM_MINESWEEPER_MAX_SECONDS, ROOM_MINESWEEPER_MIN_SECONDS,
};
use crate::queens::{
    append_decimal, decimal_text, find_puzzle_by_id, first_puzzle_from, has_puzzle_id, lemma_first_puzzle_from,
    next_puzzle_id, puzzle_ok, random_room_puzzle_id, room_candidate_ids, rows_satisfied, cols_satisfied,
    regions_satisfied, conflict_list, valid_queens, validate_solution, Puzzle,
};
use std::collections::BTreeSet;
use crate::race_minesweeper::{
    scoring_board_cell, scoring_count, can_point_in_room, room_minesweeper_player_can_point, claimed_by, room_minesweeper_chord_flags, active_minesweeper_started_at_ms, apply_minesweeper_player_result, can_act_in_room,
    claim_minesweeper_revealed_cells, detonate_room_minesweeper_mine, players_after_move,
    room_minesweeper_player_can_act, all_eliminated_spec, ids_contain, ids_include, minesweeper_ok, prepare_room_minesweeper_game,
    reveal_room_minesweeper_starts, room_minesweeper_should_complete,
};
use crate::rooms::room_all_racers_done;
use crate::text::{text_before, text_is_before};
use crate::race_puzzles::{
    award_room_nonogram_medals, award_room_queens_medals, capped_cell_count, prepare_room_nonogram_game,
    filled_cells_complete, mouse_recording_is_valid, mouse_recording_ok, nonogram_filled_cells_are_complete,
    recording_fits, recording_matches_solution, MAX_MOUSE_EVENTS, MAX_MOUSE_SAMPLES, MAX_RECORDING_FRAMES,
};
use crate::nonogram::{generated_ok, NONOGRAM_DEFAULT_HEIGHT, NONOGRAM_DEFAULT_WIDTH};
use crate::room::{
    append_mouse_recording, frame_valid_spec, recording_frame_is_valid, append_recording_frame, RoomGameKind,
    RoomMedalCounts, RoomMouseEvent, RoomMouseRecording, RoomMouseSample, RoomPuzzleChoice, RoomRecording,
    RoomRecordingFrame, RoomServerMessage,
};
use crate::rooms::{
    ServerMinesweeperGame, racer_done, begin_room_race_for_connected_players, connected_ids, id_texts, clear_room_race_results, find_player, lemma_first_player_from, player_index, race_cleared, reset_room_ready_flags, reset_room_setup_for_selection,
    room_accepts_next_race_setup, room_all_connected_players_ready, same_person, Room, RoomPlayer,
    ServerRoomPhase,
};

verus! {

/// What the server sends after a request.
#[derive(Debug, Clone, PartialEq, Eq)]
pub enum RoomUpdate {
    /// The request does not apply; nothing is sent.
    Ignored,
    /// The room changed: everybody gets its new snapshot.
    Snapshot,
    /// Everybody gets this message.
    Send(RoomServerMessage),
    /// Everybody gets this error message; the room is unchanged.
    Error(String),
}

/// `n` is the puzzle after `current`: the smallest larger id, or, past the last, the
/// smallest id.
pub open spec fn is_next_puzzle_id(puzzles: Seq<Puzzle>, current: usize, n: usize) -> bool {
    &&& has_puzzle_id(puzzles, n)
    &&& (exists|k: int| 0 <= k < puzzles.len() && (#[trigger] puzzles[k]).id > current) ==> n > current
        && forall|k: int| 0 <= k < puzzles.len() && (#[trigger] puzzles[k]).id > current ==> n <= puzzles[k].id
    &&& !(exists|k: int| 0 <= k < puzzles.len() && (#[trigger] puzzles[k]).id > current) ==> forall|k: int|
        0 <= k < puzzles.len() ==> n <= (#[trigger] puzzles[k]).id
}

/// The medals after a race: by finishing order for Queens and nonograms, by score for
/// Minesweeper.
pub open spec fn race_medals_awarded(
    kind: RoomGameKind,
    racers: Seq<String>,
    before: Seq<RoomPlayer>,
    after: Seq<RoomPlayer>,
) -> bool {
    if kind == RoomGameKind::Minesweeper {
        exists|order: Seq<RankEntry>|
            ranking_of(order, minesweeper_entries(before, racers)) && medals_awarded(
                before,
                after,
                #[trigger] ranked_ids(before, order),
            )
    } else {
        exists|order: Seq<RankEntry>|
            ranking_of(order, finish_entries(before, racers)) && medals_awarded(
                before,
                after,
                #[trigger] ranked_ids(before, order),
            )
    }
}

/// The race of `before` (whose players were `players` then) ended at the start time
/// `started_at_ms`: the puzzle raced on joins the played ones, the medals are awarded, a
/// chosen Queens puzzle moves on to the next one, and the room shows the results.
pub open spec fn race_completed(
    before: &Room,
    players: Seq<RoomPlayer>,
    after: &Room,
    puzzles: Seq<Puzzle>,
    started_at_ms: u64,
) -> bool {
    let moves_on = before.game_kind == RoomGameKind::Queens && before.puzzle_choice is Puzzle
        && before.active_puzzle_id is Some && puzzles.len() > 0;
    &&& after.phase == (ServerRoomPhase::Complete { started_at_ms })
    &&& race_medals_awarded(before.game_kind, before.race_player_ids@, players, after.players@)
    &&& after.game_kind == before.game_kind
    &&& after.race_player_ids == before.race_player_ids
    &&& after.active_puzzle_id == before.active_puzzle_id
    &&& after.minesweeper == before.minesweeper
    &&& after.nonogram == before.nonogram
    &&& after.slug == before.slug
    &&& after.minesweeper_time_limit_seconds == before.minesweeper_time_limit_seconds
    &&& after.minesweeper_tile_rows == before.minesweeper_tile_rows
    &&& after.minesweeper_tile_cols == before.minesweeper_tile_cols
    &&& after.played_puzzle_ids@ == if before.game_kind == RoomGameKind::Queens && before.active_puzzle_id is Some {
        before.played_puzzle_ids@.insert(before.active_puzzle_id->0)
    } else {
        before.played_puzzle_ids@
    }
    &&& moves_on ==> (after.puzzle_choice matches RoomPuzzleChoice::Puzzle { id } && is_next_puzzle_id(
        puzzles,
        before.active_puzzle_id->0,
        id,
    ))
    &&& !moves_on ==> after.puzzle_choice == before.puzzle_choice
}

/// Ends the race: the puzzle raced on joins the played ones, the medals are awarded, a
/// chosen Queens puzzle moves on to the next one, and the room shows the results.
pub fn complete_room_race(room: &mut Room, puzzles: &Vec<Puzzle>, started_at_ms: u64)
    requires
        medals_can_grow(old(room).players@),
    ensures
        race_completed(old(room), old(room).players@, final(room), puzzles@, started_at_ms),
{
    match room.game_kind {
        RoomGameKind::Queens => {
            let completed = room.active_puzzle_id;
            if let Some(puzzle_id) = completed {
                room.played_puzzle_ids.insert(puzzle_id);
            }
            award_room_queens_medals(room);
            let chosen = match room.puzzle_choice {
                RoomPuzzleChoice::Puzzle { .. } => true,
                RoomPuzzleChoice::Random => false,
            };
            if chosen {
                if let Some(puzzle_id) = completed {
                    if let Some(next_id) = next_puzzle_id(puzzles, puzzle_id) {
                        room.puzzle_choice = RoomPuzzleChoice::Puzzle { id: next_id };
                    }
                }
            }
        },
        RoomGameKind::Minesweeper => {
            award_room_minesweeper_medals(room);
        },
        RoomGameKind::Nonogram => {
            award_room_nonogram_medals(room);
        },
    }
    room.phase = ServerRoomPhase::Complete { started_at_ms };
}

/// Whether every player's medal counts can still grow.
pub fn room_medals_can_grow(room: &Room) -> (b: bool)
    ensures
        b == medals_can_grow(room.players@),
{
    let mut k: usize = 0;
    while k < room.players.len()
        invariant
            k <= room.players.len(),
            forall|j: int|
                0 <= j < k ==> (#[trigger] room.players@[j]).medals.gold < u32::MAX && room.players@[j].medals.silver
                    < u32::MAX && room.players@[j].medals.bronze < u32::MAX,
        decreases room.players.len() - k,
    {
        let m = room.players[k].medals;
        if m.gold == u32::MAX || m.silver == u32::MAX || m.bronze == u32::MAX {
            proof {
                assert(!medals_can_grow(room.players@)) by {
                    assert(room.players@[k as int].medals == m);
                }
            }
            return false;
        }
        k = k + 1;
    }
    true
}

/// Every player is as before but not ready.
pub open spec fn only_unready(before: Seq<RoomPlayer>, after: Seq<RoomPlayer>) -> bool {
    &&& after.len() == before.len()
    &&& forall|k: int|
        0 <= k < after.len() ==> {
            let p = #[trigger] after[k];
            let q = before[k];
            &&& !p.ready
            &&& same_person(p, q)
            &&& p.finish_ms == q.finish_ms
            &&& p.gave_up == q.gave_up
            &&& p.minesweeper_score == q.minesweeper_score
            &&& p.minesweeper_eliminated == q.minesweeper_eliminated
            &&& p.minesweeper_last_score_ms == q.minesweeper_last_score_ms
            &&& p.minesweeper_flags@ == q.minesweeper_flags@
            &&& p.pointer == q.pointer
        }
}

/// Every player is the same person as before, not ready, with no race results.
pub open spec fn all_reset(before: Seq<RoomPlayer>, after: Seq<RoomPlayer>) -> bool {
    &&& after.len() == before.len()
    &&& forall|k: int|
        0 <= k < after.len() ==> {
            let p = #[trigger] after[k];
            &&& !p.ready
            &&& race_cleared(p)
            &&& same_person(p, before[k])
        }
}

/// Switches the room to another game (between races). A new game starts in the lobby with
/// the old race forgotten and nobody ready; choosing the game it plays changes nothing.
pub fn select_room_game(room: &mut Room, game_kind: RoomGameKind) -> (u: RoomUpdate)
    ensures
        !(old(room).phase is Lobby || old(room).phase is Complete) ==> u == RoomUpdate::Ignored && *final(room)
            == *old(room),
        (old(room).phase is Lobby || old(room).phase is Complete) ==> u == RoomUpdate::Snapshot,
        old(room).game_kind == game_kind ==> *final(room) == *old(room),
        (old(room).phase is Lobby || old(room).phase is Complete) && old(room).game_kind != game_kind ==> {
            &&& final(room).game_kind == game_kind
            &&& final(room).phase is Lobby
            &&& all_reset(old(room).players@, final(room).players@)
            &&& final(room).race_player_ids.len() == 0
            &&& final(room).active_puzzle_id is None
            &&& final(room).minesweeper is None
            &&& final(room).puzzle_choice == old(room).puzzle_choice
            &&& final(room).played_puzzle_ids == old(room).played_puzzle_ids
        },
{
    if !room_accepts_next_race_setup(room) {
        return RoomUpdate::Ignored;
    }
    if room.game_kind != game_kind {
        room.game_kind = game_kind;
        clear_room_race_results(room);
        room.phase = ServerRoomPhase::Lobby;
        let ghost cleared = room.players@;
        reset_room_ready_flags(room);
        proof {
            assert forall|k: int| 0 <= k < room.players.len() implies {
                let p = #[trigger] room.players@[k];
                &&& !p.ready
                &&& race_cleared(p)
                &&& same_person(p, old(room).players@[k])
            } by {
                assert(race_cleared(cleared[k]));
                assert(same_person(cleared[k], old(room).players@[k]));
            }
        }
    }
    RoomUpdate::Snapshot
}

/// The error sent when a chosen puzzle does not exist.
pub open spec fn missing_puzzle_message(puzzle_id: usize) -> Seq<char> {
    "Puzzle "@ + decimal_text(puzzle_id as nat) + " does not exist."@
}

/// Chooses a Queens puzzle for the next race (between Queens races). Everybody has to be
/// ready again, and in the lobby the old race is forgotten. A puzzle that does not exist is
/// answered with an error.
pub fn select_room_puzzle(room: &mut Room, puzzles: &Vec<Puzzle>, puzzle_id: usize) -> (u: RoomUpdate)
    ensures
        !has_puzzle_id(puzzles@, puzzle_id) ==> *final(room) == *old(room) && (u matches RoomUpdate::Error(m)
            && m@ == missing_puzzle_message(puzzle_id)),
        has_puzzle_id(puzzles@, puzzle_id) && !(old(room).game_kind == RoomGameKind::Queens && (old(room).phase is Lobby
            || old(room).phase is Complete)) ==> u == RoomUpdate::Ignored && *final(room) == *old(room),
        has_puzzle_id(puzzles@, puzzle_id) && old(room).game_kind == RoomGameKind::Queens && (old(room).phase is Lobby
            || old(room).phase is Complete) ==> {
            &&& u == RoomUpdate::Snapshot
            &&& final(room).puzzle_choice == (RoomPuzzleChoice::Puzzle { id: puzzle_id })
            &&& selection_reset(old(room), final(room))
        },
{
    match find_puzzle_by_id(puzzles, puzzle_id) {
        None => {
            proof {
                lemma_first_puzzle_from(puzzles@, puzzle_id, 0);
            }
            let mut message = String::from_str("Puzzle ");
            append_decimal(&mut message, puzzle_id);
            message.append(" does not exist.");
            return RoomUpdate::Error(message);
        },
        Some(_) => {
            proof {
                lemma_first_puzzle_from(puzzles@, puzzle_id, 0);
            }
        },
    }
    if !(room.game_kind == RoomGameKind::Queens && room_accepts_next_race_setup(room)) {
        return RoomUpdate::Ignored;
    }
    room.puzzle_choice = RoomPuzzleChoice::Puzzle { id: puzzle_id };
    let ghost chosen = *room;
    reset_room_setup_for_selection(room);
    proof {
        lemma_selection_reset(old(room), &chosen, room);
    }
    RoomUpdate::Snapshot
}

/// A new selection was made: nobody is ready, and in the lobby the old race is forgotten;
/// the room is otherwise as the selection left it.
pub open spec fn selection_reset(before: &Room, after: &Room) -> bool {
    &&& after.players.len() == before.players.len()
    &&& !(before.phase is Lobby) ==> *after == (Room {
        players: after.players,
        puzzle_choice: after.puzzle_choice,
        ..*before
    }) && forall|k: int|
        0 <= k < after.players.len() ==> #[trigger] after.players@[k] == (RoomPlayer {
            ready: false,
            ..before.players@[k]
        })
    &&& before.phase is Lobby ==> all_reset(before.players@, after.players@) && *after == (Room {
        players: after.players,
        puzzle_choice: after.puzzle_choice,
        race_player_ids: after.race_player_ids,
        active_puzzle_id: None,
        minesweeper: None,
        ..*before
    }) && after.race_player_ids.len() == 0
}

proof fn lemma_selection_reset(before: &Room, chosen: &Room, after: &Room)
    requires
        *chosen == (Room { puzzle_choice: chosen.puzzle_choice, ..*before }),
        after.players.len() == chosen.players.len(),
        !(chosen.phase is Lobby) ==> *after == (Room { players: after.players, ..*chosen }),
        !(chosen.phase is Lobby) ==> forall|k: int|
            0 <= k < after.players.len() ==> #[trigger] after.players@[k] == (RoomPlayer {
                ready: false,
                ..chosen.players@[k]
            }),
        chosen.phase is Lobby ==> forall|k: int|
            0 <= k < after.players.len() ==> {
                let p = #[trigger] after.players@[k];
                &&& !p.ready
                &&& race_cleared(p)
                &&& same_person(p, chosen.players@[k])
            },
        chosen.phase is Lobby ==> *after == (Room {
            players: after.players,
            race_player_ids: after.race_player_ids,
            active_puzzle_id: None,
            minesweeper: None,
            ..*chosen
        }) && after.race_player_ids.len() == 0,
    ensures
        selection_reset(before, after),
{
}

/// Chooses a random Queens puzzle for the next race (between Queens races).
pub fn select_random_puzzle(room: &mut Room) -> (u: RoomUpdate)
    ensures
        !(old(room).game_kind == RoomGameKind::Queens && (old(room).phase is Lobby || old(room).phase is Complete))
            ==> u == RoomUpdate::Ignored && *final(room) == *old(room),
        old(room).game_kind == RoomGameKind::Queens && (old(room).phase is Lobby || old(room).phase is Complete) ==> {
            &&& u == RoomUpdate::Snapshot
            &&& final(room).puzzle_choice == RoomPuzzleChoice::Random
            &&& selection_reset(old(room), final(room))
        },
{
    if !(room.game_kind == RoomGameKind::Queens && room_accepts_next_race_setup(room)) {
        return RoomUpdate::Ignored;
    }
    room.puzzle_choice = RoomPuzzleChoice::Random;
    let ghost chosen = *room;
    reset_room_setup_for_selection(room);
    proof {
        lemma_selection_reset(old(room), &chosen, room);
    }
    RoomUpdate::Snapshot
}

/// A change to a room's Minesweeper setup.
#[derive(Debug, Clone, Copy, PartialEq, Eq, Structural)]
pub enum MinesweeperSetup {
    /// The race's time limit, in seconds.
    TimeLimit(u32),
    /// The number of board tiles down and across.
    Tiles(usize, usize),
}

/// A time limit clamped to the allowed range.
pub open spec fn clamp_seconds_spec(seconds: u32) -> u32 {
    if seconds < ROOM_MINESWEEPER_MIN_SECONDS {
        ROOM_MINESWEEPER_MIN_SECONDS
    } else if seconds > ROOM_MINESWEEPER_MAX_SECONDS {
        ROOM_MINESWEEPER_MAX_SECONDS
    } else {
        seconds
    }
}

/// The room with its Minesweeper setup changed (each value clamped to its range).
pub open spec fn with_setup(room: Room, setup: MinesweeperSetup) -> Room {
    match setup {
        MinesweeperSetup::TimeLimit(seconds) => Room { minesweeper_time_limit_seconds: clamp_seconds_spec(seconds), ..room },
        MinesweeperSetup::Tiles(rows, cols) => Room {
            minesweeper_tile_rows: clamp_tile_axis_spec(rows),
            minesweeper_tile_cols: clamp_tile_axis_spec(cols),
            ..room
        },
    }
}

/// Changes the Minesweeper setup (between Minesweeper races); everybody has to be ready
/// again.
pub fn update_room_minesweeper_setup(room: &mut Room, setup: MinesweeperSetup) -> (u: RoomUpdate)
    ensures
        !(old(room).game_kind == RoomGameKind::Minesweeper && (old(room).phase is Lobby || old(room).phase is Complete))
            ==> u == RoomUpdate::Ignored && *final(room) == *old(room),
        old(room).game_kind == RoomGameKind::Minesweeper && (old(room).phase is Lobby || old(room).phase is Complete)
            ==> {
            &&& u == RoomUpdate::Snapshot
            &&& *final(room) == (Room { players: final(room).players, ..with_setup(*old(room), setup) })
            &&& final(room).players.len() == old(room).players.len()
            &&& forall|k: int|
                0 <= k < final(room).players.len() ==> #[trigger] final(room).players@[k] == (RoomPlayer {
                    ready: false,
                    ..old(room).players@[k]
                })
        },
{
    if !(room.game_kind == RoomGameKind::Minesweeper && room_accepts_next_race_setup(room)) {
        return RoomUpdate::Ignored;
    }
    match setup {
        MinesweeperSetup::TimeLimit(seconds) => {
            room.minesweeper_time_limit_seconds = clamp_room_minesweeper_time_limit_seconds(seconds);
        },
        MinesweeperSetup::Tiles(rows, cols) => {
            room.minesweeper_tile_rows = clamp_room_minesweeper_tile_axis(rows);
            room.minesweeper_tile_cols = clamp_room_minesweeper_tile_axis(cols);
        },
    }
    reset_room_ready_flags(room);
    RoomUpdate::Snapshot
}

/// Sets the Minesweeper time limit (clamped to its range) between Minesweeper races.
pub fn set_room_minesweeper_time_limit(room: &mut Room, seconds: u32) -> (u: RoomUpdate)
    ensures
        !(old(room).game_kind == RoomGameKind::Minesweeper && (old(room).phase is Lobby || old(room).phase is Complete))
            ==> u == RoomUpdate::Ignored && *final(room) == *old(room),
        old(room).game_kind == RoomGameKind::Minesweeper && (old(room).phase is Lobby || old(room).phase is Complete)
            ==> {
            &&& u == RoomUpdate::Snapshot
            &&& *final(room) == (Room {
                players: final(room).players,
                minesweeper_time_limit_seconds: clamp_seconds_spec(seconds),
                ..*old(room)
            })
            &&& final(room).players.len() == old(room).players.len()
            &&& forall|k: int|
                0 <= k < final(room).players.len() ==> #[trigger] final(room).players@[k] == (RoomPlayer {
                    ready: false,
                    ..old(room).players@[k]
                })
        },
{
    update_room_minesweeper_setup(room, MinesweeperSetup::TimeLimit(seconds))
}

/// Sets the Minesweeper tile counts (each clamped to its range) between Minesweeper races.
pub fn set_room_minesweeper_tiles(room: &mut Room, rows: usize, cols: usize) -> (u: RoomUpdate)
    ensures
        !(old(room).game_kind == RoomGameKind::Minesweeper && (old(room).phase is Lobby || old(room).phase is Complete))
            ==> u == RoomUpdate::Ignored && *final(room) == *old(room),
        old(room).game_kind == RoomGameKind::Minesweeper && (old(room).phase is Lobby || old(room).phase is Complete)
            ==> {
            &&& u == RoomUpdate::Snapshot
            &&& *final(room) == (Room {
                players: final(room).players,
                minesweeper_tile_rows: clamp_tile_axis_spec(rows),
                minesweeper_tile_cols: clamp_tile_axis_spec(cols),
                ..*old(room)
            })
            &&& final(room).players.len() == old(room).players.len()
            &&& forall|k: int|
                0 <= k < final(room).players.len() ==> #[trigger] final(room).players@[k] == (RoomPlayer {
                    ready: false,
                    ..old(room).players@[k]
                })
        },
{
    update_room_minesweeper_setup(room, MinesweeperSetup::Tiles(rows, cols))
}

/// The players after the one with id `id` (if present) set their ready flag to `ready`.
pub open spec fn with_ready(players: Seq<RoomPlayer>, id: Seq<char>, ready: bool) -> Seq<RoomPlayer> {
    let i = player_index(players, id);
    if i < players.len() {
        players.update(i, RoomPlayer { ready, ..players[i] })
    } else {
        players
    }
}

/// Somebody is connected and every connected player is ready.
pub open spec fn all_connected_ready(players: Seq<RoomPlayer>) -> bool {
    &&& exists|k: int| 0 <= k < players.len() && (#[trigger] players[k]).connected
    &&& forall|k: int| 0 <= k < players.len() && (#[trigger] players[k]).connected ==> players[k].ready
}

/// How long the countdown before a race lasts, in ms.
pub open spec fn countdown_ms(kind: RoomGameKind) -> u64 {
    if kind == RoomGameKind::Minesweeper {
        5000
    } else {
        3000
    }
}

/// The countdown of a race was started at `now_ms`: the old race is forgotten (everybody
/// keeps their ready flag), a Minesweeper board is built, and the race starts after the
/// countdown.
pub open spec fn countdown_started(before: &Room, players: Seq<RoomPlayer>, after: &Room, now_ms: u64) -> bool {
    &&& after.phase == (ServerRoomPhase::Countdown { starts_at_ms: (now_ms + countdown_ms(before.game_kind)) as u64 })
    &&& after.players.len() == players.len()
    &&& forall|k: int|
        0 <= k < after.players.len() ==> {
            let p = #[trigger] after.players@[k];
            &&& race_cleared(p)
            &&& same_person(p, players[k])
            &&& p.ready == players[k].ready
        }
    &&& after.race_player_ids.len() == 0
    &&& after.active_puzzle_id is None
    &&& minesweeper_ok(after)
    &&& before.game_kind == RoomGameKind::Minesweeper ==> after.minesweeper is Some
        && after.minesweeper_tile_rows == clamp_tile_axis_spec(before.minesweeper_tile_rows)
        && after.minesweeper_tile_cols == clamp_tile_axis_spec(before.minesweeper_tile_cols)
    &&& before.game_kind != RoomGameKind::Minesweeper ==> after.minesweeper is None
        && after.minesweeper_tile_rows == before.minesweeper_tile_rows
        && after.minesweeper_tile_cols == before.minesweeper_tile_cols
    &&& after.slug == before.slug
    &&& after.game_kind == before.game_kind
    &&& after.puzzle_choice == before.puzzle_choice
    &&& after.played_puzzle_ids == before.played_puzzle_ids
    &&& after.nonogram == before.nonogram
    &&& after.minesweeper_time_limit_seconds == before.minesweeper_time_limit_seconds
}

/// A player says whether they are ready (between races). Once every connected player is
/// ready the countdown starts at `now_ms`; its end is returned so that the server can start
/// the race then.
pub fn set_player_ready(room: &mut Room, player_id: &str, ready: bool, now_ms: u64) -> (r: (RoomUpdate, Option<u64>))
    requires
        now_ms <= u64::MAX - 5000,
    ensures
        !(old(room).phase is Lobby || old(room).phase is Complete) ==> r == (RoomUpdate::Ignored, None::<u64>)
            && *final(room) == *old(room),
        (old(room).phase is Lobby || old(room).phase is Complete) ==> {
            let mid = with_ready(old(room).players@, player_id@, ready);
            &&& r.0 == RoomUpdate::Snapshot
            &&& !all_connected_ready(mid) ==> r.1 is None && final(room).players@ == mid && *final(room) == (Room {
                players: final(room).players,
                ..*old(room)
            })
            &&& all_connected_ready(mid) ==> r.1 == Some((now_ms + countdown_ms(old(room).game_kind)) as u64)
                && countdown_started(old(room), mid, final(room), now_ms)
        },
{
    if !room_accepts_next_race_setup(room) {
        return (RoomUpdate::Ignored, None);
    }
    proof {
        lemma_first_player_from(room.players@, player_id@, 0);
    }
    match find_player(&room.players, player_id) {
        Some(i) => {
            let ghost before = room.players@;
            let mut player = room.players.remove(i);
            player.ready = ready;
            room.players.insert(i, player);
            proof {
                assert(room.players@ == before.update(i as int, player));
            }
        },
        None => {},
    }
    let ghost mid = room.players@;
    assert(mid == with_ready(old(room).players@, player_id@, ready));
    if room_all_connected_players_ready(room) {
        clear_room_race_results(room);
        let ghost cleared = *room;
        if room.game_kind == RoomGameKind::Minesweeper {
            prepare_room_minesweeper_game(room, now_ms);
        }
        let countdown: u64 = if room.game_kind == RoomGameKind::Minesweeper {
            5000
        } else {
            3000
        };
        let start = now_ms + countdown;
        room.phase = ServerRoomPhase::Countdown { starts_at_ms: start };
        proof {
            assert(room.players == cleared.players);
        }
        return (RoomUpdate::Snapshot, Some(start));
    }
    (RoomUpdate::Snapshot, None)
}

/// A race started at `now_ms` with every connected player as a racer, all reset: a Queens
/// race on the chosen puzzle (or a random candidate), a Minesweeper race on the prepared
/// board (built now if there was none) with its starting cells open, a nonogram race on a
/// new puzzle.
pub open spec fn race_started(before: &Room, after: &Room, puzzles: Seq<Puzzle>, now_ms: u64) -> bool {
    &&& after.phase == (ServerRoomPhase::Racing { started_at_ms: now_ms })
    &&& id_texts(after.race_player_ids@) == connected_ids(before.players@)
    &&& all_reset(before.players@, after.players@)
    &&& minesweeper_ok(after)
    &&& after.slug == before.slug
    &&& after.game_kind == before.game_kind
    &&& after.puzzle_choice == before.puzzle_choice
    &&& after.played_puzzle_ids == before.played_puzzle_ids
    &&& after.minesweeper_time_limit_seconds == before.minesweeper_time_limit_seconds
    &&& before.game_kind == RoomGameKind::Queens ==> {
        &&& after.minesweeper == before.minesweeper
        &&& after.nonogram == before.nonogram
        &&& match before.puzzle_choice {
            RoomPuzzleChoice::Puzzle { id } => after.active_puzzle_id == Some(id),
            RoomPuzzleChoice::Random => after.active_puzzle_id matches Some(id) && room_candidate_ids(
                puzzles,
                before.played_puzzle_ids@,
            ).contains(id),
        }
    }
    &&& before.game_kind == RoomGameKind::Minesweeper ==> {
        &&& after.minesweeper is Some
        &&& after.active_puzzle_id == before.active_puzzle_id
        &&& after.nonogram == before.nonogram
        &&& before.minesweeper is Some ==> after.minesweeper_tile_rows == before.minesweeper_tile_rows
            && after.minesweeper_tile_cols == before.minesweeper_tile_cols
    }
    &&& before.game_kind == RoomGameKind::Nonogram ==> {
        &&& after.nonogram matches Some(g) && generated_ok(&g.puzzle, NONOGRAM_DEFAULT_WIDTH, NONOGRAM_DEFAULT_HEIGHT)
        &&& after.active_puzzle_id == before.active_puzzle_id
        &&& after.minesweeper == before.minesweeper
    }
}

/// Starts the race whose countdown was to end at `starts_at_ms`, at `now_ms`. Nothing
/// happens when the room has since moved on, or when a random Queens puzzle is wanted and
/// there are no puzzles. A Minesweeper race returns its start and time limit, so that the
/// server can end it in time.
pub fn start_room_race(room: &mut Room, puzzles: &Vec<Puzzle>, starts_at_ms: u64, now_ms: u64) -> (r: (
    RoomUpdate,
    Option<(u64, u32)>,
))
    requires
        minesweeper_ok(old(room)),
    ensures
        minesweeper_ok(final(room)),
        ({
            let counting = old(room).phase == (ServerRoomPhase::Countdown { starts_at_ms });
            let stuck = old(room).game_kind == RoomGameKind::Queens && old(room).puzzle_choice is Random
                && puzzles.len() == 0;
            &&& !counting || stuck ==> r == (RoomUpdate::Ignored, None::<(u64, u32)>) && *final(room) == *old(room)
            &&& counting && !stuck ==> {
                &&& r.0 == RoomUpdate::Snapshot
                &&& race_started(old(room), final(room), puzzles@, now_ms)
                &&& r.1 == if old(room).game_kind == RoomGameKind::Minesweeper {
                    Some((now_ms, old(room).minesweeper_time_limit_seconds))
                } else {
                    None
                }
            }
        }),
{
    if room.phase != (ServerRoomPhase::Countdown { starts_at_ms }) {
        return (RoomUpdate::Ignored, None);
    }
    match room.game_kind {
        RoomGameKind::Queens => {
            let puzzle_id = match room.puzzle_choice {
                RoomPuzzleChoice::Puzzle { id } => id,
                RoomPuzzleChoice::Random => match random_room_puzzle_id(puzzles, &room.played_puzzle_ids) {
                    Some(id) => id,
                    None => {
                        return (RoomUpdate::Ignored, None);
                    },
                },
            };
            room.active_puzzle_id = Some(puzzle_id);
            let ghost chosen = *room;
            begin_room_race_for_connected_players(room);
            proof {
                assert(chosen.players == old(room).players);
            }
        },
        RoomGameKind::Minesweeper => {
            if room.minesweeper.is_none() {
                prepare_room_minesweeper_game(room, now_ms);
            }
            reveal_room_minesweeper_starts(room);
            let ghost opened = *room;
            begin_room_race_for_connected_players(room);
            proof {
                assert(opened.players == old(room).players);
            }
        },
        RoomGameKind::Nonogram => {
            prepare_room_nonogram_game(room, now_ms);
            let ghost prepared = *room;
            begin_room_race_for_connected_players(room);
            proof {
                assert(prepared.players == old(room).players);
            }
        },
    }
    room.phase = ServerRoomPhase::Racing { started_at_ms: now_ms };
    let timeout = if room.game_kind == RoomGameKind::Minesweeper {
        Some((now_ms, room.minesweeper_time_limit_seconds))
    } else {
        None
    };
    (RoomUpdate::Snapshot, timeout)
}

/// Where a new player with id `id` goes in the list: before the first player (at or after
/// `from`) whose id sorts after it, so that a list built by joining is in id order.
pub open spec fn insert_position(players: Seq<RoomPlayer>, id: Seq<char>, from: int) -> int
    decreases players.len() - from,
{
    if from < 0 || from >= players.len() {
        players.len() as int
    } else if text_before(id, players[from].id@) {
        from
    } else {
        insert_position(players, id, from + 1)
    }
}

proof fn lemma_insert_position(players: Seq<RoomPlayer>, id: Seq<char>, from: int, stop: int)
    requires
        0 <= from <= stop <= players.len(),
        forall|k: int| from <= k < stop ==> !text_before(id, (#[trigger] players[k]).id@),
        stop == players.len() || text_before(id, players[stop].id@),
    ensures
        insert_position(players, id, from) == stop,
    decreases stop - from,
{
    if from < stop {
        lemma_insert_position(players, id, from + 1, stop);
    }
}

/// A player who has just joined with this id, name and join order.
pub open spec fn newcomer(p: RoomPlayer, id: Seq<char>, name: Seq<char>, joined_order: u64) -> bool {
    &&& p.id@ == id
    &&& p.name@ == name
    &&& !p.ready
    &&& p.connected
    &&& p.medals == (RoomMedalCounts { gold: 0, silver: 0, bronze: 0 })
    &&& p.joined_order == joined_order
    &&& race_cleared(p)
}

/// A player (re)joins the room under a name. A known player takes the name and is
/// connected again (in the lobby they have to say they are ready again); a new player is
/// added in id order, joining last.
pub fn join_room_player(room: &mut Room, player_id: &str, player_name: String)
    requires
        old(room).players.len() < u64::MAX,
    ensures
        *final(room) == (Room { players: final(room).players, ..*old(room) }),
        ({
            let before = old(room).players@;
            let i = player_index(before, player_id@);
            &&& i < before.len() ==> final(room).players@ == before.update(
                i,
                RoomPlayer {
                    name: player_name,
                    connected: true,
                    ready: if old(room).phase is Lobby {
                        false
                    } else {
                        before[i].ready
                    },
                    ..before[i]
                },
            )
            &&& i == before.len() ==> {
                let pos = insert_position(before, player_id@, 0);
                &&& final(room).players.len() == before.len() + 1
                &&& final(room).players@ == before.insert(pos, final(room).players@[pos])
                &&& newcomer(final(room).players@[pos], player_id@, player_name@, (before.len() + 1) as u64)
            }
        }),
{
    proof {
        lemma_first_player_from(room.players@, player_id@, 0);
    }
    let joined_order = room.players.len() as u64 + 1;
    let reset_ready = room.phase == ServerRoomPhase::Lobby;
    match find_player(&room.players, player_id) {
        Some(i) => {
            let ghost before = room.players@;
            let mut player = room.players.remove(i);
            player.name = player_name;
            player.connected = true;
            if reset_ready {
                player.ready = false;
            }
            room.players.insert(i, player);
            proof {
                assert(room.players@ == before.update(i as int, player));
            }
        },
        None => {
            let mut pos: usize = 0;
            while pos < room.players.len() && !text_is_before(player_id, room.players[pos].id.as_str())
                invariant
                    pos <= room.players.len(),
                    forall|k: int| 0 <= k < pos ==> !text_before(player_id@, (#[trigger] room.players@[k]).id@),
                decreases room.players.len() - pos,
            {
                pos = pos + 1;
            }
            proof {
                lemma_insert_position(room.players@, player_id@, 0, pos as int);
            }
            let player = RoomPlayer::new(String::from_str(player_id), player_name, joined_order);
            let ghost before = room.players@;
            room.players.insert(pos, player);
            proof {
                assert(room.players@ == before.insert(pos as int, player));
            }
        },
    }
}

/// A player's connection closed: they are shown as away, their pointer goes, and in the
/// lobby they are no longer ready.
pub fn disconnect_player(room: &mut Room, player_id: &str) -> (u: RoomUpdate)
    ensures
        u == RoomUpdate::Snapshot,
        *final(room) == (Room { players: final(room).players, ..*old(room) }),
        ({
            let before = old(room).players@;
            let i = player_index(before, player_id@);
            &&& i < before.len() ==> final(room).players@ == before.update(
                i,
                RoomPlayer {
                    connected: false,
                    pointer: None,
                    ready: if old(room).phase is Lobby {
                        false
                    } else {
                        before[i].ready
                    },
                    ..before[i]
                },
            )
            &&& i == before.len() ==> final(room).players@ == before
        }),
{
    proof {
        lemma_first_player_from(room.players@, player_id@, 0);
    }
    let lobby = room.phase == ServerRoomPhase::Lobby;
    match find_player(&room.players, player_id) {
        Some(i) => {
            let ghost before = room.players@;
            let mut player = room.players.remove(i);
            player.connected = false;
            player.pointer = None;
            if lobby {
                player.ready = false;
            }
            room.players.insert(i, player);
            proof {
                assert(room.players@ == before.update(i as int, player));
            }
        },
        None => {},
    }
    RoomUpdate::Snapshot
}

/// Every racer has finished or given up (and there are racers).
pub open spec fn all_racers_done_spec(room: &Room) -> bool {
    room.race_player_ids.len() > 0 && forall|k: int|
        0 <= k < room.race_player_ids.len() ==> racer_done(room.players@, (#[trigger] room.race_player_ids@[k])@)
}

/// A Minesweeper race is over: the board is cleared, or every racer is eliminated.
pub open spec fn minesweeper_over_spec(room: &Room) -> bool {
    (room.minesweeper matches Some(g) && all_safe_open(g.board.cell_states(), g.board.mine_map()))
        || all_eliminated_spec(room)
}

/// After a change that left the room as `mid`, the race ended (at `started_at_ms`) when
/// `over`, and the room stayed as `mid` otherwise.
pub open spec fn then_completed_if(
    mid: &Room,
    over: bool,
    after: &Room,
    puzzles: Seq<Puzzle>,
    started_at_ms: u64,
) -> bool {
    &&& over ==> race_completed(mid, mid.players@, after, puzzles, started_at_ms)
    &&& !over ==> *after == *mid
}

/// The players after the one with id `id` gave up: in Minesweeper they are eliminated and
/// their pointer goes; otherwise they give up unless they have finished.
pub open spec fn players_after_give_up(kind: RoomGameKind, players: Seq<RoomPlayer>, id: Seq<char>) -> Seq<RoomPlayer> {
    let i = player_index(players, id);
    if i >= players.len() {
        players
    } else if kind == RoomGameKind::Minesweeper {
        players.update(i, RoomPlayer { minesweeper_eliminated: true, pointer: None, ..players[i] })
    } else if players[i].finish_ms is None {
        players.update(i, RoomPlayer { gave_up: true, ..players[i] })
    } else {
        players
    }
}

/// The race is over after a change: every racer is done, or the Minesweeper race is over.
pub open spec fn race_over_spec(room: &Room) -> bool {
    if room.game_kind == RoomGameKind::Minesweeper {
        minesweeper_over_spec(room)
    } else {
        all_racers_done_spec(room)
    }
}

/// What giving up did: the room as `mid` after the racer gave up, and then perhaps the end.
pub open spec fn gave_up_outcome(before: &Room, mid: &Room, after: &Room, id: Seq<char>, puzzles: Seq<Puzzle>) -> bool {
    &&& *mid == (Room { players: mid.players, ..*before })
    &&& mid.players@ == players_after_give_up(before.game_kind, before.players@, id)
    &&& then_completed_if(mid, race_over_spec(mid), after, puzzles, before.phase->Racing_started_at_ms)
}

/// A racer gives up (during a race). When that ends the race, it is completed.
pub fn give_up_player(room: &mut Room, puzzles: &Vec<Puzzle>, player_id: &str) -> (u: RoomUpdate)
    requires
        minesweeper_ok(old(room)),
        medals_can_grow(old(room).players@),
    ensures
        minesweeper_ok(final(room)),
        !(old(room).phase is Racing && ids_contain(old(room).race_player_ids@, player_id@)) ==> u
            == RoomUpdate::Ignored && *final(room) == *old(room),
        old(room).phase is Racing && ids_contain(old(room).race_player_ids@, player_id@) ==> u == RoomUpdate::Snapshot
            && exists|mid: Room| #[trigger] gave_up_outcome(old(room), &mid, final(room), player_id@, puzzles@),
{
    let started_at_ms = match room.phase {
        ServerRoomPhase::Racing { started_at_ms } => started_at_ms,
        _ => {
            return RoomUpdate::Ignored;
        },
    };
    if !ids_include(&room.race_player_ids, player_id) {
        return RoomUpdate::Ignored;
    }
    proof {
        lemma_first_player_from(room.players@, player_id@, 0);
    }
    let minesweeper = room.game_kind == RoomGameKind::Minesweeper;
    match find_player(&room.players, player_id) {
        Some(i) => {
            let ghost before = room.players@;
            let mut player = room.players.remove(i);
            if minesweeper {
                player.minesweeper_eliminated = true;
                player.pointer = None;
            } else if player.finish_ms.is_none() {
                player.gave_up = true;
            }
            room.players.insert(i, player);
            proof {
                assert(room.players@ =~= players_after_give_up(old(room).game_kind, before, player_id@));
            }
        },
        None => {},
    }
    let ghost mid = *room;
    let over = if minesweeper {
        room_minesweeper_should_complete(room)
    } else {
        room_all_racers_done(room)
    };
    if over {
        proof {
            assert(medals_can_grow(room.players@)) by {
                assert forall|k: int| 0 <= k < room.players.len() implies (#[trigger] room.players@[k]).medals
                    == old(room).players@[k].medals by {
                    if k == player_index(old(room).players@, player_id@) {
                    }
                }
            }
        }
        complete_room_race(room, puzzles, started_at_ms);
    }
    proof {
        assert(gave_up_outcome(old(room), &mid, room, player_id@, puzzles@));
    }
    RoomUpdate::Snapshot
}

/// The frames a player has recorded so far.
pub open spec fn recorded_frames(p: RoomPlayer) -> Seq<RoomRecordingFrame> {
    match p.recording {
        Some(r) => r.frames@,
        None => seq![],
    }
}

/// The frames after a frame was added: it replaces a last frame of the same time, and
/// follows a later one.
pub open spec fn frames_after_append(frames: Seq<RoomRecordingFrame>, frame: RoomRecordingFrame) -> Seq<
    RoomRecordingFrame,
> {
    if frames.len() > 0 && frame.elapsed_ms == frames.last().elapsed_ms {
        frames.update(frames.len() - 1, frame)
    } else {
        frames.push(frame)
    }
}

/// The Queens puzzle being raced on, if it exists.
pub open spec fn active_puzzle(room: &Room, puzzles: Seq<Puzzle>) -> Option<Puzzle> {
    match room.active_puzzle_id {
        Some(pid) => if has_puzzle_id(puzzles, pid) {
            Some(puzzles[first_puzzle_from(puzzles, pid, 0)])
        } else {
            None
        },
        None => None,
    }
}

/// A racer may still record frames: the room is racing at Queens on a known puzzle, and the
/// player is a racer who has neither finished nor given up.
pub open spec fn may_record(room: &Room, puzzles: Seq<Puzzle>, id: Seq<char>) -> bool {
    let i = player_index(room.players@, id);
    &&& room.game_kind == RoomGameKind::Queens
    &&& room.phase is Racing
    &&& ids_contain(room.race_player_ids@, id)
    &&& active_puzzle(room, puzzles) is Some
    &&& i < room.players.len()
    &&& room.players@[i].finish_ms is None
    &&& !room.players@[i].gave_up
}

/// A recording frame is kept: the racer may record, the frame fits the puzzle's board, the
/// recording is not full, and the frame is no older than the last one.
pub open spec fn frame_accepted(room: &Room, puzzles: Seq<Puzzle>, id: Seq<char>, frame: RoomRecordingFrame) -> bool {
    let i = player_index(room.players@, id);
    let frames = recorded_frames(room.players@[i]);
    &&& may_record(room, puzzles, id)
    &&& frame_valid_spec(&frame, capped_cell_count(active_puzzle(room, puzzles)->0.size) as usize)
    &&& frames.len() < MAX_RECORDING_FRAMES
    &&& frames.len() == 0 || frame.elapsed_ms >= frames.last().elapsed_ms
}

/// A copy of a frame.
fn copy_frame(frame: &RoomRecordingFrame) -> (c: RoomRecordingFrame)
    ensures
        c.elapsed_ms == frame.elapsed_ms,
        c.states@ == frame.states@,
{
    let mut states: Vec<u8> = Vec::new();
    let mut k: usize = 0;
    while k < frame.states.len()
        invariant
            k <= frame.states.len(),
            states@ == frame.states@.take(k as int),
        decreases frame.states.len() - k,
    {
        states.push(frame.states[k]);
        proof {
            assert(frame.states@.take(k + 1) == frame.states@.take(k as int).push(frame.states@[k as int]));
        }
        k = k + 1;
    }
    proof {
        assert(frame.states@.take(k as int) == frame.states@);
    }
    RoomRecordingFrame { elapsed_ms: frame.elapsed_ms, states }
}

/// The room's Queens puzzle being raced on, if it exists.
pub fn find_active_puzzle<'a>(room: &Room, puzzles: &'a Vec<Puzzle>) -> (p: Option<&'a Puzzle>)
    ensures
        match p {
            Some(q) => active_puzzle(room, puzzles@) == Some(*q),
            None => active_puzzle(room, puzzles@) is None,
        },
{
    match room.active_puzzle_id {
        Some(pid) => {
            proof {
                lemma_first_puzzle_from(puzzles@, pid, 0);
            }
            let found = find_puzzle_by_id(puzzles, pid);
            proof {
                if found is Some {
                    assert(has_puzzle_id(puzzles@, pid));
                } else if has_puzzle_id(puzzles@, pid) {
                    let k = choose|k: int| 0 <= k < puzzles.len() && (#[trigger] puzzles@[k]).id == pid;
                    assert(puzzles@[k].id == pid);
                }
            }
            found
        },
        None => None,
    }
}

/// The number of cells of a board of side `size`, capped at `usize::MAX`.
fn capped_cells(size: usize) -> (n: usize)
    ensures
        n == capped_cell_count(size),
{
    match size.checked_mul(size) {
        Some(n) => n,
        None => usize::MAX,
    }
}

/// A racer sends a frame of their Queens recording. A frame that is kept is passed on to
/// everybody.
pub fn store_recording_frame(
    room: &mut Room,
    puzzles: &Vec<Puzzle>,
    player_id: &str,
    frame: RoomRecordingFrame,
) -> (u: RoomUpdate)
    ensures
        !frame_accepted(old(room), puzzles@, player_id@, frame) ==> u == RoomUpdate::Ignored && *final(room)
            == *old(room),
        frame_accepted(old(room), puzzles@, player_id@, frame) ==> {
            let i = player_index(old(room).players@, player_id@);
            let p = final(room).players@[i];
            &&& *final(room) == (Room { players: final(room).players, ..*old(room) })
            &&& final(room).players@ == old(room).players@.update(i, p)
            &&& p == (RoomPlayer { recording: p.recording, ..old(room).players@[i] })
            &&& p.recording matches Some(r) && r.frames@ == frames_after_append(
                recorded_frames(old(room).players@[i]),
                frame,
            )
            &&& u matches RoomUpdate::Send(RoomServerMessage::RecordingFrame { player_id: sent_id, frame: sent })
                && sent_id@ == player_id@ && sent.elapsed_ms == frame.elapsed_ms && sent.states@ == frame.states@
        },
{
    proof {
        lemma_first_player_from(room.players@, player_id@, 0);
    }
    if room.game_kind != RoomGameKind::Queens {
        return RoomUpdate::Ignored;
    }
    match room.phase {
        ServerRoomPhase::Racing { .. } => {},
        _ => {
            return RoomUpdate::Ignored;
        },
    }
    if !ids_include(&room.race_player_ids, player_id) {
        return RoomUpdate::Ignored;
    }
    let puzzle = match find_active_puzzle(room, puzzles) {
        Some(p) => p,
        None => {
            return RoomUpdate::Ignored;
        },
    };
    if !recording_frame_is_valid(&frame, capped_cells(puzzle.size)) {
        return RoomUpdate::Ignored;
    }
    let i = match find_player(&room.players, player_id) {
        Some(i) => i,
        None => {
            return RoomUpdate::Ignored;
        },
    };
    if room.players[i].finish_ms.is_some() || room.players[i].gave_up {
        return RoomUpdate::Ignored;
    }
    let frame_count = match &room.players[i].recording {
        Some(r) => r.frames.len(),
        None => 0,
    };
    if frame_count >= MAX_RECORDING_FRAMES {
        return RoomUpdate::Ignored;
    }
    if frame_count > 0 {
        let last_ms = match &room.players[i].recording {
            Some(r) => r.frames[frame_count - 1].elapsed_ms,
            None => 0,
        };
        if frame.elapsed_ms < last_ms {
            return RoomUpdate::Ignored;
        }
    }
    let sent = copy_frame(&frame);
    let ghost before = room.players@;
    let mut player = room.players.remove(i);
    let mut recording = match player.recording {
        Some(r) => r,
        None => RoomRecording { frames: Vec::new() },
    };
    let taken = append_recording_frame(&mut recording, frame);
    player.recording = Some(recording);
    room.players.insert(i, player);
    proof {
        assert(taken);
        assert(room.players@ == before.update(i as int, player));
    }
    RoomUpdate::Send(RoomServerMessage::RecordingFrame { player_id: String::from_str(player_id), frame: sent })
}

/// A Queens board is solved: one queen in every row, column and region, with no two in
/// conflict (queens off the board are ignored).
pub open spec fn solution_complete(puzzle: &Puzzle, queens: Seq<[usize; 2]>) -> bool {
    let size = puzzle.size;
    let vq = valid_queens(queens, size);
    &&& vq.len() == size
    &&& rows_satisfied(vq, size) == size
    &&& cols_satisfied(vq, size) == size
    &&& regions_satisfied(vq, puzzle.regions@, size) == size
    &&& conflict_list(vq, puzzle.regions@, size, size * size).len() == 0
}

/// The error for a submitted board that is not solved.
pub open spec fn incomplete_solution_message(puzzle_id: usize) -> Seq<char> {
    "Submitted solution for puzzle "@ + decimal_text(puzzle_id as nat) + " is not complete."@
}

/// The error for a replay that does not end in the submitted board.
pub const REPLAY_MISMATCH_MESSAGE: &'static str = "Submitted replay does not match the finished board.";

/// The error for mouse replay data that cannot be kept.
pub const INVALID_MOUSE_REPLAY_MESSAGE: &'static str = "Submitted mouse replay data is invalid.";

/// Every puzzle is well formed.
pub open spec fn puzzles_ok(puzzles: Seq<Puzzle>) -> bool {
    forall|k: int| 0 <= k < puzzles.len() ==> puzzle_ok(&#[trigger] puzzles[k])
}

/// The players after the one with id `id` finished at `elapsed_ms` (unless they had already
/// finished or given up), keeping `recording` if given.
pub open spec fn players_after_finish(
    players: Seq<RoomPlayer>,
    id: Seq<char>,
    elapsed_ms: u64,
    recording: Option<RoomRecording>,
) -> Seq<RoomPlayer> {
    let i = player_index(players, id);
    if i < players.len() && players[i].finish_ms is None && !players[i].gave_up {
        players.update(
            i,
            match recording {
                Some(r) => RoomPlayer { finish_ms: Some(elapsed_ms), recording: Some(r), ..players[i] },
                None => RoomPlayer { finish_ms: Some(elapsed_ms), ..players[i] },
            },
        )
    } else {
        players
    }
}

/// What finishing did: the room as `mid` after the player finished, and then perhaps the
/// end of the race.
pub open spec fn finished_outcome(
    before: &Room,
    mid: &Room,
    after: &Room,
    id: Seq<char>,
    elapsed_ms: u64,
    recording: Option<RoomRecording>,
    puzzles: Seq<Puzzle>,
) -> bool {
    &&& *mid == (Room { players: mid.players, ..*before })
    &&& mid.players@ == players_after_finish(before.players@, id, elapsed_ms, recording)
    &&& then_completed_if(mid, all_racers_done_spec(mid), after, puzzles, before.phase->Racing_started_at_ms)
}

/// Marks the player as finished (if they were still racing) and ends the race when every
/// racer is done.
fn record_finish(
    room: &mut Room,
    puzzles: &Vec<Puzzle>,
    player_id: &str,
    elapsed_ms: u64,
    recording: Option<RoomRecording>,
    started_at_ms: u64,
)
    requires
        medals_can_grow(old(room).players@),
        old(room).phase == (ServerRoomPhase::Racing { started_at_ms }),
    ensures
        exists|mid: Room|
            #[trigger] finished_outcome(old(room), &mid, final(room), player_id@, elapsed_ms, recording, puzzles@),
{
    proof {
        lemma_first_player_from(room.players@, player_id@, 0);
    }
    match find_player(&room.players, player_id) {
        Some(i) => {
            if room.players[i].finish_ms.is_none() && !room.players[i].gave_up {
                let ghost before = room.players@;
                let mut player = room.players.remove(i);
                player.finish_ms = Some(elapsed_ms);
                match recording {
                    Some(r) => {
                        player.recording = Some(r);
                    },
                    None => {},
                }
                room.players.insert(i, player);
                proof {
                    assert(room.players@ =~= players_after_finish(before, player_id@, elapsed_ms, recording));
                }
            }
        },
        None => {},
    }
    let ghost mid = *room;
    if room_all_racers_done(room) {
        proof {
            assert forall|k: int| 0 <= k < room.players.len() implies (#[trigger] room.players@[k]).medals
                == old(room).players@[k].medals by {
                if k == player_index(old(room).players@, player_id@) {
                }
            }
        }
        complete_room_race(room, puzzles, started_at_ms);
    }
    proof {
        assert(finished_outcome(old(room), &mid, room, player_id@, elapsed_ms, recording, puzzles@));
    }
}

/// A racer submits their solved Queens board and its replay, `elapsed_ms` into the race.
/// A board that is not solved, or a replay that does not end in it, is answered with an
/// error; otherwise the player finishes (if still racing), and the race ends when every
/// racer is done.
pub fn finish_player(
    room: &mut Room,
    puzzles: &Vec<Puzzle>,
    player_id: &str,
    queens: &Vec<[usize; 2]>,
    recording: RoomRecording,
    elapsed_ms: u64,
) -> (u: RoomUpdate)
    requires
        puzzles_ok(puzzles@),
        medals_can_grow(old(room).players@),
        forall|k: int| 0 <= k < queens.len() ==> (#[trigger] queens@[k])[0] < usize::MAX && queens@[k][1] < usize::MAX,
    ensures
        ({
            let gate = old(room).game_kind == RoomGameKind::Queens && old(room).phase is Racing && active_puzzle(
                old(room),
                puzzles@,
            ) is Some;
            let puzzle = active_puzzle(old(room), puzzles@)->0;
            &&& !gate ==> u == RoomUpdate::Ignored && *final(room) == *old(room)
            &&& gate && !solution_complete(&puzzle, queens@) ==> *final(room) == *old(room) && (u matches RoomUpdate::Error(
                m,
            ) && m@ == incomplete_solution_message(old(room).active_puzzle_id->0))
            &&& gate && solution_complete(&puzzle, queens@) && !recording_fits(puzzle.size, queens@, recording.frames@)
                ==> *final(room) == *old(room) && (u matches RoomUpdate::Error(m) && m@ == REPLAY_MISMATCH_MESSAGE@)
            &&& gate && solution_complete(&puzzle, queens@) && recording_fits(puzzle.size, queens@, recording.frames@)
                ==> u == RoomUpdate::Snapshot && exists|mid: Room|
                #[trigger] finished_outcome(old(room), &mid, final(room), player_id@, elapsed_ms, Some(recording), puzzles@)
        }),
{
    if room.game_kind != RoomGameKind::Queens {
        return RoomUpdate::Ignored;
    }
    let started_at_ms = match room.phase {
        ServerRoomPhase::Racing { started_at_ms } => started_at_ms,
        _ => {
            return RoomUpdate::Ignored;
        },
    };
    let puzzle = match find_active_puzzle(room, puzzles) {
        Some(p) => p,
        None => {
            return RoomUpdate::Ignored;
        },
    };
    proof {
        let k = first_puzzle_from(puzzles@, room.active_puzzle_id->0, 0);
        lemma_first_puzzle_from(puzzles@, room.active_puzzle_id->0, 0);
        assert(puzzle_ok(&puzzles@[k]));
    }
    let puzzle_id = match room.active_puzzle_id {
        Some(id) => id,
        None => 0,
    };
    let validation = validate_solution(puzzle, queens);
    if !validation.complete {
        let mut message = String::from_str("Submitted solution for puzzle ");
        append_decimal(&mut message, puzzle_id);
        message.append(" is not complete.");
        return RoomUpdate::Error(message);
    }
    if !recording_matches_solution(puzzle, queens, &recording) {
        return RoomUpdate::Error(String::from_str(REPLAY_MISMATCH_MESSAGE));
    }
    record_finish(room, puzzles, player_id, elapsed_ms, Some(recording), started_at_ms);
    RoomUpdate::Snapshot
}

/// The room's nonogram fits in memory cell by cell.
pub open spec fn nonogram_ok(room: &Room) -> bool {
    room.nonogram matches Some(g) ==> g.puzzle.width * g.puzzle.height <= usize::MAX
}

/// A racer submits the cells they filled in the room's nonogram, `elapsed_ms` into the
/// race. When the filled cells solve the puzzle the player finishes (if still racing), and
/// the race ends when every racer is done; anything else is ignored.
pub fn finish_nonogram_player(
    room: &mut Room,
    puzzles: &Vec<Puzzle>,
    player_id: &str,
    filled: &Vec<usize>,
    elapsed_ms: u64,
) -> (u: RoomUpdate)
    requires
        nonogram_ok(old(room)),
        medals_can_grow(old(room).players@),
    ensures
        ({
            let solved = old(room).game_kind == RoomGameKind::Nonogram && old(room).phase is Racing && (old(
                room,
            ).nonogram matches Some(g) && filled_cells_complete(&g.puzzle, filled@));
            &&& !solved ==> u == RoomUpdate::Ignored && *final(room) == *old(room)
            &&& solved ==> u == RoomUpdate::Snapshot && exists|mid: Room|
                #[trigger] finished_outcome(old(room), &mid, final(room), player_id@, elapsed_ms, None, puzzles@)
        }),
{
    if room.game_kind != RoomGameKind::Nonogram {
        return RoomUpdate::Ignored;
    }
    let started_at_ms = match room.phase {
        ServerRoomPhase::Racing { started_at_ms } => started_at_ms,
        _ => {
            return RoomUpdate::Ignored;
        },
    };
    let solved = match &room.nonogram {
        Some(game) => nonogram_filled_cells_are_complete(&game.puzzle, filled),
        None => false,
    };
    if !solved {
        return RoomUpdate::Ignored;
    }
    record_finish(room, puzzles, player_id, elapsed_ms, None, started_at_ms);
    RoomUpdate::Snapshot
}

/// What a player has of their mouse recording so far.
pub open spec fn recorded_mouse(p: RoomPlayer) -> (Seq<RoomMouseSample>, Seq<RoomMouseEvent>) {
    match p.mouse_recording {
        Some(r) => (r.samples@, r.events@),
        None => (seq![], seq![]),
    }
}

/// A chunk of a mouse recording is kept: it is not empty, the racer may record, the chunk
/// is valid for the puzzle, the recording stays within its limits, and the chunk starts no
/// earlier than the recording ends.
pub open spec fn mouse_chunk_accepted(
    room: &Room,
    puzzles: Seq<Puzzle>,
    id: Seq<char>,
    chunk: &RoomMouseRecording,
) -> bool {
    let i = player_index(room.players@, id);
    let (samples, events) = recorded_mouse(room.players@[i]);
    &&& chunk.samples.len() > 0 || chunk.events.len() > 0
    &&& may_record(room, puzzles, id)
    &&& mouse_recording_ok(active_puzzle(room, puzzles)->0.size, chunk)
    &&& samples.len() + chunk.samples.len() <= MAX_MOUSE_SAMPLES
    &&& events.len() + chunk.events.len() <= MAX_MOUSE_EVENTS
    &&& samples.len() == 0 || chunk.samples.len() == 0 || chunk.samples@[0].0 >= samples.last().0
    &&& events.len() == 0 || chunk.events.len() == 0 || chunk.events@[0].0 >= events.last().0
}

/// A copy of a mouse recording.
pub fn copy_mouse_recording(recording: &RoomMouseRecording) -> (c: RoomMouseRecording)
    ensures
        c.samples@ == recording.samples@,
        c.events@ == recording.events@,
{
    let mut samples: Vec<RoomMouseSample> = Vec::new();
    let mut k: usize = 0;
    while k < recording.samples.len()
        invariant
            k <= recording.samples.len(),
            samples@ == recording.samples@.take(k as int),
        decreases recording.samples.len() - k,
    {
        samples.push(recording.samples[k]);
        proof {
            assert(recording.samples@.take(k + 1) == recording.samples@.take(k as int).push(recording.samples@[k as int]));
        }
        k = k + 1;
    }
    let mut events: Vec<RoomMouseEvent> = Vec::new();
    let mut k: usize = 0;
    while k < recording.events.len()
        invariant
            k <= recording.events.len(),
            events@ == recording.events@.take(k as int),
        decreases recording.events.len() - k,
    {
        events.push(recording.events[k]);
        proof {
            assert(recording.events@.take(k + 1) == recording.events@.take(k as int).push(recording.events@[k as int]));
        }
        k = k + 1;
    }
    proof {
        assert(recording.samples@.take(recording.samples.len() as int) == recording.samples@);
        assert(recording.events@.take(recording.events.len() as int) == recording.events@);
    }
    RoomMouseRecording { samples, events }
}

/// A racer sends a chunk of their mouse recording. A chunk that is kept is appended and
/// passed on to everybody.
pub fn store_mouse_recording_chunk(
    room: &mut Room,
    puzzles: &Vec<Puzzle>,
    player_id: &str,
    recording: RoomMouseRecording,
) -> (u: RoomUpdate)
    ensures
        !mouse_chunk_accepted(old(room), puzzles@, player_id@, &recording) ==> u == RoomUpdate::Ignored
            && *final(room) == *old(room),
        mouse_chunk_accepted(old(room), puzzles@, player_id@, &recording) ==> {
            let i = player_index(old(room).players@, player_id@);
            let p = final(room).players@[i];
            let (samples, events) = recorded_mouse(old(room).players@[i]);
            &&& *final(room) == (Room { players: final(room).players, ..*old(room) })
            &&& final(room).players@ == old(room).players@.update(i, p)
            &&& p == (RoomPlayer { mouse_recording: p.mouse_recording, ..old(room).players@[i] })
            &&& p.mouse_recording matches Some(r) && r.samples@ == samples + recording.samples@ && r.events@ == events
                + recording.events@
            &&& u matches RoomUpdate::Send(RoomServerMessage::MouseRecordingChunk { player_id: sent_id, recording: sent })
                && sent_id@ == player_id@ && sent.samples@ == recording.samples@ && sent.events@ == recording.events@
        },
{
    proof {
        lemma_first_player_from(room.players@, player_id@, 0);
    }
    if recording.samples.len() == 0 && recording.events.len() == 0 {
        return RoomUpdate::Ignored;
    }
    if room.game_kind != RoomGameKind::Queens {
        return RoomUpdate::Ignored;
    }
    match room.phase {
        ServerRoomPhase::Racing { .. } => {},
        _ => {
            return RoomUpdate::Ignored;
        },
    }
    if !ids_include(&room.race_player_ids, player_id) {
        return RoomUpdate::Ignored;
    }
    let puzzle = match find_active_puzzle(room, puzzles) {
        Some(p) => p,
        None => {
            return RoomUpdate::Ignored;
        },
    };
    if !mouse_recording_is_valid(puzzle, &recording) {
        return RoomUpdate::Ignored;
    }
    let i = match find_player(&room.players, player_id) {
        Some(i) => i,
        None => {
            return RoomUpdate::Ignored;
        },
    };
    if room.players[i].finish_ms.is_some() || room.players[i].gave_up {
        return RoomUpdate::Ignored;
    }
    let (sample_count, event_count) = match &room.players[i].mouse_recording {
        Some(r) => (r.samples.len(), r.events.len()),
        None => (0, 0),
    };
    if sample_count > MAX_MOUSE_SAMPLES - recording.samples.len() || event_count > MAX_MOUSE_EVENTS
        - recording.events.len() {
        return RoomUpdate::Ignored;
    }
    let fits = match &room.players[i].mouse_recording {
        Some(r) => {
            let sample_ok = r.samples.len() == 0 || recording.samples.len() == 0 || recording.samples[0].0
                >= r.samples[r.samples.len() - 1].0;
            let event_ok = r.events.len() == 0 || recording.events.len() == 0 || recording.events[0].0
                >= r.events[r.events.len() - 1].0;
            sample_ok && event_ok
        },
        None => true,
    };
    if !fits {
        return RoomUpdate::Ignored;
    }
    let sent = copy_mouse_recording(&recording);
    let ghost before = room.players@;
    let mut player = room.players.remove(i);
    let mut existing = match player.mouse_recording {
        Some(r) => r,
        None => RoomMouseRecording { samples: Vec::new(), events: Vec::new() },
    };
    let taken = append_mouse_recording(&mut existing, recording);
    player.mouse_recording = Some(existing);
    room.players.insert(i, player);
    proof {
        assert(taken);
        assert(room.players@ == before.update(i as int, player));
    }
    RoomUpdate::Send(RoomServerMessage::MouseRecordingChunk { player_id: String::from_str(player_id), recording: sent })
}

/// A finished racer sends their whole mouse recording for the Queens race on the active
/// puzzle. Data that cannot be kept is answered with an error; a recording from a player
/// who has not finished is ignored.
pub fn store_mouse_recording(
    room: &mut Room,
    puzzles: &Vec<Puzzle>,
    player_id: &str,
    recording: RoomMouseRecording,
) -> (u: RoomUpdate)
    ensures
        ({
            let gate = old(room).game_kind == RoomGameKind::Queens && active_puzzle(old(room), puzzles@) is Some;
            let valid = mouse_recording_ok(active_puzzle(old(room), puzzles@)->0.size, &recording);
            let i = player_index(old(room).players@, player_id@);
            let finished = i < old(room).players.len() && old(room).players@[i].finish_ms is Some;
            &&& !gate ==> u == RoomUpdate::Ignored && *final(room) == *old(room)
            &&& gate && !valid ==> *final(room) == *old(room) && (u matches RoomUpdate::Error(m) && m@
                == INVALID_MOUSE_REPLAY_MESSAGE@)
            &&& gate && valid && !finished ==> u == RoomUpdate::Ignored && *final(room) == *old(room)
            &&& gate && valid && finished ==> u == RoomUpdate::Snapshot && *final(room) == (Room {
                players: final(room).players,
                ..*old(room)
            }) && final(room).players@ == old(room).players@.update(
                i,
                RoomPlayer { mouse_recording: Some(recording), ..old(room).players@[i] },
            )
        }),
{
    proof {
        lemma_first_player_from(room.players@, player_id@, 0);
    }
    if room.game_kind != RoomGameKind::Queens {
        return RoomUpdate::Ignored;
    }
    let puzzle = match find_active_puzzle(room, puzzles) {
        Some(p) => p,
        None => {
            return RoomUpdate::Ignored;
        },
    };
    if !mouse_recording_is_valid(puzzle, &recording) {
        return RoomUpdate::Error(String::from_str(INVALID_MOUSE_REPLAY_MESSAGE));
    }
    let i = match find_player(&room.players, player_id) {
        Some(i) => i,
        None => {
            return RoomUpdate::Ignored;
        },
    };
    if room.players[i].finish_ms.is_none() {
        return RoomUpdate::Ignored;
    }
    let ghost before = room.players@;
    let mut player = room.players.remove(i);
    player.mouse_recording = Some(recording);
    room.players.insert(i, player);
    proof {
        assert(room.players@ == before.update(i as int, player));
    }
    RoomUpdate::Snapshot
}

/// The player with id `id`, as listed.
pub open spec fn player_of(room: &Room, id: Seq<char>) -> RoomPlayer {
    room.players@[player_index(room.players@, id)]
}

/// A racer may open cell `index` of the running Minesweeper race: they can act, have not
/// flagged it, and it is an unopened cell of the board.
pub open spec fn may_reveal(room: &Room, id: Seq<char>, index: usize) -> bool {
    &&& room.game_kind == RoomGameKind::Minesweeper
    &&& room.phase is Racing
    &&& can_act_in_room(room, id)
    &&& !player_of(room, id).minesweeper_flags@.contains(index)
    &&& room.minesweeper matches Some(g) && index < g.board.n() && g.board.cell_spec(index as int).state_spec()
        != MinesweeperCellState::Revealed
}

/// A score as a `u32`, capped at its largest value.
pub open spec fn capped_score(n: nat) -> u32 {
    if n > u32::MAX {
        u32::MAX
    } else {
        n as u32
    }
}

/// The owners of board cells after player `id` claimed what they opened: every owned cell
/// keeps its owner, each scoring cell among `revealed` that had none becomes theirs, and no
/// other cell gains an owner.
pub open spec fn owners_claimed(
    before: Map<usize, String>,
    after: Map<usize, String>,
    board: MinesweeperBoard,
    revealed: Seq<usize>,
    id: Seq<char>,
) -> bool {
    &&& forall|i: usize| #[trigger] after.contains_key(i) ==> before.contains_key(i) || (revealed.contains(i)
        && scoring_board_cell(board, i as int))
    &&& forall|i: usize| before.contains_key(i) ==> #[trigger] after.contains_key(i) && after[i] == before[i]
    &&& forall|i: usize|
        revealed.contains(i) && scoring_board_cell(board, i as int) && !before.contains_key(i) ==> #[trigger] claimed_by(
            after,
            i,
            id,
        )
}

/// Room board `g2` is `g` after player `id` opened safe cell `index`: the mines are laid
/// if they were not, the flood fill from the cell opened `revealed`, and the player claimed
/// the scoring cells among them.
pub open spec fn safe_opened(g: ServerMinesweeperGame, g2: ServerMinesweeperGame, index: usize, revealed: Seq<usize>, id: Seq<char>) -> bool {
    &&& placement_step(g.board, g2.board, index as int)
    &&& flood_fill_ok(
        g2.board.w() as int,
        g2.board.h() as int,
        g2.board.mine_map(),
        g2.board.adjacency(),
        blocked_cells(g.board.cell_states()),
        seq![index],
        revealed,
    )
    &&& g2.board.cell_states() == reveal_all(g.board.cell_states(), revealed)
    &&& g2.board.status_spec() == g.board.status_spec()
    &&& g2.board.lost_mine() == g.board.lost_mine()
    &&& g2.board.detonated_map() == g.board.detonated_map()
    &&& g2.starting_cells == g.starting_cells
    &&& owners_claimed(g.cell_owners@, g2.cell_owners@, g2.board, revealed, id)
}

/// Room board `g2` is `g` after player `id` set off the mine at `index`: it shows opened
/// and set off, and it is theirs unless somebody owned it already.
pub open spec fn mine_detonated(g: ServerMinesweeperGame, g2: ServerMinesweeperGame, index: usize, id: Seq<char>) -> bool {
    &&& g2.board.cell_states() == g.board.cell_states().update(index as int, MinesweeperCellState::Revealed)
    &&& g2.board.detonated_map() == g.board.detonated_map().update(index as int, true)
    &&& g2.starting_cells == g.starting_cells
    &&& g2.cell_owners@ == if g.cell_owners@.contains_key(index) {
        g.cell_owners@
    } else {
        g.cell_owners@.insert(index, g2.cell_owners@[index])
    }
    &&& !g.cell_owners@.contains_key(index) ==> g2.cell_owners@[index]@ == id
}

/// What opening a cell did: the room as `mid` after the move (a mine is set off and the
/// player is eliminated; a safe cell opens with its area and the player scores the scoring
/// cells it opened), and then perhaps the end of the race.
pub open spec fn reveal_outcome(
    before: &Room,
    mid: &Room,
    after: &Room,
    id: Seq<char>,
    index: usize,
    elapsed_ms: u64,
    puzzles: Seq<Puzzle>,
) -> bool {
    let g = before.minesweeper->0;
    let mine = g.board.mine_map()[index as int];
    &&& *mid == (Room { players: mid.players, minesweeper: mid.minesweeper, ..*before })
    &&& mid.minesweeper is Some
    &&& mid.minesweeper->0.board.wf()
    &&& mine ==> mine_detonated(g, mid.minesweeper->0, index, id) && mid.players@ == players_after_move(
        before.players@,
        id,
        0,
        elapsed_ms,
        true,
    )
    &&& !mine ==> exists|revealed: Seq<usize>|
        #[trigger] safe_opened(g, mid.minesweeper->0, index, revealed, id) && mid.players@ == players_after_move(
            before.players@,
            id,
            capped_score(scoring_count(mid.minesweeper->0.board, revealed)),
            elapsed_ms,
            false,
        )
    &&& then_completed_if(mid, minesweeper_over_spec(mid), after, puzzles, before.phase->Racing_started_at_ms)
}

/// A racer opens a cell of the shared Minesweeper board, `elapsed_ms` into the race. A
/// mine eliminates them (and is theirs); a safe cell opens with its area and the numbers
/// they open first score for them. The race ends when the board is clear or every racer is
/// out.
pub fn reveal_room_minesweeper_cell(
    room: &mut Room,
    puzzles: &Vec<Puzzle>,
    player_id: &str,
    index: usize,
    elapsed_ms: u64,
) -> (u: RoomUpdate)
    requires
        minesweeper_ok(old(room)),
        medals_can_grow(old(room).players@),
    ensures
        minesweeper_ok(final(room)),
        !may_reveal(old(room), player_id@, index) ==> u == RoomUpdate::Ignored && *final(room) == *old(room),
        may_reveal(old(room), player_id@, index) ==> u == RoomUpdate::Snapshot && exists|mid: Room|
            #[trigger] reveal_outcome(old(room), &mid, final(room), player_id@, index, elapsed_ms, puzzles@),
{
    proof {
        lemma_first_player_from(room.players@, player_id@, 0);
    }
    let started_at_ms = match active_minesweeper_started_at_ms(room) {
        Some(t) => t,
        None => {
            return RoomUpdate::Ignored;
        },
    };
    if !room_minesweeper_player_can_act(room, player_id) {
        return RoomUpdate::Ignored;
    }
    let i = match find_player(&room.players, player_id) {
        Some(i) => i,
        None => {
            return RoomUpdate::Ignored;
        },
    };
    if room.players[i].minesweeper_flags.contains(&index) {
        return RoomUpdate::Ignored;
    }
    let mut game = match room.minesweeper.take() {
        Some(g) => g,
        None => {
            return RoomUpdate::Ignored;
        },
    };
    let cell = match game.board.cell(index) {
        Some(c) => c,
        None => {
            room.minesweeper = Some(game);
            return RoomUpdate::Ignored;
        },
    };
    if cell.state() == MinesweeperCellState::Revealed {
        room.minesweeper = Some(game);
        return RoomUpdate::Ignored;
    }
    let ghost g0 = game;
    let ghost mut opened: Seq<usize> = Seq::empty();
    let mine = cell.mine();
    let score = if mine {
        detonate_room_minesweeper_mine(&mut game, player_id, index);
        0
    } else {
        let revealed = game.board.reveal_safe_cells(index);
        let ghost g1 = game;
        let gained = claim_minesweeper_revealed_cells(&mut game, player_id, &revealed);
        proof {
            opened = revealed@;
            assert(game.board == g1.board);
            assert(safe_opened(g0, game, index, opened, player_id@));
        }
        gained
    };
    room.minesweeper = Some(game);
    apply_minesweeper_player_result(room, player_id, score, elapsed_ms, mine);
    let ghost mid = *room;
    if room_minesweeper_should_complete(room) {
        proof {
            assert forall|k: int| 0 <= k < room.players.len() implies (#[trigger] room.players@[k]).medals
                == old(room).players@[k].medals by {
                if k == player_index(old(room).players@, player_id@) {
                }
            }
        }
        complete_room_race(room, puzzles, started_at_ms);
    }
    proof {
        let g = old(room).minesweeper->0;
        assert(mine == g.board.mine_map()[index as int]);
        assert(mid == (Room { players: mid.players, minesweeper: mid.minesweeper, ..*old(room) }));
        assert(mid.players@ == players_after_move(old(room).players@, player_id@, score, elapsed_ms, mine));
        assert(then_completed_if(&mid, minesweeper_over_spec(&mid), room, puzzles@, old(room).phase->Racing_started_at_ms));
        let g2 = mid.minesweeper->0;
        assert(mid.minesweeper is Some);
        assert(g2.board.wf());
        assert(g2.starting_cells == g.starting_cells);
        if mine {
            g.board.lemma_consistent();
            assert(mine_detonated(g, g2, index, player_id@));
            assert(mid.players@ == players_after_move(old(room).players@, player_id@, 0, elapsed_ms, true));
        } else {
            assert(safe_opened(g, g2, index, opened, player_id@));
            assert(score == capped_score(scoring_count(g2.board, opened)));
            assert(mid.players@ == players_after_move(old(room).players@, player_id@, score, elapsed_ms, false));
        }
        assert(reveal_outcome(old(room), &mid, room, player_id@, index, elapsed_ms, puzzles@));
    }
    RoomUpdate::Snapshot
}

/// The flags a player chords with on the room board: their own, and every mine set off by
/// somebody else.
pub open spec fn chord_flag_set(g: ServerMinesweeperGame, own: Set<usize>, id: Seq<char>) -> Set<usize> {
    own.union(
        Set::new(
            |i: usize|
                i < g.board.n() && g.board.cell_spec(i as int).state_spec() == MinesweeperCellState::Revealed
                    && g.board.cell_spec(i as int) is Mine && g.board.cell_spec(i as int) == (MinesweeperCell::Mine {
                    state: MinesweeperMineCellState::Detonated,
                }) && !claimed_by(g.cell_owners@, i, id),
        ),
    )
}

/// How many of the cells are flagged.
pub open spec fn count_flagged(cells: Seq<usize>, flags: Set<usize>) -> nat
    decreases cells.len(),
{
    if cells.len() == 0 {
        0
    } else {
        count_flagged(cells.drop_last(), flags) + if flags.contains(cells.last()) {
            1nat
        } else {
            0nat
        }
    }
}

/// The cells a chord opens: the listed neighbours that are neither flagged nor open.
pub open spec fn chord_targets(board: MinesweeperBoard, neighbors: Seq<usize>, flags: Set<usize>) -> Seq<usize>
    decreases neighbors.len(),
{
    if neighbors.len() == 0 {
        seq![]
    } else {
        let t = neighbors.last();
        chord_targets(board, neighbors.drop_last(), flags) + if !flags.contains(t) && board.cell_spec(
            t as int,
        ).state_spec() != MinesweeperCellState::Revealed {
            seq![t]
        } else {
            Seq::empty()
        }
    }
}

/// The first listed cell that holds a mine, if any.
pub open spec fn first_mine(board: MinesweeperBoard, cells: Seq<usize>, from: int) -> Option<usize>
    decreases cells.len() - from,
{
    if from < 0 || from >= cells.len() {
        None
    } else if board.mine_map()[cells[from] as int] {
        Some(cells[from])
    } else {
        first_mine(board, cells, from + 1)
    }
}

proof fn lemma_first_mine(board: MinesweeperBoard, cells: Seq<usize>, from: int)
    requires
        0 <= from,
    ensures
        first_mine(board, cells, from) matches Some(m) ==> board.mine_map()[m as int] && exists|k: int|
            from <= k < cells.len() && #[trigger] cells[k] == m,
    decreases cells.len() - from,
{
    if from < cells.len() && !board.mine_map()[cells[from] as int] {
        lemma_first_mine(board, cells, from + 1);
    }
}

/// The chord of a racer on an opened number: the number of flags around it (their own
/// flags and mines others set off) matches it.
pub open spec fn may_chord(room: &Room, id: Seq<char>, index: usize) -> bool {
    &&& room.game_kind == RoomGameKind::Minesweeper
    &&& room.phase is Racing
    &&& can_act_in_room(room, id)
    &&& room.minesweeper matches Some(g) && {
        let cell = g.board.cell_spec(index as int);
        let flags = chord_flag_set(g, player_of(room, id).minesweeper_flags@, id);
        &&& index < g.board.n()
        &&& cell is Safe
        &&& cell.state_spec() == MinesweeperCellState::Revealed
        &&& cell.adjacent_mines_spec() > 0
        &&& count_flagged(neighbor_seq(g.board.w() as int, g.board.h() as int, index as int), flags)
            == cell.adjacent_mines_spec()
    }
}

/// `a + b`, capped at `u32::MAX`.
pub open spec fn sat_add(a: u32, b: u32) -> u32 {
    if a + b > u32::MAX {
        u32::MAX
    } else {
        (a + b) as u32
    }
}

/// The boards of a chord that sets off no mine: `steps[0]` is the board before, and the
/// targets open in turn as safe cells, `steps[k + 1]` after target `k` opened `opened[k]`.
pub open spec fn chord_chain(steps: Seq<ServerMinesweeperGame>, opened: Seq<Seq<usize>>, targets: Seq<usize>, id: Seq<char>) -> bool {
    &&& steps.len() == targets.len() + 1
    &&& opened.len() == targets.len()
    &&& forall|k: int| 0 <= k < targets.len() ==> #[trigger] safe_opened(steps[k], steps[k + 1], targets[k], opened[k], id)
}

/// The score of the first `k` openings of a chord: what each scored, added up (capped at
/// `u32::MAX`).
pub open spec fn chord_score(steps: Seq<ServerMinesweeperGame>, opened: Seq<Seq<usize>>, k: int) -> u32
    decreases k,
{
    if k <= 0 {
        0
    } else {
        sat_add(chord_score(steps, opened, k - 1), capped_score(scoring_count(steps[k].board, opened[k - 1])))
    }
}

proof fn lemma_chord_score_prefix(
    steps: Seq<ServerMinesweeperGame>,
    opened: Seq<Seq<usize>>,
    steps2: Seq<ServerMinesweeperGame>,
    opened2: Seq<Seq<usize>>,
    k: int,
)
    requires
        k <= steps.len() - 1,
        k <= steps2.len() - 1,
        k <= opened.len(),
        k <= opened2.len(),
        forall|j: int| 0 <= j <= k ==> steps[j] == steps2[j],
        forall|j: int| 0 <= j < k ==> opened[j] == opened2[j],
    ensures
        chord_score(steps, opened, k) == chord_score(steps2, opened2, k),
    decreases k,
{
    if k > 0 {
        lemma_chord_score_prefix(steps, opened, steps2, opened2, k - 1);
    }
}

/// What a chord did: the room as `mid` after the move (the first mine among the chord's
/// cells is set off and eliminates the player; with none, the cells open one after another
/// and the player scores what they opened), and then perhaps the end of the race.
pub open spec fn chord_outcome(
    before: &Room,
    mid: &Room,
    after: &Room,
    id: Seq<char>,
    index: usize,
    elapsed_ms: u64,
    puzzles: Seq<Puzzle>,
) -> bool {
    let g = before.minesweeper->0;
    let flags = chord_flag_set(g, player_of(before, id).minesweeper_flags@, id);
    let targets = chord_targets(g.board, neighbor_seq(g.board.w() as int, g.board.h() as int, index as int), flags);
    let hit = first_mine(g.board, targets, 0);
    &&& *mid == (Room { players: mid.players, minesweeper: mid.minesweeper, ..*before })
    &&& mid.minesweeper is Some
    &&& mid.minesweeper->0.board.wf()
    &&& hit is Some ==> mine_detonated(g, mid.minesweeper->0, hit->0, id) && mid.players@ == players_after_move(
        before.players@,
        id,
        0,
        elapsed_ms,
        true,
    )
    &&& hit is None ==> exists|steps: Seq<ServerMinesweeperGame>, opened: Seq<Seq<usize>>|
        #[trigger] chord_chain(steps, opened, targets, id) && steps[0] == g && steps.last() == mid.minesweeper->0
            && mid.players@ == players_after_move(
            before.players@,
            id,
            chord_score(steps, opened, targets.len() as int),
            elapsed_ms,
            false,
        )
    &&& then_completed_if(mid, minesweeper_over_spec(mid), after, puzzles, before.phase->Racing_started_at_ms)
}

/// The cells a chord opens, and the first of them that holds a mine.
fn chord_plan(board: &MinesweeperBoard, neighbors: &Vec<usize>, flags: &BTreeSet<usize>) -> (r: (Vec<usize>, Option<usize>, usize))
    requires
        board.wf(),
        forall|k: int| 0 <= k < neighbors.len() ==> (#[trigger] neighbors@[k]) < board.n(),
    ensures
        r.0@ == chord_targets(*board, neighbors@, flags@),
        r.1 == first_mine(*board, r.0@, 0),
        r.2 == count_flagged(neighbors@, flags@),
        forall|k: int| 0 <= k < r.0.len() ==> (#[trigger] r.0@[k]) < board.n(),
{
    let mut targets: Vec<usize> = Vec::new();
    let mut flagged: usize = 0;
    let mut k: usize = 0;
    while k < neighbors.len()
        invariant
            board.wf(),
            k <= neighbors.len(),
            forall|j: int| 0 <= j < neighbors.len() ==> (#[trigger] neighbors@[j]) < board.n(),
            targets@ == chord_targets(*board, neighbors@.take(k as int), flags@),
            flagged == count_flagged(neighbors@.take(k as int), flags@),
            flagged <= k,
            forall|j: int| 0 <= j < targets.len() ==> (#[trigger] targets@[j]) < board.n(),
        decreases neighbors.len() - k,
    {
        let t = neighbors[k];
        proof {
            assert(neighbors@.take(k + 1).drop_last() == neighbors@.take(k as int));
            assert(neighbors@.take(k + 1).last() == t);
        }
        let flagged_here = flags.contains(&t);
        if flagged_here {
            flagged = flagged + 1;
        }
        let open = match board.cell(t) {
            Some(c) => c.state() == MinesweeperCellState::Revealed,
            None => true,
        };
        if !flagged_here && !open {
            targets.push(t);
        }
        k = k + 1;
    }
    proof {
        assert(neighbors@.take(k as int) == neighbors@);
    }
    let mut m: usize = 0;
    let mut hit: Option<usize> = None;
    while m < targets.len()
        invariant
            board.wf(),
            m <= targets.len(),
            forall|j: int| 0 <= j < targets.len() ==> (#[trigger] targets@[j]) < board.n(),
            hit is None ==> first_mine(*board, targets@, 0) == first_mine(*board, targets@, m as int),
            hit matches Some(x) ==> first_mine(*board, targets@, 0) == Some(x),
        decreases targets.len() - m,
    {
        if hit.is_none() && board.is_mine(targets[m]) {
            hit = Some(targets[m]);
        }
        m = m + 1;
    }
    (targets, hit, flagged)
}

/// A racer chords on an opened number of the shared board, `elapsed_ms` into the race:
/// when the flags around it (their own, and mines others set off) match the number, every
/// other unopened neighbour opens. A mine among them eliminates the player (the first one
/// goes off); otherwise the player scores the numbers they open first. The race ends when
/// the board is clear or every racer is out.
pub fn chord_room_minesweeper_cell_for_player(
    room: &mut Room,
    puzzles: &Vec<Puzzle>,
    player_id: &str,
    index: usize,
    elapsed_ms: u64,
) -> (u: RoomUpdate)
    requires
        minesweeper_ok(old(room)),
        medals_can_grow(old(room).players@),
    ensures
        minesweeper_ok(final(room)),
        !may_chord(old(room), player_id@, index) ==> u == RoomUpdate::Ignored && *final(room) == *old(room),
        may_chord(old(room), player_id@, index) ==> u == RoomUpdate::Snapshot && exists|mid: Room|
            #[trigger] chord_outcome(old(room), &mid, final(room), player_id@, index, elapsed_ms, puzzles@),
{
    proof {
        lemma_first_player_from(room.players@, player_id@, 0);
    }
    let started_at_ms = match active_minesweeper_started_at_ms(room) {
        Some(t) => t,
        None => {
            return RoomUpdate::Ignored;
        },
    };
    if !room_minesweeper_player_can_act(room, player_id) {
        return RoomUpdate::Ignored;
    }
    let own_flags = match find_player(&room.players, player_id) {
        Some(i) => room.players[i].minesweeper_flags.clone(),
        None => BTreeSet::new(),
    };
    let mut game = match room.minesweeper.take() {
        Some(g) => g,
        None => {
            return RoomUpdate::Ignored;
        },
    };
    let cell = match game.board.cell(index) {
        Some(c) => c,
        None => {
            room.minesweeper = Some(game);
            return RoomUpdate::Ignored;
        },
    };
    if !(cell.state() == MinesweeperCellState::Revealed && !cell.mine() && cell.adjacent_mines() > 0) {
        room.minesweeper = Some(game);
        return RoomUpdate::Ignored;
    }
    let neighbors = game.board.neighbors(index);
    let flags = room_minesweeper_chord_flags(&game, &own_flags, player_id);
    let (targets, hit, flagged) = chord_plan(&game.board, &neighbors, &flags);
    if flagged != cell.adjacent_mines() as usize {
        room.minesweeper = Some(game);
        return RoomUpdate::Ignored;
    }
    let ghost g0 = game;
    let ghost mut steps: Seq<ServerMinesweeperGame> = seq![g0];
    let ghost mut opened: Seq<Seq<usize>> = seq![];
    let mut eliminated = false;
    let mut score_delta: u32 = 0;
    match hit {
        Some(mine) => {
            proof {
                lemma_first_mine(g0.board, targets@, 0);
                g0.board.lemma_consistent();
            }
            detonate_room_minesweeper_mine(&mut game, player_id, mine);
            eliminated = true;
        },
        None => {
            let mut k: usize = 0;
            while k < targets.len()
                invariant
                    game.board.wf(),
                    game.starting_cells == g0.starting_cells,
                    k <= targets.len(),
                    forall|j: int| 0 <= j < targets.len() ==> (#[trigger] targets@[j]) < g0.board.n(),
                    game.board.n() == g0.board.n(),
                    steps.len() == k + 1,
                    opened.len() == k,
                    steps[0] == g0,
                    steps.last() == game,
                    forall|j: int| 0 <= j < k ==> #[trigger] safe_opened(steps[j], steps[j + 1], targets@[j], opened[j], player_id@),
                    score_delta == chord_score(steps, opened, k as int),
                decreases targets.len() - k,
            {
                let ghost before = game;
                let revealed = game.board.reveal_safe_cells(targets[k]);
                let ghost g1 = game;
                let gained = claim_minesweeper_revealed_cells(&mut game, player_id, &revealed);
                score_delta = score_delta.saturating_add(gained);
                proof {
                    assert(game.board == g1.board);
                    assert(safe_opened(before, game, targets@[k as int], revealed@, player_id@));
                    let steps2 = steps.push(game);
                    let opened2 = opened.push(revealed@);
                    lemma_chord_score_prefix(steps, opened, steps2, opened2, k as int);
                    assert forall|j: int| 0 <= j < k + 1 implies #[trigger] safe_opened(
                        steps2[j],
                        steps2[j + 1],
                        targets@[j],
                        opened2[j],
                        player_id@,
                    ) by {
                        if j < k {
                            assert(steps2[j] == steps[j]);
                            assert(steps2[j + 1] == steps[j + 1]);
                        }
                    }
                    steps = steps2;
                    opened = opened2;
                }
                k = k + 1;
            }
        },
    }
    let ghost last = game;
    room.minesweeper = Some(game);
    apply_minesweeper_player_result(room, player_id, score_delta, elapsed_ms, eliminated);
    let ghost mid = *room;
    if room_minesweeper_should_complete(room) {
        proof {
            assert forall|k: int| 0 <= k < room.players.len() implies (#[trigger] room.players@[k]).medals
                == old(room).players@[k].medals by {
                if k == player_index(old(room).players@, player_id@) {
                }
            }
        }
        complete_room_race(room, puzzles, started_at_ms);
    }
    proof {
        assert(mid.minesweeper->0 == last);
        if hit is None {
            assert(chord_chain(steps, opened, targets@, player_id@));
            assert(steps.last() == last);
            assert(score_delta == chord_score(steps, opened, targets.len() as int));
        } else {
            assert(mine_detonated(g0, last, hit->0, player_id@));
        }
        if hit is None {
            assert(mid.players@ == players_after_move(old(room).players@, player_id@, score_delta, elapsed_ms, false));
        } else {
            assert(mid.players@ == players_after_move(old(room).players@, player_id@, 0, elapsed_ms, true));
        }
        assert(chord_outcome(old(room), &mid, room, player_id@, index, elapsed_ms, puzzles@));
    }
    RoomUpdate::Snapshot
}

/// A racer flags or unflags an unopened cell of the running Minesweeper race (flags are
/// their own).
pub fn toggle_room_minesweeper_flag(room: &mut Room, player_id: &str, index: usize) -> (u: RoomUpdate)
    requires
        minesweeper_ok(old(room)),
    ensures
        ({
            let gate = old(room).game_kind == RoomGameKind::Minesweeper && old(room).phase is Racing && can_act_in_room(
                old(room),
                player_id@,
            ) && (old(room).minesweeper matches Some(g) && index < g.board.n() && g.board.cell_spec(
                index as int,
            ).state_spec() != MinesweeperCellState::Revealed);
            let i = player_index(old(room).players@, player_id@);
            let flags = old(room).players@[i].minesweeper_flags@;
            &&& !gate ==> u == RoomUpdate::Ignored && *final(room) == *old(room)
            &&& gate ==> {
                let p = final(room).players@[i];
                &&& u == RoomUpdate::Snapshot
                &&& *final(room) == (Room { players: final(room).players, ..*old(room) })
                &&& final(room).players@ == old(room).players@.update(i, p)
                &&& p == (RoomPlayer { minesweeper_flags: p.minesweeper_flags, ..old(room).players@[i] })
                &&& p.minesweeper_flags@ == if flags.contains(index) {
                    flags.remove(index)
                } else {
                    flags.insert(index)
                }
            }
        }),
{
    proof {
        lemma_first_player_from(room.players@, player_id@, 0);
    }
    if active_minesweeper_started_at_ms(room).is_none() {
        return RoomUpdate::Ignored;
    }
    if !room_minesweeper_player_can_act(room, player_id) {
        return RoomUpdate::Ignored;
    }
    let open = match &room.minesweeper {
        Some(game) => match game.board.cell(index) {
            Some(c) => c.state() == MinesweeperCellState::Revealed,
            None => true,
        },
        None => true,
    };
    if open {
        return RoomUpdate::Ignored;
    }
    let i = match find_player(&room.players, player_id) {
        Some(i) => i,
        None => {
            return RoomUpdate::Ignored;
        },
    };
    let ghost before = room.players@;
    let mut player = room.players.remove(i);
    if !player.minesweeper_flags.remove(&index) {
        player.minesweeper_flags.insert(index);
    }
    room.players.insert(i, player);
    proof {
        assert(room.players@ == before.update(i as int, player));
    }
    RoomUpdate::Snapshot
}

/// A player's pointer with the time it was seen.
pub open spec fn stamped(pointer: Option<RoomLivePointer>, now_ms: u64) -> Option<RoomLivePointer> {
    match pointer {
        Some(p) => Some(RoomLivePointer { updated_at_ms: now_ms, ..p }),
        None => None,
    }
}

/// A player moves (or hides) their pointer over a Minesweeper room's board at `now_ms`;
/// everybody is told. Only a player who may point can show a pointer.
pub fn update_room_pointer(room: &mut Room, player_id: &str, pointer: Option<RoomLivePointer>, now_ms: u64) -> (u:
    RoomUpdate)
    ensures
        ({
            let i = player_index(old(room).players@, player_id@);
            let gate = old(room).game_kind == RoomGameKind::Minesweeper && (pointer is None || can_point_in_room(
                old(room),
                player_id@,
            )) && i < old(room).players.len();
            &&& !gate ==> u == RoomUpdate::Ignored && *final(room) == *old(room)
            &&& gate ==> {
                &&& *final(room) == (Room { players: final(room).players, ..*old(room) })
                &&& final(room).players@ == old(room).players@.update(
                    i,
                    RoomPlayer { pointer: stamped(pointer, now_ms), ..old(room).players@[i] },
                )
                &&& u matches RoomUpdate::Send(RoomServerMessage::PointerUpdate { player_id: sent_id, pointer: sent })
                    && sent_id@ == player_id@ && sent == stamped(pointer, now_ms)
            }
        }),
{
    proof {
        lemma_first_player_from(room.players@, player_id@, 0);
    }
    if room.game_kind != RoomGameKind::Minesweeper {
        return RoomUpdate::Ignored;
    }
    if pointer.is_some() && !room_minesweeper_player_can_point(room, player_id) {
        return RoomUpdate::Ignored;
    }
    let i = match find_player(&room.players, player_id) {
        Some(i) => i,
        None => {
            return RoomUpdate::Ignored;
        },
    };
    let seen = match pointer {
        Some(p) => Some(RoomLivePointer { updated_at_ms: now_ms, ..p }),
        None => None,
    };
    let ghost before = room.players@;
    let mut player = room.players.remove(i);
    player.pointer = seen;
    room.players.insert(i, player);
    proof {
        assert(room.players@ == before.update(i as int, player));
    }
    RoomUpdate::Send(RoomServerMessage::PointerUpdate { player_id: String::from_str(player_id), pointer: seen })
}

/// The time limit of the Minesweeper race that started at `started_at_ms` is up: that race
/// ends, if it is still running.
pub fn end_room_minesweeper_race_on_timeout(room: &mut Room, puzzles: &Vec<Puzzle>, started_at_ms: u64) -> (u:
    RoomUpdate)
    requires
        medals_can_grow(old(room).players@),
    ensures
        ({
            let running = old(room).phase == (ServerRoomPhase::Racing { started_at_ms })
                && old(room).game_kind == RoomGameKind::Minesweeper;
            &&& !running ==> u == RoomUpdate::Ignored && *final(room) == *old(room)
            &&& running ==> u == RoomUpdate::Snapshot && race_completed(
                old(room),
                old(room).players@,
                final(room),
                puzzles@,
                started_at_ms,
            )
        }),
{
    if !(room.phase == (ServerRoomPhase::Racing { started_at_ms }) && room.game_kind == RoomGameKind::Minesweeper) {
        return RoomUpdate::Ignored;
    }
    complete_room_race(room, puzzles, started_at_ms);
    RoomUpdate::Snapshot
}

} // verus!
