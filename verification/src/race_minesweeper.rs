//! The server's rules for a room's Minesweeper race: building the shared board, who may act,
//! scoring and claiming opened numbers, setting off mines, the chord flags, results,
//! ranking and medals.

use vstd::prelude::*;
use std::collections::{BTreeMap, BTreeSet};
use crate::grid::{block_more, flood_fill_ok, lemma_flood_fill_compose};
use crate::minesweeper::{
    blocked_cells, lemma_reveal_all_blocked, lemma_reveal_all_concat, reveal_all, MinesweeperStatus,
    build_room_minesweeper_board, clamp_room_minesweeper_tile_axis, clamp_tile_axis_spec, fresh_game,
    MinesweeperBoard, MinesweeperCell, MinesweeperCellState, MINESWEEPER_EXPERT_HEIGHT,
    MINESWEEPER_EXPERT_WIDTH,
};
use crate::room::RoomGameKind;
use crate::room_minesweeper::room_minesweeper_chord_flags_from_cells;
use crate::rooms::{
    find_player, first_player_from, lemma_first_player_from, player_index, same_text, Room, RoomPlayer,
    ServerMinesweeperGame, ServerRoomPhase,
};

verus! {

broadcast use vstd::std_specs::btree::group_btree_axioms, vstd::laws_cmp::group_laws_cmp;

/// The room's Minesweeper board, if any, is well formed.
pub open spec fn minesweeper_ok(room: &Room) -> bool {
    match room.minesweeper {
        Some(g) => g.board.wf(),
        None => true,
    }
}

/// The seed of a room board: the time mixed with the tile counts.
pub open spec fn room_board_seed(now_ms: u64, tile_rows: usize, tile_cols: usize) -> u64 {
    now_ms ^ vstd::wrapping::u64_specs::wrapping_mul(tile_rows as u64, 0x9e37_79b9_7f4a_7c15u64)
        ^ vstd::wrapping::u64_specs::wrapping_mul(tile_cols as u64, 0xbf58_476d_1ce4_e5b9u64)
}

/// Builds the room's Minesweeper board from its (clamped) tile counts, seeded by `now_ms`.
pub fn prepare_room_minesweeper_game(room: &mut Room, now_ms: u64)
    ensures
        final(room).minesweeper_tile_rows == clamp_tile_axis_spec(old(room).minesweeper_tile_rows),
        final(room).minesweeper_tile_cols == clamp_tile_axis_spec(old(room).minesweeper_tile_cols),
        final(room).minesweeper matches Some(g) && {
            &&& g.board.wf()
            &&& g.board.placed()
            &&& fresh_game(g.board)
            &&& g.board.w() == final(room).minesweeper_tile_cols * MINESWEEPER_EXPERT_WIDTH
            &&& g.board.h() == final(room).minesweeper_tile_rows * MINESWEEPER_EXPERT_HEIGHT
            &&& g.starting_cells.len() == final(room).minesweeper_tile_rows * final(room).minesweeper_tile_cols
            &&& forall|t: int| 0 <= t < g.starting_cells.len() ==> !g.board.mine_map()[#[trigger] g.starting_cells@[t] as int]
            &&& forall|t: int| 0 <= t < g.starting_cells.len() ==> (#[trigger] g.starting_cells@[t]) < g.board.n()
            &&& g.cell_owners@ == Map::<usize, String>::empty()
        },
        *final(room) == (Room {
            minesweeper: final(room).minesweeper,
            minesweeper_tile_rows: final(room).minesweeper_tile_rows,
            minesweeper_tile_cols: final(room).minesweeper_tile_cols,
            ..*old(room)
        }),
{
    let tile_rows = clamp_room_minesweeper_tile_axis(room.minesweeper_tile_rows);
    let tile_cols = clamp_room_minesweeper_tile_axis(room.minesweeper_tile_cols);
    room.minesweeper_tile_rows = tile_rows;
    room.minesweeper_tile_cols = tile_cols;
    let seed = now_ms ^ (tile_rows as u64).wrapping_mul(0x9e37_79b9_7f4a_7c15u64)
        ^ (tile_cols as u64).wrapping_mul(0xbf58_476d_1ce4_e5b9u64);
    let built = build_room_minesweeper_board(tile_rows, tile_cols, seed);
    room.minesweeper = Some(ServerMinesweeperGame {
        board: built.board,
        starting_cells: built.starting_cells,
        cell_owners: BTreeMap::new(),
    });
}

/// Room board `g2` is `g` with its game started and every starting cell opened: one flood
/// fill from all of them, on the board as it was.
pub open spec fn starts_opened(g: ServerMinesweeperGame, g2: ServerMinesweeperGame) -> bool {
    &&& exists|opened: Seq<usize>|
        #[trigger] flood_fill_ok(
            g.board.w() as int,
            g.board.h() as int,
            g.board.mine_map(),
            g.board.adjacency(),
            blocked_cells(g.board.cell_states()),
            g.starting_cells@,
            opened,
        ) && g2.board.cell_states() == reveal_all(g.board.cell_states(), opened)
    &&& g2.board.status_spec() == if g.board.status_spec() == MinesweeperStatus::Ready {
        MinesweeperStatus::Playing
    } else {
        g.board.status_spec()
    }
    &&& g2.board.w() == g.board.w()
    &&& g2.board.h() == g.board.h()
    &&& g2.board.placed()
    &&& g2.board.mine_map() == g.board.mine_map()
    &&& g2.board.adjacency() == g.board.adjacency()
    &&& g2.board.lost_mine() == g.board.lost_mine()
    &&& g2.board.detonated_map() == g.board.detonated_map()
    &&& g2.starting_cells == g.starting_cells
    &&& g2.cell_owners == g.cell_owners
}

/// A room race opens on safe ground: on a fresh board whose starting cells lie on the
/// board and hold no mine, starting the game opens every starting cell, and the game is
/// under way.
pub proof fn lemma_race_opens_every_start(g: ServerMinesweeperGame, g2: ServerMinesweeperGame)
    requires
        g.board.wf(),
        fresh_game(g.board),
        forall|t: int| 0 <= t < g.starting_cells.len() ==> !g.board.mine_map()[#[trigger] g.starting_cells@[t] as int],
        forall|t: int| 0 <= t < g.starting_cells.len() ==> (#[trigger] g.starting_cells@[t]) < g.board.n(),
        starts_opened(g, g2),
    ensures
        forall|t: int|
            0 <= t < g.starting_cells.len() ==> g2.board.cell_states()[#[trigger] g.starting_cells@[t] as int]
                == MinesweeperCellState::Revealed,
        g2.board.status_spec() == MinesweeperStatus::Playing,
{
    g.board.lemma_consistent();
    let opened = choose|opened: Seq<usize>|
        #[trigger] flood_fill_ok(
            g.board.w() as int,
            g.board.h() as int,
            g.board.mine_map(),
            g.board.adjacency(),
            blocked_cells(g.board.cell_states()),
            g.starting_cells@,
            opened,
        ) && g2.board.cell_states() == reveal_all(g.board.cell_states(), opened);
    assert forall|t: int| 0 <= t < g.starting_cells.len() implies g2.board.cell_states()[#[trigger] g.starting_cells@[t]
        as int] == MinesweeperCellState::Revealed by {
        let st = g.starting_cells@[t];
        assert(!blocked_cells(g.board.cell_states())[st as int]);
        assert(opened.contains(st));
    }
}

/// Starts the board's game and opens every tile's starting cell.
pub fn reveal_room_minesweeper_starts(room: &mut Room)
    requires
        minesweeper_ok(old(room)),
    ensures
        minesweeper_ok(final(room)),
        old(room).minesweeper is None ==> final(room).minesweeper is None,
        old(room).minesweeper is Some ==> final(room).minesweeper is Some,
        *final(room) == (Room { minesweeper: final(room).minesweeper, ..*old(room) }),
        old(room).minesweeper is Some && old(room).minesweeper->0.board.placed() ==> starts_opened(
            old(room).minesweeper->0,
            final(room).minesweeper->0,
        ),
{
    let mut game = match room.minesweeper.take() {
        Some(g) => g,
        None => {
            return;
        },
    };
    let ghost g0 = game;
    game.board.set_playing();
    let ghost c0 = game.board.cell_states();
    let ghost w = game.board.w() as int;
    let ghost h = game.board.h() as int;
    let ghost m = game.board.mine_map();
    let ghost adj = game.board.adjacency();
    let ghost mut acc: Seq<usize> = seq![];
    proof {
        game.board.lemma_consistent();
        assert(reveal_all(c0, acc) =~= c0);
    }
    let mut k: usize = 0;
    while k < game.starting_cells.len()
        invariant
            game.board.wf(),
            k <= game.starting_cells.len(),
            game.starting_cells == g0.starting_cells,
            game.cell_owners == g0.cell_owners,
            g0.board.placed() ==> game.board.placed(),
            game.board.w() == w,
            game.board.h() == h,
            game.board.n() == w * h,
            c0.len() == w * h,
            m.len() == w * h,
            g0.board.placed() ==> game.board.mine_map() == m && game.board.adjacency() == adj,
            g0.board.placed() ==> flood_fill_ok(w, h, m, adj, blocked_cells(c0), game.starting_cells@.take(k as int), acc),
            g0.board.placed() ==> game.board.cell_states() == reveal_all(c0, acc),
            game.board.status_spec() == if g0.board.status_spec() == MinesweeperStatus::Ready {
                MinesweeperStatus::Playing
            } else {
                g0.board.status_spec()
            },
            game.board.lost_mine() == g0.board.lost_mine(),
            game.board.detonated_map() == g0.board.detonated_map(),
        decreases game.starting_cells.len() - k,
    {
        let start = game.starting_cells[k];
        let ghost before = game.board;
        let revealed = game.board.reveal_safe_cells(start);
        proof {
            game.board.lemma_consistent();
            let s = seq![start];
            assert(game.starting_cells@.take(k + 1) == game.starting_cells@.take(k as int) + s);
            if g0.board.placed() {
                lemma_reveal_all_blocked(c0, acc);
                if (start as int) < w * h {
                    lemma_flood_fill_compose(w, h, m, adj, blocked_cells(c0), game.starting_cells@.take(k as int), acc, s, revealed@);
                    lemma_reveal_all_concat(c0, acc, revealed@);
                } else {
                    assert(revealed@ =~= Seq::<usize>::empty());
                    assert(flood_fill_ok(w, h, m, adj, block_more(blocked_cells(c0), acc), s, revealed@));
                    lemma_flood_fill_compose(w, h, m, adj, blocked_cells(c0), game.starting_cells@.take(k as int), acc, s, revealed@);
                    lemma_reveal_all_concat(c0, acc, revealed@);
                    assert(reveal_all(c0, acc + revealed@) == reveal_all(c0, acc));
                }
                acc = acc + revealed@;
            }
        }
        k = k + 1;
    }
    proof {
        assert(game.starting_cells@.take(k as int) == game.starting_cells@);
        if g0.board.placed() {
            assert(blocked_cells(c0) == blocked_cells(g0.board.cell_states()));
            assert(flood_fill_ok(
                g0.board.w() as int,
                g0.board.h() as int,
                g0.board.mine_map(),
                g0.board.adjacency(),
                blocked_cells(g0.board.cell_states()),
                g0.starting_cells@,
                acc,
            ));
        }
    }
    room.minesweeper = Some(game);
}

/// When the running Minesweeper race started; none when the room is not racing at
/// Minesweeper.
pub fn active_minesweeper_started_at_ms(room: &Room) -> (started: Option<u64>)
    ensures
        started == if room.game_kind == RoomGameKind::Minesweeper && room.phase is Racing {
            Some(room.phase->Racing_started_at_ms)
        } else {
            None::<u64>
        },
{
    if room.game_kind != RoomGameKind::Minesweeper {
        return None;
    }
    match room.phase {
        ServerRoomPhase::Racing { started_at_ms } => Some(started_at_ms),
        _ => None,
    }
}

/// Some listed id is `id`.
pub open spec fn ids_contain(ids: Seq<String>, id: Seq<char>) -> bool {
    exists|k: int| 0 <= k < ids.len() && (#[trigger] ids[k])@ == id
}

/// Whether an id is listed.
pub fn ids_include(ids: &Vec<String>, id: &str) -> (b: bool)
    ensures
        b == ids_contain(ids@, id@),
{
    let mut k: usize = 0;
    while k < ids.len()
        invariant
            k <= ids.len(),
            forall|j: int| 0 <= j < k ==> (#[trigger] ids@[j])@ != id@,
        decreases ids.len() - k,
    {
        if same_text(&ids[k], id) {
            return true;
        }
        k = k + 1;
    }
    false
}

/// The player with id `id` races and is not eliminated.
pub open spec fn can_act_in_room(room: &Room, id: Seq<char>) -> bool {
    let i = player_index(room.players@, id);
    &&& ids_contain(room.race_player_ids@, id)
    &&& i < room.players.len()
    &&& !room.players@[i].minesweeper_eliminated
}

pub fn room_minesweeper_player_can_act(room: &Room, player_id: &str) -> (b: bool)
    ensures
        b == can_act_in_room(room, player_id@),
{
    if !ids_include(&room.race_player_ids, player_id) {
        return false;
    }
    proof {
        lemma_first_player_from(room.players@, player_id@, 0);
    }
    match find_player(&room.players, player_id) {
        Some(i) => !room.players[i].minesweeper_eliminated,
        None => false,
    }
}

/// The player with id `id` may show a pointer: connected, and during the countdown once the
/// board exists, or during the race while not eliminated.
pub open spec fn can_point_in_room(room: &Room, id: Seq<char>) -> bool {
    let i = player_index(room.players@, id);
    &&& i < room.players.len()
    &&& room.players@[i].connected
    &&& match room.phase {
        ServerRoomPhase::Countdown { .. } => room.minesweeper is Some,
        ServerRoomPhase::Racing { .. } => !room.players@[i].minesweeper_eliminated,
        _ => false,
    }
}

pub fn room_minesweeper_player_can_point(room: &Room, player_id: &str) -> (b: bool)
    ensures
        b == can_point_in_room(room, player_id@),
{
    proof {
        lemma_first_player_from(room.players@, player_id@, 0);
    }
    let i = match find_player(&room.players, player_id) {
        Some(i) => i,
        None => {
            return false;
        },
    };
    if !room.players[i].connected {
        return false;
    }
    match room.phase {
        ServerRoomPhase::Countdown { .. } => room.minesweeper.is_some(),
        ServerRoomPhase::Racing { .. } => !room.players[i].minesweeper_eliminated,
        _ => false,
    }
}

/// Cell `i` is open, safe and numbered.
pub open spec fn scoring_board_cell(board: MinesweeperBoard, i: int) -> bool {
    &&& 0 <= i < board.n()
    &&& board.cell_spec(i).state_spec() == MinesweeperCellState::Revealed
    &&& !(board.cell_spec(i) is Mine)
    &&& board.cell_spec(i).adjacent_mines_spec() > 0
}

/// How many listed cells score.
pub open spec fn scoring_count(board: MinesweeperBoard, revealed: Seq<usize>) -> nat
    decreases revealed.len(),
{
    if revealed.len() == 0 {
        0
    } else {
        scoring_count(board, revealed.drop_last()) + if scoring_board_cell(board, revealed.last() as int) {
            1nat
        } else {
            0nat
        }
    }
}

proof fn lemma_scoring_count_bound(board: MinesweeperBoard, revealed: Seq<usize>)
    ensures
        scoring_count(board, revealed) <= revealed.len(),
    decreases revealed.len(),
{
    if revealed.len() > 0 {
        lemma_scoring_count_bound(board, revealed.drop_last());
    }
}

/// Listing one more cell adds one point exactly when that cell is on the board, holds no
/// mine, is open and touches at least one mine; an opened blank cell, a mine, a closed cell
/// or an index off the board adds nothing.
pub proof fn lemma_scoring_count_push(board: MinesweeperBoard, revealed: Seq<usize>, index: usize)
    ensures
        scoring_count(board, revealed.push(index)) == scoring_count(board, revealed) + if (index as int)
            < board.n() && !board.mine_map()[index as int] && board.cell_states()[index as int]
            == MinesweeperCellState::Revealed && board.adjacency()[index as int] > 0 {
            1int
        } else {
            0int
        },
{
    assert(revealed.push(index).drop_last() == revealed);
}

/// A move whose listed cells are all off the board, mines, closed or blank scores nothing.
pub proof fn lemma_scoring_count_none(board: MinesweeperBoard, revealed: Seq<usize>)
    requires
        forall|j: int|
            0 <= j < revealed.len() ==> (#[trigger] revealed[j] as int) >= board.n() || board.mine_map()[revealed[j] as int]
                || board.cell_states()[revealed[j] as int] != MinesweeperCellState::Revealed
                || board.adjacency()[revealed[j] as int] == 0,
    ensures
        scoring_count(board, revealed) == 0,
    decreases revealed.len(),
{
    if revealed.len() > 0 {
        let rest = revealed.drop_last();
        assert forall|j: int| 0 <= j < rest.len() implies (#[trigger] rest[j] as int) >= board.n()
            || board.mine_map()[rest[j] as int] || board.cell_states()[rest[j] as int]
            != MinesweeperCellState::Revealed || board.adjacency()[rest[j] as int] == 0 by {
            assert(rest[j] == revealed[j]);
        }
        lemma_scoring_count_none(board, rest);
        assert(revealed == rest.push(revealed.last()));
        lemma_scoring_count_push(board, rest, revealed.last());
        assert(revealed[revealed.len() - 1] == revealed.last());
    }
}

fn board_cell_scores(board: &MinesweeperBoard, index: usize) -> (b: bool)
    requires
        board.wf(),
    ensures
        b == scoring_board_cell(*board, index as int),
{
    match board.cell(index) {
        Some(cell) => cell.state() == MinesweeperCellState::Revealed && !cell.mine() && cell.adjacent_mines() > 0,
        None => false,
    }
}

/// The score of a move: one point per listed cell that is open, safe and numbered.
pub fn minesweeper_score_for_revealed_cells(board: &MinesweeperBoard, revealed: &Vec<usize>) -> (score: u32)
    requires
        board.wf(),
    ensures
        score == if scoring_count(*board, revealed@) > u32::MAX {
            u32::MAX as nat
        } else {
            scoring_count(*board, revealed@)
        },
        score <= revealed.len(),
        (forall|j: int|
            0 <= j < revealed.len() ==> (#[trigger] revealed@[j] as int) >= board.n() || board.mine_map()[revealed@[j] as int]
                || board.cell_states()[revealed@[j] as int] != MinesweeperCellState::Revealed
                || board.adjacency()[revealed@[j] as int] == 0) ==> score == 0,
{
    proof {
        lemma_scoring_count_bound(*board, revealed@);
        if forall|j: int|
            0 <= j < revealed.len() ==> (#[trigger] revealed@[j] as int) >= board.n() || board.mine_map()[revealed@[j] as int]
                || board.cell_states()[revealed@[j] as int] != MinesweeperCellState::Revealed
                || board.adjacency()[revealed@[j] as int] == 0 {
            lemma_scoring_count_none(*board, revealed@);
        }
    }
    let mut count: usize = 0;
    let mut k: usize = 0;
    while k < revealed.len()
        invariant
            board.wf(),
            k <= revealed.len(),
            count == scoring_count(*board, revealed@.take(k as int)),
        decreases revealed.len() - k,
    {
        proof {
            assert(revealed@.take(k + 1).drop_last() == revealed@.take(k as int));
            lemma_scoring_count_bound(*board, revealed@.take(k as int));
        }
        if board_cell_scores(board, revealed[k]) {
            count = count + 1;
        }
        k = k + 1;
    }
    proof {
        assert(revealed@.take(k as int) == revealed@);
    }
    if count > u32::MAX as usize {
        u32::MAX
    } else {
        count as u32
    }
}

/// Cell `i` is owned by the player with id `id`.
pub open spec fn claimed_by(owners: Map<usize, String>, i: usize, id: Seq<char>) -> bool {
    owners.contains_key(i) && owners[i]@ == id
}

/// Claims the scoring cells among those just opened for the player (a cell keeps its first
/// owner) and returns the move's score.
pub fn claim_minesweeper_revealed_cells(game: &mut ServerMinesweeperGame, player_id: &str, revealed: &Vec<usize>) -> (score: u32)
    requires
        old(game).board.wf(),
    ensures
        final(game).board == old(game).board,
        final(game).starting_cells == old(game).starting_cells,
        score == if scoring_count(old(game).board, revealed@) > u32::MAX {
            u32::MAX as nat
        } else {
            scoring_count(old(game).board, revealed@)
        },
        forall|i: usize|
            #[trigger] final(game).cell_owners@.contains_key(i) ==> old(game).cell_owners@.contains_key(i) || (
            revealed@.contains(i) && scoring_board_cell(old(game).board, i as int)),
        forall|i: usize|
            old(game).cell_owners@.contains_key(i) ==> #[trigger] final(game).cell_owners@.contains_key(i)
                && final(game).cell_owners@[i] == old(game).cell_owners@[i],
        forall|i: usize|
            revealed@.contains(i) && scoring_board_cell(old(game).board, i as int) && !old(
                game,
            ).cell_owners@.contains_key(i) ==> #[trigger] claimed_by(final(game).cell_owners@, i, player_id@),
        forall|i: usize|
            #[trigger] final(game).cell_owners@.contains_key(i) && !old(game).cell_owners@.contains_key(i) ==> claimed_by(
                final(game).cell_owners@,
                i,
                player_id@,
            ),
{
    let mut k: usize = 0;
    while k < revealed.len()
        invariant
            game.board.wf(),
            game.board == old(game).board,
            game.starting_cells == old(game).starting_cells,
            k <= revealed.len(),
            forall|i: usize|
                #[trigger] game.cell_owners@.contains_key(i) ==> old(game).cell_owners@.contains_key(i) || (
                revealed@.take(k as int).contains(i) && scoring_board_cell(old(game).board, i as int)),
            forall|i: usize|
                old(game).cell_owners@.contains_key(i) ==> #[trigger] game.cell_owners@.contains_key(i)
                    && game.cell_owners@[i] == old(game).cell_owners@[i],
            forall|i: usize|
                revealed@.take(k as int).contains(i) && scoring_board_cell(old(game).board, i as int) && !old(
                    game,
                ).cell_owners@.contains_key(i) ==> #[trigger] claimed_by(game.cell_owners@, i, player_id@),
        decreases revealed.len() - k,
    {
        let index = revealed[k];
        let ghost t0 = revealed@.take(k as int);
        let ghost t1 = revealed@.take(k + 1);
        proof {
            assert(t1 == t0.push(index));
            assert forall|x: usize| t1.contains(x) <==> (t0.contains(x) || x == index) by {
                if t1.contains(x) && x != index {
                    let j = choose|j: int| 0 <= j < t1.len() && t1[j] == x;
                    assert(t0[j] == x);
                }
                if t0.contains(x) {
                    let j = choose|j: int| 0 <= j < t0.len() && t0[j] == x;
                    assert(t1[j] == x);
                }
                if x == index {
                    assert(t1[k as int] == x);
                }
            }
        }
        let ghost prev = game.cell_owners@;
        let scores = board_cell_scores(&game.board, index);
        if scores {
            if !game.cell_owners.contains_key(&index) {
                let owner = String::from_str(player_id);
                let ghost ow = owner;
                game.cell_owners.insert(index, owner);
                proof {
                    assert(game.cell_owners@ == prev.insert(index, ow));
                }
            }
        }
        proof {
            assert forall|i: usize|
                old(game).cell_owners@.contains_key(i) implies #[trigger] game.cell_owners@.contains_key(i)
                    && game.cell_owners@[i] == old(game).cell_owners@[i] by {
                assert(prev.contains_key(i));
            }
            assert forall|i: usize|
                revealed@.take(k + 1).contains(i) && scoring_board_cell(old(game).board, i as int) && !old(
                    game,
                ).cell_owners@.contains_key(i) implies #[trigger] claimed_by(game.cell_owners@, i, player_id@) by {
                assert(t1.contains(i));
                if i != index {
                    assert(t0.contains(i));
                    assert(claimed_by(prev, i, player_id@));
                } else if prev.contains_key(i) {
                    assert(claimed_by(prev, i, player_id@));
                    assert(t0.contains(i));
                } else {
                    assert(scoring_board_cell(game.board, index as int));
                    assert(scores);
                }
            }
            assert forall|i: usize|
                #[trigger] game.cell_owners@.contains_key(i) implies old(game).cell_owners@.contains_key(i) || (
                t1.contains(i) && scoring_board_cell(old(game).board, i as int)) by {
                if prev.contains_key(i) {
                    if !old(game).cell_owners@.contains_key(i) {
                        assert(t0.contains(i));
                    }
                }
            }
        }
        k = k + 1;
    }
    proof {
        assert(revealed@.take(k as int) == revealed@);
    }
    minesweeper_score_for_revealed_cells(&game.board, revealed)
}

/// Sets off a mine for the player, who becomes its owner unless it already had one.
pub fn detonate_room_minesweeper_mine(game: &mut ServerMinesweeperGame, player_id: &str, index: usize)
    requires
        old(game).board.wf(),
    ensures
        final(game).board.wf(),
        final(game).starting_cells == old(game).starting_cells,
        ({
            let hit = index < old(game).board.n() && old(game).board.mine_map()[index as int];
            &&& !hit ==> final(game).board.cell_states() == old(game).board.cell_states()
                && final(game).board.detonated_map() == old(game).board.detonated_map() && final(game).cell_owners
                == old(game).cell_owners
            &&& hit ==> final(game).board.cell_states() == old(game).board.cell_states().update(
                index as int,
                MinesweeperCellState::Revealed,
            ) && final(game).board.detonated_map() == old(game).board.detonated_map().update(index as int, true)
            &&& hit ==> final(game).cell_owners@ == if old(game).cell_owners@.contains_key(index) {
                old(game).cell_owners@
            } else {
                old(game).cell_owners@.insert(index, final(game).cell_owners@[index])
            }
            &&& hit && !old(game).cell_owners@.contains_key(index) ==> final(game).cell_owners@[index]@ == player_id@
        }),
{
    let ghost before = game.board;
    if game.board.detonate_mine(index) {
        if !game.cell_owners.contains_key(&index) {
            let owner = String::from_str(player_id);
            let ghost owners = game.cell_owners@;
            let ghost ow = owner;
            game.cell_owners.insert(index, owner);
            proof {
                assert(game.cell_owners@ == owners.insert(index, ow));
            }
        }
    } else {
        proof {
            assert(game.board.cell_states() == before.cell_states());
        }
    }
}


/// The chord flags of a player on the room board: their own flags, and every mine that was
/// set off by somebody else.
pub fn room_minesweeper_chord_flags(game: &ServerMinesweeperGame, own_flags: &BTreeSet<usize>, player_id: &str) -> (flags: BTreeSet<usize>)
    requires
        game.board.wf(),
    ensures
        flags@ == own_flags@.union(
            Set::new(
                |i: usize|
                    i < game.board.n() && game.board.cell_spec(i as int).state_spec() == MinesweeperCellState::Revealed
                        && game.board.cell_spec(i as int) is Mine && game.board.cell_spec(i as int)
                        == (MinesweeperCell::Mine { state: crate::minesweeper::MinesweeperMineCellState::Detonated })
                        && !claimed_by(game.cell_owners@, i, player_id@),
            ),
        ),
{
    let cells = game.board.cells();
    let mut listed: Vec<(usize, bool, bool, bool, Option<String>)> = Vec::new();
    let mut k: usize = 0;
    while k < cells.len()
        invariant
            game.board.wf(),
            cells@ == Seq::new(game.board.n(), |i: int| game.board.cell_spec(i)),
            k <= cells.len(),
            listed.len() == k,
            forall|j: int|
                0 <= j < k ==> {
                    let t = #[trigger] listed@[j];
                    let c = cells@[j];
                    &&& t.0 == j
                    &&& t.1 == (c.state_spec() == MinesweeperCellState::Revealed)
                    &&& t.2 == (c is Mine)
                    &&& t.3 == (c == MinesweeperCell::Mine { state: crate::minesweeper::MinesweeperMineCellState::Detonated })
                    &&& crate::room_minesweeper::owner_differs(t.4, player_id@) == !claimed_by(game.cell_owners@, j as usize, player_id@)
                },
        decreases cells.len() - k,
    {
        let c = cells[k];
        let owner = match game.cell_owners.get(&k) {
            Some(o) => Some(o.clone()),
            None => None,
        };
        listed.push((k, c.state() == MinesweeperCellState::Revealed, c.mine(), c.detonated(), owner));
        k = k + 1;
    }
    let flags = room_minesweeper_chord_flags_from_cells(own_flags, player_id, &listed);
    proof {
        let want = Set::new(
            |i: usize|
                i < game.board.n() && game.board.cell_spec(i as int).state_spec() == MinesweeperCellState::Revealed
                    && game.board.cell_spec(i as int) is Mine && game.board.cell_spec(i as int)
                    == (MinesweeperCell::Mine { state: crate::minesweeper::MinesweeperMineCellState::Detonated })
                    && !claimed_by(game.cell_owners@, i, player_id@),
        );
        assert forall|i: usize| crate::room_minesweeper::foreign_detonations(listed@, player_id@).contains(i) <==> want.contains(i) by {
            if crate::room_minesweeper::foreign_detonations(listed@, player_id@).contains(i) {
                let j = choose|j: int|
                    0 <= j < listed.len() && (#[trigger] listed@[j]).0 == i && listed@[j].1 && listed@[j].2 && listed@[j].3
                        && crate::room_minesweeper::owner_differs(listed@[j].4, player_id@);
            }
            if want.contains(i) {
                assert(listed@[i as int].0 == i);
            }
        }
        assert(crate::room_minesweeper::foreign_detonations(listed@, player_id@) =~= want);
    }
    flags
}

/// A player after a move: a positive score is added (saturating) with the race time; an
/// elimination is marked and hides their pointer.
pub open spec fn with_move_result(b: RoomPlayer, score_delta: u32, elapsed_ms: u64, eliminated: bool) -> RoomPlayer {
    RoomPlayer {
        minesweeper_score: if score_delta > 0 {
            if b.minesweeper_score + score_delta > u32::MAX {
                u32::MAX
            } else {
                (b.minesweeper_score + score_delta) as u32
            }
        } else {
            b.minesweeper_score
        },
        minesweeper_last_score_ms: if score_delta > 0 {
            Some(elapsed_ms)
        } else {
            b.minesweeper_last_score_ms
        },
        minesweeper_eliminated: b.minesweeper_eliminated || eliminated,
        pointer: if eliminated {
            None
        } else {
            b.pointer
        },
        ..b
    }
}

/// The players after a move of the player with id `id` (if present).
pub open spec fn players_after_move(
    players: Seq<RoomPlayer>,
    id: Seq<char>,
    score_delta: u32,
    elapsed_ms: u64,
    eliminated: bool,
) -> Seq<RoomPlayer> {
    let i = player_index(players, id);
    if i < players.len() {
        players.update(i, with_move_result(players[i], score_delta, elapsed_ms, eliminated))
    } else {
        players
    }
}

/// Records the outcome of a move for the player.
pub fn apply_minesweeper_player_result(room: &mut Room, player_id: &str, score_delta: u32, elapsed_ms: u64, eliminated: bool)
    ensures
        *final(room) == (Room { players: final(room).players, ..*old(room) }),
        final(room).players@ == players_after_move(old(room).players@, player_id@, score_delta, elapsed_ms, eliminated),
{
    proof {
        lemma_first_player_from(room.players@, player_id@, 0);
    }
    let i = match find_player(&room.players, player_id) {
        Some(i) => i,
        None => {
            return;
        },
    };
    let ghost before = room.players@;
    let mut player = room.players.remove(i);
    if score_delta > 0 {
        player.minesweeper_score = player.minesweeper_score.saturating_add(score_delta);
        player.minesweeper_last_score_ms = Some(elapsed_ms);
    }
    if eliminated {
        player.minesweeper_eliminated = true;
        player.pointer = None;
    }
    room.players.insert(i, player);
    proof {
        assert(room.players@ =~= before.update(i as int, player));
        assert(player == with_move_result(before[i as int], score_delta, elapsed_ms, eliminated));
    }
}

/// Every racer is eliminated (a racer who left the room counts as eliminated).
pub open spec fn all_eliminated_spec(room: &Room) -> bool {
    &&& room.race_player_ids.len() > 0
    &&& forall|k: int|
        0 <= k < room.race_player_ids.len() ==> {
            let i = player_index(room.players@, (#[trigger] room.race_player_ids@[k])@);
            i >= room.players.len() || room.players@[i].minesweeper_eliminated
        }
}

pub fn room_all_minesweeper_players_eliminated(room: &Room) -> (b: bool)
    ensures
        b == all_eliminated_spec(room),
{
    if room.race_player_ids.len() == 0 {
        return false;
    }
    let mut k: usize = 0;
    while k < room.race_player_ids.len()
        invariant
            k <= room.race_player_ids.len(),
            forall|j: int|
                0 <= j < k ==> {
                    let i = player_index(room.players@, (#[trigger] room.race_player_ids@[j])@);
                    i >= room.players.len() || room.players@[i].minesweeper_eliminated
                },
        decreases room.race_player_ids.len() - k,
    {
        let id = room.race_player_ids[k].as_str();
        proof {
            lemma_first_player_from(room.players@, id@, 0);
        }
        match find_player(&room.players, id) {
            Some(i) => {
                if !room.players[i].minesweeper_eliminated {
                    return false;
                }
            },
            None => {},
        }
        k = k + 1;
    }
    true
}

/// The race is over: the board is cleared, or every racer is eliminated.
pub fn room_minesweeper_should_complete(room: &Room) -> (b: bool)
    requires
        minesweeper_ok(room),
    ensures
        b == ((room.minesweeper matches Some(g) && crate::minesweeper::all_safe_open(
            g.board.cell_states(),
            g.board.mine_map(),
        )) || all_eliminated_spec(room)),
{
    let solved = match &room.minesweeper {
        Some(game) => game.board.all_safe_cells_revealed(),
        None => false,
    };
    solved || room_all_minesweeper_players_eliminated(room)
}

} // verus!
