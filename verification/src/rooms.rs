//! The server side of a multiplayer room: its players, its race phases, and the rules that
//! decide what each request does to the room. Players are kept in a list in which every id
//! appears once; requests name a player by id and act on the player with that id.
//! The race clock and the channel to the players stay with the server loop, which hands the
//! rules the times they need.

use vstd::prelude::*;
use std::collections::{BTreeMap, BTreeSet};
use crate::minesweeper::{
    default_room_minesweeper_tile_cols, default_room_minesweeper_tile_rows,
    default_room_minesweeper_time_limit_seconds, MinesweeperBoard,
};
use crate::nonogram::NonogramPuzzle;
use crate::queens::Puzzle;
use crate::room::{
    RoomGameKind, RoomLivePointer, RoomMedalCounts, RoomMouseRecording, RoomPhase,
    RoomPuzzleChoice, RoomRecording,
};

verus! {

broadcast use vstd::std_specs::btree::group_btree_axioms, vstd::laws_cmp::group_laws_cmp;

/// A multiplayer room.
pub struct Room {
    pub slug: String,
    pub game_kind: RoomGameKind,
    pub puzzle_choice: RoomPuzzleChoice,
    pub minesweeper_time_limit_seconds: u32,
    pub minesweeper_tile_rows: usize,
    pub minesweeper_tile_cols: usize,
    pub minesweeper: Option<ServerMinesweeperGame>,
    pub nonogram: Option<ServerNonogramGame>,
    pub active_puzzle_id: Option<usize>,
    pub played_puzzle_ids: BTreeSet<usize>,
    pub players: Vec<RoomPlayer>,
    pub race_player_ids: Vec<String>,
    pub phase: ServerRoomPhase,
}

/// A player of a room.
pub struct RoomPlayer {
    pub id: String,
    pub name: String,
    pub ready: bool,
    pub connected: bool,
    pub finish_ms: Option<u64>,
    pub gave_up: bool,
    pub medals: RoomMedalCounts,
    pub recording: Option<RoomRecording>,
    pub mouse_recording: Option<RoomMouseRecording>,
    pub minesweeper_score: u32,
    pub minesweeper_eliminated: bool,
    pub minesweeper_last_score_ms: Option<u64>,
    pub minesweeper_flags: BTreeSet<usize>,
    pub pointer: Option<RoomLivePointer>,
    pub joined_order: u64,
}

/// A room's Minesweeper race: the shared board, the starting cells, and who opened each
/// numbered cell or set off each mine.
pub struct ServerMinesweeperGame {
    pub board: MinesweeperBoard,
    pub starting_cells: Vec<usize>,
    pub cell_owners: BTreeMap<usize, String>,
}

/// A room's nonogram race.
pub struct ServerNonogramGame {
    pub puzzle: NonogramPuzzle,
}

/// Where a room is in its race. The server loop keeps the race clock beside it.
#[derive(Debug, Clone, Copy, PartialEq, Eq, Structural)]
pub enum ServerRoomPhase {
    Lobby,
    Countdown { starts_at_ms: u64 },
    Racing { started_at_ms: u64 },
    Complete { started_at_ms: u64 },
}

/// The phase players see.
pub open spec fn snapshot_phase_spec(p: ServerRoomPhase) -> RoomPhase {
    match p {
        ServerRoomPhase::Lobby => RoomPhase::Lobby,
        ServerRoomPhase::Countdown { starts_at_ms } => RoomPhase::Countdown { starts_at_ms },
        ServerRoomPhase::Racing { started_at_ms } => RoomPhase::Racing { started_at_ms },
        ServerRoomPhase::Complete { started_at_ms } => RoomPhase::Complete { started_at_ms },
    }
}

impl ServerRoomPhase {
    pub fn as_snapshot_phase(&self) -> (p: RoomPhase)
        ensures
            p == snapshot_phase_spec(*self),
    {
        match self {
            ServerRoomPhase::Lobby => RoomPhase::Lobby,
            ServerRoomPhase::Countdown { starts_at_ms } => RoomPhase::Countdown { starts_at_ms: *starts_at_ms },
            ServerRoomPhase::Racing { started_at_ms } => RoomPhase::Racing { started_at_ms: *started_at_ms },
            ServerRoomPhase::Complete { started_at_ms } => RoomPhase::Complete { started_at_ms: *started_at_ms },
        }
    }
}

impl Room {
    /// A fresh room: a Queens lobby with a random puzzle, the default Minesweeper setup,
    /// and nobody in it.
    pub fn new(slug: String) -> (room: Self)
        ensures
            room.slug@ == slug@,
            room.game_kind == RoomGameKind::Queens,
            room.puzzle_choice == RoomPuzzleChoice::Random,
            room.minesweeper_time_limit_seconds == 60,
            room.minesweeper_tile_rows == 1,
            room.minesweeper_tile_cols == 1,
            room.minesweeper is None,
            room.nonogram is None,
            room.active_puzzle_id is None,
            room.played_puzzle_ids@ == Set::<usize>::empty(),
            room.players.len() == 0,
            room.race_player_ids.len() == 0,
            room.phase == ServerRoomPhase::Lobby,
    {
        Room {
            slug,
            game_kind: RoomGameKind::Queens,
            puzzle_choice: RoomPuzzleChoice::Random,
            minesweeper_time_limit_seconds: default_room_minesweeper_time_limit_seconds(),
            minesweeper_tile_rows: default_room_minesweeper_tile_rows(),
            minesweeper_tile_cols: default_room_minesweeper_tile_cols(),
            minesweeper: None,
            nonogram: None,
            active_puzzle_id: None,
            played_puzzle_ids: BTreeSet::new(),
            players: Vec::new(),
            race_player_ids: Vec::new(),
            phase: ServerRoomPhase::Lobby,
        }
    }
}

/// The race results of a player are cleared: no finish, no give-up, no recordings, no
/// Minesweeper score, flags or pointer.
pub open spec fn race_cleared(p: RoomPlayer) -> bool {
    &&& p.finish_ms is None
    &&& !p.gave_up
    &&& p.recording is None
    &&& p.mouse_recording is None
    &&& p.minesweeper_score == 0
    &&& !p.minesweeper_eliminated
    &&& p.minesweeper_last_score_ms is None
    &&& p.minesweeper_flags@ == Set::<usize>::empty()
    &&& p.pointer is None
}

/// Two players are the same person with the same standing: id, name, connection, medals
/// and join order.
pub open spec fn same_person(a: RoomPlayer, b: RoomPlayer) -> bool {
    &&& a.id@ == b.id@
    &&& a.name@ == b.name@
    &&& a.connected == b.connected
    &&& a.medals == b.medals
    &&& a.joined_order == b.joined_order
}

impl RoomPlayer {
    /// A player who has just joined: connected, not ready, with no results.
    pub fn new(id: String, name: String, joined_order: u64) -> (p: Self)
        ensures
            p.id@ == id@,
            p.name@ == name@,
            !p.ready,
            p.connected,
            p.medals == (RoomMedalCounts { gold: 0, silver: 0, bronze: 0 }),
            p.joined_order == joined_order,
            race_cleared(p),
    {
        RoomPlayer {
            id,
            name,
            ready: false,
            connected: true,
            finish_ms: None,
            gave_up: false,
            medals: RoomMedalCounts { gold: 0, silver: 0, bronze: 0 },
            recording: None,
            mouse_recording: None,
            minesweeper_score: 0,
            minesweeper_eliminated: false,
            minesweeper_last_score_ms: None,
            minesweeper_flags: BTreeSet::new(),
            pointer: None,
            joined_order,
        }
    }
}

/// Whether two texts are equal.
pub fn same_text(a: &String, b: &str) -> (r: bool)
    ensures
        r == (a@ == b@),
{
    let b = String::from_str(b);
    *a == b
}

/// The position of the first player with id `id` at or after `from`; the length when none.
pub open spec fn first_player_from(players: Seq<RoomPlayer>, id: Seq<char>, from: int) -> int
    decreases players.len() - from,
{
    if from < 0 || from >= players.len() {
        players.len() as int
    } else if players[from].id@ == id {
        from
    } else {
        first_player_from(players, id, from + 1)
    }
}

/// The position of the first player with id `id`; the length when none.
pub open spec fn player_index(players: Seq<RoomPlayer>, id: Seq<char>) -> int {
    first_player_from(players, id, 0)
}

pub proof fn lemma_first_player_from(players: Seq<RoomPlayer>, id: Seq<char>, from: int)
    requires
        0 <= from <= players.len(),
    ensures
        from <= first_player_from(players, id, from) <= players.len(),
        first_player_from(players, id, from) < players.len() ==> players[first_player_from(players, id, from)].id@ == id,
        forall|k: int| from <= k < first_player_from(players, id, from) ==> (#[trigger] players[k]).id@ != id,
    decreases players.len() - from,
{
    if from < players.len() && players[from].id@ != id {
        lemma_first_player_from(players, id, from + 1);
    }
}

/// Where the player with id `id` is listed.
pub fn find_player(players: &Vec<RoomPlayer>, id: &str) -> (found: Option<usize>)
    ensures
        found is None <==> player_index(players@, id@) == players.len(),
        found matches Some(i) ==> i == player_index(players@, id@),
{
    let mut k: usize = 0;
    while k < players.len()
        invariant
            k <= players.len(),
            player_index(players@, id@) == first_player_from(players@, id@, k as int),
        decreases players.len() - k,
    {
        if same_text(&players[k].id, id) {
            return Some(k);
        }
        k = k + 1;
    }
    None
}

/// Whether the room may set up its next race: in the lobby or after a race.
pub fn room_accepts_next_race_setup(room: &Room) -> (b: bool)
    ensures
        b == (room.phase is Lobby || room.phase is Complete),
{
    match room.phase {
        ServerRoomPhase::Lobby => true,
        ServerRoomPhase::Complete { .. } => true,
        _ => false,
    }
}

/// Clears every player's ready flag; nothing else changes.
pub fn reset_room_ready_flags(room: &mut Room)
    ensures
        *final(room) == (Room { players: final(room).players, ..*old(room) }),
        final(room).players.len() == old(room).players.len(),
        forall|k: int|
            0 <= k < final(room).players.len() ==> #[trigger] final(room).players@[k] == (RoomPlayer {
                ready: false,
                ..old(room).players@[k]
            }),
{
    let mut k: usize = 0;
    while k < room.players.len()
        invariant
            k <= room.players.len(),
            room.players.len() == old(room).players.len(),
            *room == (Room { players: room.players, ..*old(room) }),
            forall|j: int|
                0 <= j < room.players.len() ==> #[trigger] room.players@[j] == if j < k {
                    RoomPlayer { ready: false, ..old(room).players@[j] }
                } else {
                    old(room).players@[j]
                },
        decreases room.players.len() - k,
    {
        let mut player = room.players.remove(k);
        player.ready = false;
        room.players.insert(k, player);
        k = k + 1;
    }
}

/// Clears a player's race results.
fn clear_player_race(player: &mut RoomPlayer)
    ensures
        race_cleared(*final(player)),
        same_person(*final(player), *old(player)),
        final(player).ready == old(player).ready,
{
    player.finish_ms = None;
    player.gave_up = false;
    player.recording = None;
    player.mouse_recording = None;
    player.minesweeper_score = 0;
    player.minesweeper_eliminated = false;
    player.minesweeper_last_score_ms = None;
    player.minesweeper_flags.clear();
    player.pointer = None;
}

/// Forgets the last race: every player's results, the racers, the active puzzle and the
/// Minesweeper board.
pub fn clear_room_race_results(room: &mut Room)
    ensures
        final(room).players.len() == old(room).players.len(),
        forall|k: int|
            0 <= k < final(room).players.len() ==> {
                let p = #[trigger] final(room).players@[k];
                let q = old(room).players@[k];
                &&& race_cleared(p)
                &&& same_person(p, q)
                &&& p.ready == q.ready
            },
        final(room).race_player_ids.len() == 0,
        final(room).active_puzzle_id is None,
        final(room).minesweeper is None,
        final(room).slug == old(room).slug,
        final(room).game_kind == old(room).game_kind,
        final(room).puzzle_choice == old(room).puzzle_choice,
        final(room).phase == old(room).phase,
        final(room).played_puzzle_ids == old(room).played_puzzle_ids,
        final(room).minesweeper_time_limit_seconds == old(room).minesweeper_time_limit_seconds,
        final(room).minesweeper_tile_rows == old(room).minesweeper_tile_rows,
        final(room).minesweeper_tile_cols == old(room).minesweeper_tile_cols,
        final(room).nonogram == old(room).nonogram,
{
    let mut k: usize = 0;
    while k < room.players.len()
        invariant
            k <= room.players.len(),
            room.players.len() == old(room).players.len(),
            room.slug == old(room).slug,
            room.game_kind == old(room).game_kind,
            room.puzzle_choice == old(room).puzzle_choice,
            room.phase == old(room).phase,
            room.played_puzzle_ids == old(room).played_puzzle_ids,
            room.minesweeper_time_limit_seconds == old(room).minesweeper_time_limit_seconds,
            room.minesweeper_tile_rows == old(room).minesweeper_tile_rows,
            room.minesweeper_tile_cols == old(room).minesweeper_tile_cols,
            room.nonogram == old(room).nonogram,
            forall|j: int|
                0 <= j < room.players.len() ==> {
                    let p = #[trigger] room.players@[j];
                    let q = old(room).players@[j];
                    &&& (j < k ==> race_cleared(p))
                    &&& (j >= k ==> p == q)
                    &&& same_person(p, q)
                    &&& p.ready == q.ready
                },
        decreases room.players.len() - k,
    {
        let mut player = room.players.remove(k);
        clear_player_race(&mut player);
        room.players.insert(k, player);
        k = k + 1;
    }
    room.race_player_ids.clear();
    room.active_puzzle_id = None;
    room.minesweeper = None;
}

/// After a new selection every ready flag is cleared, and in the lobby the old results go.
pub fn reset_room_setup_for_selection(room: &mut Room)
    ensures
        final(room).players.len() == old(room).players.len(),
        !(old(room).phase is Lobby) ==> *final(room) == (Room { players: final(room).players, ..*old(room) }),
        !(old(room).phase is Lobby) ==> forall|k: int|
            0 <= k < final(room).players.len() ==> #[trigger] final(room).players@[k] == (RoomPlayer {
                ready: false,
                ..old(room).players@[k]
            }),
        old(room).phase is Lobby ==> forall|k: int|
            0 <= k < final(room).players.len() ==> {
                let p = #[trigger] final(room).players@[k];
                &&& !p.ready
                &&& race_cleared(p)
                &&& same_person(p, old(room).players@[k])
            },
        old(room).phase is Lobby ==> *final(room) == (Room {
            players: final(room).players,
            race_player_ids: final(room).race_player_ids,
            active_puzzle_id: None,
            minesweeper: None,
            ..*old(room)
        }) && final(room).race_player_ids.len() == 0,
{
    reset_room_ready_flags(room);
    if room.phase == ServerRoomPhase::Lobby {
        let ghost unready = room.players@;
        clear_room_race_results(room);
        proof {
            assert forall|k: int| 0 <= k < room.players.len() implies {
                let p = #[trigger] room.players@[k];
                &&& !p.ready
                &&& race_cleared(p)
                &&& same_person(p, old(room).players@[k])
            } by {
                assert(unready[k] == (RoomPlayer { ready: false, ..old(room).players@[k] }));
            }
        }
    }
}

/// The ids of the connected players, in list order.
pub open spec fn connected_ids(players: Seq<RoomPlayer>) -> Seq<Seq<char>>
    decreases players.len(),
{
    if players.len() == 0 {
        seq![]
    } else {
        connected_ids(players.drop_last()) + if players.last().connected {
            seq![players.last().id@]
        } else {
            Seq::empty()
        }
    }
}

/// The texts of a list of strings.
pub open spec fn id_texts(ids: Seq<String>) -> Seq<Seq<char>> {
    ids.map_values(|s: String| s@)
}

/// Starts a race with every connected player as a racer; everybody's ready flag and race
/// results are cleared.
pub fn begin_room_race_for_connected_players(room: &mut Room)
    ensures
        id_texts(final(room).race_player_ids@) == connected_ids(old(room).players@),
        final(room).players.len() == old(room).players.len(),
        forall|k: int|
            0 <= k < final(room).players.len() ==> {
                let p = #[trigger] final(room).players@[k];
                &&& race_cleared(p)
                &&& !p.ready
                &&& same_person(p, old(room).players@[k])
            },
        *final(room) == (Room { players: final(room).players, race_player_ids: final(room).race_player_ids, ..*old(room) }),
{
    let mut ids: Vec<String> = Vec::new();
    let mut k: usize = 0;
    while k < room.players.len()
        invariant
            k <= room.players.len(),
            id_texts(ids@) == connected_ids(room.players@.take(k as int)),
        decreases room.players.len() - k,
    {
        proof {
            assert(room.players@.take(k + 1).drop_last() == room.players@.take(k as int));
        }
        if room.players[k].connected {
            let id = room.players[k].id.clone();
            let ghost before = ids@;
            ids.push(id);
            proof {
                assert(id_texts(ids@) == id_texts(before).push(id@));
            }
        }
        k = k + 1;
    }
    proof {
        assert(room.players@.take(k as int) == room.players@);
    }
    room.race_player_ids = ids;
    let mut k: usize = 0;
    while k < room.players.len()
        invariant
            k <= room.players.len(),
            room.players.len() == old(room).players.len(),
            id_texts(room.race_player_ids@) == connected_ids(old(room).players@),
            *room == (Room { players: room.players, race_player_ids: room.race_player_ids, ..*old(room) }),
            forall|j: int|
                0 <= j < room.players.len() ==> {
                    let p = #[trigger] room.players@[j];
                    let q = old(room).players@[j];
                    &&& (j < k ==> race_cleared(p) && !p.ready)
                    &&& (j >= k ==> p == q)
                    &&& same_person(p, q)
                },
        decreases room.players.len() - k,
    {
        let mut player = room.players.remove(k);
        player.ready = false;
        clear_player_race(&mut player);
        room.players.insert(k, player);
        k = k + 1;
    }
}

/// Whether at least one player is connected and every connected player is ready.
pub fn room_all_connected_players_ready(room: &Room) -> (b: bool)
    ensures
        b == ((exists|k: int| 0 <= k < room.players.len() && (#[trigger] room.players@[k]).connected)
            && forall|k: int| 0 <= k < room.players.len() && (#[trigger] room.players@[k]).connected ==> room.players@[k].ready),
{
    let mut any_connected = false;
    let mut k: usize = 0;
    while k < room.players.len()
        invariant
            k <= room.players.len(),
            any_connected == exists|j: int| 0 <= j < k && (#[trigger] room.players@[j]).connected,
            forall|j: int| 0 <= j < k && (#[trigger] room.players@[j]).connected ==> room.players@[j].ready,
        decreases room.players.len() - k,
    {
        if room.players[k].connected {
            if !room.players[k].ready {
                return false;
            }
            any_connected = true;
        }
        k = k + 1;
    }
    any_connected
}

/// The racer with id `id` has finished or given up.
pub open spec fn racer_done(players: Seq<RoomPlayer>, id: Seq<char>) -> bool {
    let i = player_index(players, id);
    i < players.len() && (players[i].finish_ms is Some || players[i].gave_up)
}

/// Whether the race has racers and every one of them has finished or given up.
pub fn room_all_racers_done(room: &Room) -> (b: bool)
    ensures
        b == (room.race_player_ids.len() > 0 && forall|k: int|
            0 <= k < room.race_player_ids.len() ==> racer_done(room.players@, (#[trigger] room.race_player_ids@[k])@)),
{
    if room.race_player_ids.len() == 0 {
        return false;
    }
    let mut k: usize = 0;
    while k < room.race_player_ids.len()
        invariant
            k <= room.race_player_ids.len(),
            forall|j: int| 0 <= j < k ==> racer_done(room.players@, (#[trigger] room.race_player_ids@[j])@),
        decreases room.race_player_ids.len() - k,
    {
        let id = room.race_player_ids[k].as_str();
        proof {
            lemma_first_player_from(room.players@, id@, 0);
        }
        match find_player(&room.players, id) {
            None => {
                return false;
            },
            Some(i) => {
                if !(room.players[i].finish_ms.is_some() || room.players[i].gave_up) {
                    return false;
                }
            },
        }
        k = k + 1;
    }
    true
}

/// `Some(())` when the condition holds: a step a request needs.
pub fn require(condition: bool) -> (r: Option<()>)
    ensures
        r is Some <==> condition,
{
    if condition {
        Some(())
    } else {
        None
    }
}

/// A duration in ms (as `Duration::as_millis` gives it) as a `u64`, capped at `u64::MAX`.
pub fn elapsed_millis_u64(elapsed_millis: u128) -> (ms: u64)
    ensures
        ms == if elapsed_millis > u64::MAX as u128 {
            u64::MAX
        } else {
            elapsed_millis as u64
        },
{
    if elapsed_millis > 0xffff_ffff_ffff_ffffu128 {
        0xffff_ffff_ffff_ffffu64
    } else {
        elapsed_millis as u64
    }
}

/// A one-cell puzzle with the given id, for trying rooms out.
pub fn test_puzzle(id: usize) -> (p: Puzzle)
    ensures
        p.id == id,
        p.size == 1,
        p.colors.len() == 1,
        p.colors@[0]@ == "#ffffff"@,
        p.regions.len() == 1,
        p.regions@[0]@ == seq![0usize],
{
    let mut colors: Vec<String> = Vec::new();
    colors.push(String::from_str("#ffffff"));
    let mut region: Vec<usize> = Vec::new();
    region.push(0);
    let mut regions: Vec<Vec<usize>> = Vec::new();
    regions.push(region);
    proof {
        assert(regions@[0]@ == seq![0usize]);
    }
    Puzzle { id, size: 1, colors, regions }
}

/// A fresh room named `ROOMTEST` that races on the given puzzle choice.
pub fn test_room(puzzle_choice: RoomPuzzleChoice) -> (room: Room)
    ensures
        room.slug@ == "ROOMTEST"@,
        room.puzzle_choice == puzzle_choice,
        room.game_kind == RoomGameKind::Queens,
        room.phase == ServerRoomPhase::Lobby,
        room.players.len() == 0,
        room.race_player_ids.len() == 0,
        room.minesweeper is None,
        room.nonogram is None,
        room.active_puzzle_id is None,
        room.played_puzzle_ids@ == Set::<usize>::empty(),
        room.minesweeper_tile_rows == 1,
        room.minesweeper_tile_cols == 1,
        room.minesweeper_time_limit_seconds == 60,
{
    let mut room = Room::new(String::from_str("ROOMTEST"));
    room.puzzle_choice = puzzle_choice;
    room
}

/// Adds a racer with the given results (its id is also its name).
pub fn add_test_player(room: &mut Room, id: &str, finish_ms: Option<u64>, gave_up: bool, joined_order: u64)
    ensures
        *final(room) == (Room {
            players: final(room).players,
            race_player_ids: final(room).race_player_ids,
            ..*old(room)
        }),
        final(room).players.len() == old(room).players.len() + 1,
        final(room).players@.drop_last() == old(room).players@,
        ({
            let p = final(room).players@.last();
            &&& p.id@ == id@
            &&& p.name@ == id@
            &&& p.finish_ms == finish_ms
            &&& p.gave_up == gave_up
            &&& p.joined_order == joined_order
            &&& !p.ready
            &&& p.connected
            &&& p.medals == (RoomMedalCounts { gold: 0, silver: 0, bronze: 0 })
            &&& p.recording is None
            &&& p.mouse_recording is None
            &&& p.minesweeper_score == 0
            &&& !p.minesweeper_eliminated
            &&& p.minesweeper_last_score_ms is None
            &&& p.minesweeper_flags@ == Set::<usize>::empty()
            &&& p.pointer is None
        }),
        id_texts(final(room).race_player_ids@) == id_texts(old(room).race_player_ids@).push(id@),
{
    let mut player = RoomPlayer::new(String::from_str(id), String::from_str(id), joined_order);
    player.finish_ms = finish_ms;
    player.gave_up = gave_up;
    let ghost before = room.players@;
    room.players.push(player);
    proof {
        assert(room.players@.drop_last() == before);
    }
    let ghost ids = room.race_player_ids@;
    room.race_player_ids.push(String::from_str(id));
    proof {
        assert(id_texts(room.race_player_ids@) == id_texts(ids).push(id@));
    }
}

} // verus!
