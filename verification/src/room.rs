//! Multiplayer rooms: what players and the server exchange, race phases, medals, and the
//! recordings of a player's moves and mouse that a room replays.

use vstd::prelude::*;
use crate::nonogram::NonogramPuzzle;
use crate::queens::{storage_code_spec, CellState, Puzzle};

verus! {

/// What a room page starts with.
#[derive(Debug, Clone, PartialEq, Eq)]
pub struct RoomBootstrap {
    pub slug: String,
    pub total_puzzles: usize,
    pub snapshot: RoomSnapshot,
}

/// Everything a player sees of a room.
#[derive(Debug, Clone, PartialEq, Eq)]
pub struct RoomSnapshot {
    pub slug: String,
    pub game_kind: RoomGameKind,
    pub phase: RoomPhase,
    pub puzzle_choice: RoomPuzzleChoice,
    pub minesweeper_time_limit_seconds: u32,
    pub minesweeper_tile_rows: usize,
    pub minesweeper_tile_cols: usize,
    pub played_puzzle_ids: Vec<usize>,
    pub players: Vec<RoomPlayerSnapshot>,
    pub puzzle: Option<Puzzle>,
    pub minesweeper: Option<RoomMinesweeperSnapshot>,
    pub nonogram: Option<RoomNonogramSnapshot>,
    pub winner_id: Option<String>,
}

/// The game a room plays.
#[derive(Debug, Clone, Copy, PartialEq, Eq, Structural)]
pub enum RoomGameKind {
    Queens,
    Minesweeper,
    Nonogram,
}

impl Default for RoomGameKind {
    fn default() -> (k: Self)
        ensures
            k == RoomGameKind::Queens,
    {
        RoomGameKind::Queens
    }
}

/// Where a room is in its race.
#[derive(Debug, Clone, PartialEq, Eq, Structural)]
pub enum RoomPhase {
    Lobby,
    Countdown { starts_at_ms: u64 },
    Racing { started_at_ms: u64 },
    Complete { started_at_ms: u64 },
}

impl RoomPhase {
    pub fn is_lobby(&self) -> (b: bool)
        ensures
            b == (*self is Lobby),
    {
        match self {
            RoomPhase::Lobby => true,
            _ => false,
        }
    }

    /// When the race started, once it has.
    pub fn race_started_at_ms(&self) -> (t: Option<u64>)
        ensures
            t == match *self {
                RoomPhase::Racing { started_at_ms } => Some(started_at_ms),
                RoomPhase::Complete { started_at_ms } => Some(started_at_ms),
                _ => None::<u64>,
            },
    {
        match self {
            RoomPhase::Racing { started_at_ms } => Some(*started_at_ms),
            RoomPhase::Complete { started_at_ms } => Some(*started_at_ms),
            RoomPhase::Lobby => None,
            RoomPhase::Countdown { .. } => None,
        }
    }
}

/// Which Queens puzzle a room races on.
#[derive(Debug, Clone, PartialEq, Eq, Structural)]
pub enum RoomPuzzleChoice {
    Puzzle { id: usize },
    Random,
}

/// What a room shows of a player.
#[derive(Debug, Clone, PartialEq, Eq)]
pub struct RoomPlayerSnapshot {
    pub id: String,
    pub name: String,
    pub ready: bool,
    pub connected: bool,
    pub finish_ms: Option<u64>,
    pub gave_up: bool,
    pub medals: RoomMedalCounts,
    pub recording: Option<RoomRecording>,
    pub mouse_recording: Option<RoomMouseRecording>,
    pub minesweeper_score: u32,
    pub minesweeper_eliminated: bool,
    pub minesweeper_last_score_ms: Option<u64>,
    pub minesweeper_flags: Vec<usize>,
    pub pointer: Option<RoomLivePointer>,
}

/// The shared Minesweeper board of a room.
#[derive(Debug, Clone, PartialEq, Eq)]
pub struct RoomMinesweeperSnapshot {
    pub width: usize,
    pub height: usize,
    pub mines: usize,
    pub starting_cells: Vec<usize>,
    pub cells: Vec<RoomMinesweeperCellSnapshot>,
}

/// One cell of a room's Minesweeper board, and who opened it.
#[derive(Debug, Clone, PartialEq, Eq)]
pub struct RoomMinesweeperCellSnapshot {
    pub revealed: bool,
    pub mine: bool,
    pub detonated: bool,
    pub start: bool,
    pub adjacent_mines: Option<u8>,
    pub owner_id: Option<String>,
}

/// A room's nonogram.
#[derive(Debug, Clone, PartialEq, Eq)]
pub struct RoomNonogramSnapshot {
    pub puzzle: NonogramPuzzle,
}

/// Where a player's pointer is right now.
#[derive(Debug, Clone, Copy, PartialEq, Eq, Structural)]
pub struct RoomLivePointer {
    pub x: u16,
    pub y: u16,
    pub cell_index: Option<u16>,
    pub active_click: bool,
    pub updated_at_ms: u64,
}

/// The medals a player has won in a room.
#[derive(Debug, Clone, Copy, PartialEq, Eq, Structural)]
pub struct RoomMedalCounts {
    pub gold: u32,
    pub silver: u32,
    pub bronze: u32,
}

impl Default for RoomMedalCounts {
    fn default() -> (m: Self)
        ensures
            m.gold == 0 && m.silver == 0 && m.bronze == 0,
    {
        RoomMedalCounts { gold: 0, silver: 0, bronze: 0 }
    }
}

impl RoomMedalCounts {
    /// All medals together.
    pub fn total(self) -> (t: u32)
        requires
            self.gold + self.silver + self.bronze <= u32::MAX,
        ensures
            t == self.gold + self.silver + self.bronze,
    {
        self.gold + self.silver + self.bronze
    }
}

/// The board states of a Queens race, frame by frame.
#[derive(Debug, Clone, PartialEq, Eq)]
pub struct RoomRecording {
    pub frames: Vec<RoomRecordingFrame>,
}

/// The state of every cell (by storage code) at a moment of a race.
#[derive(Debug, Clone, PartialEq, Eq)]
pub struct RoomRecordingFrame {
    pub elapsed_ms: u64,
    pub states: Vec<u8>,
}

/// The pointer entered the board.
pub const ROOM_MOUSE_EVENT_ENTER: u8 = 0;

/// The pointer left the board.
pub const ROOM_MOUSE_EVENT_LEAVE: u8 = 1;

/// The primary button went down.
pub const ROOM_MOUSE_EVENT_PRIMARY_DOWN: u8 = 2;

/// The primary button went up.
pub const ROOM_MOUSE_EVENT_PRIMARY_UP: u8 = 3;

/// The secondary button went down.
pub const ROOM_MOUSE_EVENT_SECONDARY_DOWN: u8 = 4;

/// The secondary button went up.
pub const ROOM_MOUSE_EVENT_SECONDARY_UP: u8 = 5;

/// A player's pointer over a race: its positions and its button events.
#[derive(Debug, Clone, PartialEq, Eq)]
pub struct RoomMouseRecording {
    pub samples: Vec<RoomMouseSample>,
    pub events: Vec<RoomMouseEvent>,
}

/// A pointer position: time in ms, x, y.
#[derive(Debug, Clone, Copy, PartialEq, Eq, Structural)]
pub struct RoomMouseSample(pub u32, pub u16, pub u16);

/// A pointer event: time in ms, kind, x, y, and the cell under the pointer.
#[derive(Debug, Clone, Copy, PartialEq, Eq, Structural)]
pub struct RoomMouseEvent(pub u32, pub u8, pub u16, pub u16, pub Option<u16>);

/// What a player sends to a room.
#[derive(Debug, Clone, PartialEq, Eq)]
pub enum RoomClientMessage {
    SelectGame { game_kind: RoomGameKind },
    SelectPuzzle { puzzle_id: usize },
    SelectRandom,
    SetMinesweeperTimeLimit { seconds: u32 },
    SetMinesweeperTiles { rows: usize, cols: usize },
    SetReady { ready: bool },
    Finish { queens: Vec<[usize; 2]>, recording: RoomRecording },
    GiveUp,
    RecordingFrame { frame: RoomRecordingFrame },
    MouseRecordingChunk { recording: RoomMouseRecording },
    MouseRecording { recording: RoomMouseRecording },
    MinesweeperReveal { index: usize },
    MinesweeperToggleFlag { index: usize },
    MinesweeperChord { index: usize },
    NonogramFinish { filled: Vec<usize> },
    PointerUpdate { pointer: Option<RoomLivePointer> },
}

/// What a room sends to its players.
#[derive(Debug, Clone, PartialEq, Eq)]
pub enum RoomServerMessage {
    Snapshot { snapshot: RoomSnapshot },
    PointerUpdate { player_id: String, pointer: Option<RoomLivePointer> },
    RecordingFrame { player_id: String, frame: RoomRecordingFrame },
    MouseRecordingChunk { player_id: String, recording: RoomMouseRecording },
    Error { message: String },
}

/// A frame is valid when it has one state per cell and every state is a storage code.
pub open spec fn frame_valid_spec(frame: &RoomRecordingFrame, expected_cells: usize) -> bool {
    &&& frame.states.len() == expected_cells
    &&& forall|i: int| 0 <= i < frame.states.len() ==> #[trigger] frame.states@[i] <= 3
}

pub fn recording_frame_is_valid(frame: &RoomRecordingFrame, expected_cells: usize) -> (b: bool)
    ensures
        b == frame_valid_spec(frame, expected_cells),
{
    if frame.states.len() != expected_cells {
        return false;
    }
    let mut i: usize = 0;
    while i < frame.states.len()
        invariant
            i <= frame.states.len(),
            forall|k: int| 0 <= k < i ==> #[trigger] frame.states@[k] <= 3,
        decreases frame.states.len() - i,
    {
        let state = frame.states[i];
        let code = CellState::from_storage_code(state).storage_code();
        if code != state {
            return false;
        }
        i = i + 1;
    }
    true
}

/// The frames are in strictly increasing time order.
pub open spec fn frames_in_order(frames: Seq<RoomRecordingFrame>) -> bool {
    forall|a: int, b: int| 0 <= a < b < frames.len() ==> frames[a].elapsed_ms < frames[b].elapsed_ms
}

/// Adds a frame to a recording: an older frame is refused, a frame at the time of the last
/// one replaces it, and a later one is appended. Returns whether the frame was taken.
pub fn append_recording_frame(recording: &mut RoomRecording, frame: RoomRecordingFrame) -> (taken: bool)
    ensures
        ({
            let frames = old(recording).frames@;
            &&& taken == (frames.len() == 0 || frame.elapsed_ms >= frames.last().elapsed_ms)
            &&& !taken ==> final(recording).frames@ == frames
            &&& taken && frames.len() > 0 && frame.elapsed_ms == frames.last().elapsed_ms
                ==> final(recording).frames@ == frames.update(frames.len() - 1, frame)
            &&& taken && !(frames.len() > 0 && frame.elapsed_ms == frames.last().elapsed_ms)
                ==> final(recording).frames@ == frames.push(frame)
            &&& frames_in_order(frames) && taken ==> frames_in_order(final(recording).frames@)
        }),
{
    let n = recording.frames.len();
    if n > 0 {
        let last_ms = recording.frames[n - 1].elapsed_ms;
        if frame.elapsed_ms < last_ms {
            return false;
        }
        if frame.elapsed_ms == last_ms {
            recording.frames.set(n - 1, frame);
            return true;
        }
    }
    recording.frames.push(frame);
    true
}

/// Sample `i` is no later than sample `i + 1`.
pub open spec fn sample_step_ok(samples: Seq<RoomMouseSample>, i: int) -> bool {
    samples[i].0 <= samples[i + 1].0
}

/// Event `i` is no later than event `i + 1`.
pub open spec fn event_step_ok(events: Seq<RoomMouseEvent>, i: int) -> bool {
    events[i].0 <= events[i + 1].0
}

/// The samples, and the events, are each in nondecreasing time order.
pub open spec fn mouse_times_sorted(samples: Seq<RoomMouseSample>, events: Seq<RoomMouseEvent>) -> bool {
    &&& forall|i: int| 0 <= i < samples.len() - 1 ==> #[trigger] sample_step_ok(samples, i)
    &&& forall|i: int| 0 <= i < events.len() - 1 ==> #[trigger] event_step_ok(events, i)
}

pub fn mouse_recording_times_are_sorted(recording: &RoomMouseRecording) -> (b: bool)
    ensures
        b == mouse_times_sorted(recording.samples@, recording.events@),
{
    let mut i: usize = 1;
    while i < recording.samples.len()
        invariant
            1 <= i,
            i <= recording.samples.len() || recording.samples.len() == 0,
            forall|k: int| 0 <= k < i - 1 && k < recording.samples.len() - 1 ==> #[trigger] sample_step_ok(recording.samples@, k),
        decreases recording.samples.len() - i,
    {
        if recording.samples[i - 1].0 > recording.samples[i].0 {
            assert(!sample_step_ok(recording.samples@, i - 1));
            return false;
        }
        i = i + 1;
    }
    let mut i: usize = 1;
    while i < recording.events.len()
        invariant
            1 <= i,
            i <= recording.events.len() || recording.events.len() == 0,
            forall|k: int| 0 <= k < recording.samples.len() - 1 ==> #[trigger] sample_step_ok(recording.samples@, k),
            forall|k: int| 0 <= k < i - 1 && k < recording.events.len() - 1 ==> #[trigger] event_step_ok(recording.events@, k),
        decreases recording.events.len() - i,
    {
        if recording.events[i - 1].0 > recording.events[i].0 {
            assert(!event_step_ok(recording.events@, i - 1));
            return false;
        }
        i = i + 1;
    }
    true
}

/// A chunk may follow a recording: it is sorted itself and starts no earlier than the
/// recording ends, for samples and for events.
pub open spec fn chunk_fits(rec: &RoomMouseRecording, chunk: &RoomMouseRecording) -> bool {
    &&& mouse_times_sorted(chunk.samples@, chunk.events@)
    &&& rec.samples.len() == 0 || chunk.samples.len() == 0 || chunk.samples@[0].0
        >= rec.samples@.last().0
    &&& rec.events.len() == 0 || chunk.events.len() == 0 || chunk.events@[0].0 >= rec.events@.last().0
}

/// Appends a chunk of a mouse recording if it fits after what was recorded; returns whether
/// it was appended.
pub fn append_mouse_recording(recording: &mut RoomMouseRecording, chunk: RoomMouseRecording) -> (taken: bool)
    ensures
        taken == chunk_fits(old(recording), &chunk),
        taken ==> final(recording).samples@ == old(recording).samples@ + chunk.samples@
            && final(recording).events@ == old(recording).events@ + chunk.events@,
        !taken ==> *final(recording) == *old(recording),
        taken && mouse_times_sorted(old(recording).samples@, old(recording).events@)
            ==> mouse_times_sorted(final(recording).samples@, final(recording).events@),
{
    if !mouse_recording_times_are_sorted(&chunk) {
        return false;
    }
    let ns = recording.samples.len();
    if ns > 0 && chunk.samples.len() > 0 && chunk.samples[0].0 < recording.samples[ns - 1].0 {
        return false;
    }
    let ne = recording.events.len();
    if ne > 0 && chunk.events.len() > 0 && chunk.events[0].0 < recording.events[ne - 1].0 {
        return false;
    }
    let ghost before = *recording;
    let ghost cs = chunk.samples@;
    let ghost ce = chunk.events@;
    let mut chunk = chunk;
    recording.samples.append(&mut chunk.samples);
    recording.events.append(&mut chunk.events);
    proof {
        let s = recording.samples@;
        let e = recording.events@;
        let bs = before.samples@;
        let be = before.events@;
        assert(s == bs + cs);
        assert(e == be + ce);
        if mouse_times_sorted(bs, be) {
            assert forall|i: int| 0 <= i < s.len() - 1 implies #[trigger] sample_step_ok(s, i) by {
                if i + 1 < bs.len() {
                    assert(sample_step_ok(bs, i));
                    assert(s[i] == bs[i] && s[i + 1] == bs[i + 1]);
                } else if i + 1 == bs.len() {
                    assert(s[i] == bs.last() && s[i + 1] == cs[0]);
                } else {
                    let j = i - bs.len();
                    assert(sample_step_ok(cs, j));
                    assert(s[i] == cs[j] && s[i + 1] == cs[j + 1]);
                }
            }
            assert forall|i: int| 0 <= i < e.len() - 1 implies #[trigger] event_step_ok(e, i) by {
                if i + 1 < be.len() {
                    assert(event_step_ok(be, i));
                    assert(e[i] == be[i] && e[i + 1] == be[i + 1]);
                } else if i + 1 == be.len() {
                    assert(e[i] == be.last() && e[i + 1] == ce[0]);
                } else {
                    let j = i - be.len();
                    assert(event_step_ok(ce, j));
                    assert(e[i] == ce[j] && e[i + 1] == ce[j + 1]);
                }
            }
        }
    }
    true
}

} // verus!
