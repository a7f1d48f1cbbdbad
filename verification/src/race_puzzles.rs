//! The server's rules for puzzle races (Queens and nonogram): checking a finished player's
//! replay and mouse recording, checking a nonogram submission, and awarding medals.

use vstd::prelude::*;
use crate::medals::{award_finish_medals, finish_entries, medals_awarded, medals_can_grow, ranked_ids, ranking_of, RankEntry};
use crate::nonogram::{
    generate_nonogram_puzzle, generated_ok, mismatches, validate_nonogram_solution, NonogramCellState,
    NonogramPuzzle, NONOGRAM_DEFAULT_HEIGHT, NONOGRAM_DEFAULT_WIDTH,
};
use crate::queens::{pairs, Puzzle};
use crate::room::{
    ROOM_MOUSE_EVENT_ENTER, ROOM_MOUSE_EVENT_LEAVE, ROOM_MOUSE_EVENT_PRIMARY_DOWN, ROOM_MOUSE_EVENT_PRIMARY_UP,
    ROOM_MOUSE_EVENT_SECONDARY_DOWN, ROOM_MOUSE_EVENT_SECONDARY_UP, RoomMouseEvent, frame_valid_spec, mouse_recording_times_are_sorted, mouse_times_sorted, recording_frame_is_valid, RoomMouseRecording,
    RoomRecording, RoomRecordingFrame,
};
use crate::rooms::{Room, ServerNonogramGame};

verus! {

/// Most frames a Queens recording may hold.
pub const MAX_RECORDING_FRAMES: usize = 10000;

/// Most pointer samples a mouse recording may hold.
pub const MAX_MOUSE_SAMPLES: usize = 100000;

/// Most pointer events a mouse recording may hold.
pub const MAX_MOUSE_EVENTS: usize = 100000;

/// `(row, col)` pairs ordered row by row.
pub open spec fn pair_le(a: (usize, usize), b: (usize, usize)) -> bool {
    a.0 < b.0 || (a.0 == b.0 && a.1 <= b.1)
}

/// The pairs are in row-by-row order.
pub open spec fn pairs_sorted(s: Seq<(usize, usize)>) -> bool {
    forall|a: int, b: int| 0 <= a < b < s.len() ==> pair_le(s[a], s[b])
}

/// Two sorted lists holding the same pairs are equal.
proof fn lemma_sorted_same_multiset(a: Seq<(usize, usize)>, b: Seq<(usize, usize)>)
    requires
        pairs_sorted(a),
        pairs_sorted(b),
        a.to_multiset() == b.to_multiset(),
    ensures
        a == b,
    decreases a.len(),
{
    broadcast use vstd::seq_lib::group_to_multiset_ensures;

    assert(a.len() == b.len()) by {
        assert(a.to_multiset().len() == a.len());
        assert(b.to_multiset().len() == b.len());
    }
    if a.len() > 0 {
        assert(a.to_multiset().count(a[0]) > 0);
        assert(b.contains(a[0]));
        let j = choose|j: int| 0 <= j < b.len() && b[j] == a[0];
        assert(b.to_multiset().count(b[0]) > 0);
        assert(a.contains(b[0]));
        let i = choose|i: int| 0 <= i < a.len() && a[i] == b[0];
        if j > 0 {
            assert(pair_le(b[0], b[j]));
        }
        if i > 0 {
            assert(pair_le(a[0], a[i]));
        }
        assert(a[0] == b[0]);
        vstd::seq_lib::to_multiset_remove(a, 0);
        vstd::seq_lib::to_multiset_remove(b, 0);
        assert(a.remove(0) == a.drop_first());
        assert(b.remove(0) == b.drop_first());
        lemma_sorted_same_multiset(a.drop_first(), b.drop_first());
        assert(a == seq![a[0]] + a.drop_first());
        assert(b == seq![b[0]] + b.drop_first());
    }
}

fn pair_le_exec(a: [usize; 2], b: [usize; 2]) -> (r: bool)
    ensures
        r == pair_le((a[0], a[1]), (b[0], b[1])),
{
    a[0] < b[0] || (a[0] == b[0] && a[1] <= b[1])
}

/// The queens in row-by-row order.
fn sort_queens(v: &Vec<[usize; 2]>) -> (sorted: Vec<[usize; 2]>)
    ensures
        pairs_sorted(pairs(sorted@)),
        pairs(sorted@).to_multiset() == pairs(v@).to_multiset(),
{
    broadcast use vstd::seq_lib::group_to_multiset_ensures;

    let mut sorted: Vec<[usize; 2]> = Vec::new();
    let mut i: usize = 0;
    while i < v.len()
        invariant
            i <= v.len(),
            pairs_sorted(pairs(sorted@)),
            pairs(sorted@).to_multiset() == pairs(v@.take(i as int)).to_multiset(),
        decreases v.len() - i,
    {
        let x = v[i];
        let mut at: usize = 0;
        while at < sorted.len() && pair_le_exec(sorted[at], x)
            invariant
                at <= sorted.len(),
                forall|k: int| 0 <= k < at ==> pair_le(pairs(sorted@)[k], (x[0], x[1])),
            decreases sorted.len() - at,
        {
            at = at + 1;
        }
        let ghost before = pairs(sorted@);
        sorted.insert(at, x);
        proof {
            let xp = (x[0], x[1]);
            assert(pairs(sorted@) == before.insert(at as int, xp));
            let after = pairs(sorted@);
            assert forall|a: int, b: int| 0 <= a < b < after.len() implies pair_le(after[a], after[b]) by {
                if b < at {
                } else if b == at {
                    assert(after[a] == before[a]);
                } else if a < at {
                    assert(after[a] == before[a] && after[b] == before[b - 1]);
                } else if a == at {
                    assert(after[b] == before[b - 1]);
                    assert(!pair_le(before[at as int], xp));
                    if at < b - 1 {
                        assert(pair_le(before[at as int], before[b - 1]));
                    }
                } else {
                    assert(after[a] == before[a - 1] && after[b] == before[b - 1]);
                }
            }
            assert(v@.take(i + 1) == v@.take(i as int).push(x));
            assert(pairs(v@.take(i + 1)) == pairs(v@.take(i as int)).push(xp));
            vstd::seq_lib::to_multiset_insert(before, at as int, xp);
            vstd::seq_lib::to_multiset_build(pairs(v@.take(i as int)), xp);
        }
        i = i + 1;
    }
    proof {
        assert(v@.take(i as int) == v@);
    }
    sorted
}

/// The cells of the frame below `end` that hold a queen, as `(row, col)`, row by row.
pub open spec fn recorded_queens(states: Seq<u8>, size: usize, end: int) -> Seq<(usize, usize)>
    decreases end,
{
    if end <= 0 {
        seq![]
    } else {
        recorded_queens(states, size, end - 1) + if states[end - 1] == 2 {
            seq![(((end - 1) / size as int) as usize, ((end - 1) % size as int) as usize)]
        } else {
            Seq::empty()
        }
    }
}

/// A recorded queen at `p` lies in a column of the board and before cell `end`.
pub open spec fn queen_before(p: (usize, usize), size: usize, end: int) -> bool {
    p.1 < size && p.0 * size + p.1 < end
}

proof fn lemma_recorded_sorted(states: Seq<u8>, size: usize, end: int)
    requires
        size > 0,
        0 <= end <= states.len(),
        states.len() <= usize::MAX,
    ensures
        pairs_sorted(recorded_queens(states, size, end)),
        forall|k: int|
            0 <= k < recorded_queens(states, size, end).len() ==> queen_before(
                #[trigger] recorded_queens(states, size, end)[k],
                size,
                end,
            ),
    decreases end,
{
    if end > 0 {
        lemma_recorded_sorted(states, size, end - 1);
        let p = recorded_queens(states, size, end - 1);
        let c = recorded_queens(states, size, end);
        let x = end - 1;
        let q = x / size as int;
        let r = x % size as int;
        assert(x == q * size + r && 0 <= r < size && 0 <= q <= x) by (nonlinear_arith)
            requires
                size > 0,
                x >= 0,
                q == x / size as int,
                r == x % size as int,
        ;
        let cell = (q as usize, r as usize);
        assert forall|k: int| 0 <= k < p.len() implies queen_before(#[trigger] p[k], size, end) by {
            assert(queen_before(p[k], size, end - 1));
        }
        if states[end - 1] == 2 {
            assert(c == p.push(cell));
            assert(queen_before(cell, size, end));
            assert forall|a: int, b: int| 0 <= a < b < c.len() implies pair_le(c[a], c[b]) by {
                if b < p.len() {
                    assert(c[a] == p[a] && c[b] == p[b]);
                } else {
                    assert(c[b] == cell);
                    assert(c[a] == p[a]);
                    let pa = p[a];
                    assert(queen_before(pa, size, end - 1));
                    assert(pair_le(pa, cell)) by (nonlinear_arith)
                        requires
                            pa.0 * size + pa.1 < q * size + r,
                            pa.1 < size,
                            0 <= r < size,
                            q >= 0,
                            cell.0 == q,
                            cell.1 == r,
                    ;
                }
            }
            assert forall|k: int| 0 <= k < c.len() implies queen_before(#[trigger] c[k], size, end) by {
                if k < p.len() {
                    assert(c[k] == p[k]);
                }
            }
        } else {
            assert(c == p);
        }
    }
}

/// The queens of a frame's cells as `[row, col]`, row by row.
fn frame_queens(states: &Vec<u8>, size: usize) -> (cells: Vec<[usize; 2]>)
    requires
        size > 0 || states.len() == 0,
    ensures
        pairs(cells@) == recorded_queens(states@, size, states.len() as int),
        pairs_sorted(pairs(cells@)),
{
    let mut cells: Vec<[usize; 2]> = Vec::new();
    let mut index: usize = 0;
    while index < states.len()
        invariant
            size > 0 || states.len() == 0,
            index <= states.len(),
            pairs(cells@) == recorded_queens(states@, size, index as int),
        decreases states.len() - index,
    {
        if states[index] == 2 {
            let cell: [usize; 2] = [index / size, index % size];
            let ghost before = cells@;
            cells.push(cell);
            proof {
                assert(pairs(cells@) == pairs(before).push((cell[0], cell[1])));
            }
        }
        index = index + 1;
    }
    proof {
        if size > 0 {
            lemma_recorded_sorted(states@, size, states.len() as int);
        }
    }
    cells
}

/// Whether every frame has `cell_count` cells, each with a known state.
fn frames_are_valid(recording: &RoomRecording, cell_count: usize) -> (b: bool)
    ensures
        b == forall|k: int| 0 <= k < recording.frames@.len() ==> frame_valid_spec(&#[trigger] recording.frames@[k], cell_count),
{
    let len = recording.frames.len();
    let mut k: usize = 0;
    while k < len
        invariant
            len == recording.frames.len(),
            k <= len,
            forall|j: int| 0 <= j < k ==> frame_valid_spec(&#[trigger] recording.frames@[j], cell_count),
        decreases len - k,
    {
        if !recording_frame_is_valid(&recording.frames[k], cell_count) {
            return false;
        }
        k = k + 1;
    }
    true
}

/// The frames never go back in time.
pub open spec fn frames_in_time_order(frames: Seq<RoomRecordingFrame>) -> bool {
    forall|k: int| 0 <= k < frames.len() - 1 ==> (#[trigger] frames[k]).elapsed_ms <= frames[k + 1].elapsed_ms
}

fn frames_are_in_time_order(recording: &RoomRecording) -> (b: bool)
    ensures
        b == frames_in_time_order(recording.frames@),
{
    let len = recording.frames.len();
    if len == 0 {
        return true;
    }
    let mut k: usize = 1;
    while k < len
        invariant
            len == recording.frames.len(),
            1 <= k <= len,
            forall|j: int| 0 <= j < k - 1 ==> (#[trigger] recording.frames@[j]).elapsed_ms <= recording.frames@[j + 1].elapsed_ms,
        decreases len - k,
    {
        if recording.frames[k - 1].elapsed_ms > recording.frames[k].elapsed_ms {
            proof {
                let j = k - 1;
                assert(recording.frames@[j as int].elapsed_ms > recording.frames@[j + 1].elapsed_ms);
            }
            return false;
        }
        k = k + 1;
    }
    true
}

/// What a recording must be to fit a submitted board: it has frames, every frame holds one
/// known state per cell, the frames never go back in time, and the queens of the last frame
/// are exactly the submitted queens (in any order).
pub open spec fn recording_fits(size: usize, queens: Seq<[usize; 2]>, frames: Seq<RoomRecordingFrame>) -> bool {
    let n = (size * size) as usize;
    &&& frames.len() > 0
    &&& forall|k: int| 0 <= k < frames.len() ==> frame_valid_spec(&#[trigger] frames[k], n)
    &&& frames_in_time_order(frames)
    &&& recorded_queens(frames.last().states@, size, frames.last().states.len() as int).to_multiset()
        == pairs(queens).to_multiset()
}

/// Whether a finished player's recording fits their submitted board.
pub fn recording_matches_solution(puzzle: &Puzzle, queens: &Vec<[usize; 2]>, recording: &RoomRecording) -> (b: bool)
    requires
        puzzle.size * puzzle.size <= usize::MAX,
    ensures
        b == recording_fits(puzzle.size, queens@, recording.frames@),
{
    let len = recording.frames.len();
    if len == 0 {
        return false;
    }
    let cell_count = puzzle.size * puzzle.size;
    if !frames_are_valid(recording, cell_count) {
        return false;
    }
    if !frames_are_in_time_order(recording) {
        return false;
    }
    let last = &recording.frames[len - 1];
    let size = puzzle.size;
    proof {
        assert(frame_valid_spec(&recording.frames@[len - 1], cell_count));
        if size == 0 {
            assert(cell_count == 0);
        }
    }
    let recorded = frame_queens(&last.states, size);
    let submitted = sort_queens(queens);
    let same = same_queens(&recorded, &submitted);
    proof {
        let r = recorded_queens(last.states@, size, last.states.len() as int);
        assert(r == pairs(recorded@));
        if same {
            assert(r == pairs(submitted@));
        } else if r.to_multiset() == pairs(queens@).to_multiset() {
            lemma_sorted_same_multiset(r, pairs(submitted@));
        }
    }
    same
}

/// Whether two lists of queens are equal.
fn same_queens(a: &Vec<[usize; 2]>, b: &Vec<[usize; 2]>) -> (r: bool)
    ensures
        r == (pairs(a@) == pairs(b@)),
{
    if a.len() != b.len() {
        proof {
            assert(pairs(a@).len() != pairs(b@).len());
        }
        return false;
    }
    let mut i: usize = 0;
    while i < a.len()
        invariant
            a.len() == b.len(),
            i <= a.len(),
            forall|k: int| 0 <= k < i ==> pairs(a@)[k] == pairs(b@)[k],
        decreases a.len() - i,
    {
        if a[i][0] != b[i][0] || a[i][1] != b[i][1] {
            proof {
                assert(pairs(a@)[i as int] != pairs(b@)[i as int]);
            }
            return false;
        }
        i = i + 1;
    }
    proof {
        assert(pairs(a@) =~= pairs(b@));
    }
    true
}

/// The most cells a board of side `size` can name, capped at `usize::MAX`.
pub open spec fn capped_cell_count(size: usize) -> int {
    if size * size > usize::MAX {
        usize::MAX as int
    } else {
        size * size
    }
}

/// A pointer event of a known kind, on a cell of the board if it names one.
pub open spec fn mouse_event_ok(event: RoomMouseEvent, size: usize) -> bool {
    &&& event.1 <= ROOM_MOUSE_EVENT_SECONDARY_UP
    &&& event.4 matches Some(cell) ==> cell < capped_cell_count(size)
}

/// What a mouse recording must be to be kept: within the size limits, in time order, and
/// made of known events on cells of the board.
pub open spec fn mouse_recording_ok(size: usize, recording: &RoomMouseRecording) -> bool {
    &&& recording.samples.len() <= MAX_MOUSE_SAMPLES
    &&& recording.events.len() <= MAX_MOUSE_EVENTS
    &&& mouse_times_sorted(recording.samples@, recording.events@)
    &&& forall|k: int| 0 <= k < recording.events.len() ==> mouse_event_ok(#[trigger] recording.events@[k], size)
}

/// Whether a finished player's mouse recording can be kept.
pub fn mouse_recording_is_valid(puzzle: &Puzzle, recording: &RoomMouseRecording) -> (b: bool)
    ensures
        b == mouse_recording_ok(puzzle.size, recording),
{
    if recording.samples.len() > MAX_MOUSE_SAMPLES || recording.events.len() > MAX_MOUSE_EVENTS {
        return false;
    }
    if !mouse_recording_times_are_sorted(recording) {
        return false;
    }
    let cell_count = match puzzle.size.checked_mul(puzzle.size) {
        Some(c) => c,
        None => usize::MAX,
    };
    let mut k: usize = 0;
    while k < recording.events.len()
        invariant
            k <= recording.events.len(),
            cell_count == capped_cell_count(puzzle.size),
            forall|j: int| 0 <= j < k ==> mouse_event_ok(#[trigger] recording.events@[j], puzzle.size),
        decreases recording.events.len() - k,
    {
        let event = &recording.events[k];
        let kind_ok = event.1 == ROOM_MOUSE_EVENT_ENTER || event.1 == ROOM_MOUSE_EVENT_LEAVE
            || event.1 == ROOM_MOUSE_EVENT_PRIMARY_DOWN || event.1 == ROOM_MOUSE_EVENT_PRIMARY_UP
            || event.1 == ROOM_MOUSE_EVENT_SECONDARY_DOWN || event.1 == ROOM_MOUSE_EVENT_SECONDARY_UP;
        let cell_ok = match event.4 {
            Some(cell) => (cell as usize) < cell_count,
            None => true,
        };
        if !(kind_ok && cell_ok) {
            proof {
                assert(!mouse_event_ok(recording.events@[k as int], puzzle.size));
            }
            return false;
        }
        k = k + 1;
    }
    true
}

/// Awards the medals of a Queens race by finishing order.
pub fn award_room_queens_medals(room: &mut Room)
    requires
        medals_can_grow(old(room).players@),
    ensures
        exists|order: Seq<RankEntry>|
            ranking_of(order, finish_entries(old(room).players@, old(room).race_player_ids@)) && medals_awarded(
                old(room).players@,
                final(room).players@,
                #[trigger] ranked_ids(old(room).players@, order),
            ),
        *final(room) == (Room { players: final(room).players, ..*old(room) }),
{
    award_finish_medals(room);
}

/// Awards the medals of a nonogram race by finishing order.
pub fn award_room_nonogram_medals(room: &mut Room)
    requires
        medals_can_grow(old(room).players@),
    ensures
        exists|order: Seq<RankEntry>|
            ranking_of(order, finish_entries(old(room).players@, old(room).race_player_ids@)) && medals_awarded(
                old(room).players@,
                final(room).players@,
                #[trigger] ranked_ids(old(room).players@, order),
            ),
        *final(room) == (Room { players: final(room).players, ..*old(room) }),
{
    award_finish_medals(room);
}

/// The seed of a room's nonogram, drawn from the time the race is set up.
pub open spec fn nonogram_seed(now_ms: u64) -> u64 {
    now_ms ^ 0xd6e8_feb8_6659_fd93u64
}

/// Generates the room's nonogram (of the default size) from the time `now_ms`.
pub fn prepare_room_nonogram_game(room: &mut Room, now_ms: u64)
    ensures
        final(room).nonogram matches Some(g) && generated_ok(
            &g.puzzle,
            NONOGRAM_DEFAULT_WIDTH,
            NONOGRAM_DEFAULT_HEIGHT,
        ),
        *final(room) == (Room { nonogram: final(room).nonogram, ..*old(room) }),
{
    let seed = now_ms ^ 0xd6e8_feb8_6659_fd93u64;
    let puzzle = generate_nonogram_puzzle(NONOGRAM_DEFAULT_WIDTH, NONOGRAM_DEFAULT_HEIGHT, seed);
    room.nonogram = Some(ServerNonogramGame { puzzle });
}

/// The grid in which exactly the listed cells are filled.
pub open spec fn filled_grid(n: nat, filled: Seq<usize>) -> Seq<NonogramCellState> {
    Seq::new(
        n,
        |i: int|
            if filled.contains(i as usize) {
                NonogramCellState::Filled
            } else {
                NonogramCellState::Hidden
            },
    )
}

/// Whether filling exactly the listed cells (each once, each on the board) solves the
/// puzzle: no cell is filled where the picture is empty or left empty where it is filled.
pub open spec fn filled_cells_complete(puzzle: &NonogramPuzzle, filled: Seq<usize>) -> bool {
    let n = puzzle.width * puzzle.height;
    let m = if puzzle.solution.len() < n { puzzle.solution.len() as int } else { n };
    &&& forall|k: int| 0 <= k < filled.len() ==> #[trigger] filled[k] < n
    &&& filled.no_duplicates()
    &&& mismatches(filled_grid(n as nat, filled), puzzle.solution@, m).len() == 0
}

/// Whether the listed filled cells are exactly a solution of the puzzle.
pub fn nonogram_filled_cells_are_complete(puzzle: &NonogramPuzzle, filled: &Vec<usize>) -> (b: bool)
    requires
        puzzle.width * puzzle.height <= usize::MAX,
    ensures
        b == filled_cells_complete(puzzle, filled@),
{
    let n = puzzle.cell_count();
    let mut cells: Vec<NonogramCellState> = Vec::new();
    let mut i: usize = 0;
    while i < n
        invariant
            i <= n,
            cells@ == Seq::new(i as nat, |j: int| NonogramCellState::Hidden),
        decreases n - i,
    {
        cells.push(NonogramCellState::Hidden);
        i = i + 1;
    }
    proof {
        assert(cells@ == filled_grid(n as nat, filled@.take(0)));
    }
    let mut k: usize = 0;
    while k < filled.len()
        invariant
            k <= filled.len(),
            n == puzzle.width * puzzle.height,
            cells@ == filled_grid(n as nat, filled@.take(k as int)),
            forall|j: int| 0 <= j < k ==> #[trigger] filled@[j] < n,
            filled@.take(k as int).no_duplicates(),
        decreases filled.len() - k,
    {
        let index = filled[k];
        if index >= n {
            return false;
        }
        if cells[index] == NonogramCellState::Filled {
            proof {
                let t = filled@.take(k as int);
                assert(t.contains(index));
                let j = choose|j: int| 0 <= j < t.len() && t[j] == index;
                assert(filled@[j] == filled@[k as int]);
            }
            return false;
        }
        cells.set(index, NonogramCellState::Filled);
        proof {
            let t = filled@.take(k as int);
            let t2 = filled@.take(k + 1);
            assert(t2 == t.push(index));
            assert(!t.contains(index));
            assert forall|i: int| 0 <= i < n implies #[trigger] t2.contains(i as usize) == (t.contains(
                i as usize,
            ) || i == index) by {
                if i == index {
                    assert(t2[k as int] == index);
                }
                if t2.contains(i as usize) {
                    let j = choose|j: int| 0 <= j < t2.len() && t2[j] == i as usize;
                    if j < k {
                        assert(t[j] == i as usize);
                    }
                }
                if t.contains(i as usize) {
                    let j = choose|j: int| 0 <= j < t.len() && t[j] == i as usize;
                    assert(t2[j] == i as usize);
                }
            }
            assert(cells@ == filled_grid(n as nat, t2));
            assert forall|a: int, c: int| 0 <= a < t2.len() && 0 <= c < t2.len() && a != c implies t2[a] != t2[c] by {
                if a < k && c < k {
                    assert(t[a] == t2[a] && t[c] == t2[c]);
                } else if a == k {
                    assert(t2[c] == t[c]);
                    if t[c] == index {
                        assert(t.contains(index));
                    }
                } else {
                    assert(t2[a] == t[a]);
                    if t[a] == index {
                        assert(t.contains(index));
                    }
                }
            }
        }
        k = k + 1;
    }
    proof {
        assert(filled@.take(filled.len() as int) == filled@);
    }
    let validation = validate_nonogram_solution(puzzle, &cells);
    validation.complete
}

} // verus!
