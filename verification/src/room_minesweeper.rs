//! The rules of a room's shared Minesweeper board as a player's client applies them: who may
//! act or point, which cells count as flagged for chording, which neighbours a chord
//! presses, and the neighbourhood of a cell.

use vstd::prelude::*;
use std::collections::BTreeSet;
use crate::grid::{
    block_neighbors, count_true, grid_neighbors, lemma_block_neighbors_bound, lemma_cell_index,
    lemma_count_true_clear, row_neighbors,
};
use crate::room::{
    RoomMinesweeperCellSnapshot, RoomMinesweeperSnapshot, RoomPhase, RoomPlayerSnapshot, RoomSnapshot,
};

verus! {

broadcast use vstd::std_specs::btree::group_btree_axioms, vstd::laws_cmp::group_laws_cmp;

/// The position of the first player with id `id` at or after `from`; the length when none.
pub open spec fn first_snapshot_player_from(players: Seq<RoomPlayerSnapshot>, id: Seq<char>, from: int) -> int
    decreases players.len() - from,
{
    if from < 0 || from >= players.len() {
        players.len() as int
    } else if players[from].id@ == id {
        from
    } else {
        first_snapshot_player_from(players, id, from + 1)
    }
}

pub proof fn lemma_first_snapshot_player_from(players: Seq<RoomPlayerSnapshot>, id: Seq<char>, from: int)
    requires
        0 <= from <= players.len(),
    ensures
        from <= first_snapshot_player_from(players, id, from) <= players.len(),
        first_snapshot_player_from(players, id, from) < players.len() ==> players[first_snapshot_player_from(
            players,
            id,
            from,
        )].id@ == id,
    decreases players.len() - from,
{
    if from < players.len() && players[from].id@ != id {
        lemma_first_snapshot_player_from(players, id, from + 1);
    }
}

/// Where the player with id `id` is listed.
pub fn find_snapshot_player(players: &Vec<RoomPlayerSnapshot>, id: &str) -> (found: Option<usize>)
    ensures
        found is None <==> first_snapshot_player_from(players@, id@, 0) == players.len(),
        found matches Some(i) ==> i == first_snapshot_player_from(players@, id@, 0) && i < players.len(),
{
    proof {
        lemma_first_snapshot_player_from(players@, id@, 0);
    }
    let target = String::from_str(id);
    let mut k: usize = 0;
    while k < players.len()
        invariant
            k <= players.len(),
            target@ == id@,
            first_snapshot_player_from(players@, id@, 0) == first_snapshot_player_from(players@, id@, k as int),
        decreases players.len() - k,
    {
        if players[k].id == target {
            return Some(k);
        }
        k = k + 1;
    }
    None
}

/// The player with id `id` may act on the board: the race is on, and they are connected
/// and not eliminated.
pub open spec fn can_act_spec(phase: RoomPhase, players: Seq<RoomPlayerSnapshot>, id: Seq<char>) -> bool {
    let i = first_snapshot_player_from(players, id, 0);
    &&& phase is Racing
    &&& 0 <= i < players.len()
    &&& players[i].connected
    &&& !players[i].minesweeper_eliminated
}

pub fn room_minesweeper_can_act(phase: &RoomPhase, players: &Vec<RoomPlayerSnapshot>, player_id: &str) -> (b: bool)
    ensures
        b == can_act_spec(*phase, players@, player_id@),
{
    match phase {
        RoomPhase::Racing { .. } => {},
        _ => {
            return false;
        },
    }
    match find_snapshot_player(players, player_id) {
        Some(i) => players[i].connected && !players[i].minesweeper_eliminated,
        None => false,
    }
}

/// The player with id `id` may show a pointer: during the countdown when connected, and
/// during the race when connected and not eliminated.
pub open spec fn can_point_spec(phase: RoomPhase, players: Seq<RoomPlayerSnapshot>, id: Seq<char>) -> bool {
    let i = first_snapshot_player_from(players, id, 0);
    &&& (phase is Countdown || phase is Racing)
    &&& 0 <= i < players.len()
    &&& players[i].connected
    &&& (phase is Racing ==> !players[i].minesweeper_eliminated)
}

pub fn room_minesweeper_can_point(phase: &RoomPhase, players: &Vec<RoomPlayerSnapshot>, player_id: &str) -> (b: bool)
    ensures
        b == can_point_spec(*phase, players@, player_id@),
{
    let racing = match phase {
        RoomPhase::Racing { .. } => true,
        RoomPhase::Countdown { .. } => false,
        _ => {
            return false;
        },
    };
    match find_snapshot_player(players, player_id) {
        Some(i) => players[i].connected && (!racing || !players[i].minesweeper_eliminated),
        None => false,
    }
}

/// The flags of the player with id `id`; none when nobody has that id.
pub fn room_minesweeper_own_flags(players: &Vec<RoomPlayerSnapshot>, player_id: &str) -> (flags: BTreeSet<usize>)
    ensures
        ({
            let i = first_snapshot_player_from(players@, player_id@, 0);
            flags@ == if 0 <= i < players.len() {
                players@[i].minesweeper_flags@.to_set()
            } else {
                Set::<usize>::empty()
            }
        }),
{
    let mut flags: BTreeSet<usize> = BTreeSet::new();
    match find_snapshot_player(players, player_id) {
        Some(i) => {
            let list = &players[i].minesweeper_flags;
            let mut k: usize = 0;
            while k < list.len()
                invariant
                    k <= list.len(),
                    flags@ == list@.take(k as int).to_set(),
                decreases list.len() - k,
            {
                flags.insert(list[k]);
                proof {
                    assert(list@.take(k + 1) == list@.take(k as int).push(list@[k as int]));
                    list@.take(k as int).lemma_push_to_set_commute(list@[k as int]);
                }
                k = k + 1;
            }
            proof {
                assert(list@.take(k as int) == list@);
            }
        },
        None => {},
    }
    flags
}

/// The owner of a cell is not the player with id `id`.
pub open spec fn owner_differs(owner: Option<String>, id: Seq<char>) -> bool {
    match owner {
        Some(o) => o@ != id,
        None => true,
    }
}

/// The cells listed as `(index, revealed, mine, detonated, owner)` that count as flagged for
/// a player's chord besides their own flags: mines set off by somebody else.
pub open spec fn foreign_detonations(cells: Seq<(usize, bool, bool, bool, Option<String>)>, id: Seq<char>) -> Set<usize> {
    Set::new(
        |i: usize|
            exists|k: int|
                0 <= k < cells.len() && (#[trigger] cells[k]).0 == i && cells[k].1 && cells[k].2 && cells[k].3
                    && owner_differs(cells[k].4, id),
    )
}

/// The cells that count as flagged when a player chords: their own flags, and every mine
/// that another player set off.
pub fn room_minesweeper_chord_flags_from_cells(
    own_flags: &BTreeSet<usize>,
    player_id: &str,
    cells: &Vec<(usize, bool, bool, bool, Option<String>)>,
) -> (flags: BTreeSet<usize>)
    ensures
        flags@ == own_flags@.union(foreign_detonations(cells@, player_id@)),
{
    let target = String::from_str(player_id);
    let mut flags = own_flags.clone();
    let mut k: usize = 0;
    while k < cells.len()
        invariant
            k <= cells.len(),
            target@ == player_id@,
            flags@ == own_flags@.union(foreign_detonations(cells@.take(k as int), player_id@)),
        decreases cells.len() - k,
    {
        let cell = &cells[k];
        let differs = match &cell.4 {
            Some(owner) => !(*owner == target),
            None => true,
        };
        let counts = cell.1 && cell.2 && cell.3 && differs;
        if counts {
            flags.insert(cell.0);
        }
        proof {
            let t0 = cells@.take(k as int);
            let t1 = cells@.take(k + 1);
            assert(t1 == t0.push(cells@[k as int]));
            assert(counts == (cells@[k as int].1 && cells@[k as int].2 && cells@[k as int].3 && owner_differs(
                cells@[k as int].4,
                player_id@,
            )));
            assert forall|i: usize| foreign_detonations(t1, player_id@).contains(i) <==> (foreign_detonations(
                t0,
                player_id@,
            ).contains(i) || (counts && i == cells@[k as int].0)) by {
                if foreign_detonations(t1, player_id@).contains(i) {
                    let j = choose|j: int|
                        0 <= j < t1.len() && (#[trigger] t1[j]).0 == i && t1[j].1 && t1[j].2 && t1[j].3
                            && owner_differs(t1[j].4, player_id@);
                    if j < k {
                        assert(t0[j] == t1[j]);
                    }
                }
                if foreign_detonations(t0, player_id@).contains(i) {
                    let j = choose|j: int|
                        0 <= j < t0.len() && (#[trigger] t0[j]).0 == i && t0[j].1 && t0[j].2 && t0[j].3
                            && owner_differs(t0[j].4, player_id@);
                    assert(t1[j] == t0[j]);
                }
                if counts && i == cells@[k as int].0 {
                    assert(t1[k as int] == cells@[k as int]);
                }
            }
            assert(flags@ =~= own_flags@.union(foreign_detonations(t1, player_id@)));
        }
        k = k + 1;
    }
    proof {
        assert(cells@.take(k as int) == cells@);
    }
    flags
}

/// The chord flags of a player from the room's cell list.
pub fn room_minesweeper_chord_flags(
    cells: &Vec<RoomMinesweeperCellSnapshot>,
    own_flags: &BTreeSet<usize>,
    player_id: &str,
) -> (flags: BTreeSet<usize>)
    ensures
        flags@ == own_flags@.union(
            Set::new(
                |i: usize|
                    i < cells.len() && cells@[i as int].revealed && cells@[i as int].mine
                        && cells@[i as int].detonated && owner_differs(cells@[i as int].owner_id, player_id@),
            ),
        ),
{
    let mut listed: Vec<(usize, bool, bool, bool, Option<String>)> = Vec::new();
    let mut k: usize = 0;
    while k < cells.len()
        invariant
            k <= cells.len(),
            listed.len() == k,
            forall|j: int|
                0 <= j < k ==> {
                    let t = #[trigger] listed@[j];
                    let c = cells@[j];
                    &&& t.0 == j
                    &&& t.1 == c.revealed
                    &&& t.2 == c.mine
                    &&& t.3 == c.detonated
                    &&& owner_differs(t.4, player_id@) == owner_differs(c.owner_id, player_id@)
                },
        decreases cells.len() - k,
    {
        let c = &cells[k];
        let owner = match &c.owner_id {
            Some(o) => Some(o.clone()),
            None => None,
        };
        listed.push((k, c.revealed, c.mine, c.detonated, owner));
        k = k + 1;
    }
    let flags = room_minesweeper_chord_flags_from_cells(own_flags, player_id, &listed);
    proof {
        let want = Set::new(
            |i: usize|
                i < cells.len() && cells@[i as int].revealed && cells@[i as int].mine && cells@[i as int].detonated
                    && owner_differs(cells@[i as int].owner_id, player_id@),
        );
        assert forall|i: usize| foreign_detonations(listed@, player_id@).contains(i) <==> want.contains(i) by {
            if foreign_detonations(listed@, player_id@).contains(i) {
                let j = choose|j: int|
                    0 <= j < listed.len() && (#[trigger] listed@[j]).0 == i && listed@[j].1 && listed@[j].2
                        && listed@[j].3 && owner_differs(listed@[j].4, player_id@);
            }
            if want.contains(i) {
                assert(listed@[i as int].0 == i);
            }
        }
        assert(foreign_detonations(listed@, player_id@) =~= want);
    }
    flags
}

/// The neighbours of cell `index` on the room board, row by row; none when the board is
/// empty or the index is off the cell list.
pub open spec fn room_neighbors_spec(width: int, height: int, cells_len: int, index: int) -> Seq<usize> {
    if width <= 0 || height <= 0 || index < 0 || index >= cells_len {
        seq![]
    } else {
        grid_neighbors(width, height, index)
    }
}

pub fn room_minesweeper_neighbors(board: &RoomMinesweeperSnapshot, index: usize) -> (neighbors: Vec<usize>)
    requires
        board.width * board.height <= usize::MAX,
    ensures
        neighbors@ == room_neighbors_spec(board.width as int, board.height as int, board.cells.len() as int, index as int),
        forall|k: int| 0 <= k < neighbors.len() ==> (#[trigger] neighbors@[k]) < board.width * board.height,
{
    let width = board.width;
    let height = board.height;
    if width == 0 || height == 0 || index >= board.cells.len() {
        return Vec::new();
    }
    let row = index / width;
    let col = index % width;
    let row_start = if row > 0 {
        row - 1
    } else {
        0
    };
    let row_end = if height >= 2 && row < height - 2 {
        row + 1
    } else {
        height - 1
    };
    let col_start = if col > 0 {
        col - 1
    } else {
        0
    };
    let col_end = if width >= 2 && col < width - 2 {
        col + 1
    } else {
        width - 1
    };
    proof {
        lemma_block_neighbors_bound(
            width as int,
            height as int,
            row as int,
            col as int,
            row_start as int,
            row_end as int,
            col_start as int,
            col_end as int,
        );
    }
    let ghost w = width as int;
    let ghost r = row as int;
    let ghost c = col as int;
    let mut neighbors: Vec<usize> = Vec::new();
    let mut next_row = row_start;
    while next_row <= row_end
        invariant
            width > 0,
            height > 0,
            width * height <= usize::MAX,
            row_start <= next_row,
            next_row <= row_end + 1 || next_row == row_start,
            col_start <= col_end,
            row_end < height,
            col_end < width,
            w == width,
            r == row,
            c == col,
            neighbors@ == block_neighbors(w, r, c, row_start as int, next_row - 1, col_start as int, col_end as int),
        decreases row_end + 1 - next_row,
    {
        let mut next_col = col_start;
        while next_col <= col_end
            invariant
                width > 0,
                height > 0,
                width * height <= usize::MAX,
                row_start <= next_row <= row_end,
                col_start <= next_col <= col_end + 1,
                row_end < height,
                col_end < width,
                w == width,
                r == row,
                c == col,
                neighbors@ == block_neighbors(w, r, c, row_start as int, next_row - 1, col_start as int, col_end as int)
                    + row_neighbors(w, r, c, next_row as int, col_start as int, next_col - 1),
            decreases col_end + 1 - next_col,
        {
            proof {
                lemma_cell_index(w, height as int, next_row as int, next_col as int);
            }
            if !(next_row == row && next_col == col) {
                neighbors.push(next_row * width + next_col);
            }
            next_col += 1;
        }
        next_row += 1;
    }
    neighbors
}

/// Cell `index` may be chorded: it is open, safe and shows a number.
pub open spec fn chord_target_spec(cells: Seq<RoomMinesweeperCellSnapshot>, index: int) -> bool {
    &&& 0 <= index < cells.len()
    &&& cells[index].revealed
    &&& !cells[index].mine
    &&& match cells[index].adjacent_mines {
        Some(n) => n > 0,
        None => false,
    }
}

pub fn room_minesweeper_chord_target(board: &RoomMinesweeperSnapshot, index: usize) -> (t: Option<usize>)
    ensures
        t is Some <==> chord_target_spec(board.cells@, index as int),
        t matches Some(i) ==> i == index,
{
    if index >= board.cells.len() {
        return None;
    }
    let cell = &board.cells[index];
    let adjacent = match cell.adjacent_mines {
        Some(n) => n,
        None => 0,
    };
    if cell.revealed && !cell.mine && adjacent > 0 {
        Some(index)
    } else {
        None
    }
}

/// The neighbours a chord on `index` would press: closed cells the player has not flagged;
/// none unless the cell can be chorded.
pub fn room_minesweeper_pressed_neighbors(
    board: &RoomMinesweeperSnapshot,
    index: usize,
    own_flags: &BTreeSet<usize>,
) -> (pressed: BTreeSet<usize>)
    requires
        board.width * board.height <= usize::MAX,
    ensures
        !chord_target_spec(board.cells@, index as int) ==> pressed@ == Set::<usize>::empty(),
        chord_target_spec(board.cells@, index as int) ==> pressed@ == Set::new(
            |n: usize|
                room_neighbors_spec(board.width as int, board.height as int, board.cells.len() as int, index as int).contains(n)
                    && n < board.cells.len() && !board.cells@[n as int].revealed && !own_flags@.contains(n),
        ),
{
    let mut pressed: BTreeSet<usize> = BTreeSet::new();
    if room_minesweeper_chord_target(board, index).is_none() {
        return pressed;
    }
    let neighbors = room_minesweeper_neighbors(board, index);
    let ghost want = Set::new(
        |n: usize|
            neighbors@.contains(n) && n < board.cells.len() && !board.cells@[n as int].revealed && !own_flags@.contains(n),
    );
    let mut k: usize = 0;
    while k < neighbors.len()
        invariant
            k <= neighbors.len(),
            pressed@ == Set::new(
                |n: usize|
                    neighbors@.take(k as int).contains(n) && n < board.cells.len() && !board.cells@[n as int].revealed
                        && !own_flags@.contains(n),
            ),
        decreases neighbors.len() - k,
    {
        let n = neighbors[k];
        let keep = n < board.cells.len() && !board.cells[n].revealed && !own_flags.contains(&n);
        if keep {
            pressed.insert(n);
        }
        proof {
            let t0 = neighbors@.take(k as int);
            let t1 = neighbors@.take(k + 1);
            assert(t1 == t0.push(n));
            assert forall|x: usize| t1.contains(x) <==> (t0.contains(x) || x == n) by {
                if t1.contains(x) && x != n {
                    let j = choose|j: int| 0 <= j < t1.len() && t1[j] == x;
                    assert(t0[j] == x);
                }
                if t0.contains(x) {
                    let j = choose|j: int| 0 <= j < t0.len() && t0[j] == x;
                    assert(t1[j] == x);
                }
                if x == n {
                    assert(t1[k as int] == x);
                }
            }
            assert(pressed@ =~= Set::new(
                |x: usize|
                    t1.contains(x) && x < board.cells.len() && !board.cells@[x as int].revealed && !own_flags@.contains(x),
            ));
        }
        k = k + 1;
    }
    proof {
        assert(neighbors@.take(k as int) == neighbors@);
    }
    pressed
}


/// How many entries are still `false`.
pub open spec fn unmarked_count(v: Seq<bool>) -> nat {
    count_true(Seq::new(v.len(), |i: int| !v[i]))
}

proof fn lemma_mark(v: Seq<bool>, i: int)
    requires
        0 <= i < v.len(),
        !v[i],
    ensures
        unmarked_count(v.update(i, true)) + 1 == unmarked_count(v),
{
    let u = Seq::new(v.len(), |k: int| !v[k]);
    lemma_count_true_clear(u, i);
    assert(Seq::new(v.update(i, true).len(), |k: int| !v.update(i, true)[k]) == u.update(i, false));
}

/// The board is unchanged but for the listed cells, which are now open.
pub open spec fn opened_only(before: Seq<RoomMinesweeperCellSnapshot>, after: Seq<RoomMinesweeperCellSnapshot>, opened: Seq<usize>) -> bool {
    &&& after.len() == before.len()
    &&& forall|k: int| 0 <= k < opened.len() ==> (#[trigger] opened[k]) < before.len()
    &&& forall|i: int|
        0 <= i < before.len() ==> if opened.contains(i as usize) {
            &&& (#[trigger] after[i]).revealed
            &&& !before[i].revealed
            &&& !before[i].mine
            &&& after[i] == (RoomMinesweeperCellSnapshot { revealed: true, ..before[i] })
        } else {
            after[i] == before[i]
        }
}

/// Opens the safe area around `index` as the server would, without crossing the player's
/// own flags, and lists the cells opened, in the order they were opened.
fn optimistic_room_minesweeper_reveal_safe_cells(
    board: &mut RoomMinesweeperSnapshot,
    index: usize,
    own_flags: &BTreeSet<usize>,
) -> (revealed: Vec<usize>)
    requires
        old(board).width * old(board).height <= usize::MAX,
    ensures
        final(board).width == old(board).width,
        final(board).height == old(board).height,
        final(board).mines == old(board).mines,
        final(board).starting_cells == old(board).starting_cells,
        opened_only(old(board).cells@, final(board).cells@, revealed@),
        revealed.len() <= old(board).cells.len(),
        index < old(board).cells.len() && !own_flags@.contains(index) && !old(board).cells@[index as int].revealed
            && !old(board).cells@[index as int].mine ==> revealed@.contains(index),
{
    let len = board.cells.len();
    let mut revealed: Vec<usize> = Vec::new();
    if index >= len {
        return revealed;
    }
    let mut queued: Vec<bool> = Vec::new();
    let mut i: usize = 0;
    while i < len
        invariant
            i <= len,
            queued.len() == i,
            forall|k: int| 0 <= k < i ==> !#[trigger] queued@[k],
        decreases len - i,
    {
        queued.push(false);
        i = i + 1;
    }
    proof {
        assert(unmarked_count(queued@) == len) by {
            assert(Seq::new(queued@.len(), |k: int| !queued@[k]) =~= Seq::new(len as nat, |k: int| true));
            lemma_count_all_true(len as nat);
        }
        lemma_mark(queued@, index as int);
    }
    queued.set(index, true);
    let mut queue: Vec<usize> = Vec::new();
    queue.push(index);
    let mut head: usize = 0;
    let ghost original = board.cells@;
    while head < queue.len()
        invariant
            board.width * board.height <= usize::MAX,
            board.width == old(board).width,
            board.height == old(board).height,
            board.mines == old(board).mines,
            board.starting_cells == old(board).starting_cells,
            original == old(board).cells@,
            len == original.len(),
            board.cells.len() == len,
            queued.len() == len,
            head <= queue.len(),
            queue.len() >= 1,
            queue.len() + unmarked_count(queued@) == len,
            queue@[0] == index,
            index < len,
            forall|t: int| 0 <= t < queue.len() ==> (#[trigger] queue@[t]) < len && queued@[queue@[t] as int],
            revealed.len() <= head,
            opened_only(original, board.cells@, revealed@),
            head > 0 && !own_flags@.contains(index) && !original[index as int].revealed && !original[index as int].mine
                ==> revealed@.contains(index),
        decreases unmarked_count(queued@), queue.len() - head,
    {
        let next = queue[head];
        head = head + 1;
        if own_flags.contains(&next) {
            continue;
        }
        let cell = &board.cells[next];
        if cell.revealed || cell.mine {
            continue;
        }
        let adjacent = match cell.adjacent_mines {
            Some(n) => n,
            None => 0,
        };
        let ghost before_cells = board.cells@;
        let ghost before_revealed = revealed@;
        let mut opened = board.cells.remove(next);
        opened.revealed = true;
        board.cells.insert(next, opened);
        revealed.push(next);
        proof {
            assert(board.cells@ =~= before_cells.update(next as int, opened));
            assert(!before_revealed.contains(next)) by {
                if before_revealed.contains(next) {
                    let j = choose|j: int| 0 <= j < before_revealed.len() && before_revealed[j] == next;
                    assert(before_cells[next as int].revealed);
                }
            }
            assert forall|x: usize| revealed@.contains(x) <==> (before_revealed.contains(x) || x == next) by {
                if revealed@.contains(x) && x != next {
                    let j = choose|j: int| 0 <= j < revealed@.len() && revealed@[j] == x;
                    assert(before_revealed[j] == x);
                }
                if before_revealed.contains(x) {
                    let j = choose|j: int| 0 <= j < before_revealed.len() && before_revealed[j] == x;
                    assert(revealed@[j] == x);
                }
                if x == next {
                    assert(revealed@[revealed@.len() - 1] == x);
                }
            }
            assert(opened_only(original, board.cells@, revealed@));
        }
        if adjacent == 0 {
            let neighbors = room_minesweeper_neighbors(board, next);
            let ghost q0 = queue.len();
            let mut k: usize = 0;
            while k < neighbors.len()
                invariant
                    board.cells.len() == len,
                    queued.len() == len,
                    head <= queue.len(),
                    queue.len() >= q0,
                    q0 >= 1,
                    queue.len() + unmarked_count(queued@) == len,
                    queue@[0] == index,
                    index < len,
                    forall|t: int| 0 <= t < queue.len() ==> (#[trigger] queue@[t]) < len && queued@[queue@[t] as int],
                    k <= neighbors.len(),
                decreases neighbors.len() - k,
            {
                let neighbor = neighbors[k];
                if neighbor < len && !queued[neighbor] && !own_flags.contains(&neighbor) {
                    let c = &board.cells[neighbor];
                    if !c.revealed && !c.mine {
                        proof {
                            lemma_mark(queued@, neighbor as int);
                        }
                        queued.set(neighbor, true);
                        queue.push(neighbor);
                    }
                }
                k = k + 1;
            }
        }
    }
    revealed
}

/// All-true flags count their length.
proof fn lemma_count_all_true(n: nat)
    ensures
        count_true(Seq::new(n, |k: int| true)) == n,
    decreases n,
{
    if n > 0 {
        lemma_count_all_true((n - 1) as nat);
        assert(Seq::new(n, |k: int| true).drop_last() =~= Seq::new((n - 1) as nat, |k: int| true));
    }
}

/// The owner is the player with id `id`.
pub open spec fn owned_by(owner: Option<String>, id: Seq<char>) -> bool {
    match owner {
        Some(o) => o@ == id,
        None => false,
    }
}

/// A cell that scores when opened: safe and showing a number.
pub open spec fn scoring_cell(c: RoomMinesweeperCellSnapshot) -> bool {
    !c.mine && match c.adjacent_mines {
        Some(n) => n > 0,
        None => false,
    }
}

/// Scores the numbered cells among those just opened, one point each, and claims those
/// without an owner for the player.
fn optimistic_room_minesweeper_score_and_claim_revealed_cells(
    board: &mut RoomMinesweeperSnapshot,
    revealed: &Vec<usize>,
    player_id: &str,
) -> (score: u32)
    requires
        revealed.len() <= u32::MAX,
    ensures
        final(board).width == old(board).width,
        final(board).height == old(board).height,
        final(board).mines == old(board).mines,
        final(board).starting_cells == old(board).starting_cells,
        final(board).cells.len() == old(board).cells.len(),
        score <= revealed.len(),
        forall|i: int|
            0 <= i < old(board).cells.len() ==> {
                let b = old(board).cells@[i];
                let a = #[trigger] final(board).cells@[i];
                &&& a.revealed == b.revealed
                &&& a.mine == b.mine
                &&& a.detonated == b.detonated
                &&& a.adjacent_mines == b.adjacent_mines
                &&& a.start == b.start
                &&& (b.owner_id is Some ==> a.owner_id == b.owner_id)
                &&& (b.owner_id is None && scoring_cell(b) && revealed@.contains(i as usize) ==> owned_by(a.owner_id, player_id@))
                &&& (!(scoring_cell(b) && revealed@.contains(i as usize)) ==> a.owner_id == b.owner_id)
            },
{
    let mut score: u32 = 0;
    let mut k: usize = 0;
    while k < revealed.len()
        invariant
            revealed.len() <= u32::MAX,
            k <= revealed.len(),
            score <= k,
            board.width == old(board).width,
            board.height == old(board).height,
            board.mines == old(board).mines,
            board.starting_cells == old(board).starting_cells,
            board.cells.len() == old(board).cells.len(),
            forall|i: int|
                0 <= i < old(board).cells.len() ==> {
                    let b = old(board).cells@[i];
                    let a = #[trigger] board.cells@[i];
                    &&& a.revealed == b.revealed
                    &&& a.mine == b.mine
                    &&& a.detonated == b.detonated
                    &&& a.adjacent_mines == b.adjacent_mines
                    &&& a.start == b.start
                    &&& (b.owner_id is Some ==> a.owner_id == b.owner_id)
                    &&& (b.owner_id is None && scoring_cell(b) && revealed@.take(k as int).contains(i as usize)
                        ==> owned_by(a.owner_id, player_id@))
                    &&& (!(scoring_cell(b) && revealed@.take(k as int).contains(i as usize)) ==> a.owner_id == b.owner_id)
                },
        decreases revealed.len() - k,
    {
        let index = revealed[k];
        let ghost t0 = revealed@.take(k as int);
        let ghost t1 = revealed@.take(k + 1);
        proof {
            assert(t1 == t0.push(index));
            assert forall|x: usize| t1.contains(x) <==> (t0.contains(x) || x == index) by {
                if t1.contains(x) && x != index {
                    let j = choose|j: int| 0 <= j < t1.len() && t1[j] == x;
                    assert(t0[j] == x);
                }
                if t0.contains(x) {
                    let j = choose|j: int| 0 <= j < t0.len() && t0[j] == x;
                    assert(t1[j] == x);
                }
                if x == index {
                    assert(t1[k as int] == x);
                }
            }
        }
        if index < board.cells.len() {
            let adjacent = match board.cells[index].adjacent_mines {
                Some(n) => n,
                None => 0,
            };
            if !board.cells[index].mine && adjacent > 0 {
                if board.cells[index].owner_id.is_none() {
                    let ghost before = board.cells@;
                    let mut cell = board.cells.remove(index);
                    cell.owner_id = Some(String::from_str(player_id));
                    board.cells.insert(index, cell);
                    proof {
                        assert(board.cells@ =~= before.update(index as int, cell));
                    }
                }
                score = score + 1;
            }
        }
        k = k + 1;
    }
    proof {
        assert(revealed@.take(k as int) == revealed@);
    }
    score
}


/// The board of a room snapshot keeps its shape.
pub open spec fn same_board_shape(before: RoomMinesweeperSnapshot, after: RoomMinesweeperSnapshot) -> bool {
    &&& after.width == before.width
    &&& after.height == before.height
    &&& after.mines == before.mines
    &&& after.starting_cells == before.starting_cells
    &&& after.cells.len() == before.cells.len()
}

/// Marks a mine as set off by the player.
fn detonate_snapshot_cell(board: &mut RoomMinesweeperSnapshot, index: usize, player_id: &str)
    requires
        index < old(board).cells.len(),
    ensures
        same_board_shape(*old(board), *final(board)),
        final(board).cells@ == old(board).cells@.update(
            index as int,
            RoomMinesweeperCellSnapshot {
                revealed: true,
                detonated: true,
                owner_id: final(board).cells@[index as int].owner_id,
                ..old(board).cells@[index as int]
            },
        ),
        owned_by(final(board).cells@[index as int].owner_id, player_id@),
{
    let ghost before = board.cells@;
    let mut cell = board.cells.remove(index);
    cell.revealed = true;
    cell.detonated = true;
    cell.owner_id = Some(String::from_str(player_id));
    board.cells.insert(index, cell);
    proof {
        assert(board.cells@ =~= before.update(index as int, cell));
    }
}

/// Reveals cell `index` for the player on their own copy of the board: a flagged, open or
/// missing cell is left alone; a mine is set off and eliminates the player; a safe cell
/// opens its safe area, whose numbered cells score. Returns the score and whether the
/// player is eliminated.
fn optimistic_room_minesweeper_reveal_board(
    board: &mut RoomMinesweeperSnapshot,
    index: usize,
    own_flags: &BTreeSet<usize>,
    player_id: &str,
) -> (result: (u32, bool))
    requires
        old(board).width * old(board).height <= usize::MAX,
        old(board).cells.len() <= u32::MAX,
    ensures
        reveal_board_outcome(*old(board), *final(board), index, own_flags@, player_id@, result),
        same_board_shape(*old(board), *final(board)),
        index >= old(board).cells.len() || old(board).cells@[index as int].revealed || own_flags@.contains(index)
            ==> result == (0u32, false) && *final(board) == *old(board),
        index < old(board).cells.len() && !old(board).cells@[index as int].revealed && !own_flags@.contains(index)
            && old(board).cells@[index as int].mine ==> result == (0u32, true) && final(board).cells@[index as int].detonated
            && owned_by(final(board).cells@[index as int].owner_id, player_id@),
        index < old(board).cells.len() && !old(board).cells@[index as int].revealed && !own_flags@.contains(index)
            && !old(board).cells@[index as int].mine ==> !result.1 && final(board).cells@[index as int].revealed,
{
    if index >= board.cells.len() {
        return (0, false);
    }
    if board.cells[index].revealed || own_flags.contains(&index) {
        return (0, false);
    }
    if board.cells[index].mine {
        detonate_snapshot_cell(board, index, player_id);
        return (0, true);
    }
    let revealed = optimistic_room_minesweeper_reveal_safe_cells(board, index, own_flags);
    let ghost opened = board.cells@;
    let score = optimistic_room_minesweeper_score_and_claim_revealed_cells(board, &revealed, player_id);
    proof {
        assert(opened[index as int].revealed);
        assert(board.cells@[index as int].revealed == opened[index as int].revealed);
    }
    (score, false)
}

/// What an optimistic reveal of `index` does to the player's board: nothing on a cell that
/// is off the board, open or flagged; a mine is set off by the player and eliminates them; a
/// safe cell is opened.
pub open spec fn reveal_board_outcome(
    before: RoomMinesweeperSnapshot,
    after: RoomMinesweeperSnapshot,
    index: usize,
    own: Set<usize>,
    id: Seq<char>,
    result: (u32, bool),
) -> bool {
    &&& same_board_shape(before, after)
    &&& index >= before.cells.len() || before.cells@[index as int].revealed || own.contains(index) ==> result == (
        0u32,
        false,
    ) && after == before
    &&& index < before.cells.len() && !before.cells@[index as int].revealed && !own.contains(index)
        && before.cells@[index as int].mine ==> result == (0u32, true) && after.cells@[index as int].detonated
        && owned_by(after.cells@[index as int].owner_id, id)
    &&& index < before.cells.len() && !before.cells@[index as int].revealed && !own.contains(index)
        && !before.cells@[index as int].mine ==> !result.1 && after.cells@[index as int].revealed
}

/// What an optimistic chord on `index` does to the player's board: nothing unless the chord
/// goes ahead; then a mine among the cells it opens is set off and eliminates the player,
/// or else all those cells are opened.
pub open spec fn chord_board_outcome(
    before: RoomMinesweeperSnapshot,
    after: RoomMinesweeperSnapshot,
    index: usize,
    own: Set<usize>,
    id: Seq<char>,
    result: (u32, bool),
) -> bool {
    &&& same_board_shape(before, after)
    &&& !chord_fires(before, index, own, id) ==> result == (0u32, false) && after == before
    &&& chord_fires(before, index, own, id) ==> (result.1 <==> exists|x: usize|
        chord_opens(before, index, own, id, x) && #[trigger] before.cells@[x as int].mine)
    &&& result.1 ==> result.0 == 0 && exists|x: usize|
        chord_opens(before, index, own, id, x) && #[trigger] before.cells@[x as int].mine
            && after.cells@[x as int].detonated && after.cells@[x as int].revealed
    &&& chord_fires(before, index, own, id) && !result.1 ==> forall|x: usize|
        chord_opens(before, index, own, id, x) ==> #[trigger] after.cells@[x as int].revealed
}

/// The flags a player has set, by the first entry with their id; none without one.
pub open spec fn own_flag_set(players: Seq<RoomPlayerSnapshot>, id: Seq<char>) -> Set<usize> {
    let i = first_snapshot_player_from(players, id, 0);
    if 0 <= i < players.len() {
        players[i].minesweeper_flags@.to_set()
    } else {
        Set::<usize>::empty()
    }
}

/// How the outcome of a move is recorded on the players: only the mover's entry changes, by
/// a saturating score gain and an elimination.
pub open spec fn result_applied(
    before: Seq<RoomPlayerSnapshot>,
    after: Seq<RoomPlayerSnapshot>,
    id: Seq<char>,
    score_delta: u32,
    eliminated: bool,
) -> bool {
    let i = first_snapshot_player_from(before, id, 0);
    &&& after.len() == before.len()
    &&& score_delta == 0 && !eliminated ==> after == before
    &&& forall|k: int| 0 <= k < after.len() && k != i ==> #[trigger] after[k] == before[k]
    &&& 0 <= i < before.len() && (score_delta > 0 || eliminated) ==> {
        let b = before[i];
        let a = after[i];
        &&& only_scores_changed(b, a)
        &&& score_delta > 0 ==> a.minesweeper_score == if b.minesweeper_score + score_delta > u32::MAX {
            u32::MAX
        } else {
            (b.minesweeper_score + score_delta) as u32
        }
        &&& score_delta == 0 ==> a.minesweeper_score == b.minesweeper_score && a.minesweeper_last_score_ms
            == b.minesweeper_last_score_ms
        &&& a.minesweeper_eliminated == (b.minesweeper_eliminated || eliminated)
    }
}

/// How many entries of the list are in the set (an entry listed twice counts twice).
pub open spec fn count_members(cells: Seq<usize>, set: Set<usize>) -> nat
    decreases cells.len(),
{
    if cells.len() == 0 {
        0
    } else {
        count_members(cells.drop_last(), set) + if set.contains(cells.last()) {
            1nat
        } else {
            0nat
        }
    }
}

/// How many of the listed cells are in the set.
fn count_in_set(cells: &Vec<usize>, set: &BTreeSet<usize>) -> (n: usize)
    ensures
        n == count_members(cells@, set@),
        n <= cells.len(),
{
    let mut n: usize = 0;
    let mut k: usize = 0;
    while k < cells.len()
        invariant
            k <= cells.len(),
            n <= k,
            n == count_members(cells@.take(k as int), set@),
        decreases cells.len() - k,
    {
        proof {
            assert(cells@.take(k + 1).drop_last() == cells@.take(k as int));
        }
        if set.contains(&cells[k]) {
            n = n + 1;
        }
        k = k + 1;
    }
    proof {
        assert(cells@.take(k as int) == cells@);
    }
    n
}

/// The cells that count as flagged when the player chords on this board: their own flags
/// and every mine another player set off.
pub open spec fn chord_flag_set(cells: Seq<RoomMinesweeperCellSnapshot>, own: Set<usize>, id: Seq<char>) -> Set<usize> {
    own.union(
        Set::new(
            |i: usize|
                i < cells.len() && cells[i as int].revealed && cells[i as int].mine && cells[i as int].detonated
                    && owner_differs(cells[i as int].owner_id, id),
        ),
    )
}

/// A neighbour of `index` that a chord there opens: not counted as flagged, and closed.
pub open spec fn chord_opens(board: RoomMinesweeperSnapshot, index: usize, own: Set<usize>, id: Seq<char>, x: usize) -> bool {
    &&& room_neighbors_spec(board.width as int, board.height as int, board.cells.len() as int, index as int).contains(x)
    &&& !chord_flag_set(board.cells@, own, id).contains(x)
    &&& x < board.cells.len()
    &&& !board.cells@[x as int].revealed
}

/// A chord on `index` goes ahead: the cell can be chorded and exactly its number of
/// neighbours count as flagged.
pub open spec fn chord_fires(board: RoomMinesweeperSnapshot, index: usize, own: Set<usize>, id: Seq<char>) -> bool {
    &&& chord_target_spec(board.cells@, index as int)
    &&& count_members(
        room_neighbors_spec(board.width as int, board.height as int, board.cells.len() as int, index as int),
        chord_flag_set(board.cells@, own, id),
    ) == board.cells@[index as int].adjacent_mines->0
}

/// Chords cell `index` for the player on their own copy of the board: when the cell is open,
/// safe, numbered, and exactly that many neighbours count as flagged (the player's flags and
/// mines others set off), every other closed neighbour is opened; a mine among them is set
/// off instead and eliminates the player. Returns the score and whether the player is
/// eliminated.
fn optimistic_room_minesweeper_chord_board(
    board: &mut RoomMinesweeperSnapshot,
    index: usize,
    own_flags: &BTreeSet<usize>,
    player_id: &str,
) -> (result: (u32, bool))
    requires
        old(board).width * old(board).height <= usize::MAX,
        old(board).cells.len() <= u32::MAX,
    ensures
        chord_board_outcome(*old(board), *final(board), index, own_flags@, player_id@, result),
        same_board_shape(*old(board), *final(board)),
        !chord_target_spec(old(board).cells@, index as int) ==> result == (0u32, false) && *final(board) == *old(board),
        !chord_fires(*old(board), index, own_flags@, player_id@) ==> result == (0u32, false) && *final(board)
            == *old(board),
        chord_fires(*old(board), index, own_flags@, player_id@) ==> (result.1 <==> exists|x: usize|
            chord_opens(*old(board), index, own_flags@, player_id@, x) && #[trigger] old(board).cells@[x as int].mine),
        result.1 ==> result.0 == 0 && exists|x: usize|
            chord_opens(*old(board), index, own_flags@, player_id@, x) && #[trigger] old(board).cells@[x as int].mine
                && final(board).cells@[x as int].detonated && final(board).cells@[x as int].revealed,
        chord_fires(*old(board), index, own_flags@, player_id@) && !result.1 ==> forall|x: usize|
            chord_opens(*old(board), index, own_flags@, player_id@, x) ==> #[trigger] final(board).cells@[x as int].revealed,
{
    if room_minesweeper_chord_target(board, index).is_none() {
        return (0, false);
    }
    let adjacent = match board.cells[index].adjacent_mines {
        Some(n) => n,
        None => 0,
    };
    let neighbors = room_minesweeper_neighbors(board, index);
    let chord_flags = room_minesweeper_chord_flags(&board.cells, own_flags, player_id);
    let flagged_neighbors = count_in_set(&neighbors, &chord_flags);
    proof {
        assert(chord_flags@ =~= chord_flag_set(old(board).cells@, own_flags@, player_id@));
    }
    if flagged_neighbors != adjacent as usize {
        return (0, false);
    }
    let ghost start = *board;
    let mut targets: Vec<usize> = Vec::new();
    let mut k: usize = 0;
    while k < neighbors.len()
        invariant
            *board == *old(board),
            start == *old(board),
            chord_target_spec(old(board).cells@, index as int),
            neighbors@ == room_neighbors_spec(board.width as int, board.height as int, board.cells.len() as int, index as int),
            chord_flags@ == chord_flag_set(old(board).cells@, own_flags@, player_id@),
            k <= neighbors.len(),
            forall|t: int| 0 <= t < targets.len() ==> (#[trigger] targets@[t]) < board.cells.len(),
            forall|t: int| 0 <= t < targets.len() ==> chord_opens(start, index, own_flags@, player_id@, #[trigger] targets@[t]),
            forall|x: usize| chord_opens(start, index, own_flags@, player_id@, x) && #[trigger] neighbors@.take(k as int).contains(x)
                ==> targets@.contains(x),
        decreases neighbors.len() - k,
    {
        let neighbor = neighbors[k];
        let ghost old_targets = targets@;
        if !chord_flags.contains(&neighbor) && neighbor < board.cells.len() && !board.cells[neighbor].revealed {
            targets.push(neighbor);
        }
        proof {
            assert(forall|t: int| 0 <= t < old_targets.len() ==> targets@[t] == #[trigger] old_targets[t]);
            assert forall|x: usize| chord_opens(start, index, own_flags@, player_id@, x) && #[trigger] neighbors@.take(k + 1).contains(x)
                implies targets@.contains(x) by {
                let j = choose|j: int| 0 <= j < k + 1 && #[trigger] neighbors@.take(k + 1)[j] == x;
                if j < k {
                    assert(neighbors@.take(k as int)[j] == x);
                    assert(neighbors@.take(k as int).contains(x));
                    let t = choose|t: int| 0 <= t < old_targets.len() && #[trigger] old_targets[t] == x;
                    assert(targets@[t] == x);
                } else {
                    assert(neighbor == x);
                    assert(!chord_flags@.contains(x));
                    assert(targets@[targets.len() - 1] == x);
                }
            }
        }
        k = k + 1;
    }
    proof {
        assert(neighbors@.take(k as int) == neighbors@);
        assert(chord_fires(start, index, own_flags@, player_id@));
        assert forall|x: usize| chord_opens(start, index, own_flags@, player_id@, x) implies #[trigger] targets@.contains(x) by {
            assert(neighbors@.take(k as int).contains(x));
        }
    }
    let mut k: usize = 0;
    while k < targets.len()
        invariant
            *board == *old(board),
            start == *old(board),
            chord_target_spec(old(board).cells@, index as int),
            k <= targets.len(),
            forall|t: int| 0 <= t < targets.len() ==> (#[trigger] targets@[t]) < board.cells.len(),
            forall|t: int| 0 <= t < k ==> !old(board).cells@[#[trigger] targets@[t] as int].mine,
            chord_fires(start, index, own_flags@, player_id@),
            forall|t: int| 0 <= t < targets.len() ==> chord_opens(start, index, own_flags@, player_id@, #[trigger] targets@[t]),
            forall|x: usize| chord_opens(start, index, own_flags@, player_id@, x) ==> #[trigger] targets@.contains(x),
        decreases targets.len() - k,
    {
        if board.cells[targets[k]].mine {
            proof {
                assert(chord_opens(start, index, own_flags@, player_id@, targets@[k as int]));
            }
            detonate_snapshot_cell(board, targets[k], player_id);
            return (0, true);
        }
        k = k + 1;
    }
    proof {
        assert forall|x: usize| chord_opens(start, index, own_flags@, player_id@, x) implies !#[trigger] old(board).cells@[x as int].mine by {
            assert(targets@.contains(x));
            let j = choose|j: int| 0 <= j < targets.len() && #[trigger] targets@[j] == x;
        }
    }
    let mut score_delta: u32 = 0;
    let mut k: usize = 0;
    while k < targets.len()
        invariant
            k <= targets.len(),
            same_board_shape(*old(board), *board),
            start == *old(board),
            board.width * board.height <= usize::MAX,
            board.cells.len() <= u32::MAX,
            forall|t: int| 0 <= t < targets.len() ==> chord_opens(start, index, own_flags@, player_id@, #[trigger] targets@[t]),
            forall|x: usize| chord_opens(start, index, own_flags@, player_id@, x) ==> !#[trigger] old(board).cells@[x as int].mine,
            forall|i: int| 0 <= i < board.cells.len() ==> #[trigger] board.cells@[i].mine == old(board).cells@[i].mine,
            forall|t: int| 0 <= t < k ==> board.cells@[#[trigger] targets@[t] as int].revealed,
            forall|x: usize| chord_opens(start, index, own_flags@, player_id@, x) ==> #[trigger] targets@.contains(x),
        decreases targets.len() - k,
    {
        let ghost before = board.cells@;
        let revealed = optimistic_room_minesweeper_reveal_safe_cells(board, targets[k], own_flags);
        let ghost mid = board.cells@;
        proof {
            let x = targets@[k as int];
            assert(chord_opens(start, index, own_flags@, player_id@, x));
            assert(!own_flags@.contains(x));
            assert forall|i: int| 0 <= i < before.len() implies (before[i].revealed ==> #[trigger] mid[i].revealed)
                && mid[i].mine == before[i].mine by {
                if revealed@.contains(i as usize) {
                } else {
                }
            }
            assert(mid[x as int].revealed);
        }
        let gained = optimistic_room_minesweeper_score_and_claim_revealed_cells(board, &revealed, player_id);
        score_delta = score_delta.saturating_add(gained);
        k = k + 1;
    }
    (score_delta, false)
}

/// Time since the race started, by the given clock; none outside a race.
fn room_minesweeper_elapsed_ms<F: FnOnce() -> u64>(phase: &RoomPhase, now_ms: F) -> (elapsed: Option<u64>)
    requires
        now_ms.requires(()),
    ensures
        !(*phase is Racing) ==> elapsed is None,
        *phase is Racing ==> exists|now: u64| now_ms.ensures((), now) && elapsed == Some(
            if now >= phase->Racing_started_at_ms {
                (now - phase->Racing_started_at_ms) as u64
            } else {
                0u64
            },
        ),
{
    match phase {
        RoomPhase::Racing { started_at_ms } => {
            let now = now_ms();
            Some(now.saturating_sub(*started_at_ms))
        },
        _ => None,
    }
}

/// The players of a snapshot are unchanged but for the scoring fields of one.
pub open spec fn only_scores_changed(before: RoomPlayerSnapshot, after: RoomPlayerSnapshot) -> bool {
    &&& after.id == before.id
    &&& after.name == before.name
    &&& after.ready == before.ready
    &&& after.connected == before.connected
    &&& after.finish_ms == before.finish_ms
    &&& after.gave_up == before.gave_up
    &&& after.medals == before.medals
    &&& after.minesweeper_flags == before.minesweeper_flags
    &&& after.pointer == before.pointer
}

/// Records the outcome of a move for the player: a positive score is added (saturating) and
/// stamped with the race time; an elimination is marked.
fn optimistic_room_minesweeper_apply_result<F: FnOnce() -> u64>(
    snapshot: &mut RoomSnapshot,
    player_id: &str,
    score_delta: u32,
    eliminated: bool,
    now_ms: F,
)
    requires
        now_ms.requires(()),
    ensures
        *final(snapshot) == (RoomSnapshot { players: final(snapshot).players, ..*old(snapshot) }),
        result_applied(old(snapshot).players@, final(snapshot).players@, player_id@, score_delta, eliminated),
        final(snapshot).minesweeper == old(snapshot).minesweeper,
        final(snapshot).phase == old(snapshot).phase,
        final(snapshot).players.len() == old(snapshot).players.len(),
        score_delta == 0 && !eliminated ==> final(snapshot).players@ == old(snapshot).players@,
        ({
            let i = first_snapshot_player_from(old(snapshot).players@, player_id@, 0);
            forall|k: int|
                0 <= k < final(snapshot).players.len() && k != i ==> #[trigger] final(snapshot).players@[k] == old(
                    snapshot,
                ).players@[k]
        }),
        ({
            let i = first_snapshot_player_from(old(snapshot).players@, player_id@, 0);
            0 <= i < old(snapshot).players.len() && (score_delta > 0 || eliminated) ==> {
                let b = old(snapshot).players@[i];
                let a = final(snapshot).players@[i];
                &&& only_scores_changed(b, a)
                &&& score_delta > 0 ==> a.minesweeper_score == if b.minesweeper_score + score_delta > u32::MAX {
                    u32::MAX
                } else {
                    (b.minesweeper_score + score_delta) as u32
                }
                &&& score_delta == 0 ==> a.minesweeper_score == b.minesweeper_score
                    && a.minesweeper_last_score_ms == b.minesweeper_last_score_ms
                &&& a.minesweeper_eliminated == (b.minesweeper_eliminated || eliminated)
            }
        }),
{
    if score_delta == 0 && !eliminated {
        return;
    }
    let score_elapsed_ms = room_minesweeper_elapsed_ms(&snapshot.phase, now_ms);
    let i = match find_snapshot_player(&snapshot.players, player_id) {
        Some(i) => i,
        None => {
            return;
        },
    };
    let ghost before = snapshot.players@;
    let mut player = snapshot.players.remove(i);
    if score_delta > 0 {
        player.minesweeper_score = player.minesweeper_score.saturating_add(score_delta);
        player.minesweeper_last_score_ms = score_elapsed_ms;
    }
    if eliminated {
        player.minesweeper_eliminated = true;
    }
    snapshot.players.insert(i, player);
    proof {
        assert(snapshot.players@ =~= before.update(i as int, player));
    }
}

/// Reveals a cell for the player at once, before the server answers, when the player may act
/// and has not flagged it.
pub fn optimistic_room_minesweeper_reveal_snapshot<F: FnOnce() -> u64>(
    snapshot: &mut RoomSnapshot,
    player_id: &str,
    index: usize,
    now_ms: F,
)
    requires
        now_ms.requires(()),
        old(snapshot).minesweeper matches Some(b) ==> b.width * b.height <= usize::MAX && b.cells.len() <= u32::MAX,
    ensures
        !can_act_spec(old(snapshot).phase, old(snapshot).players@, player_id@) ==> *final(snapshot) == *old(snapshot),
        old(snapshot).minesweeper is None ==> *final(snapshot) == *old(snapshot),
        final(snapshot).phase == old(snapshot).phase,
        final(snapshot).players.len() == old(snapshot).players.len(),
        final(snapshot).minesweeper is Some == old(snapshot).minesweeper is Some,
        can_act_spec(old(snapshot).phase, old(snapshot).players@, player_id@) && old(snapshot).minesweeper is Some
            && (!own_flag_set(old(snapshot).players@, player_id@).contains(index)) ==> exists|b: RoomMinesweeperSnapshot, r: (u32, bool)|
            #![trigger reveal_board_outcome(old(snapshot).minesweeper->0, b, index, own_flag_set(old(snapshot).players@, player_id@), player_id@, r)]
            reveal_board_outcome(old(snapshot).minesweeper->0, b, index, own_flag_set(old(snapshot).players@, player_id@), player_id@, r)
                && final(snapshot).minesweeper == Some(b) && result_applied(old(snapshot).players@, final(snapshot).players@, player_id@, r.0, r.1)
                && *final(snapshot) == (RoomSnapshot {
                minesweeper: final(snapshot).minesweeper,
                players: final(snapshot).players,
                ..*old(snapshot)
            }),
        own_flag_set(old(snapshot).players@, player_id@).contains(index) ==> *final(snapshot) == *old(snapshot),
{
    if !room_minesweeper_can_act(&snapshot.phase, &snapshot.players, player_id) {
        return;
    }
    let own_flags = room_minesweeper_own_flags(&snapshot.players, player_id);
    if own_flags.contains(&index) {
        return;
    }
    let ghost before = *snapshot;
    proof {
        assert(own_flags@ == own_flag_set(before.players@, player_id@));
    }
    let mut board = match snapshot.minesweeper.take() {
        Some(b) => b,
        None => {
            return;
        },
    };
    let ghost board_before = board;
    let (score_delta, eliminated) = optimistic_room_minesweeper_reveal_board(&mut board, index, &own_flags, player_id);
    proof {
        assert(reveal_board_outcome(board_before, board, index, own_flag_set(before.players@, player_id@), player_id@, (score_delta, eliminated)));
    }
    snapshot.minesweeper = Some(board);
    optimistic_room_minesweeper_apply_result(snapshot, player_id, score_delta, eliminated, now_ms);
}

/// The flags in increasing order (repeats kept), as a sort would leave them.
fn sort_flags(v: &Vec<usize>) -> (sorted: Vec<usize>)
    ensures
        sorted.len() == v.len(),
        forall|a: int, b: int| 0 <= a <= b < sorted.len() ==> sorted@[a] <= sorted@[b],
        sorted@.to_multiset() == v@.to_multiset(),
{
    broadcast use vstd::seq_lib::group_to_multiset_ensures;

    let mut sorted: Vec<usize> = Vec::new();
    let mut i: usize = 0;
    while i < v.len()
        invariant
            i <= v.len(),
            sorted.len() == i,
            forall|a: int, b: int| 0 <= a <= b < sorted.len() ==> sorted@[a] <= sorted@[b],
            sorted@.to_multiset() == v@.take(i as int).to_multiset(),
        decreases v.len() - i,
    {
        let x = v[i];
        let mut at: usize = 0;
        while at < sorted.len() && sorted[at] <= x
            invariant
                at <= sorted.len(),
                forall|k: int| 0 <= k < at ==> sorted@[k] <= x,
            decreases sorted.len() - at,
        {
            at = at + 1;
        }
        let ghost before = sorted@;
        sorted.insert(at, x);
        proof {
            assert(sorted@ == before.insert(at as int, x));
            assert forall|a: int, b: int| 0 <= a <= b < sorted.len() implies sorted@[a] <= sorted@[b] by {
                if b < at {
                } else if b == at {
                    if a < at {
                        assert(sorted@[a] == before[a]);
                    }
                } else if a < at {
                    assert(sorted@[a] == before[a] && sorted@[b] == before[b - 1]);
                } else if a == at {
                    assert(sorted@[b] == before[b - 1]);
                    assert(before[at as int] > x);
                    assert(before[at as int] <= before[b - 1]);
                } else {
                    assert(sorted@[a] == before[a - 1] && sorted@[b] == before[b - 1]);
                }
            }
            assert(v@.take(i + 1) == v@.take(i as int).push(x));
            vstd::seq_lib::to_multiset_insert(before, at as int, x);
            vstd::seq_lib::to_multiset_build(v@.take(i as int), x);
        }
        i = i + 1;
    }
    proof {
        assert(v@.take(i as int) == v@);
    }
    sorted
}

/// What toggling flag `index` does to a player's flag list: the first copy of a present flag
/// is removed; an absent one is added and the list sorted.
pub open spec fn toggled_flags(before: Seq<usize>, after: Seq<usize>, index: usize) -> bool {
    if before.contains(index) {
        exists|p: int|
            0 <= p < before.len() && before[p] == index && (forall|j: int| 0 <= j < p ==> before[j] != index)
                && after == #[trigger] before.remove(p)
    } else {
        &&& forall|a: int, b: int| 0 <= a <= b < after.len() ==> after[a] <= after[b]
        &&& after.to_multiset() == before.push(index).to_multiset()
    }
}

/// The room has a board and cell `index` of it is closed.
pub open spec fn closed_cell(board: Option<RoomMinesweeperSnapshot>, index: usize) -> bool {
    match board {
        Some(b) => index < b.cells.len() && !b.cells@[index as int].revealed,
        None => false,
    }
}

/// Toggles the player's flag on a closed cell at once, before the server answers.
pub fn optimistic_room_minesweeper_toggle_flag_snapshot(snapshot: &mut RoomSnapshot, player_id: &str, index: usize)
    ensures
        final(snapshot).minesweeper == old(snapshot).minesweeper,
        final(snapshot).phase == old(snapshot).phase,
        final(snapshot).players.len() == old(snapshot).players.len(),
        ({
            let i = first_snapshot_player_from(old(snapshot).players@, player_id@, 0);
            let acts = can_act_spec(old(snapshot).phase, old(snapshot).players@, player_id@) && closed_cell(
                old(snapshot).minesweeper,
                index,
            );
            &&& !acts ==> *final(snapshot) == *old(snapshot)
            &&& acts ==> {
                &&& forall|k: int|
                    0 <= k < final(snapshot).players.len() && k != i ==> #[trigger] final(snapshot).players@[k]
                        == old(snapshot).players@[k]
                &&& toggled_flags(
                    old(snapshot).players@[i].minesweeper_flags@,
                    final(snapshot).players@[i].minesweeper_flags@,
                    index,
                )
                &&& final(snapshot).players@[i] == (RoomPlayerSnapshot {
                    minesweeper_flags: final(snapshot).players@[i].minesweeper_flags,
                    ..old(snapshot).players@[i]
                })
            }
        }),
{
    if !room_minesweeper_can_act(&snapshot.phase, &snapshot.players, player_id) {
        return;
    }
    let closed = match &snapshot.minesweeper {
        Some(board) => index < board.cells.len() && !board.cells[index].revealed,
        None => false,
    };
    if !closed {
        return;
    }
    let i = match find_snapshot_player(&snapshot.players, player_id) {
        Some(i) => i,
        None => {
            return;
        },
    };
    let ghost before = snapshot.players@;
    let mut player = snapshot.players.remove(i);
    let ghost flags = player.minesweeper_flags@;
    let mut position: usize = 0;
    while position < player.minesweeper_flags.len() && player.minesweeper_flags[position] != index
        invariant
            player.minesweeper_flags@ == flags,
            position <= player.minesweeper_flags.len(),
            forall|j: int| 0 <= j < position ==> flags[j] != index,
        decreases player.minesweeper_flags.len() - position,
    {
        position = position + 1;
    }
    if position < player.minesweeper_flags.len() {
        player.minesweeper_flags.remove(position);
        proof {
            assert(flags.contains(index));
            assert(player.minesweeper_flags@ == flags.remove(position as int));
        }
    } else {
        proof {
            assert(!flags.contains(index));
        }
        player.minesweeper_flags.push(index);
        let sorted = sort_flags(&player.minesweeper_flags);
        player.minesweeper_flags = sorted;
    }
    snapshot.players.insert(i, player);
    proof {
        assert(snapshot.players@ =~= before.update(i as int, player));
    }
}


/// Chords a cell for the player at once, before the server answers, when the player may act.
pub fn optimistic_room_minesweeper_chord_snapshot<F: FnOnce() -> u64>(
    snapshot: &mut RoomSnapshot,
    player_id: &str,
    index: usize,
    now_ms: F,
)
    requires
        now_ms.requires(()),
        old(snapshot).minesweeper matches Some(b) ==> b.width * b.height <= usize::MAX && b.cells.len() <= u32::MAX,
    ensures
        !can_act_spec(old(snapshot).phase, old(snapshot).players@, player_id@) ==> *final(snapshot) == *old(snapshot),
        old(snapshot).minesweeper is None ==> *final(snapshot) == *old(snapshot),
        final(snapshot).phase == old(snapshot).phase,
        final(snapshot).players.len() == old(snapshot).players.len(),
        final(snapshot).minesweeper is Some == old(snapshot).minesweeper is Some,
        can_act_spec(old(snapshot).phase, old(snapshot).players@, player_id@) && old(snapshot).minesweeper is Some ==> exists|b: RoomMinesweeperSnapshot, r: (u32, bool)|
            #![trigger chord_board_outcome(old(snapshot).minesweeper->0, b, index, own_flag_set(old(snapshot).players@, player_id@), player_id@, r)]
            chord_board_outcome(old(snapshot).minesweeper->0, b, index, own_flag_set(old(snapshot).players@, player_id@), player_id@, r)
                && final(snapshot).minesweeper == Some(b) && result_applied(old(snapshot).players@, final(snapshot).players@, player_id@, r.0, r.1)
                && *final(snapshot) == (RoomSnapshot {
                minesweeper: final(snapshot).minesweeper,
                players: final(snapshot).players,
                ..*old(snapshot)
            }),
{
    if !room_minesweeper_can_act(&snapshot.phase, &snapshot.players, player_id) {
        return;
    }
    let own_flags = room_minesweeper_own_flags(&snapshot.players, player_id);
    let ghost before = *snapshot;
    proof {
        assert(own_flags@ == own_flag_set(before.players@, player_id@));
    }
    let mut board = match snapshot.minesweeper.take() {
        Some(b) => b,
        None => {
            return;
        },
    };
    let ghost board_before = board;
    let (score_delta, eliminated) = optimistic_room_minesweeper_chord_board(&mut board, index, &own_flags, player_id);
    proof {
        assert(chord_board_outcome(board_before, board, index, own_flag_set(before.players@, player_id@), player_id@, (score_delta, eliminated)));
    }
    snapshot.minesweeper = Some(board);
    optimistic_room_minesweeper_apply_result(snapshot, player_id, score_delta, eliminated, now_ms);
}

/// Both snapshots show the same running Minesweeper race.
pub open spec fn same_race_spec(current: &RoomSnapshot, next: &RoomSnapshot) -> bool {
    &&& current.game_kind == next.game_kind
    &&& current.game_kind == crate::room::RoomGameKind::Minesweeper
    &&& current.phase is Racing
    &&& next.phase is Racing
    &&& current.phase->Racing_started_at_ms == next.phase->Racing_started_at_ms
}

fn same_active_minesweeper_race(current: &RoomSnapshot, next: &RoomSnapshot) -> (b: bool)
    ensures
        b == same_race_spec(current, next),
{
    if current.game_kind != next.game_kind || current.game_kind != crate::room::RoomGameKind::Minesweeper {
        return false;
    }
    match (&current.phase, &next.phase) {
        (RoomPhase::Racing { started_at_ms: a }, RoomPhase::Racing { started_at_ms: b }) => *a == *b,
        _ => false,
    }
}

/// Two boards of the same game: same size, mines, starting cells and cell count.
pub open spec fn same_board_spec(current: &RoomMinesweeperSnapshot, next: &RoomMinesweeperSnapshot) -> bool {
    &&& current.width == next.width
    &&& current.height == next.height
    &&& current.mines == next.mines
    &&& current.starting_cells@ == next.starting_cells@
    &&& current.cells.len() == next.cells.len()
}

fn same_minesweeper_board(current: &RoomMinesweeperSnapshot, next: &RoomMinesweeperSnapshot) -> (b: bool)
    ensures
        b == same_board_spec(current, next),
{
    if current.width != next.width || current.height != next.height || current.mines != next.mines
        || current.cells.len() != next.cells.len() || current.starting_cells.len() != next.starting_cells.len() {
        return false;
    }
    let mut k: usize = 0;
    while k < current.starting_cells.len()
        invariant
            current.starting_cells.len() == next.starting_cells.len(),
            k <= current.starting_cells.len(),
            forall|j: int| 0 <= j < k ==> current.starting_cells@[j] == next.starting_cells@[j],
        decreases current.starting_cells.len() - k,
    {
        if current.starting_cells[k] != next.starting_cells[k] {
            return false;
        }
        k = k + 1;
    }
    proof {
        assert(current.starting_cells@ =~= next.starting_cells@);
    }
    true
}

/// A cell of the newer board after merging in the older one: a cell the player opened
/// optimistically stays open, with the older detonation and owner.
pub open spec fn merged_cell(current: RoomMinesweeperCellSnapshot, next: RoomMinesweeperCellSnapshot) -> RoomMinesweeperCellSnapshot {
    if current.revealed && !next.revealed {
        RoomMinesweeperCellSnapshot {
            revealed: true,
            detonated: current.detonated,
            owner_id: current.owner_id,
            ..next
        }
    } else {
        next
    }
}

/// What merging keeps of the player's own board: a board of another shape is taken as it
/// is; otherwise each cell is merged.
pub open spec fn board_merged(current: RoomMinesweeperSnapshot, before: RoomMinesweeperSnapshot, after: RoomMinesweeperSnapshot) -> bool {
    &&& !same_board_spec(&current, &before) ==> after == before
    &&& same_board_spec(&current, &before) ==> {
        &&& same_board_shape(before, after)
        &&& forall|i: int|
            0 <= i < after.cells.len() ==> #[trigger] after.cells@[i] == merged_cell(current.cells@[i], before.cells@[i])
    }
}

fn merge_optimistic_room_minesweeper_board(current: &RoomMinesweeperSnapshot, next: &mut RoomMinesweeperSnapshot)
    ensures
        board_merged(*current, *old(next), *final(next)),
{
    if !same_minesweeper_board(current, next) {
        return;
    }
    let mut k: usize = 0;
    while k < current.cells.len()
        invariant
            same_board_spec(current, old(next)),
            same_board_shape(*old(next), *next),
            k <= current.cells.len(),
            forall|i: int|
                0 <= i < next.cells.len() ==> #[trigger] next.cells@[i] == if i < k {
                    merged_cell(current.cells@[i], old(next).cells@[i])
                } else {
                    old(next).cells@[i]
                },
        decreases current.cells.len() - k,
    {
        let cur = &current.cells[k];
        if cur.revealed && !next.cells[k].revealed {
            let owner = match &cur.owner_id {
                Some(o) => Some(o.clone()),
                None => None,
            };
            let ghost before = next.cells@;
            let mut cell = next.cells.remove(k);
            cell.revealed = true;
            cell.detonated = cur.detonated;
            cell.owner_id = owner;
            next.cells.insert(k, cell);
            proof {
                assert(next.cells@ =~= before.update(k as int, cell));
            }
        }
        k = k + 1;
    }
}

/// The player's own standing after merging: their flags as they see them, the better
/// score with its time, and eliminated if either copy says so.
/// What merging keeps of the player's own entry: their flags, the better score with its
/// time, and an elimination; every other entry is taken as it is.
pub open spec fn player_merged(current: Seq<RoomPlayerSnapshot>, before: Seq<RoomPlayerSnapshot>, after: Seq<RoomPlayerSnapshot>, id: Seq<char>) -> bool {
    let c = first_snapshot_player_from(current, id, 0);
    let n = first_snapshot_player_from(before, id, 0);
    &&& after.len() == before.len()
    &&& (c >= current.len() || n >= before.len()) ==> after == before
    &&& (c < current.len() && n < before.len()) ==> {
        let cp = current[c];
        let np = before[n];
        let fp = after[n];
        &&& forall|k: int| 0 <= k < after.len() && k != n ==> #[trigger] after[k] == before[k]
        &&& fp.minesweeper_flags@ == cp.minesweeper_flags@
        &&& fp.minesweeper_score == if cp.minesweeper_score > np.minesweeper_score {
            cp.minesweeper_score
        } else {
            np.minesweeper_score
        }
        &&& fp.minesweeper_last_score_ms == if cp.minesweeper_score > np.minesweeper_score {
            cp.minesweeper_last_score_ms
        } else {
            np.minesweeper_last_score_ms
        }
        &&& fp.minesweeper_eliminated == (np.minesweeper_eliminated || cp.minesweeper_eliminated)
        &&& fp.id == np.id
    }
}

fn merge_optimistic_room_minesweeper_player(
    current: &Vec<RoomPlayerSnapshot>,
    next: &mut Vec<RoomPlayerSnapshot>,
    player_id: &str,
)
    ensures
        player_merged(current@, old(next)@, final(next)@, player_id@),
        final(next).len() == old(next).len(),
        ({
            let c = first_snapshot_player_from(current@, player_id@, 0);
            let n = first_snapshot_player_from(old(next)@, player_id@, 0);
            &&& (c >= current.len() || n >= old(next).len()) ==> final(next)@ == old(next)@
            &&& (c < current.len() && n < old(next).len()) ==> {
                let cp = current@[c];
                let np = old(next)@[n];
                let fp = final(next)@[n];
                &&& forall|k: int| 0 <= k < final(next).len() && k != n ==> #[trigger] final(next)@[k] == old(next)@[k]
                &&& fp.minesweeper_flags@ == cp.minesweeper_flags@
                &&& fp.minesweeper_score == if cp.minesweeper_score > np.minesweeper_score {
                    cp.minesweeper_score
                } else {
                    np.minesweeper_score
                }
                &&& fp.minesweeper_last_score_ms == if cp.minesweeper_score > np.minesweeper_score {
                    cp.minesweeper_last_score_ms
                } else {
                    np.minesweeper_last_score_ms
                }
                &&& fp.minesweeper_eliminated == (np.minesweeper_eliminated || cp.minesweeper_eliminated)
                &&& fp.id == np.id
            }
        }),
{
    let c = match find_snapshot_player(current, player_id) {
        Some(c) => c,
        None => {
            return;
        },
    };
    let n = match find_snapshot_player(next, player_id) {
        Some(n) => n,
        None => {
            return;
        },
    };
    let cp = &current[c];
    let mut flags: Vec<usize> = Vec::new();
    let mut k: usize = 0;
    while k < cp.minesweeper_flags.len()
        invariant
            k <= cp.minesweeper_flags.len(),
            flags@ == cp.minesweeper_flags@.take(k as int),
        decreases cp.minesweeper_flags.len() - k,
    {
        flags.push(cp.minesweeper_flags[k]);
        proof {
            assert(cp.minesweeper_flags@.take(k + 1) == cp.minesweeper_flags@.take(k as int).push(cp.minesweeper_flags@[k as int]));
        }
        k = k + 1;
    }
    proof {
        assert(cp.minesweeper_flags@.take(k as int) == cp.minesweeper_flags@);
    }
    let ghost before = next@;
    let mut np = next.remove(n);
    np.minesweeper_flags = flags;
    if cp.minesweeper_score > np.minesweeper_score {
        np.minesweeper_score = cp.minesweeper_score;
        np.minesweeper_last_score_ms = cp.minesweeper_last_score_ms;
    }
    np.minesweeper_eliminated = np.minesweeper_eliminated || cp.minesweeper_eliminated;
    next.insert(n, np);
    proof {
        assert(next@ =~= before.update(n as int, np));
    }
}

/// Keeps the player's own optimistic moves when a newer snapshot of the same running race
/// arrives: cells they opened stay open, and their flags, better score and elimination are
/// kept. A snapshot of another race is taken as it is.
pub fn merge_optimistic_room_minesweeper_snapshot(current: &RoomSnapshot, next: &mut RoomSnapshot, player_id: &str)
    ensures
        !same_race_spec(current, old(next)) ==> *final(next) == *old(next),
        final(next).phase == old(next).phase,
        final(next).game_kind == old(next).game_kind,
        final(next).players.len() == old(next).players.len(),
        final(next).minesweeper is Some == old(next).minesweeper is Some,
        same_race_spec(current, old(next)) ==> {
            &&& *final(next) == (RoomSnapshot {
                minesweeper: final(next).minesweeper,
                players: final(next).players,
                ..*old(next)
            })
            &&& player_merged(current.players@, old(next).players@, final(next).players@, player_id@)
            &&& match (current.minesweeper, old(next).minesweeper, final(next).minesweeper) {
                (Some(c), Some(b), Some(a)) => board_merged(c, b, a),
                (_, b, a) => a == b,
            }
        },
{
    if !same_active_minesweeper_race(current, next) {
        return;
    }
    match &current.minesweeper {
        Some(cur) => {
            let taken = next.minesweeper.take();
            match taken {
                Some(mut nb) => {
                    merge_optimistic_room_minesweeper_board(cur, &mut nb);
                    next.minesweeper = Some(nb);
                },
                None => {},
            }
        },
        None => {},
    }
    merge_optimistic_room_minesweeper_player(&current.players, &mut next.players, player_id);
}

} // verus!
