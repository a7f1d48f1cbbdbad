//! How a room shows itself to a player: labels of the puzzle choice and countdown, the
//! status line and row class of each player, times, places, and the leaderboard order.

use vstd::prelude::*;
use crate::queens::{decimal_text, digit_text};
use crate::room::{RoomPhase, RoomPlayerSnapshot, RoomPuzzleChoice};
use crate::room_service::copy_mouse_recording;
use crate::room_snapshot::{copy_numbers, copy_recording, same_recording};
use crate::text::{lemma_text_before_irreflexive, lemma_text_before_total, lemma_text_before_transitive, text_before};

verus! {

/// Appends the decimal text of `n`.
pub fn append_decimal_u64(s: &mut String, n: u64)
    ensures
        final(s)@ == old(s)@ + decimal_text(n as nat),
    decreases n,
{
    if n >= 10 {
        append_decimal_u64(s, n / 10);
    }
    let d = n % 10;
    let digit = if d == 0 {
        "0"
    } else if d == 1 {
        "1"
    } else if d == 2 {
        "2"
    } else if d == 3 {
        "3"
    } else if d == 4 {
        "4"
    } else if d == 5 {
        "5"
    } else if d == 6 {
        "6"
    } else if d == 7 {
        "7"
    } else if d == 8 {
        "8"
    } else {
        "9"
    };
    proof {
        reveal_strlit("0");
        reveal_strlit("1");
        reveal_strlit("2");
        reveal_strlit("3");
        reveal_strlit("4");
        reveal_strlit("5");
        reveal_strlit("6");
        reveal_strlit("7");
        reveal_strlit("8");
        reveal_strlit("9");
        assert(digit@ == digit_text((n % 10) as nat));
    }
    s.append(digit);
}

/// A number with at least two digits (a leading zero below ten).
pub open spec fn two_digits(n: nat) -> Seq<char> {
    if n < 10 {
        "0"@ + decimal_text(n)
    } else {
        decimal_text(n)
    }
}

fn append_two_digits(s: &mut String, n: u64)
    ensures
        final(s)@ == old(s)@ + two_digits(n as nat),
{
    if n < 10 {
        s.append("0");
    }
    append_decimal_u64(s, n);
}

/// A duration as `mm:ss.t` (minutes, seconds, tenths).
pub open spec fn duration_text(ms: u64) -> Seq<char> {
    let total_seconds = ms / 1000;
    two_digits((total_seconds / 60) as nat) + ":"@ + two_digits((total_seconds % 60) as nat) + "."@ + decimal_text(
        ((ms % 1000) / 100) as nat,
    )
}

/// A duration in ms as `mm:ss.t`.
pub fn format_duration_ms(milliseconds: u64) -> (t: String)
    ensures
        t@ == duration_text(milliseconds),
{
    let total_seconds = milliseconds / 1000;
    let minutes = total_seconds / 60;
    let seconds = total_seconds % 60;
    let tenths = (milliseconds % 1000) / 100;
    let mut t = String::new();
    append_two_digits(&mut t, minutes);
    t.append(":");
    append_two_digits(&mut t, seconds);
    t.append(".");
    append_decimal_u64(&mut t, tenths);
    t
}

/// A time in seconds as `mm:ss`.
pub fn format_time(seconds: u64) -> (t: String)
    ensures
        t@ == two_digits((seconds / 60) as nat) + ":"@ + two_digits((seconds % 60) as nat),
{
    let mut t = String::new();
    append_two_digits(&mut t, seconds / 60);
    t.append(":");
    append_two_digits(&mut t, seconds % 60);
    t
}

/// The label of a room's puzzle choice.
pub fn puzzle_choice_label(choice: &RoomPuzzleChoice) -> (l: String)
    ensures
        l@ == match *choice {
            RoomPuzzleChoice::Puzzle { id } => "Puzzle #"@ + decimal_text(id as nat),
            RoomPuzzleChoice::Random => "Random puzzle"@,
        },
{
    match choice {
        RoomPuzzleChoice::Puzzle { id } => {
            let mut l = String::from_str("Puzzle #");
            append_decimal_u64(&mut l, *id as u64);
            l
        },
        RoomPuzzleChoice::Random => String::from_str("Random puzzle"),
    }
}

/// The class of a puzzle's button: `active` for the chosen puzzle.
pub fn puzzle_choice_button_class(choice: &RoomPuzzleChoice, puzzle_id: usize) -> (c: &'static str)
    ensures
        c@ == if *choice == (RoomPuzzleChoice::Puzzle { id: puzzle_id }) {
            "active"@
        } else {
            ""@
        },
{
    match choice {
        RoomPuzzleChoice::Puzzle { id } => if *id == puzzle_id {
            "active"
        } else {
            ""
        },
        RoomPuzzleChoice::Random => "",
    }
}

/// The whole seconds left of a countdown at `now_ms`, rounded up, at least one.
pub open spec fn countdown_seconds(starts_at_ms: u64, now_ms: u64) -> nat {
    let remaining = if starts_at_ms > now_ms {
        starts_at_ms - now_ms
    } else {
        0
    };
    let up = (remaining + 999) / 1000;
    if up < 1 {
        1
    } else {
        up as nat
    }
}

/// The countdown shown at `now_ms` while a race is about to start.
pub fn countdown_label(phase: &RoomPhase, now_ms: u64) -> (l: Option<String>)
    ensures
        match *phase {
            RoomPhase::Countdown { starts_at_ms } => l matches Some(t) && t@ == decimal_text(
                countdown_seconds(starts_at_ms, now_ms),
            ),
            _ => l is None,
        },
{
    match phase {
        RoomPhase::Countdown { starts_at_ms } => {
            let remaining = if *starts_at_ms > now_ms {
                *starts_at_ms - now_ms
            } else {
                0
            };
            let up = remaining / 1000 + if remaining % 1000 > 0 {
                1
            } else {
                0
            };
            proof {
                assert(up == (remaining + 999) / 1000);
            }
            let seconds = if up < 1 {
                1
            } else {
                up
            };
            let mut t = String::new();
            append_decimal_u64(&mut t, seconds);
            Some(t)
        },
        _ => None,
    }
}

/// The class of a player's row: the winner's, a disconnected player's, or a plain row.
pub fn player_row_class(player: &RoomPlayerSnapshot, winner_id: Option<&str>) -> (c: &'static str)
    ensures
        c@ == if winner_id matches Some(w) && w@ == player.id@ {
            "player-row winner"@
        } else if !player.connected {
            "player-row disconnected"@
        } else {
            "player-row"@
        },
{
    let winner = match winner_id {
        Some(w) => crate::text::text_eq(w, player.id.as_str()),
        None => false,
    };
    if winner {
        "player-row winner"
    } else if !player.connected {
        "player-row disconnected"
    } else {
        "player-row"
    }
}

/// A player's status line at `now_ms`: their time once finished; otherwise whether they are
/// away, ready, or racing (with the race time when the start is known).
pub open spec fn player_status_spec(
    player: RoomPlayerSnapshot,
    phase: RoomPhase,
    started_at_ms: Option<u64>,
    now_ms: u64,
) -> Seq<char> {
    if player.finish_ms is Some {
        duration_text(player.finish_ms->0)
    } else if !player.connected {
        "Disconnected"@
    } else {
        match phase {
            RoomPhase::Lobby => if player.ready {
                "Ready"@
            } else {
                "Not ready"@
            },
            RoomPhase::Countdown { .. } => "Ready"@,
            _ => match started_at_ms {
                Some(start) => "In progress "@ + duration_text(
                    if now_ms > start {
                        (now_ms - start) as u64
                    } else {
                        0
                    },
                ),
                None => "In progress"@,
            },
        }
    }
}

/// A player's status line at `now_ms`.
pub fn player_status(player: &RoomPlayerSnapshot, phase: &RoomPhase, started_at_ms: Option<u64>, now_ms: u64) -> (s:
    String)
    ensures
        s@ == player_status_spec(*player, *phase, started_at_ms, now_ms),
{
    match player.finish_ms {
        Some(finish_ms) => {
            return format_duration_ms(finish_ms);
        },
        None => {},
    }
    if !player.connected {
        return String::from_str("Disconnected");
    }
    match phase {
        RoomPhase::Lobby => if player.ready {
            String::from_str("Ready")
        } else {
            String::from_str("Not ready")
        },
        RoomPhase::Countdown { .. } => String::from_str("Ready"),
        _ => match started_at_ms {
            Some(start) => {
                let elapsed = if now_ms > start {
                    now_ms - start
                } else {
                    0
                };
                let mut s = String::from_str("In progress ");
                let d = format_duration_ms(elapsed);
                s.append(d.as_str());
                s
            },
            None => String::from_str("In progress"),
        },
    }
}

/// The name of a podium place; none past the third.
pub fn ordinal_place(place: usize) -> (p: &'static str)
    ensures
        p@ == if place == 1 {
            "1st"@
        } else if place == 2 {
            "2nd"@
        } else if place == 3 {
            "3rd"@
        } else {
            ""@
        },
{
    if place == 1 {
        "1st"
    } else if place == 2 {
        "2nd"
    } else if place == 3 {
        "3rd"
    } else {
        ""
    }
}

/// `a` comes before `b` on the leaderboard: more gold, then more silver, then more bronze,
/// then by name.
pub open spec fn leaderboard_before(a: RoomPlayerSnapshot, b: RoomPlayerSnapshot) -> bool {
    a.medals.gold > b.medals.gold || (a.medals.gold == b.medals.gold && (a.medals.silver > b.medals.silver || (
    a.medals.silver == b.medals.silver && (a.medals.bronze > b.medals.bronze || (a.medals.bronze == b.medals.bronze
        && text_before(a.name@, b.name@))))))
}

/// Neither comes before the other: the same medals and the same name.
pub open spec fn leaderboard_tied(a: RoomPlayerSnapshot, b: RoomPlayerSnapshot) -> bool {
    !leaderboard_before(a, b) && !leaderboard_before(b, a)
}

fn leaderboard_is_before(a: &RoomPlayerSnapshot, b: &RoomPlayerSnapshot) -> (r: bool)
    ensures
        r == leaderboard_before(*a, *b),
{
    if a.medals.gold != b.medals.gold {
        return a.medals.gold > b.medals.gold;
    }
    if a.medals.silver != b.medals.silver {
        return a.medals.silver > b.medals.silver;
    }
    if a.medals.bronze != b.medals.bronze {
        return a.medals.bronze > b.medals.bronze;
    }
    crate::text::text_is_before(a.name.as_str(), b.name.as_str())
}

/// The order of the players on the leaderboard, as positions in the list: a stable sort
/// (players that tie keep their order).
pub open spec fn leaderboard_order_ok(players: Seq<RoomPlayerSnapshot>, order: Seq<usize>) -> bool {
    &&& order.len() == players.len()
    &&& order.no_duplicates()
    &&& forall|k: int| 0 <= k < order.len() ==> (#[trigger] order[k]) < players.len()
    &&& forall|a: int, b: int|
        0 <= a < b < order.len() ==> !leaderboard_before(players[order[b] as int], players[order[a] as int])
    &&& forall|a: int, b: int|
        0 <= a < b < order.len() && leaderboard_tied(players[order[a] as int], players[order[b] as int]) ==> order[a]
            < order[b]
}

/// The leaderboard order of the players.
pub fn leaderboard_order(players: &Vec<RoomPlayerSnapshot>) -> (order: Vec<usize>)
    ensures
        leaderboard_order_ok(players@, order@),
{
    let mut order: Vec<usize> = Vec::new();
    let mut i: usize = 0;
    while i < players.len()
        invariant
            i <= players.len(),
            order.len() == i,
            forall|k: int| 0 <= k < order.len() ==> (#[trigger] order@[k]) < i,
            order@.no_duplicates(),
            forall|a: int, b: int|
                0 <= a < b < order.len() ==> !leaderboard_before(players@[order@[b] as int], players@[order@[a] as int]),
            forall|a: int, b: int|
                0 <= a < b < order.len() && leaderboard_tied(players@[order@[a] as int], players@[order@[b] as int])
                    ==> order@[a] < order@[b],
        decreases players.len() - i,
    {
        let mut at: usize = order.len();
        while at > 0 && leaderboard_is_before(&players[i], &players[order[at - 1]])
            invariant
                at <= order.len(),
                i < players.len(),
                forall|k: int| 0 <= k < order.len() ==> (#[trigger] order@[k]) < i,
                forall|k: int| at <= k < order.len() ==> leaderboard_before(players@[i as int], players@[order@[k] as int]),
            decreases at,
        {
            at = at - 1;
        }
        let ghost before = order@;
        order.insert(at, i);
        proof {
            lemma_leaderboard_insert(players@, before, i as int, at as int, order@);
        }
        i = i + 1;
    }
    proof {
        assert forall|k: int| 0 <= k < order.len() implies (#[trigger] order@[k]) < players.len() by {}
    }
    order
}

proof fn lemma_leaderboard_insert(
    players: Seq<RoomPlayerSnapshot>,
    before: Seq<usize>,
    i: int,
    at: int,
    after: Seq<usize>,
)
    requires
        0 <= at <= before.len(),
        0 <= i < players.len(),
        i <= usize::MAX,
        after == before.insert(at, i as usize),
        forall|k: int| 0 <= k < before.len() ==> (#[trigger] before[k]) < i,
        before.no_duplicates(),
        forall|a: int, b: int|
            0 <= a < b < before.len() ==> !leaderboard_before(players[before[b] as int], players[before[a] as int]),
        forall|a: int, b: int|
            0 <= a < b < before.len() && leaderboard_tied(players[before[a] as int], players[before[b] as int])
                ==> before[a] < before[b],
        forall|k: int| at <= k < before.len() ==> leaderboard_before(players[i], players[before[k] as int]),
        at == 0 || !leaderboard_before(players[i], players[before[at - 1] as int]),
    ensures
        forall|k: int| 0 <= k < after.len() ==> (#[trigger] after[k]) < i + 1,
        after.no_duplicates(),
        forall|a: int, b: int|
            0 <= a < b < after.len() ==> !leaderboard_before(players[after[b] as int], players[after[a] as int]),
        forall|a: int, b: int|
            0 <= a < b < after.len() && leaderboard_tied(players[after[a] as int], players[after[b] as int])
                ==> after[a] < after[b],
{
    assert forall|x: RoomPlayerSnapshot, y: RoomPlayerSnapshot| #[trigger] leaderboard_before(x, y) implies !leaderboard_before(y, x) by {
        lemma_leaderboard_asymmetric(x, y);
    }
    assert forall|x: RoomPlayerSnapshot, y: RoomPlayerSnapshot, z: RoomPlayerSnapshot|
        !#[trigger] leaderboard_before(x, y) && !#[trigger] leaderboard_before(y, z) implies !leaderboard_before(x, z) by {
        lemma_leaderboard_not_before_transitive(x, y, z);
    }
    assert forall|a: int, b: int| 0 <= a < b < after.len() implies !leaderboard_before(
        players[after[b] as int],
        players[after[a] as int],
    ) by {
        if b < at {
            assert(after[a] == before[a] && after[b] == before[b]);
        } else if b == at {
            assert(after[a] == before[a]);
            assert(after[b] == i);
            assert(!leaderboard_before(players[i], players[before[at - 1] as int]));
            if a < at - 1 {
                assert(!leaderboard_before(players[before[at - 1] as int], players[before[a] as int]));
            }
        } else if a < at {
            assert(after[a] == before[a] && after[b] == before[b - 1]);
        } else if a == at {
            assert(after[a] == i);
            assert(after[b] == before[b - 1]);
            assert(leaderboard_before(players[i], players[before[b - 1] as int]));
        } else {
            assert(after[a] == before[a - 1] && after[b] == before[b - 1]);
        }
    }
    assert forall|a: int, b: int|
        0 <= a < b < after.len() && leaderboard_tied(players[after[a] as int], players[after[b] as int]) implies after[a]
        < after[b] by {
        if b < at {
            assert(after[a] == before[a] && after[b] == before[b]);
        } else if b == at {
            assert(after[a] == before[a]);
            assert(after[b] == i);
        } else if a < at {
            assert(after[a] == before[a] && after[b] == before[b - 1]);
        } else if a == at {
            assert(after[a] == i);
            assert(after[b] == before[b - 1]);
            assert(leaderboard_before(players[i], players[before[b - 1] as int]));
        } else {
            assert(after[a] == before[a - 1] && after[b] == before[b - 1]);
        }
    }
    assert forall|k: int| 0 <= k < after.len() implies (#[trigger] after[k]) < i + 1 by {
        if k < at {
            assert(after[k] == before[k]);
        } else if k > at {
            assert(after[k] == before[k - 1]);
        }
    }
    assert forall|a: int, b: int| 0 <= a < after.len() && 0 <= b < after.len() && a != b implies after[a] != after[b] by {
        if a != at && b != at {
            let a0 = if a < at { a } else { a - 1 };
            let b0 = if b < at { b } else { b - 1 };
            assert(after[a] == before[a0] && after[b] == before[b0]);
        } else if a == at {
            let b0 = if b < at { b } else { b - 1 };
            assert(after[b] == before[b0]);
        } else {
            let a0 = if a < at { a } else { a - 1 };
            assert(after[a] == before[a0]);
        }
    }
}

proof fn lemma_leaderboard_asymmetric(x: RoomPlayerSnapshot, y: RoomPlayerSnapshot)
    requires
        leaderboard_before(x, y),
    ensures
        !leaderboard_before(y, x),
{
    if x.medals == y.medals && text_before(y.name@, x.name@) {
        lemma_text_before_transitive(x.name@, y.name@, x.name@);
        lemma_text_before_irreflexive(x.name@);
    }
}

proof fn lemma_leaderboard_not_before_transitive(x: RoomPlayerSnapshot, y: RoomPlayerSnapshot, z: RoomPlayerSnapshot)
    requires
        !leaderboard_before(x, y),
        !leaderboard_before(y, z),
    ensures
        !leaderboard_before(x, z),
{
    if x.medals == y.medals && y.medals == z.medals {
        if text_before(x.name@, z.name@) {
            if x.name@ != y.name@ {
                lemma_text_before_total(x.name@, y.name@);
                lemma_text_before_transitive(y.name@, x.name@, z.name@);
            }
        }
    }
}

/// Two player snapshots show the same.
pub open spec fn same_player_snapshot(a: RoomPlayerSnapshot, b: RoomPlayerSnapshot) -> bool {
    &&& a.id@ == b.id@
    &&& a.name@ == b.name@
    &&& a.ready == b.ready
    &&& a.connected == b.connected
    &&& a.finish_ms == b.finish_ms
    &&& a.gave_up == b.gave_up
    &&& a.medals == b.medals
    &&& (a.recording is Some <==> b.recording is Some)
    &&& (b.recording matches Some(r) ==> same_recording(a.recording->0, r))
    &&& (a.mouse_recording is Some <==> b.mouse_recording is Some)
    &&& (b.mouse_recording matches Some(m) ==> a.mouse_recording->0.samples@ == m.samples@
        && a.mouse_recording->0.events@ == m.events@)
    &&& a.minesweeper_score == b.minesweeper_score
    &&& a.minesweeper_eliminated == b.minesweeper_eliminated
    &&& a.minesweeper_last_score_ms == b.minesweeper_last_score_ms
    &&& a.minesweeper_flags@ == b.minesweeper_flags@
    &&& a.pointer == b.pointer
}

/// A copy of a player snapshot.
pub fn copy_player_snapshot(p: &RoomPlayerSnapshot) -> (c: RoomPlayerSnapshot)
    ensures
        same_player_snapshot(c, *p),
{
    RoomPlayerSnapshot {
        id: p.id.clone(),
        name: p.name.clone(),
        ready: p.ready,
        connected: p.connected,
        finish_ms: p.finish_ms,
        gave_up: p.gave_up,
        medals: p.medals,
        recording: match &p.recording {
            Some(r) => Some(copy_recording(r)),
            None => None,
        },
        mouse_recording: match &p.mouse_recording {
            Some(m) => Some(copy_mouse_recording(m)),
            None => None,
        },
        minesweeper_score: p.minesweeper_score,
        minesweeper_eliminated: p.minesweeper_eliminated,
        minesweeper_last_score_ms: p.minesweeper_last_score_ms,
        minesweeper_flags: copy_numbers(&p.minesweeper_flags),
        pointer: p.pointer,
    }
}

/// The players in leaderboard order: most gold first, then silver, then bronze, then by
/// name; players that tie keep their order.
pub fn sorted_leaderboard_players(players: &Vec<RoomPlayerSnapshot>) -> (sorted: Vec<RoomPlayerSnapshot>)
    ensures
        exists|order: Seq<usize>|
            #[trigger] leaderboard_order_ok(players@, order) && sorted.len() == order.len() && forall|k: int|
                0 <= k < order.len() ==> same_player_snapshot(#[trigger] sorted@[k], players@[order[k] as int]),
{
    let order = leaderboard_order(players);
    let mut sorted: Vec<RoomPlayerSnapshot> = Vec::new();
    let mut k: usize = 0;
    while k < order.len()
        invariant
            leaderboard_order_ok(players@, order@),
            k <= order.len(),
            sorted.len() == k,
            forall|j: int| 0 <= j < k ==> same_player_snapshot(#[trigger] sorted@[j], players@[order@[j] as int]),
        decreases order.len() - k,
    {
        sorted.push(copy_player_snapshot(&players[order[k]]));
        k = k + 1;
    }
    sorted
}

/// What `str::to_uppercase` gives for a text (Unicode upper case, which may change its
/// length).
pub uninterp spec fn uppercased(text: Seq<char>) -> Seq<char>;

/// Calls `str::to_uppercase`; its contract only names the result.
#[verifier::external_body]
fn to_uppercase_text(text: &str) -> (upper: String)
    ensures
        upper@ == uppercased(text@),
{
    text.to_uppercase()
}

/// The name a player gets until they choose one: `Player` and the first four characters
/// of their id in upper case.
pub fn default_player_name(player_id: &str) -> (name: String)
    ensures
        name@ == "Player "@ + uppercased(player_id@.take(if player_id@.len() < 4 {
            player_id@.len() as int
        } else {
            4
        })),
{
    let n = player_id.unicode_len();
    let keep = if n < 4 {
        n
    } else {
        4
    };
    let prefix = player_id.substring_char(0, keep);
    proof {
        assert(prefix@ == player_id@.take(keep as int));
    }
    let upper = to_uppercase_text(prefix);
    let mut name = String::from_str("Player ");
    name.append(upper.as_str());
    name
}

} // verus!
