//! Ranking the racers of a room and handing out the gold, silver and bronze medals.

use vstd::prelude::*;
use crate::rooms::{find_player, lemma_first_player_from, player_index, Room, RoomPlayer};

verus! {

/// A racer's place in a ranking: three keys compared in turn (smaller first), and the
/// racer's position in the room's player list.
pub type RankEntry = (u64, u64, u64, usize);

/// `a` ranks no later than `b`.
pub open spec fn entry_le(a: RankEntry, b: RankEntry) -> bool {
    a.0 < b.0 || (a.0 == b.0 && (a.1 < b.1 || (a.1 == b.1 && a.2 <= b.2)))
}

/// The entries are in ranking order.
pub open spec fn entries_sorted(s: Seq<RankEntry>) -> bool {
    forall|a: int, b: int| 0 <= a < b < s.len() ==> entry_le(s[a], s[b])
}

fn entry_le_exec(a: RankEntry, b: RankEntry) -> (r: bool)
    ensures
        r == entry_le(a, b),
{
    a.0 < b.0 || (a.0 == b.0 && (a.1 < b.1 || (a.1 == b.1 && a.2 <= b.2)))
}

/// The entries in ranking order, equal entries keeping their order.
fn sort_entries(v: &Vec<RankEntry>) -> (sorted: Vec<RankEntry>)
    ensures
        sorted.len() == v.len(),
        entries_sorted(sorted@),
        sorted@.to_multiset() == v@.to_multiset(),
{
    broadcast use vstd::seq_lib::group_to_multiset_ensures;

    let mut sorted: Vec<RankEntry> = Vec::new();
    let mut i: usize = 0;
    while i < v.len()
        invariant
            i <= v.len(),
            sorted.len() == i,
            entries_sorted(sorted@),
            sorted@.to_multiset() == v@.take(i as int).to_multiset(),
        decreases v.len() - i,
    {
        let x = v[i];
        let mut at: usize = 0;
        while at < sorted.len() && entry_le_exec(sorted[at], x)
            invariant
                at <= sorted.len(),
                forall|k: int| 0 <= k < at ==> entry_le(sorted@[k], x),
            decreases sorted.len() - at,
        {
            at = at + 1;
        }
        let ghost before = sorted@;
        sorted.insert(at, x);
        proof {
            assert(sorted@ == before.insert(at as int, x));
            assert forall|a: int, b: int| 0 <= a < b < sorted.len() implies entry_le(sorted@[a], sorted@[b]) by {
                if b < at {
                } else if b == at {
                    assert(sorted@[a] == before[a]);
                } else if a < at {
                    assert(sorted@[a] == before[a] && sorted@[b] == before[b - 1]);
                } else if a == at {
                    assert(sorted@[b] == before[b - 1]);
                    assert(!entry_le(before[at as int], x));
                    if at < b - 1 {
                        assert(entry_le(before[at as int], before[b - 1]));
                    }
                } else {
                    assert(sorted@[a] == before[a - 1] && sorted@[b] == before[b - 1]);
                }
            }
            assert(v@.take(i + 1) == v@.take(i as int).push(x));
            vstd::seq_lib::to_multiset_insert(before, at as int, x);
            vstd::seq_lib::to_multiset_build(v@.take(i as int), x);
        }
        i = i + 1;
    }
    proof {
        assert(v@.take(i as int) == v@);
    }
    sorted
}

/// The ids of the ranked racers, in ranking order.
pub open spec fn ranked_ids(players: Seq<RoomPlayer>, order: Seq<RankEntry>) -> Seq<Seq<char>> {
    order.map_values(|e: RankEntry| players[e.3 as int].id@)
}

/// The texts of a list of strings.
pub open spec fn texts_of(v: Seq<String>) -> Seq<Seq<char>> {
    v.map_values(|s: String| s@)
}

/// Turns a ranking into the racers' ids.
fn ids_of_entries(players: &Vec<RoomPlayer>, order: &Vec<RankEntry>) -> (ids: Vec<String>)
    requires
        forall|k: int| 0 <= k < order.len() ==> (#[trigger] order@[k]).3 < players.len(),
    ensures
        texts_of(ids@) == ranked_ids(players@, order@),
{
    let mut ids: Vec<String> = Vec::new();
    let mut k: usize = 0;
    while k < order.len()
        invariant
            k <= order.len(),
            forall|j: int| 0 <= j < order.len() ==> (#[trigger] order@[j]).3 < players.len(),
            texts_of(ids@) == ranked_ids(players@, order@.take(k as int)),
        decreases order.len() - k,
    {
        let id = players[order[k].3].id.clone();
        let ghost before = ids@;
        ids.push(id);
        proof {
            assert(texts_of(ids@) == texts_of(before).push(id@));
            assert(order@.take(k + 1) == order@.take(k as int).push(order@[k as int]));
            assert(ranked_ids(players@, order@.take(k + 1)) == ranked_ids(players@, order@.take(k as int)).push(
                players@[order@[k as int].3 as int].id@,
            ));
        }
        k = k + 1;
    }
    proof {
        assert(order@.take(k as int) == order@);
    }
    ids
}

/// The Minesweeper ranking entries of the racers that are in the room, in race order:
/// higher score first, then the earlier last score (never scoring counts as latest), then
/// the earlier joiner.
pub open spec fn minesweeper_entries(players: Seq<RoomPlayer>, ids: Seq<String>) -> Seq<RankEntry>
    decreases ids.len(),
{
    if ids.len() == 0 {
        seq![]
    } else {
        let i = player_index(players, ids.last()@);
        minesweeper_entries(players, ids.drop_last()) + if i < players.len() {
            let p = players[i];
            seq![
                (
                    (u32::MAX - p.minesweeper_score) as u64,
                    match p.minesweeper_last_score_ms {
                        Some(t) => t,
                        None => u64::MAX,
                    },
                    p.joined_order,
                    i as usize,
                ),
            ]
        } else {
            Seq::empty()
        }
    }
}

/// The finishing entries of the racers in the room who finished, in race order: earlier
/// finish first, then the earlier joiner.
pub open spec fn finish_entries(players: Seq<RoomPlayer>, ids: Seq<String>) -> Seq<RankEntry>
    decreases ids.len(),
{
    if ids.len() == 0 {
        seq![]
    } else {
        let i = player_index(players, ids.last()@);
        finish_entries(players, ids.drop_last()) + if i < players.len() && players[i].finish_ms is Some {
            let p = players[i];
            seq![(p.finish_ms->0, p.joined_order, 0u64, i as usize)]
        } else {
            Seq::empty()
        }
    }
}

/// `order` ranks exactly the given entries.
pub open spec fn ranking_of(order: Seq<RankEntry>, entries: Seq<RankEntry>) -> bool {
    &&& entries_sorted(order)
    &&& order.to_multiset() == entries.to_multiset()
}

/// Entries that name players of the list.
pub open spec fn entries_in(entries: Seq<RankEntry>, n: nat) -> bool {
    forall|k: int| 0 <= k < entries.len() ==> (#[trigger] entries[k]).3 < n
}

fn minesweeper_rank_entries(room: &Room) -> (entries: Vec<RankEntry>)
    ensures
        entries@ == minesweeper_entries(room.players@, room.race_player_ids@),
        entries_in(entries@, room.players.len() as nat),
{
    let mut entries: Vec<RankEntry> = Vec::new();
    let mut k: usize = 0;
    while k < room.race_player_ids.len()
        invariant
            k <= room.race_player_ids.len(),
            entries@ == minesweeper_entries(room.players@, room.race_player_ids@.take(k as int)),
            entries_in(entries@, room.players.len() as nat),
        decreases room.race_player_ids.len() - k,
    {
        let id = room.race_player_ids[k].as_str();
        proof {
            lemma_first_player_from(room.players@, id@, 0);
            assert(room.race_player_ids@.take(k + 1).drop_last() == room.race_player_ids@.take(k as int));
        }
        match find_player(&room.players, id) {
            Some(i) => {
                let p = &room.players[i];
                let last = match p.minesweeper_last_score_ms {
                    Some(t) => t,
                    None => u64::MAX,
                };
                entries.push(((u32::MAX - p.minesweeper_score) as u64, last, p.joined_order, i));
            },
            None => {},
        }
        k = k + 1;
    }
    proof {
        assert(room.race_player_ids@.take(k as int) == room.race_player_ids@);
    }
    entries
}

fn finish_rank_entries(room: &Room) -> (entries: Vec<RankEntry>)
    ensures
        entries@ == finish_entries(room.players@, room.race_player_ids@),
        entries_in(entries@, room.players.len() as nat),
{
    let mut entries: Vec<RankEntry> = Vec::new();
    let mut k: usize = 0;
    while k < room.race_player_ids.len()
        invariant
            k <= room.race_player_ids.len(),
            entries@ == finish_entries(room.players@, room.race_player_ids@.take(k as int)),
            entries_in(entries@, room.players.len() as nat),
        decreases room.race_player_ids.len() - k,
    {
        let id = room.race_player_ids[k].as_str();
        proof {
            lemma_first_player_from(room.players@, id@, 0);
            assert(room.race_player_ids@.take(k + 1).drop_last() == room.race_player_ids@.take(k as int));
        }
        match find_player(&room.players, id) {
            Some(i) => {
                let p = &room.players[i];
                match p.finish_ms {
                    Some(t) => entries.push((t, p.joined_order, 0u64, i)),
                    None => {},
                }
            },
            None => {},
        }
        k = k + 1;
    }
    proof {
        assert(room.race_player_ids@.take(k as int) == room.race_player_ids@);
    }
    entries
}

proof fn lemma_ranking_in(order: Seq<RankEntry>, entries: Seq<RankEntry>, n: nat)
    requires
        order.to_multiset() == entries.to_multiset(),
        entries_in(entries, n),
    ensures
        entries_in(order, n),
{
    broadcast use vstd::seq_lib::group_to_multiset_ensures;

    assert forall|k: int| 0 <= k < order.len() implies (#[trigger] order[k]).3 < n by {
        assert(order.to_multiset().count(order[k]) > 0);
        assert(entries.contains(order[k]));
    }
}

/// The racers of a Minesweeper race in ranking order: highest score first, then the one
/// who reached it first, then the earlier joiner.
pub fn minesweeper_ranked_player_ids(room: &Room) -> (ids: Vec<String>)
    ensures
        exists|order: Seq<RankEntry>|
            ranking_of(order, minesweeper_entries(room.players@, room.race_player_ids@)) && entries_in(
                order,
                room.players.len() as nat,
            ) && texts_of(ids@) == #[trigger] ranked_ids(room.players@, order),
{
    let entries = minesweeper_rank_entries(room);
    let order = sort_entries(&entries);
    proof {
        lemma_ranking_in(order@, entries@, room.players.len() as nat);
    }
    ids_of_entries(&room.players, &order)
}

/// The racers who finished, in finishing order (ties by join order).
pub fn finish_ranked_player_ids(room: &Room) -> (ids: Vec<String>)
    ensures
        exists|order: Seq<RankEntry>|
            ranking_of(order, finish_entries(room.players@, room.race_player_ids@)) && entries_in(
                order,
                room.players.len() as nat,
            ) && texts_of(ids@) == #[trigger] ranked_ids(room.players@, order),
{
    let entries = finish_rank_entries(room);
    let order = sort_entries(&entries);
    proof {
        lemma_ranking_in(order@, entries@, room.players.len() as nat);
    }
    ids_of_entries(&room.players, &order)
}

/// No player's medal counts are at their limit.
pub open spec fn medals_can_grow(players: Seq<RoomPlayer>) -> bool {
    forall|k: int|
        0 <= k < players.len() ==> (#[trigger] players[k]).medals.gold < u32::MAX && players[k].medals.silver
            < u32::MAX && players[k].medals.bronze < u32::MAX
}

/// Player `k` holds place `place` among the winners.
pub open spec fn holds_place(players: Seq<RoomPlayer>, winners: Seq<Seq<char>>, place: int, k: int) -> bool {
    0 <= place < winners.len() && place < 3 && player_index(players, winners[place]) == k
}

/// The medals after the first three winners got gold, silver and bronze.
pub open spec fn medals_awarded(before: Seq<RoomPlayer>, after: Seq<RoomPlayer>, winners: Seq<Seq<char>>) -> bool {
    &&& after.len() == before.len()
    &&& forall|k: int|
        0 <= k < after.len() ==> {
            let b = before[k];
            let a = #[trigger] after[k];
            &&& a.medals.gold == b.medals.gold + if holds_place(before, winners, 0, k) {
                1int
            } else {
                0int
            }
            &&& a.medals.silver == b.medals.silver + if holds_place(before, winners, 1, k) {
                1int
            } else {
                0int
            }
            &&& a.medals.bronze == b.medals.bronze + if holds_place(before, winners, 2, k) {
                1int
            } else {
                0int
            }
            &&& a == (RoomPlayer { medals: a.medals, ..b })
        }
}

/// Gives gold, silver and bronze to the first three of `winners` that are in the room.
pub fn award_places(room: &mut Room, winners: &Vec<String>)
    requires
        medals_can_grow(old(room).players@),
    ensures
        medals_awarded(old(room).players@, final(room).players@, texts_of(winners@)),
        *final(room) == (Room { players: final(room).players, ..*old(room) }),
{
    let ghost w = texts_of(winners@);
    let ghost start = room.players@;
    let mut place: usize = 0;
    while place < winners.len() && place < 3
        invariant
            place <= 3,
            place <= winners.len(),
            w == texts_of(winners@),
            start == old(room).players@,
            room.players.len() == start.len(),
            medals_can_grow(start),
            *room == (Room { players: room.players, ..*old(room) }),
            forall|k: int|
                0 <= k < room.players.len() ==> {
                    let b = start[k];
                    let a = #[trigger] room.players@[k];
                    &&& a.medals.gold == b.medals.gold + if place > 0 && holds_place(start, w, 0, k) {
                        1int
                    } else {
                        0int
                    }
                    &&& a.medals.silver == b.medals.silver + if place > 1 && holds_place(start, w, 1, k) {
                        1int
                    } else {
                        0int
                    }
                    &&& a.medals.bronze == b.medals.bronze + if place > 2 && holds_place(start, w, 2, k) {
                        1int
                    } else {
                        0int
                    }
                    &&& a == (RoomPlayer { medals: a.medals, ..b })
                },
        decreases 3 - place,
    {
        let id = winners[place].as_str();
        proof {
            lemma_first_player_from(room.players@, id@, 0);
            assert(w[place as int] == id@);
            assert forall|k: int| 0 <= k < room.players.len() implies (#[trigger] room.players@[k]).id@ == start[k].id@ by {
                assert(room.players@[k] == (RoomPlayer { medals: room.players@[k].medals, ..start[k] }));
            }
            assert(player_index(room.players@, id@) == player_index(start, id@)) by {
                lemma_same_ids_same_index(room.players@, start, id@, 0);
            }
        }
        match find_player(&room.players, id) {
            Some(i) => {
                let ghost before = room.players@;
                let mut player = room.players.remove(i);
                if place == 0 {
                    player.medals.gold = player.medals.gold + 1;
                } else if place == 1 {
                    player.medals.silver = player.medals.silver + 1;
                } else {
                    player.medals.bronze = player.medals.bronze + 1;
                }
                room.players.insert(i, player);
                proof {
                    assert(room.players@ =~= before.update(i as int, player));
                }
            },
            None => {},
        }
        place = place + 1;
    }
}

/// Lists whose players have the same ids find an id at the same position.
proof fn lemma_same_ids_same_index(a: Seq<RoomPlayer>, b: Seq<RoomPlayer>, id: Seq<char>, from: int)
    requires
        a.len() == b.len(),
        0 <= from <= a.len(),
        forall|k: int| 0 <= k < a.len() ==> (#[trigger] a[k]).id@ == b[k].id@,
    ensures
        crate::rooms::first_player_from(a, id, from) == crate::rooms::first_player_from(b, id, from),
    decreases a.len() - from,
{
    if from < a.len() {
        assert(a[from].id@ == b[from].id@);
        lemma_same_ids_same_index(a, b, id, from + 1);
    }
}

/// Awards the medals of a Minesweeper race by its ranking.
pub fn award_room_minesweeper_medals(room: &mut Room)
    requires
        medals_can_grow(old(room).players@),
    ensures
        exists|order: Seq<RankEntry>|
            ranking_of(order, minesweeper_entries(old(room).players@, old(room).race_player_ids@)) && medals_awarded(
                old(room).players@,
                final(room).players@,
                #[trigger] ranked_ids(old(room).players@, order),
            ),
        *final(room) == (Room { players: final(room).players, ..*old(room) }),
{
    let ids = minesweeper_ranked_player_ids(room);
    award_places(room, &ids);
}

/// Awards the medals of a finishing race (Queens or nonogram) by finishing order.
pub fn award_finish_medals(room: &mut Room)
    requires
        medals_can_grow(old(room).players@),
    ensures
        exists|order: Seq<RankEntry>|
            ranking_of(order, finish_entries(old(room).players@, old(room).race_player_ids@)) && medals_awarded(
                old(room).players@,
                final(room).players@,
                #[trigger] ranked_ids(old(room).players@, order),
            ),
        *final(room) == (Room { players: final(room).players, ..*old(room) }),
{
    let ids = finish_ranked_player_ids(room);
    award_places(room, &ids);
}

} // verus!
