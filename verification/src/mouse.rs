//! Replaying a player's pointer: which recorded positions a replay moment falls between,
//! whether a click shows, and the classes of the pointer on the board.

use vstd::prelude::*;
use crate::queens::{append_decimal, decimal_text};
use crate::room::{
    RoomMouseEvent, RoomMouseRecording, RoomMouseSample, ROOM_MOUSE_EVENT_PRIMARY_DOWN,
    ROOM_MOUSE_EVENT_SECONDARY_UP,
};

verus! {

/// The id of the board element that pointer positions are measured against.
pub const ROOM_BOARD_ID: &'static str = "room-board";

/// How long a click stays visible in a replay, in ms.
pub const REPLAY_CLICK_SHOW_MS: u32 = 180;

/// A replayed pointer: its position as CSS percentages and whether a click shows.
#[derive(Debug, Clone, PartialEq, Eq)]
pub struct ReplayMousePointer {
    pub x_percent: String,
    pub y_percent: String,
    pub active_click: bool,
}

/// Where a replayed pointer is at a moment, before any interpolation: between two
/// samples, at one sample, at a button event, or nowhere.
#[derive(Debug, Clone, Copy, PartialEq, Eq, Structural)]
pub enum MouseAnchor {
    Between(RoomMouseSample, RoomMouseSample),
    At(RoomMouseSample),
    Event(u16, u16),
    Nowhere,
}

/// A replay time in ms as the recording's `u32` clock, capped at `u32::MAX`.
pub open spec fn replay_clock(replay_time_ms: u64) -> u32 {
    if replay_time_ms > u32::MAX {
        u32::MAX
    } else {
        replay_time_ms as u32
    }
}

/// A button event no more than `REPLAY_CLICK_SHOW_MS` before the moment `t`.
pub open spec fn shows_click(event: RoomMouseEvent, t: u32) -> bool {
    &&& event.0 <= t
    &&& t - event.0 <= REPLAY_CLICK_SHOW_MS
    &&& ROOM_MOUSE_EVENT_PRIMARY_DOWN <= event.1 <= ROOM_MOUSE_EVENT_SECONDARY_UP
}

/// Whether a replay at `replay_time_ms` shows a click: some button went down or up in the
/// `REPLAY_CLICK_SHOW_MS` before it.
pub fn replay_click_is_active(recording: &RoomMouseRecording, replay_time_ms: u64) -> (b: bool)
    ensures
        b == exists|k: int|
            0 <= k < recording.events.len() && shows_click(
                #[trigger] recording.events@[k],
                replay_clock(replay_time_ms),
            ),
{
    let t: u32 = if replay_time_ms > 0xffff_ffffu64 {
        0xffff_ffffu32
    } else {
        replay_time_ms as u32
    };
    let mut k = recording.events.len();
    while k > 0
        invariant
            k <= recording.events.len(),
            t == replay_clock(replay_time_ms),
            forall|j: int| k <= j < recording.events.len() ==> !shows_click(#[trigger] recording.events@[j], t),
        decreases k,
    {
        let event = recording.events[k - 1];
        if event.0 <= t && t - event.0 <= REPLAY_CLICK_SHOW_MS && event.1 >= ROOM_MOUSE_EVENT_PRIMARY_DOWN
            && event.1 <= ROOM_MOUSE_EVENT_SECONDARY_UP {
            proof {
                assert(shows_click(recording.events@[k - 1], t));
            }
            return true;
        }
        k = k - 1;
    }
    false
}

/// The first sample (at or after `i`) later than `t`, or the number of samples.
pub open spec fn first_later_sample(samples: Seq<RoomMouseSample>, t: u32, i: int) -> int
    decreases samples.len() - i,
{
    if i >= samples.len() {
        samples.len() as int
    } else if samples[i].0 > t {
        i
    } else {
        first_later_sample(samples, t, i + 1)
    }
}

/// The events up to the first one later than `t`.
pub open spec fn first_later_event(events: Seq<RoomMouseEvent>, t: u32, i: int) -> int
    decreases events.len() - i,
{
    if i >= events.len() {
        events.len() as int
    } else if events[i].0 > t {
        i
    } else {
        first_later_event(events, t, i + 1)
    }
}

/// Where the pointer is at `t`: the samples are read in order up to the first one later
/// than `t`; the last one read and that later one bound the moment. With no sample, the
/// last event before the first one later than `t` places the pointer.
pub open spec fn mouse_anchor_spec(recording: RoomMouseRecording, t: u32) -> MouseAnchor {
    let samples = recording.samples@;
    let k = first_later_sample(samples, t, 0);
    if k > 0 && k < samples.len() && samples[k].0 > samples[k - 1].0 {
        MouseAnchor::Between(samples[k - 1], samples[k])
    } else if k > 0 {
        MouseAnchor::At(samples[k - 1])
    } else if k < samples.len() {
        MouseAnchor::At(samples[k])
    } else {
        let events = recording.events@;
        let e = first_later_event(events, t, 0);
        if e > 0 {
            MouseAnchor::Event(events[e - 1].2, events[e - 1].3)
        } else {
            MouseAnchor::Nowhere
        }
    }
}

proof fn lemma_first_later_sample(samples: Seq<RoomMouseSample>, t: u32, i: int, stop: int)
    requires
        0 <= i <= stop <= samples.len(),
        forall|j: int| i <= j < stop ==> (#[trigger] samples[j]).0 <= t,
        stop == samples.len() || samples[stop].0 > t,
    ensures
        first_later_sample(samples, t, i) == stop,
    decreases stop - i,
{
    if i < stop {
        lemma_first_later_sample(samples, t, i + 1, stop);
    }
}

proof fn lemma_first_later_event(events: Seq<RoomMouseEvent>, t: u32, i: int, stop: int)
    requires
        0 <= i <= stop <= events.len(),
        forall|j: int| i <= j < stop ==> (#[trigger] events[j]).0 <= t,
        stop == events.len() || events[stop].0 > t,
    ensures
        first_later_event(events, t, i) == stop,
    decreases stop - i,
{
    if i < stop {
        lemma_first_later_event(events, t, i + 1, stop);
    }
}

/// Where the replayed pointer is at `replay_time_ms`, before interpolation.
pub fn mouse_position_anchor(recording: &RoomMouseRecording, replay_time_ms: u32) -> (a: MouseAnchor)
    ensures
        a == mouse_anchor_spec(*recording, replay_time_ms),
{
    let t = replay_time_ms;
    let n = recording.samples.len();
    let mut k: usize = 0;
    while k < n && recording.samples[k].0 <= t
        invariant
            n == recording.samples.len(),
            k <= n,
            forall|j: int| 0 <= j < k ==> (#[trigger] recording.samples@[j]).0 <= t,
        decreases n - k,
    {
        k = k + 1;
    }
    proof {
        lemma_first_later_sample(recording.samples@, t, 0, k as int);
    }
    if k > 0 && k < n && recording.samples[k].0 > recording.samples[k - 1].0 {
        MouseAnchor::Between(recording.samples[k - 1], recording.samples[k])
    } else if k > 0 {
        MouseAnchor::At(recording.samples[k - 1])
    } else if k < n {
        MouseAnchor::At(recording.samples[k])
    } else {
        let m = recording.events.len();
        let mut e: usize = 0;
        while e < m && recording.events[e].0 <= t
            invariant
                m == recording.events.len(),
                e <= m,
                forall|j: int| 0 <= j < e ==> (#[trigger] recording.events@[j]).0 <= t,
            decreases m - e,
        {
            e = e + 1;
        }
        proof {
            lemma_first_later_event(recording.events@, t, 0, e as int);
        }
        if e > 0 {
            MouseAnchor::Event(recording.events[e - 1].2, recording.events[e - 1].3)
        } else {
            MouseAnchor::Nowhere
        }
    }
}

/// The classes of a replayed pointer.
pub open spec fn replay_mouse_class_spec(active_click: bool, is_playing: bool) -> Seq<char> {
    if active_click && is_playing {
        "replay-mouse active playing"@
    } else if active_click {
        "replay-mouse active"@
    } else if is_playing {
        "replay-mouse playing"@
    } else {
        "replay-mouse"@
    }
}

/// The classes of a replayed pointer: `active` while a click shows, `playing` while the
/// replay runs.
pub fn replay_mouse_class(active_click: bool, is_playing: bool) -> (c: &'static str)
    ensures
        c@ == replay_mouse_class_spec(active_click, is_playing),
{
    if active_click && is_playing {
        "replay-mouse active playing"
    } else if active_click {
        "replay-mouse active"
    } else if is_playing {
        "replay-mouse playing"
    } else {
        "replay-mouse"
    }
}

/// The classes of another player's live pointer in a room.
pub open spec fn room_live_pointer_class_spec(active_click: bool, color_index: Option<u8>) -> Seq<char> {
    "replay-mouse room-live-pointer"@ + (if active_click {
        " active"@
    } else {
        ""@
    }) + " playing"@ + match color_index {
        Some(c) => " player-color-"@ + decimal_text(c as nat),
        None => ""@,
    }
}

/// The classes of another player's live pointer: `active` while they click, and their
/// colour when they have one.
pub fn room_live_pointer_class(active_click: bool, color_index: Option<u8>) -> (c: String)
    ensures
        c@ == room_live_pointer_class_spec(active_click, color_index),
{
    let mut class_name = String::from_str("replay-mouse room-live-pointer");
    if active_click {
        class_name.append(" active");
    } else {
        class_name.append("");
    }
    class_name.append(" playing");
    match color_index {
        Some(c) => {
            class_name.append(" player-color-");
            append_decimal(&mut class_name, c as usize);
        },
        None => {
            class_name.append("");
        },
    }
    class_name
}

} // verus!
