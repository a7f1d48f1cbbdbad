use queensgame::mouse::{
    mouse_position_anchor, replay_click_is_active, replay_mouse_class, room_live_pointer_class, MouseAnchor,
};
use queensgame::pages::render_app_page;
use queensgame::room::{
    RoomMouseEvent, RoomMouseRecording, RoomMouseSample, ROOM_MOUSE_EVENT_ENTER, ROOM_MOUSE_EVENT_PRIMARY_DOWN,
};
use queensgame::routing::{app_path_from_href, app_path_from_href_at, puzzle_page_path, route_request_from_path, RouteRequest};
use queensgame::text::parse_usize;

#[test]
fn route_parser_accepts_app_paths_only() {
    assert_eq!(route_request_from_path("/puzzles/9x9/42"), Some(RouteRequest::Game(42)));
    assert_eq!(route_request_from_path("/puzzles/9x9"), Some(RouteRequest::Puzzles));
    assert_eq!(route_request_from_path("/minesweeper"), Some(RouteRequest::Minesweeper));
    assert_eq!(route_request_from_path("/rooms"), Some(RouteRequest::Rooms));
    assert_eq!(route_request_from_path("/rooms/ROOMTEST"), Some(RouteRequest::Room("ROOMTEST".to_string())));
    assert_eq!(app_path_from_href("/puzzles/9x9/7#archive"), Some("/puzzles/9x9/7#archive".to_string()));
    assert_eq!(app_path_from_href("/puzzles/9x9/7?from=header"), Some("/puzzles/9x9/7?from=header".to_string()));
    assert_eq!(app_path_from_href("/rooms/ROOMTEST"), None);
    assert_eq!(route_request_from_path("/puzzles/8x8/42"), None);
    assert_eq!(route_request_from_path("/puzzles/9x9/nope"), None);
}

#[test]
fn route_parser_ignores_queries_fragments_and_trailing_slashes() {
    assert_eq!(route_request_from_path(""), Some(RouteRequest::Game(1)));
    assert_eq!(route_request_from_path("/"), Some(RouteRequest::Game(1)));
    assert_eq!(route_request_from_path("/?x=1"), Some(RouteRequest::Game(1)));
    assert_eq!(route_request_from_path("/puzzles/"), Some(RouteRequest::Puzzles));
    assert_eq!(route_request_from_path("/puzzles/9x9/+7/"), Some(RouteRequest::Game(7)));
    assert_eq!(route_request_from_path("/rooms/a/b"), None);
    assert_eq!(route_request_from_path("/rooms/abc#top"), Some(RouteRequest::Room("abc".to_string())));
    assert_eq!(route_request_from_path("/puzzles/9x9/99999999999999999999999"), None);
    assert_eq!(app_path_from_href("puzzles"), None);
    assert_eq!(
        app_path_from_href_at("https://boardmage.test", "https://boardmage.test/minesweeper"),
        Some("/minesweeper".to_string())
    );
}

#[test]
fn numbers_are_read_as_usize_from_str_reads_them() {
    assert_eq!(parse_usize("0"), Some(0));
    assert_eq!(parse_usize("+12"), Some(12));
    assert_eq!(parse_usize("+"), None);
    assert_eq!(parse_usize("-1"), None);
    assert_eq!(parse_usize(""), None);
    assert_eq!(parse_usize("18446744073709551615"), Some(usize::MAX));
    assert_eq!(parse_usize("18446744073709551616"), None);
    assert_eq!(parse_usize("4a"), None);
}

#[test]
fn puzzle_pages_have_their_id_in_the_path() {
    assert_eq!(puzzle_page_path(42), "/puzzles/9x9/42");
    assert_eq!(puzzle_page_path(0), "/puzzles/9x9/0");
}

#[test]
fn replay_mouse_classes_show_clicks_and_playback() {
    assert_eq!(replay_mouse_class(true, true), "replay-mouse active playing");
    assert_eq!(replay_mouse_class(true, false), "replay-mouse active");
    assert_eq!(replay_mouse_class(false, true), "replay-mouse playing");
    assert_eq!(replay_mouse_class(false, false), "replay-mouse");
}

#[test]
fn live_pointer_classes_name_the_player_colour() {
    assert_eq!(room_live_pointer_class(false, None), "replay-mouse room-live-pointer playing");
    assert_eq!(room_live_pointer_class(true, Some(3)), "replay-mouse room-live-pointer active playing player-color-3");
}

fn recording() -> RoomMouseRecording {
    RoomMouseRecording {
        samples: vec![RoomMouseSample(100, 10, 20), RoomMouseSample(200, 30, 40)],
        events: vec![RoomMouseEvent(150, ROOM_MOUSE_EVENT_PRIMARY_DOWN, 1, 1, None)],
    }
}

#[test]
fn replay_pointer_is_anchored_between_samples() {
    let recording = recording();
    assert_eq!(
        mouse_position_anchor(&recording, 150),
        MouseAnchor::Between(RoomMouseSample(100, 10, 20), RoomMouseSample(200, 30, 40))
    );
    assert_eq!(mouse_position_anchor(&recording, 50), MouseAnchor::At(RoomMouseSample(100, 10, 20)));
    assert_eq!(mouse_position_anchor(&recording, 300), MouseAnchor::At(RoomMouseSample(200, 30, 40)));
    let events_only = RoomMouseRecording {
        samples: Vec::new(),
        events: vec![RoomMouseEvent(5, ROOM_MOUSE_EVENT_ENTER, 7, 8, None), RoomMouseEvent(50, ROOM_MOUSE_EVENT_ENTER, 9, 9, None)],
    };
    assert_eq!(mouse_position_anchor(&events_only, 10), MouseAnchor::Event(7, 8));
    assert_eq!(mouse_position_anchor(&events_only, 1), MouseAnchor::Nowhere);
}

#[test]
fn replay_clicks_show_for_a_short_while() {
    let recording = recording();
    assert!(replay_click_is_active(&recording, 150));
    assert!(replay_click_is_active(&recording, 330));
    assert!(!replay_click_is_active(&recording, 331));
    assert!(!replay_click_is_active(&recording, 149));
    assert!(!replay_click_is_active(&recording, u64::MAX));
}

#[test]
fn app_page_embeds_escaped_json() {
    let page = render_app_page("T", "D", "{\"a\":\"</script>\"}");
    assert!(page.starts_with("<!doctype html><html lang=\"en\"><head>"));
    assert!(page.contains("<title>T</title>"));
    assert!(page.contains("<meta name=\"description\" content=\"D\">"));
    assert!(page.contains("{\"a\":\"\\u003c/script>\"}</script>"));
    assert!(page.contains("document.documentElement.dataset.theme=dark?\"dark\":\"light\";}catch(_){"));
    assert!(page.ends_with("init();</script></body></html>"));
}

#[test]
fn puzzle_page_paths_route_back_to_their_puzzle() {
    for id in [0usize, 7, 42, 12345, usize::MAX] {
        let path = puzzle_page_path(id);
        assert_eq!(route_request_from_path(&path), Some(RouteRequest::Game(id)));
    }
}
