//! Which page of the app a path asks for, and which links the app follows itself.

use vstd::prelude::*;
use crate::queens::{append_decimal, decimal_text, digit_text};
use crate::text::{
    all_digits, digits_value, is_digit, parse_usize, parse_usize_spec, starts_with, strip_all_prefix,
    text_contains_char, text_eq, text_starts_with, trim_start_text,
};

verus! {

/// How a puzzle page enters the browser history.
#[derive(Debug, Clone, Copy, PartialEq, Eq, Structural)]
pub enum PuzzleHistoryAction {
    Push,
}

/// How a page change enters the browser history: not at all (`Skip`), or as a new entry.
#[derive(Debug, Clone, Copy, PartialEq, Eq, Structural)]
pub enum HistoryAction {
    Skip,
    Push,
}

/// A page of the app.
#[derive(Debug, Clone, PartialEq, Eq)]
pub enum RouteRequest {
    Puzzles,
    Game(usize),
    Minesweeper,
    Rooms,
    Room(String),
}

/// A page of the app, with the room's slug as text.
pub enum RouteView {
    Puzzles,
    Game(usize),
    Minesweeper,
    Rooms,
    Room(Seq<char>),
}

pub open spec fn route_view(r: RouteRequest) -> RouteView {
    match r {
        RouteRequest::Puzzles => RouteView::Puzzles,
        RouteRequest::Game(id) => RouteView::Game(id),
        RouteRequest::Minesweeper => RouteView::Minesweeper,
        RouteRequest::Rooms => RouteView::Rooms,
        RouteRequest::Room(slug) => RouteView::Room(slug@),
    }
}

pub open spec fn route_view_opt(r: Option<RouteRequest>) -> Option<RouteView> {
    match r {
        Some(x) => Some(route_view(x)),
        None => None,
    }
}

/// Where the query or fragment of a path starts (its first `?` or `#` at or after `i`),
/// or its length when it has none.
pub open spec fn query_start_from(s: Seq<char>, i: int) -> int
    decreases s.len() - i,
{
    if i >= s.len() {
        s.len() as int
    } else if s[i] == '?' || s[i] == '#' {
        i
    } else {
        query_start_from(s, i + 1)
    }
}

/// The text without its trailing slashes.
pub open spec fn trim_trailing_slashes(s: Seq<char>) -> Seq<char>
    decreases s.len(),
{
    if s.len() > 0 && s.last() == '/' {
        trim_trailing_slashes(s.drop_last())
    } else {
        s
    }
}

/// The route part of a path: before any query or fragment, without trailing slashes.
pub open spec fn route_part(path: Seq<char>) -> Seq<char> {
    trim_trailing_slashes(path.take(query_start_from(path, 0)))
}

/// The page a route part names.
pub open spec fn route_of(p: Seq<char>) -> Option<RouteView> {
    if p == ""@ || p == "/"@ {
        Some(RouteView::Game(1))
    } else if p == "/puzzles"@ || p == "/puzzles/9x9"@ {
        Some(RouteView::Puzzles)
    } else if p == "/minesweeper"@ {
        Some(RouteView::Minesweeper)
    } else if p == "/rooms"@ {
        Some(RouteView::Rooms)
    } else if starts_with(p, "/puzzles/9x9/"@) {
        match parse_usize_spec(strip_all_prefix(p, "/puzzles/9x9/"@)) {
            Some(id) => Some(RouteView::Game(id)),
            None => None,
        }
    } else if starts_with(p, "/rooms/"@) {
        let slug = strip_all_prefix(p, "/rooms/"@);
        if slug.len() > 0 && !slug.contains('/') {
            Some(RouteView::Room(slug))
        } else {
            None
        }
    } else {
        None
    }
}

proof fn lemma_query_start(s: Seq<char>, i: int, stop: int)
    requires
        0 <= i <= stop <= s.len(),
        forall|k: int| i <= k < stop ==> s[k] != '?' && s[k] != '#',
        stop == s.len() || s[stop] == '?' || s[stop] == '#',
    ensures
        query_start_from(s, i) == stop,
    decreases stop - i,
{
    if i < stop {
        lemma_query_start(s, i + 1, stop);
    }
}

proof fn lemma_trim_slashes(s: Seq<char>, end: int, k: int)
    requires
        0 <= end <= k <= s.len(),
        forall|j: int| end <= j < k ==> s[j] == '/',
        end == 0 || s[end - 1] != '/',
    ensures
        trim_trailing_slashes(s.take(k)) == s.take(end),
    decreases k - end,
{
    if k > end {
        assert(s.take(k).drop_last() == s.take(k - 1));
        lemma_trim_slashes(s, end, k - 1);
    } else if end > 0 {
        assert(s.take(end).last() == s[end - 1]);
    }
}

/// The route part of a path.
fn route_part_of(path: &str) -> (p: &str)
    ensures
        p@ == route_part(path@),
{
    let n = path.unicode_len();
    let mut stop: usize = 0;
    while stop < n && path.get_char(stop) != '?' && path.get_char(stop) != '#'
        invariant
            n == path@.len(),
            stop <= n,
            forall|k: int| 0 <= k < stop ==> path@[k] != '?' && path@[k] != '#',
        decreases n - stop,
    {
        stop = stop + 1;
    }
    proof {
        lemma_query_start(path@, 0, stop as int);
    }
    let mut end: usize = stop;
    while end > 0 && path.get_char(end - 1) == '/'
        invariant
            n == path@.len(),
            end <= stop <= n,
            forall|j: int| end <= j < stop ==> path@[j] == '/',
        decreases end,
    {
        end = end - 1;
    }
    proof {
        lemma_trim_slashes(path@, end as int, stop as int);
    }
    path.substring_char(0, end)
}

/// The page a path asks for: `/` (and the empty path) is the first puzzle, `/puzzles` and
/// `/puzzles/9x9` the archive, `/puzzles/9x9/<n>` puzzle `n`, `/minesweeper` and `/rooms`
/// those pages, and `/rooms/<slug>` a room; a query, a fragment and trailing slashes are
/// ignored. Any other path asks for no page.
pub fn route_request_from_path(path: &str) -> (r: Option<RouteRequest>)
    ensures
        route_view_opt(r) == route_of(route_part(path@)),
{
    let p = route_part_of(path);
    if text_eq(p, "") || text_eq(p, "/") {
        Some(RouteRequest::Game(1))
    } else if text_eq(p, "/puzzles") || text_eq(p, "/puzzles/9x9") {
        Some(RouteRequest::Puzzles)
    } else if text_eq(p, "/minesweeper") {
        Some(RouteRequest::Minesweeper)
    } else if text_eq(p, "/rooms") {
        Some(RouteRequest::Rooms)
    } else if text_starts_with(p, "/puzzles/9x9/") {
        let rest = trim_start_text(p, "/puzzles/9x9/");
        match parse_usize(rest) {
            Some(id) => Some(RouteRequest::Game(id)),
            None => None,
        }
    } else if text_starts_with(p, "/rooms/") {
        let slug = trim_start_text(p, "/rooms/");
        if slug.unicode_len() > 0 && !text_contains_char(slug, '/') {
            Some(RouteRequest::Room(String::from_str(slug)))
        } else {
            None
        }
    } else {
        None
    }
}

/// The path of a link as the app sees it: the link without the page's origin in front.
pub open spec fn link_path(origin: Seq<char>, href: Seq<char>) -> Seq<char> {
    if starts_with(href, origin) {
        href.skip(origin.len() as int)
    } else {
        href
    }
}

/// The path of a link that the app shows itself: one on this origin that starts with `/`
/// and names a page other than a room (rooms load as pages of their own).
pub open spec fn app_path_spec(origin: Seq<char>, href: Seq<char>) -> Option<Seq<char>> {
    let path = link_path(origin, href);
    if path.len() > 0 && path[0] == '/' {
        match route_of(route_part(path)) {
            Some(RouteView::Room(_)) => None,
            None => None,
            Some(_) => Some(path),
        }
    } else {
        None
    }
}

/// The path of a link that the app shows itself, for a page served from `origin`.
pub fn app_path_from_href_at(origin: &str, href: &str) -> (r: Option<String>)
    ensures
        match r {
            Some(p) => app_path_spec(origin@, href@) == Some(p@),
            None => app_path_spec(origin@, href@) is None,
        },
{
    let path = if text_starts_with(href, origin) {
        href.substring_char(origin.unicode_len(), href.unicode_len())
    } else {
        href
    };
    if path.unicode_len() == 0 || path.get_char(0) != '/' {
        return None;
    }
    match route_request_from_path(path) {
        Some(RouteRequest::Room(_)) => None,
        None => None,
        Some(_) => Some(String::from_str(path)),
    }
}

/// The path of a link that the app shows itself. Outside a browser the page has no origin,
/// so the link is taken as it is.
pub fn app_path_from_href(href: &str) -> (r: Option<String>)
    ensures
        match r {
            Some(p) => app_path_spec(""@, href@) == Some(p@),
            None => app_path_spec(""@, href@) is None,
        },
{
    app_path_from_href_at("", href)
}

/// A digit's text is that one digit.
proof fn lemma_digit_text(d: nat)
    requires
        d < 10,
    ensures
        digit_text(d).len() == 1,
        digit_text(d)[0] as int == '0' as int + d,
{
    reveal_strlit("0");
    reveal_strlit("1");
    reveal_strlit("2");
    reveal_strlit("3");
    reveal_strlit("4");
    reveal_strlit("5");
    reveal_strlit("6");
    reveal_strlit("7");
    reveal_strlit("8");
    reveal_strlit("9");
}

/// The decimal text of a number is a run of digits that spells it.
proof fn lemma_decimal_text_digits(n: nat)
    ensures
        decimal_text(n).len() > 0,
        all_digits(decimal_text(n)),
        digits_value(decimal_text(n)) == n,
    decreases n,
{
    let s = decimal_text(n);
    lemma_digit_text(n % 10);
    if n < 10 {
        assert(s.drop_last() =~= Seq::<char>::empty());
        assert(digits_value(s.drop_last()) == 0);
    } else {
        lemma_decimal_text_digits(n / 10);
        let a = decimal_text(n / 10);
        let b = digit_text(n % 10);
        assert(s == a + b);
        assert(s.drop_last() =~= a);
        assert(s.last() == b[0]);
        assert forall|i: int| 0 <= i < s.len() implies is_digit(#[trigger] s[i]) by {
            if i < a.len() {
                assert(s[i] == a[i]);
            } else {
                assert(s[i] == b[0]);
            }
        }
        assert(digits_value(s) == digits_value(a) * 10 + (n % 10));
    }
}

/// The page of a 9x9 puzzle leads back to that puzzle.
pub proof fn lemma_puzzle_page_path_routes(puzzle_id: usize)
    ensures
        route_of(route_part("/puzzles/9x9/"@ + decimal_text(puzzle_id as nat))) == Some(RouteView::Game(puzzle_id)),
{
    reveal_strlit("/puzzles/9x9/");
    reveal_strlit("");
    reveal_strlit("/");
    reveal_strlit("/puzzles");
    reveal_strlit("/puzzles/9x9");
    reveal_strlit("/minesweeper");
    reveal_strlit("/rooms");
    let pre = "/puzzles/9x9/"@;
    let d = decimal_text(puzzle_id as nat);
    lemma_decimal_text_digits(puzzle_id as nat);
    let p = pre + d;
    assert(pre.len() == 13);
    assert forall|k: int| 0 <= k < p.len() implies p[k] != '?' && p[k] != '#' by {
        if k < 13 {
            assert(p[k] == pre[k]);
        } else {
            assert(p[k] == d[k - 13]);
            assert(is_digit(d[k - 13]));
        }
    }
    lemma_query_start(p, 0, p.len() as int);
    assert(p.take(p.len() as int) =~= p);
    assert(p.last() == d[d.len() - 1]);
    assert(is_digit(d[d.len() - 1]));
    assert(trim_trailing_slashes(p) == p);
    assert(route_part(p) == p);
    assert(p.take(13) =~= pre);
    assert(starts_with(p, pre));
    assert(p.skip(13) =~= d);
    assert(is_digit(d[0]));
    if d.len() >= 13 {
        assert(d.take(13)[0] != pre[0]);
    }
    assert(!starts_with(d, pre));
    reveal_with_fuel(strip_all_prefix, 2);
    assert(strip_all_prefix(p, pre) == d);
    assert(d[0] != '+');
    assert(parse_usize_spec(d) == Some(puzzle_id));
}

/// The path of a 9x9 puzzle's page; it routes back to that puzzle.
pub fn puzzle_page_path(puzzle_id: usize) -> (p: String)
    ensures
        p@ == "/puzzles/9x9/"@ + decimal_text(puzzle_id as nat),
        route_of(route_part(p@)) == Some(RouteView::Game(puzzle_id)),
{
    let mut p = String::from_str("/puzzles/9x9/");
    append_decimal(&mut p, puzzle_id);
    proof {
        lemma_puzzle_page_path_routes(puzzle_id);
    }
    p
}

} // verus!
