//! The HTML page that hosts the app, with the page's data embedded as JSON.

use vstd::prelude::*;

verus! {

/// The page up to its title.
pub const PAGE_BEFORE_TITLE: &'static str = r#"<!doctype html><html lang="en"><head><meta charset="utf-8"><meta name="viewport" content="width=device-width, initial-scale=1"><title>"#;

/// The page between its title and its description.
pub const PAGE_BEFORE_DESCRIPTION: &'static str = r#"</title><meta name="description" content=""#;

/// The page between its description and its data: the theme script, the style sheet and
/// the app's root element.
pub const PAGE_BEFORE_DATA: &'static str = r#""><link rel="icon" type="image/svg+xml" href="/static/mage-light.svg"><script>(function(){try{var key="boardmage:theme";var stored=localStorage.getItem(key);var dark=stored?stored==="dark":window.matchMedia&&window.matchMedia("(prefers-color-scheme: dark)").matches;document.documentElement.dataset.theme=dark?"dark":"light";}catch(_){document.documentElement.dataset.theme="light";}})();</script><link rel="stylesheet" href="/static/style.css"></head><body><div id="game-root"></div><script type="application/json" id="app-data">"#;

/// The page after its data: the script that starts the app.
pub const PAGE_AFTER_DATA: &'static str = r#"</script><script type="module">import init from "/static/client/queensgame_client.js"; init();</script></body></html>"#;

/// What stands for `<` in embedded JSON, so that the data cannot close its script element.
pub const ESCAPED_LESS_THAN: &'static str = r#"\u003c"#;

/// The JSON with every `<` written as `\u003c`.
pub open spec fn escape_less_than(s: Seq<char>) -> Seq<char>
    decreases s.len(),
{
    if s.len() == 0 {
        seq![]
    } else {
        escape_less_than(s.drop_last()) + if s.last() == '<' {
            ESCAPED_LESS_THAN@
        } else {
            seq![s.last()]
        }
    }
}

/// The app's page with the given title, description and data.
pub open spec fn app_page(title: Seq<char>, description: Seq<char>, app_json: Seq<char>) -> Seq<char> {
    PAGE_BEFORE_TITLE@ + title + PAGE_BEFORE_DESCRIPTION@ + description + PAGE_BEFORE_DATA@
        + escape_less_than(app_json) + PAGE_AFTER_DATA@
}

/// Appends the JSON with every `<` written as `\u003c`.
fn append_escaped_json(page: &mut String, app_json: &str)
    ensures
        final(page)@ == old(page)@ + escape_less_than(app_json@),
{
    let n = app_json.unicode_len();
    let mut i: usize = 0;
    while i < n
        invariant
            n == app_json@.len(),
            i <= n,
            page@ == old(page)@ + escape_less_than(app_json@.take(i as int)),
        decreases n - i,
    {
        let c = app_json.get_char(i);
        proof {
            assert(app_json@.take(i + 1).drop_last() == app_json@.take(i as int));
            assert(app_json@.take(i + 1).last() == c);
        }
        if c == '<' {
            page.append(ESCAPED_LESS_THAN);
        } else {
            let one = app_json.substring_char(i, i + 1);
            proof {
                assert(one@ == seq![c]);
            }
            page.append(one);
        }
        i = i + 1;
    }
    proof {
        assert(app_json@.take(n as int) == app_json@);
    }
}

/// The HTML page that hosts the app: the title, the description, and the page's data as
/// JSON in a script element (with `<` escaped).
pub fn render_app_page(title: &str, description: &str, app_json: &str) -> (page: String)
    ensures
        page@ == app_page(title@, description@, app_json@),
{
    let mut page = String::from_str(PAGE_BEFORE_TITLE);
    page.append(title);
    page.append(PAGE_BEFORE_DESCRIPTION);
    page.append(description);
    page.append(PAGE_BEFORE_DATA);
    append_escaped_json(&mut page, app_json);
    page.append(PAGE_AFTER_DATA);
    page
}

} // verus!
