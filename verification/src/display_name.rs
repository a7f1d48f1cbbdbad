//! Display names of room players.

use vstd::prelude::*;

verus! {

/// The longest display name, in characters.
pub const DISPLAY_NAME_MAX_CHARS: usize = 32;

/// The characters with the Unicode property `White_Space`.
pub open spec fn is_white_space(c: char) -> bool {
    ||| '\u{9}' <= c <= '\u{d}'
    ||| c == ' '
    ||| c == '\u{85}'
    ||| c == '\u{a0}'
    ||| c == '\u{1680}'
    ||| '\u{2000}' <= c <= '\u{200a}'
    ||| c == '\u{2028}'
    ||| c == '\u{2029}'
    ||| c == '\u{202f}'
    ||| c == '\u{205f}'
    ||| c == '\u{3000}'
}

/// How many whitespace characters the text starts with.
pub open spec fn leading_white_space(text: Seq<char>) -> nat
    decreases text.len(),
{
    if text.len() > 0 && is_white_space(text[0]) {
        1 + leading_white_space(text.drop_first())
    } else {
        0
    }
}

/// How many whitespace characters the text ends with.
pub open spec fn trailing_white_space(text: Seq<char>) -> nat
    decreases text.len(),
{
    if text.len() > 0 && is_white_space(text.last()) {
        1 + trailing_white_space(text.drop_last())
    } else {
        0
    }
}

/// What `str::trim` leaves of a text: the text without its leading and trailing whitespace.
pub open spec fn trimmed(text: Seq<char>) -> Seq<char> {
    let rest = text.skip(leading_white_space(text) as int);
    rest.take(rest.len() - trailing_white_space(rest))
}

/// Calls `str::trim`, which removes the leading and trailing characters that Unicode gives
/// the property `White_Space`, as its documentation says.
#[verifier::external_body]
pub(crate) fn trim_text<'a>(text: &'a str) -> (t: &'a str)
    ensures
        t@ == trimmed(text@),
{
    text.trim()
}

/// The first `DISPLAY_NAME_MAX_CHARS` characters of a text (all of a shorter one).
pub open spec fn display_prefix(text: Seq<char>) -> Seq<char> {
    if text.len() <= DISPLAY_NAME_MAX_CHARS {
        text
    } else {
        text.take(DISPLAY_NAME_MAX_CHARS as int)
    }
}

/// The display name for a text that is already trimmed: none for an empty text, else its
/// first `DISPLAY_NAME_MAX_CHARS` characters.
pub fn display_name_from_trimmed(trimmed_text: &str) -> (name: Option<String>)
    ensures
        name is None <==> trimmed_text@.len() == 0,
        name matches Some(n) ==> n@ == display_prefix(trimmed_text@),
{
    let len = trimmed_text.unicode_len();
    if len == 0 {
        return None;
    }
    let keep = if len < DISPLAY_NAME_MAX_CHARS {
        len
    } else {
        DISPLAY_NAME_MAX_CHARS
    };
    let kept = trimmed_text.substring_char(0, keep);
    proof {
        assert(trimmed_text@.subrange(0, len as int) == trimmed_text@);
    }
    Some(String::from_str(kept))
}

/// A player's display name: the given name trimmed of surrounding whitespace and cut to
/// `DISPLAY_NAME_MAX_CHARS` characters; none when nothing is left.
pub fn normalize_display_name(name: &str) -> (display: Option<String>)
    ensures
        display is None <==> trimmed(name@).len() == 0,
        display matches Some(n) ==> n@ == display_prefix(trimmed(name@)),
{
    let t = trim_text(name);
    display_name_from_trimmed(t)
}

} // verus!
