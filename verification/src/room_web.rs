//! The checks a room's web pages make on what a browser sends: the form that creates a
//! room, and the parameters of a player's connection.

use vstd::prelude::*;
use crate::display_name::{display_prefix, normalize_display_name, trim_text, trimmed};

verus! {

/// Why a room request fails.
#[derive(Debug, Clone, PartialEq, Eq)]
pub enum RoomError {
    /// There is no such room.
    NotFound,
    /// The request is malformed; the text says how.
    BadRequest(String),
}

/// The parameters of a player's connection to a room.
#[derive(Debug, Clone, PartialEq, Eq)]
pub struct JoinParams {
    pub player_id: String,
    pub name: String,
}

/// The form that creates a room.
#[derive(Debug, Clone, PartialEq, Eq)]
pub struct CreateRoomForm {
    pub display_name: String,
}

/// The error for a form without a usable display name.
pub const ENTER_DISPLAY_NAME: &'static str = "Enter a display name.";

/// The error for a connection without a player id.
pub const MISSING_PLAYER_ID: &'static str = "Missing player id";

/// The error for a connection without a usable display name.
pub const MISSING_DISPLAY_NAME: &'static str = "Missing display name";

/// The display name a room is created for: the form's name, trimmed and cut to length; a
/// name with nothing in it is a bad request.
pub fn create_room_display_name(form: &CreateRoomForm) -> (r: Result<String, RoomError>)
    ensures
        trimmed(form.display_name@).len() == 0 ==> (r matches Err(RoomError::BadRequest(m)) && m@
            == ENTER_DISPLAY_NAME@),
        trimmed(form.display_name@).len() > 0 ==> (r matches Ok(name) && name@ == display_prefix(
            trimmed(form.display_name@),
        )),
{
    match normalize_display_name(form.display_name.as_str()) {
        Some(name) => Ok(name),
        None => Err(RoomError::BadRequest(String::from_str(ENTER_DISPLAY_NAME))),
    }
}

/// Checks a player's connection to a room: a player id is needed, and a name with
/// something in it, and the room must exist. Returns the player's display name.
pub fn check_join_params(params: &JoinParams, room_exists: bool) -> (r: Result<String, RoomError>)
    ensures
        trimmed(params.player_id@).len() == 0 ==> (r matches Err(RoomError::BadRequest(m)) && m@
            == MISSING_PLAYER_ID@),
        trimmed(params.player_id@).len() > 0 && trimmed(params.name@).len() == 0 ==> (r matches Err(
            RoomError::BadRequest(m),
        ) && m@ == MISSING_DISPLAY_NAME@),
        trimmed(params.player_id@).len() > 0 && trimmed(params.name@).len() > 0 && !room_exists ==> r matches Err(
            RoomError::NotFound,
        ),
        trimmed(params.player_id@).len() > 0 && trimmed(params.name@).len() > 0 && room_exists ==> (r matches Ok(
            name,
        ) && name@ == display_prefix(trimmed(params.name@))),
{
    if trim_text(params.player_id.as_str()).unicode_len() == 0 {
        return Err(RoomError::BadRequest(String::from_str(MISSING_PLAYER_ID)));
    }
    let name = match normalize_display_name(params.name.as_str()) {
        Some(n) => n,
        None => {
            return Err(RoomError::BadRequest(String::from_str(MISSING_DISPLAY_NAME)));
        },
    };
    if !room_exists {
        return Err(RoomError::NotFound);
    }
    Ok(name)
}

} // verus!
