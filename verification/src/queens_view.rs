//! How the Queens board shows itself: the classes and labels of cells, the input modes,
//! and the status line under the board.

use vstd::prelude::*;
use crate::queens::{append_decimal, cell_class_spec, decimal_text, CellState, CellView, ValidateResponse};

verus! {

/// What a click on a cell does.
#[derive(Debug, Clone, Copy, PartialEq, Eq, Structural)]
pub enum Mode {
    Queen,
    Mark,
    Clear,
}

/// The status line: how many rows, columns and regions are satisfied, and the first
/// message if there is one.
pub open spec fn validation_status_spec(v: &ValidateResponse, size: usize) -> Seq<char> {
    let base = decimal_text(v.satisfied_rows as nat) + "/"@ + decimal_text(size as nat) + " rows · "@ + decimal_text(
        v.satisfied_columns as nat,
    ) + "/"@ + decimal_text(size as nat) + " columns · "@ + decimal_text(v.satisfied_regions as nat) + "/"@
        + decimal_text(size as nat) + " regions"@;
    if v.messages.len() > 0 {
        base + " - "@ + v.messages@[0]@
    } else {
        base
    }
}

/// The status line under the board.
pub fn validation_status(validation: &ValidateResponse, size: usize) -> (s: String)
    ensures
        s@ == validation_status_spec(validation, size),
{
    let mut s = String::new();
    append_decimal(&mut s, validation.satisfied_rows);
    s.append("/");
    append_decimal(&mut s, size);
    s.append(" rows · ");
    append_decimal(&mut s, validation.satisfied_columns);
    s.append("/");
    append_decimal(&mut s, size);
    s.append(" columns · ");
    append_decimal(&mut s, validation.satisfied_regions);
    s.append("/");
    append_decimal(&mut s, size);
    s.append(" regions");
    if validation.messages.len() > 0 {
        s.append(" - ");
        s.append(validation.messages[0].as_str());
    }
    s
}

/// The class of a mode button: `active` for the current mode.
pub fn mode_button_class(current: Mode, mode: Mode) -> (c: &'static str)
    ensures
        c@ == if current == mode {
            "mode-button active"@
        } else {
            "mode-button"@
        },
{
    if current == mode {
        "mode-button active"
    } else {
        "mode-button"
    }
}

/// The markers a cell state adds to a cell's classes.
pub open spec fn state_markers(state: CellState) -> Seq<char> {
    (if state == CellState::Mark || state == CellState::AutoMark {
        " marked"@
    } else {
        ""@
    }) + (if state == CellState::AutoMark {
        " auto-marked"@
    } else {
        ""@
    }) + (if state == CellState::Queen {
        " queen"@
    } else {
        ""@
    })
}

fn append_state_markers(class_name: &mut String, state: CellState)
    ensures
        final(class_name)@ == old(class_name)@ + state_markers(state),
{
    if state.is_marked() {
        class_name.append(" marked");
    } else {
        class_name.append("");
    }
    if state == CellState::AutoMark {
        class_name.append(" auto-marked");
    } else {
        class_name.append("");
    }
    if state == CellState::Queen {
        class_name.append(" queen");
    } else {
        class_name.append("");
    }
}

/// Whether a list of cells holds `(row, col)`.
pub open spec fn lists_cell(cells: Seq<[usize; 2]>, row: usize, col: usize) -> bool {
    exists|k: int| 0 <= k < cells.len() && (#[trigger] cells[k])[0] == row && cells[k][1] == col
}

fn has_cell(cells: &Vec<[usize; 2]>, row: usize, col: usize) -> (b: bool)
    ensures
        b == lists_cell(cells@, row, col),
{
    let mut k: usize = 0;
    while k < cells.len()
        invariant
            k <= cells.len(),
            forall|j: int| 0 <= j < k ==> !((#[trigger] cells@[j])[0] == row && cells@[j][1] == col),
        decreases cells.len() - k,
    {
        if cells[k][0] == row && cells[k][1] == col {
            proof {
                assert(cells@[k as int][0] == row);
            }
            return true;
        }
        k = k + 1;
    }
    false
}

/// The classes of a board cell: its borders, its state, and `conflict` when it is one of
/// the conflicting cells.
pub fn cell_class(cell: &CellView, state: CellState, conflict_cells: &Vec<[usize; 2]>) -> (c: String)
    ensures
        c@ == cell_class_spec(cell.border_top, cell.border_right, cell.border_bottom, cell.border_left)
            + state_markers(state) + if lists_cell(conflict_cells@, cell.row, cell.col) {
            " conflict"@
        } else {
            ""@
        },
{
    let mut class_name = cell.class_name();
    append_state_markers(&mut class_name, state);
    if has_cell(conflict_cells, cell.row, cell.col) {
        class_name.append(" conflict");
    } else {
        class_name.append("");
    }
    class_name
}

/// The classes of a cell in a replay.
pub fn replay_cell_class(cell: &CellView, state: CellState) -> (c: String)
    ensures
        c@ == cell_class_spec(cell.border_top, cell.border_right, cell.border_bottom, cell.border_left)
            + " replay-cell"@ + state_markers(state),
{
    let mut class_name = cell.class_name();
    class_name.append(" replay-cell");
    append_state_markers(&mut class_name, state);
    class_name
}

/// The label a screen reader reads for a cell (rows and columns counted from 1).
pub open spec fn cell_aria_spec(row: usize, col: usize, state: CellState) -> Seq<char> {
    "Row "@ + decimal_text((row + 1) as nat) + ", column "@ + decimal_text((col + 1) as nat) + match state {
        CellState::Queen => ", queen"@,
        CellState::Mark => ", marked"@,
        CellState::AutoMark => ", marked"@,
        CellState::Empty => ""@,
    }
}

/// The label a screen reader reads for a cell.
pub fn cell_aria(cell: &CellView, state: CellState) -> (a: String)
    requires
        cell.row < usize::MAX,
        cell.col < usize::MAX,
    ensures
        a@ == cell_aria_spec(cell.row, cell.col, state),
{
    let mut a = String::from_str("Row ");
    append_decimal(&mut a, cell.row + 1);
    a.append(", column ");
    append_decimal(&mut a, cell.col + 1);
    match state {
        CellState::Queen => a.append(", queen"),
        CellState::Mark => a.append(", marked"),
        CellState::AutoMark => a.append(", marked"),
        CellState::Empty => a.append(""),
    }
    a
}

} // verus!
