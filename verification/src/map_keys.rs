//! What a key pressed over the map does to the editing mode.

use vstd::prelude::*;

use crate::text::str_eq;

verus! {

/// The map's editing mode.
#[derive(Debug, Clone, Copy, PartialEq, Eq, Structural)]
pub enum EditMode {
    Select,
    Add,
    Building,
    Extrude,
}

/// What a key press over the map leads to: the mode and whether a way is
/// still being drawn in Add mode afterwards, and the other things to do.
#[derive(Debug, Clone, Copy, PartialEq, Eq, Structural)]
pub struct KeyOutcome {
    pub mode: EditMode,
    /// Whether an Add-mode way drawing is still in progress.
    pub add_in_progress: bool,
    /// Cancel a move drag of the selection, if one is under way.
    pub cancel_move_drag: bool,
    /// Delete the selected features.
    pub delete_selection: bool,
    /// Drop an unfinished building and an extrusion drag (a mode switch).
    pub reset_other_progress: bool,
    /// The map has to be drawn again.
    pub redraw: bool,
}

/// A switch to `mode` by its shortcut: any drawing in progress is dropped.
pub open spec fn mode_switch(mode: EditMode) -> KeyOutcome {
    KeyOutcome {
        mode,
        add_in_progress: false,
        cancel_move_drag: false,
        delete_selection: false,
        reset_other_progress: true,
        redraw: true,
    }
}

/// Nothing changes.
pub open spec fn unchanged(mode: EditMode, adding: bool) -> KeyOutcome {
    KeyOutcome {
        mode,
        add_in_progress: adding,
        cancel_move_drag: false,
        delete_selection: false,
        reset_other_progress: false,
        redraw: false,
    }
}

/// What pressing `key` over the map does in `mode`, with an Add-mode way
/// drawing in progress when `adding`:
/// - `escape` cancels a move drag; in Add mode it drops the way being
///   drawn, or, when there is none, goes back to Select mode;
/// - `enter` in Add mode finishes (drops) the way being drawn;
/// - `delete` and `backspace` delete the selection;
/// - `a`, `b` and `x` switch to Add, Building and Extrude mode;
/// - any other key does nothing.
pub open spec fn key_outcome(key: Seq<char>, mode: EditMode, adding: bool) -> KeyOutcome {
    if key == "escape"@ {
        if mode == EditMode::Add {
            KeyOutcome {
                mode: if adding {
                    EditMode::Add
                } else {
                    EditMode::Select
                },
                add_in_progress: false,
                cancel_move_drag: true,
                delete_selection: false,
                reset_other_progress: false,
                redraw: true,
            }
        } else {
            KeyOutcome { cancel_move_drag: true, ..unchanged(mode, adding) }
        }
    } else if key == "enter"@ && mode == EditMode::Add {
        KeyOutcome { add_in_progress: false, redraw: adding, ..unchanged(mode, adding) }
    } else if key == "delete"@ || key == "backspace"@ {
        KeyOutcome { delete_selection: true, ..unchanged(mode, adding) }
    } else if key == "a"@ {
        mode_switch(EditMode::Add)
    } else if key == "b"@ {
        mode_switch(EditMode::Building)
    } else if key == "x"@ {
        mode_switch(EditMode::Extrude)
    } else {
        unchanged(mode, adding)
    }
}

fn switch_to(mode: EditMode) -> (r: KeyOutcome)
    ensures
        r == mode_switch(mode),
{
    KeyOutcome {
        mode,
        add_in_progress: false,
        cancel_move_drag: false,
        delete_selection: false,
        reset_other_progress: true,
        redraw: true,
    }
}

/// What pressing `key` over the map does (see `key_outcome`).
pub fn map_key_down(key: &str, mode: EditMode, adding: bool) -> (r: KeyOutcome)
    ensures
        r == key_outcome(key@, mode, adding),
{
    proof {
        reveal_strlit("escape");
        reveal_strlit("enter");
        reveal_strlit("delete");
        reveal_strlit("backspace");
        reveal_strlit("a");
        reveal_strlit("b");
        reveal_strlit("x");
    }
    let same = KeyOutcome {
        mode,
        add_in_progress: adding,
        cancel_move_drag: false,
        delete_selection: false,
        reset_other_progress: false,
        redraw: false,
    };
    if str_eq(key, "escape") {
        if mode == EditMode::Add {
            KeyOutcome {
                mode: if adding {
                    EditMode::Add
                } else {
                    EditMode::Select
                },
                add_in_progress: false,
                cancel_move_drag: true,
                delete_selection: false,
                reset_other_progress: false,
                redraw: true,
            }
        } else {
            KeyOutcome { cancel_move_drag: true, ..same }
        }
    } else if str_eq(key, "enter") && mode == EditMode::Add {
        KeyOutcome { add_in_progress: false, redraw: adding, ..same }
    } else if str_eq(key, "delete") || str_eq(key, "backspace") {
        KeyOutcome { delete_selection: true, ..same }
    } else if str_eq(key, "a") {
        switch_to(EditMode::Add)
    } else if str_eq(key, "b") {
        switch_to(EditMode::Building)
    } else if str_eq(key, "x") {
        switch_to(EditMode::Extrude)
    } else {
        same
    }
}


/// What each key does, whatever the mode and drawing state: `delete` and
/// `backspace` always delete the selection and change nothing else;
/// `escape` always cancels a move drag and never deletes; `a`, `b` and `x`
/// always switch to Add, Building and Extrude mode and drop any drawing;
/// only `escape` and `enter` ever end a drawing without switching mode.
pub proof fn law_key_effects(mode: EditMode, adding: bool)
    ensures
        key_outcome("delete"@, mode, adding).delete_selection,
        key_outcome("backspace"@, mode, adding).delete_selection,
        key_outcome("delete"@, mode, adding).mode == mode && key_outcome("delete"@, mode, adding).add_in_progress == adding,
        key_outcome("backspace"@, mode, adding).mode == mode && key_outcome("backspace"@, mode, adding).add_in_progress
            == adding,
        key_outcome("escape"@, mode, adding).cancel_move_drag,
        !key_outcome("escape"@, mode, adding).delete_selection,
        mode == EditMode::Add && !adding ==> key_outcome("escape"@, mode, adding).mode == EditMode::Select,
        mode == EditMode::Add ==> !key_outcome("escape"@, mode, adding).add_in_progress,
        mode == EditMode::Add ==> !key_outcome("enter"@, mode, adding).add_in_progress,
        key_outcome("a"@, mode, adding).mode == EditMode::Add && !key_outcome("a"@, mode, adding).add_in_progress,
        key_outcome("b"@, mode, adding).mode == EditMode::Building && !key_outcome("b"@, mode, adding).add_in_progress,
        key_outcome("x"@, mode, adding).mode == EditMode::Extrude && !key_outcome("x"@, mode, adding).add_in_progress,
        key_outcome("a"@, mode, adding).reset_other_progress && key_outcome("b"@, mode, adding).reset_other_progress
            && key_outcome("x"@, mode, adding).reset_other_progress,
{
    reveal_strlit("escape");
    reveal_strlit("enter");
    reveal_strlit("delete");
    reveal_strlit("backspace");
    reveal_strlit("a");
    reveal_strlit("b");
    reveal_strlit("x");
    assert("delete"@[0] != "escape"@[0]);
    assert("delete"@.len() != "enter"@.len());
    assert("backspace"@.len() != "escape"@.len());
    assert("backspace"@.len() != "enter"@.len());
    assert("a"@.len() == 1 && "b"@.len() == 1 && "x"@.len() == 1);
    assert("b"@[0] != "a"@[0] && "x"@[0] != "a"@[0] && "x"@[0] != "b"@[0]);
    assert("b"@ != "escape"@ && "b"@ != "enter"@ && "b"@ != "delete"@ && "b"@ != "backspace"@ && "b"@ != "a"@);
    assert("x"@ != "escape"@ && "x"@ != "enter"@ && "x"@ != "delete"@ && "x"@ != "backspace"@ && "x"@ != "a"@
        && "x"@ != "b"@);
}


/// Escape in Add mode first drops the way being drawn and stays in Add
/// mode; enter outside Add mode, and any key other than escape, enter,
/// delete, backspace, `a`, `b` and `x`, changes nothing and asks for
/// nothing.
pub proof fn law_other_keys_change_nothing(key: Seq<char>, mode: EditMode, adding: bool)
    ensures
        mode == EditMode::Add && adding ==> key_outcome("escape"@, mode, adding).mode == EditMode::Add,
        (mode != EditMode::Add && key == "enter"@) || (key != "escape"@ && key != "enter"@ && key != "delete"@ && key
            != "backspace"@ && key != "a"@ && key != "b"@ && key != "x"@) ==> {
            let o = key_outcome(key, mode, adding);
            &&& o.mode == mode
            &&& o.add_in_progress == adding
            &&& !o.cancel_move_drag && !o.delete_selection && !o.reset_other_progress && !o.redraw
        },
{
    reveal_strlit("escape");
    reveal_strlit("enter");
    reveal_strlit("delete");
    reveal_strlit("backspace");
    reveal_strlit("a");
    reveal_strlit("b");
    reveal_strlit("x");
    assert("enter"@.len() != "escape"@.len());
    assert("enter"@.len() != "delete"@.len() && "enter"@.len() != "backspace"@.len() && "enter"@.len() != "a"@.len()
        && "enter"@.len() != "b"@.len() && "enter"@.len() != "x"@.len());
}

} // verus!
