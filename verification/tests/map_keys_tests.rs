use osm_gpui::map_keys::{map_key_down, EditMode, KeyOutcome};

fn outcome(
    mode: EditMode,
    add_in_progress: bool,
    cancel_move_drag: bool,
    delete_selection: bool,
    reset_other_progress: bool,
    redraw: bool,
) -> KeyOutcome {
    KeyOutcome { mode, add_in_progress, cancel_move_drag, delete_selection, reset_other_progress, redraw }
}

#[test]
fn escape_in_add_mode_drops_the_drawing_first_then_leaves_the_mode() {
    assert_eq!(map_key_down("escape", EditMode::Add, true), outcome(EditMode::Add, false, true, false, false, true));
    assert_eq!(map_key_down("escape", EditMode::Add, false), outcome(EditMode::Select, false, true, false, false, true));
}

#[test]
fn escape_elsewhere_only_cancels_a_drag() {
    assert_eq!(map_key_down("escape", EditMode::Building, false), outcome(EditMode::Building, false, true, false, false, false));
    assert_eq!(map_key_down("escape", EditMode::Select, false), outcome(EditMode::Select, false, true, false, false, false));
}

#[test]
fn enter_finishes_drawing_only_in_add_mode() {
    assert_eq!(map_key_down("enter", EditMode::Add, true), outcome(EditMode::Add, false, false, false, false, true));
    assert_eq!(map_key_down("enter", EditMode::Add, false), outcome(EditMode::Add, false, false, false, false, false));
    assert_eq!(map_key_down("enter", EditMode::Select, false), outcome(EditMode::Select, false, false, false, false, false));
}

#[test]
fn delete_and_backspace_delete_the_selection() {
    for key in ["delete", "backspace"] {
        assert_eq!(map_key_down(key, EditMode::Select, false), outcome(EditMode::Select, false, false, true, false, false));
    }
}

#[test]
fn mode_shortcuts_switch_mode_and_drop_drawings() {
    assert_eq!(map_key_down("a", EditMode::Select, false), outcome(EditMode::Add, false, false, false, true, true));
    assert_eq!(map_key_down("b", EditMode::Add, true), outcome(EditMode::Building, false, false, false, true, true));
    assert_eq!(map_key_down("x", EditMode::Building, false), outcome(EditMode::Extrude, false, false, false, true, true));
    assert_eq!(map_key_down("q", EditMode::Add, true), outcome(EditMode::Add, true, false, false, false, false));
}
