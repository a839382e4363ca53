use osm_gpui::keybindings::{
    conflict, def, effective_bindings, effective_spec, is_bare_key, is_reserved, shortcuts,
    ShortcutCategory,
};
use osm_gpui::settings::AppSettings;

fn settings_with(overrides: &[(&str, &str)]) -> AppSettings {
    let mut s = AppSettings::default();
    s.keybindings = overrides.iter().map(|(k, v)| (k.to_string(), v.to_string())).collect();
    s
}

#[test]
fn effective_spec_falls_back_to_default() {
    let s = AppSettings::default();
    assert_eq!(effective_spec(&s, "undo"), "cmd-z");
}

#[test]
fn effective_spec_uses_override() {
    let s = settings_with(&[("undo", "cmd-alt-z")]);
    assert_eq!(effective_spec(&s, "undo"), "cmd-alt-z");
}

#[test]
fn effective_spec_later_override_wins() {
    let s = settings_with(&[("undo", "cmd-alt-z"), ("undo", "cmd-u")]);
    assert_eq!(effective_spec(&s, "undo"), "cmd-u");
}

#[test]
fn effective_bindings_covers_all_ids_in_order() {
    let s = AppSettings::default();
    let ids: Vec<_> = effective_bindings(&s).into_iter().map(|(id, _)| id).collect();
    let expected: Vec<_> = shortcuts().iter().map(|d| d.id).collect();
    assert_eq!(ids, expected);
}

#[test]
fn no_two_defaults_collide() {
    let all = shortcuts();
    for (i, a) in all.iter().enumerate() {
        for b in &all[i + 1..] {
            assert_ne!(a.default_spec, b.default_spec, "{} and {} share a default spec", a.id, b.id);
        }
    }
}

#[test]
fn shortcut_ids_are_unique_and_def_finds_them() {
    let all = shortcuts();
    for (i, a) in all.iter().enumerate() {
        for b in &all[i + 1..] {
            assert_ne!(a.id, b.id);
        }
        assert_eq!(def(a.id).label, a.label);
    }
    assert_eq!(def("undo").category, ShortcutCategory::Edit);
}

#[test]
fn reserved_keys_are_rejected() {
    assert!(is_reserved("escape"));
    assert!(is_reserved("cmd-delete"));
    assert!(is_reserved("backspace"));
    assert!(!is_reserved("cmd-o"));
}

#[test]
fn reserved_keys_ignore_case_and_modifiers() {
    assert!(is_reserved("Enter"));
    assert!(is_reserved("shift-RETURN"));
    assert!(!is_reserved("enterprise"));
}

#[test]
fn bare_key_check() {
    assert!(is_bare_key("a"));
    assert!(!is_bare_key("cmd-a"));
    assert!(!is_bare_key("shift-a"));
}

#[test]
fn conflict_detects_duplicate_and_ignores_self() {
    let s = AppSettings::default();
    // "cmd-z" is undo's default spec; assigning it to redo conflicts.
    assert_eq!(conflict(&s, "redo", "cmd-z"), Some("Undo"));
    // Assigning undo's own current spec to undo itself is not a conflict.
    assert_eq!(conflict(&s, "undo", "cmd-z"), None);
}

#[test]
fn conflict_none_when_spec_unused() {
    let s = AppSettings::default();
    assert_eq!(conflict(&s, "undo", "cmd-alt-shift-z"), None);
}

#[test]
fn conflict_sees_overrides() {
    let s = settings_with(&[("redo", "cmd-y")]);
    assert_eq!(conflict(&s, "undo", "cmd-y"), Some("Redo"));
    assert_eq!(conflict(&s, "undo", "cmd-shift-z"), None);
}

#[test]
fn an_override_for_an_unknown_id_is_returned() {
    let s = settings_with(&[("my_plugin_action", "cmd-k")]);
    assert_eq!(effective_spec(&s, "my_plugin_action"), "cmd-k");
}
