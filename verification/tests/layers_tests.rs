use osm_gpui::layers::{effective_tile_zoom, LayerId, LayerManager};

/// A manager holding one layer per name, in order, each carrying its name
/// in upper case as payload.
fn manager_with(names: &[&str]) -> LayerManager<String> {
    let mut manager = LayerManager::new();
    for name in names {
        let id = manager.alloc_id();
        manager.add_layer(id, name.to_string(), name.to_uppercase());
    }
    manager
}

fn names(m: &LayerManager<String>) -> Vec<&str> {
    m.layers().iter().map(|l| l.name.as_str()).collect()
}

#[test]
fn move_layer_down() {
    let mut m = manager_with(&["a", "b", "c"]);
    m.move_layer(0, 2);
    assert_eq!(names(&m), vec!["b", "c", "a"]);
}

#[test]
fn move_layer_up() {
    let mut m = manager_with(&["a", "b", "c"]);
    m.move_layer(2, 0);
    assert_eq!(names(&m), vec!["c", "a", "b"]);
}

#[test]
fn move_layer_same_index_is_noop() {
    let mut m = manager_with(&["a", "b"]);
    m.move_layer(1, 1);
    assert_eq!(names(&m), vec!["a", "b"]);
}

#[test]
fn move_layer_out_of_bounds_is_noop() {
    let mut m = manager_with(&["a", "b"]);
    m.move_layer(0, 99);
    m.move_layer(99, 0);
    assert_eq!(names(&m), vec!["a", "b"]);
}

#[test]
fn remove_at_removes_item() {
    let mut m = manager_with(&["a", "b", "c"]);
    let removed = m.remove_at(1);
    assert_eq!(removed.map(|l| l.name), Some("b".to_string()));
    assert_eq!(names(&m), vec!["a", "c"]);
}

#[test]
fn remove_at_out_of_bounds_is_none() {
    let mut m = manager_with(&["a", "b"]);
    assert!(m.remove_at(5).is_none());
    assert_eq!(names(&m), vec!["a", "b"]);
}

#[test]
fn find_layer_by_id_finds_the_right_layer() {
    let mut manager = manager_with(&["a", "b"]);
    let id_a = manager.layers()[0].id;
    let id_b = manager.layers()[1].id;

    assert_eq!(manager.find_layer(id_b).map(|l| l.name.as_str()), Some("b"));
    assert_eq!(manager.find_layer_mut(id_a).map(|l| l.clone()), Some("A".to_string()));
}

#[test]
fn find_layer_by_id_unknown_id_is_none() {
    let mut manager = manager_with(&["a"]);
    let bogus = manager.alloc_id();
    assert!(manager.find_layer(bogus).is_none());
}

#[test]
fn find_layer_mut_changes_the_payload() {
    let mut manager = manager_with(&["a", "b"]);
    let id_b = manager.layers()[1].id;
    *manager.find_layer_mut(id_b).unwrap() = "changed".to_string();
    assert_eq!(manager.layers()[1].layer, "changed");
    assert_eq!(manager.layers()[0].layer, "A");
}

#[test]
fn alloc_id_never_repeats() {
    let mut manager: LayerManager<()> = LayerManager::new();
    let a = manager.alloc_id();
    let b = manager.alloc_id();
    let c = manager.alloc_id();
    assert_eq!(a, LayerId(1));
    assert_eq!(b, LayerId(2));
    assert_eq!(c, LayerId(3));
}

#[test]
fn layer_named_finds_first_match() {
    let m = manager_with(&["x", "y"]);
    assert_eq!(m.layer_named("y").map(|l| l.id), Some(LayerId(2)));
    assert!(m.layer_named("z").is_none());
}

#[test]
fn unique_name_returns_base_when_untaken() {
    let m = manager_with(&["a", "b"]);
    assert_eq!(m.unique_name("c"), "c");
}

#[test]
fn unique_name_appends_counter_on_collision() {
    let m = manager_with(&["a"]);
    assert_eq!(m.unique_name("a"), "a (2)");
}

#[test]
fn unique_name_skips_past_multiple_collisions() {
    let m = manager_with(&["a", "a (2)", "a (3)"]);
    assert_eq!(m.unique_name("a"), "a (4)");
}

#[test]
fn unique_name_fills_the_first_gap() {
    let m = manager_with(&["a", "a (3)"]);
    assert_eq!(m.unique_name("a"), "a (2)");
}

/// The viewport zoom rounded to a whole level (none below 0).
fn level(viewport_z: f64) -> u32 {
    viewport_z.round().max(0.0) as u32
}

fn compute_effective_tile_zoom(viewport_z: f64, min_zoom: Option<u32>, max_zoom: Option<u32>) -> Option<u32> {
    effective_tile_zoom(level(viewport_z), min_zoom, max_zoom)
}

#[test]
fn no_bounds_passthrough() {
    assert_eq!(compute_effective_tile_zoom(0.0, None, None), Some(0));
    assert_eq!(compute_effective_tile_zoom(5.4, None, None), Some(5));
    assert_eq!(compute_effective_tile_zoom(12.0, None, None), Some(12));
    // Existing global cap of 18.
    assert_eq!(compute_effective_tile_zoom(20.0, None, None), Some(18));
}

#[test]
fn below_min_returns_none() {
    assert_eq!(compute_effective_tile_zoom(3.0, Some(5), None), None);
    assert_eq!(compute_effective_tile_zoom(4.49, Some(5), None), None);
}

#[test]
fn at_min_uses_viewport_z() {
    assert_eq!(compute_effective_tile_zoom(5.0, Some(5), None), Some(5));
    assert_eq!(compute_effective_tile_zoom(4.5, Some(5), None), Some(5));
}

#[test]
fn at_max_uses_viewport_z() {
    assert_eq!(compute_effective_tile_zoom(14.0, None, Some(14)), Some(14));
    assert_eq!(compute_effective_tile_zoom(13.5, None, Some(14)), Some(14));
}

#[test]
fn one_above_max_clamps() {
    assert_eq!(compute_effective_tile_zoom(15.0, None, Some(14)), Some(14));
}

#[test]
fn two_above_max_returns_none() {
    assert_eq!(compute_effective_tile_zoom(16.0, None, Some(14)), None);
    assert_eq!(compute_effective_tile_zoom(17.0, None, Some(14)), None);
}

#[test]
fn far_above_max_draws_nothing_even_past_the_global_cap() {
    assert_eq!(compute_effective_tile_zoom(19.0, None, Some(17)), None);
    assert_eq!(compute_effective_tile_zoom(19.0, None, Some(18)), Some(18));
    assert_eq!(compute_effective_tile_zoom(21.0, None, Some(20)), Some(18));
    assert_eq!(compute_effective_tile_zoom(25.0, None, None), Some(18));
}

#[test]
fn min_and_max_combined() {
    assert_eq!(compute_effective_tile_zoom(4.0, Some(5), Some(14)), None);
    assert_eq!(compute_effective_tile_zoom(5.0, Some(5), Some(14)), Some(5));
    assert_eq!(compute_effective_tile_zoom(10.0, Some(5), Some(14)), Some(10));
    assert_eq!(compute_effective_tile_zoom(14.0, Some(5), Some(14)), Some(14));
    assert_eq!(compute_effective_tile_zoom(15.0, Some(5), Some(14)), Some(14));
    assert_eq!(compute_effective_tile_zoom(16.0, Some(5), Some(14)), None);
}
