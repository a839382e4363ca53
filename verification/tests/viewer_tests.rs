use std::collections::HashMap;

use osm_gpui::layers::osm_layer::{OsmLayer, UploadResult};
use osm_gpui::layers::{LayerId, LayerManager};
use osm_gpui::osm::{Coord, OsmData, OsmNode};
use osm_gpui::viewer::{
    add_osm_dataset, apply_upload_to, has_unsaved_changes, delete_layer_at, move_layer_by, nothing_to_upload, pending_uploads,
    set_active_layer, toggle_layer_visibility, visible_selection,
};
use osm_gpui::layers::osm_layer::{FeatureKind, FeatureRef};

fn c(v: f64) -> Coord {
    Coord(v.to_bits())
}

fn data_with_node(id: i64) -> OsmData {
    let mut nodes = HashMap::new();
    nodes.insert(id, OsmNode { id, lat: c(1.0), lon: c(2.0), version: 1, tags: Vec::new() });
    OsmData { nodes, ways: HashMap::new() }
}

fn three_layers() -> LayerManager<OsmLayer> {
    let mut m = LayerManager::new();
    for name in ["a", "b", "c"] {
        let id = m.alloc_id();
        m.add_layer(id, name.to_string(), OsmLayer::new(id));
    }
    m
}

fn names(m: &LayerManager<OsmLayer>) -> Vec<String> {
    m.layers().iter().map(|e| e.name.clone()).collect()
}

#[test]
fn moving_a_layer_by_one_place_swaps_it_with_its_neighbour() {
    let mut m = three_layers();
    move_layer_by(&mut m, 0, 1);
    assert_eq!(names(&m), vec!["b", "a", "c"]);
    move_layer_by(&mut m, 2, -1);
    assert_eq!(names(&m), vec!["b", "c", "a"]);
    move_layer_by(&mut m, 1, 0);
    assert_eq!(names(&m), vec!["b", "c", "a"]);
}

#[test]
fn moving_a_layer_out_of_the_list_does_nothing() {
    let mut m = three_layers();
    move_layer_by(&mut m, 0, -1);
    move_layer_by(&mut m, 2, 1);
    move_layer_by(&mut m, 5, -4);
    move_layer_by(&mut m, 1, i32::MIN);
    move_layer_by(&mut m, 1, i32::MAX);
    assert_eq!(names(&m), vec!["a", "b", "c"]);
}

#[test]
fn deleting_the_active_layer_clears_the_active_layer() {
    let mut m = three_layers();
    let mut active = Some(LayerId(2));
    delete_layer_at(&mut m, &mut active, 0);
    assert_eq!(names(&m), vec!["b", "c"]);
    assert_eq!(active, Some(LayerId(2)));
    delete_layer_at(&mut m, &mut active, 0);
    assert_eq!(names(&m), vec!["c"]);
    assert_eq!(active, None);
    delete_layer_at(&mut m, &mut active, 3);
    assert_eq!(names(&m), vec!["c"]);
}

#[test]
fn setting_the_active_layer_picks_the_layer_at_the_index() {
    let m = three_layers();
    let mut active = None;
    set_active_layer(&m, &mut active, 2);
    assert_eq!(active, Some(LayerId(3)));
    set_active_layer(&m, &mut active, 7);
    assert_eq!(active, Some(LayerId(3)));
}

#[test]
fn toggling_visibility_flips_only_that_layer() {
    let mut m = three_layers();
    toggle_layer_visibility(&mut m, LayerId(2));
    let shown: Vec<bool> = m.layers().iter().map(|e| e.layer.is_visible()).collect();
    assert_eq!(shown, vec![true, false, true]);
    toggle_layer_visibility(&mut m, LayerId(2));
    toggle_layer_visibility(&mut m, LayerId(9));
    let shown: Vec<bool> = m.layers().iter().map(|e| e.layer.is_visible()).collect();
    assert_eq!(shown, vec![true, true, true]);
}

#[test]
fn datasets_get_unique_names_and_the_first_becomes_active() {
    let mut m = LayerManager::new();
    let mut active = None;
    let first = add_osm_dataset(&mut m, &mut active, String::new(), data_with_node(1));
    let second = add_osm_dataset(&mut m, &mut active, "OSM".to_string(), data_with_node(2));
    let third = add_osm_dataset(&mut m, &mut active, "city.osm".to_string(), data_with_node(3));
    assert_eq!(names(&m), vec!["OSM", "OSM (2)", "city.osm"]);
    assert_eq!((first, second, third), (LayerId(1), LayerId(2), LayerId(3)));
    assert_eq!(active, Some(first));
    let last = &m.layers()[2];
    assert_eq!(last.layer.name(), "city.osm");
    assert_eq!(last.layer.id(), third);
    assert!(!last.layer.is_modified());
    assert!(last.layer.node_lat_lon(3).is_some());
}

#[test]
fn only_edited_layers_are_pending_and_an_upload_answer_settles_them() {
    let mut m = LayerManager::new();
    let mut active = None;
    let a = add_osm_dataset(&mut m, &mut active, "a".to_string(), data_with_node(1));
    let b = add_osm_dataset(&mut m, &mut active, "b".to_string(), data_with_node(2));
    assert!(pending_uploads(&m).is_empty());
    assert!(nothing_to_upload(&pending_uploads(&m)));
    assert!(!has_unsaved_changes(&m));

    let new_id = m.find_layer_mut(b).unwrap().add_node(c(5.0), c(6.0));
    assert_eq!(new_id, -1);
    let pending = pending_uploads(&m);
    assert_eq!(pending.len(), 1);
    assert_eq!(pending[0].0, b);
    assert_eq!(pending[0].1, "b");
    assert_eq!(pending[0].2.counts(), (1, 0, 0));
    assert!(!nothing_to_upload(&pending));
    assert!(has_unsaved_changes(&m));

    let mut result = UploadResult::new();
    result.node_id_remap.insert(-1, (900, 1));
    let ids: Vec<LayerId> = pending.iter().map(|p| p.0).collect();
    apply_upload_to(&mut m, &ids, &result);
    let layer_b = &m.find_layer(b).unwrap().layer;
    assert!(!layer_b.is_modified());
    assert!(layer_b.node_lat_lon(900).is_some());
    assert!(layer_b.node_lat_lon(-1).is_none());
    assert!(pending_uploads(&m).is_empty());
    assert!(!has_unsaved_changes(&m));
    assert!(m.find_layer(a).unwrap().layer.node_lat_lon(1).is_some());
}

#[test]
fn the_selection_keeps_only_features_on_shown_layers() {
    let mut m = three_layers();
    toggle_layer_visibility(&mut m, LayerId(2));
    let f = |l: u64, id: i64| FeatureRef { layer_id: LayerId(l), kind: FeatureKind::Node, id };
    let sel = vec![f(1, 5), f(2, 6), f(9, 7), f(3, 8), f(1, 9)];
    assert_eq!(visible_selection(&m, &sel), vec![f(1, 5), f(3, 8), f(1, 9)]);
}
