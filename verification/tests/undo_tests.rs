use std::collections::HashMap;

use osm_gpui::layers::osm_layer::{FeatureKind, OsmLayer};
use osm_gpui::layers::{LayerId, LayerManager};
use osm_gpui::osm::{Coord, OsmData, OsmNode, OsmWay};
use osm_gpui::layers::osm_layer::FeatureRef;
use osm_gpui::undo::{apply_undo_action, UndoableAction};

fn c(v: f64) -> Coord {
    Coord(v.to_bits())
}

fn manager_with(nodes: Vec<OsmNode>, ways: Vec<OsmWay>) -> (LayerManager<OsmLayer>, LayerId) {
    let mut node_map = HashMap::new();
    for n in nodes {
        node_map.insert(n.id, n);
    }
    let mut way_map = HashMap::new();
    for w in ways {
        way_map.insert(w.id, w);
    }
    let mut m = LayerManager::new();
    let id = m.alloc_id();
    let layer = OsmLayer::new_with_data(id, "L".to_string(), OsmData { nodes: node_map, ways: way_map });
    m.add_layer(id, "L".to_string(), layer);
    (m, id)
}

fn node(id: i64, lat: f64, lon: f64) -> OsmNode {
    OsmNode { id, lat: c(lat), lon: c(lon), version: 1, tags: Vec::new() }
}

fn layer(m: &LayerManager<OsmLayer>, id: LayerId) -> &OsmLayer {
    &m.find_layer(id).unwrap().layer
}

fn tag(l: &OsmLayer, id: i64, key: &str) -> Option<String> {
    l.get_osm_data()
        .unwrap()
        .nodes
        .get(&id)
        .and_then(|n| n.tags.iter().rev().find(|(k, _)| k == key).map(|(_, v)| v.clone()))
}

#[test]
fn undo_and_redo_of_node_moves() {
    let (mut m, lid) = manager_with(vec![node(1, 40.0, -74.0)], vec![]);
    m.find_layer_mut(lid).unwrap().commit_node_moves(&[(1, c(41.0), c(-75.0))]);
    let action = UndoableAction::MoveNodes { per_layer: vec![(lid, vec![(1, (c(40.0), c(-74.0)), (c(41.0), c(-75.0)))])] };

    apply_undo_action(&mut m, &action, false);
    assert_eq!(layer(&m, lid).node_lat_lon(1), Some((c(40.0), c(-74.0))));

    apply_undo_action(&mut m, &action, true);
    assert_eq!(layer(&m, lid).node_lat_lon(1), Some((c(41.0), c(-75.0))));
}

#[test]
fn undo_of_tag_edit_puts_back_the_old_value_or_removes_the_key() {
    let (mut m, lid) = manager_with(vec![node(1, 40.0, -74.0)], vec![]);
    let f = FeatureRef { layer_id: lid, kind: FeatureKind::Node, id: 1 };
    m.find_layer_mut(lid).unwrap().set_tag(FeatureKind::Node, 1, "amenity", "cafe");
    let action = UndoableAction::SetTags { entries: vec![(f, "amenity".to_string(), None, Some("cafe".to_string()))] };

    apply_undo_action(&mut m, &action, false);
    assert_eq!(tag(layer(&m, lid), 1, "amenity"), None);

    apply_undo_action(&mut m, &action, true);
    assert_eq!(tag(layer(&m, lid), 1, "amenity"), Some("cafe".to_string()));
}

#[test]
fn undo_of_node_creation_deletes_it_and_redo_reuses_the_id() {
    let (mut m, lid) = manager_with(vec![node(1, 40.0, -74.0)], vec![]);
    let id = m.find_layer_mut(lid).unwrap().create_node(c(1.0), c(2.0), None).unwrap();
    let action = UndoableAction::CreateNode { layer: lid, id, lat: c(1.0), lon: c(2.0) };

    apply_undo_action(&mut m, &action, false);
    assert_eq!(layer(&m, lid).node_lat_lon(id), None);

    apply_undo_action(&mut m, &action, true);
    assert_eq!(layer(&m, lid).node_lat_lon(id), Some((c(1.0), c(2.0))));
}

#[test]
fn undo_of_delete_restores_and_redo_deletes_again() {
    let (mut m, lid) = manager_with(vec![node(1, 40.0, -74.0), node(2, 40.5, -74.5)], vec![]);
    let snapshot = m.find_layer_mut(lid).unwrap().delete_feature(FeatureKind::Node, 2).unwrap();
    let action = UndoableAction::DeleteFeature { layer: lid, snapshot };

    apply_undo_action(&mut m, &action, false);
    assert_eq!(layer(&m, lid).node_lat_lon(2), Some((c(40.5), c(-74.5))));

    apply_undo_action(&mut m, &action, true);
    assert_eq!(layer(&m, lid).node_lat_lon(2), None);
}

#[test]
fn undo_of_insert_node_into_way_restores_the_way_and_drops_the_node() {
    let (mut m, lid) = manager_with(
        vec![node(1, 40.0, -74.0), node(2, 40.0, -74.001)],
        vec![OsmWay { id: 10, nodes: vec![1, 2], version: 1, tags: Vec::new() }],
    );
    let new_id = m.find_layer_mut(lid).unwrap().insert_node_into_way(10, 1, c(40.0), c(-74.0005));
    assert_eq!(layer(&m, lid).way_node_ids(10), Some(vec![1, new_id, 2]));
    let action = UndoableAction::InsertNodeIntoWay { layer: lid, way_id: 10, index: 1, node_id: new_id };

    apply_undo_action(&mut m, &action, false);
    assert_eq!(layer(&m, lid).way_node_ids(10), Some(vec![1, 2]));
    assert_eq!(layer(&m, lid).node_lat_lon(new_id), None);

    // Redo does nothing for drawing edits.
    apply_undo_action(&mut m, &action, true);
    assert_eq!(layer(&m, lid).way_node_ids(10), Some(vec![1, 2]));
}

#[test]
fn undo_of_extend_way_detaches_the_last_occurrence_and_keeps_a_connected_node() {
    let (mut m, lid) = manager_with(
        vec![node(1, 40.0, -74.0), node(2, 40.0, -74.001), node(3, 40.0, -74.002)],
        vec![OsmWay { id: 10, nodes: vec![3, 1, 2], version: 1, tags: Vec::new() }],
    );
    m.find_layer_mut(lid).unwrap().extend_way(10, 3);
    assert_eq!(layer(&m, lid).way_node_ids(10), Some(vec![3, 1, 2, 3]));
    let action = UndoableAction::ExtendWay { layer: lid, way_id: 10, node_id: 3, way_created: false, node_created: false };

    apply_undo_action(&mut m, &action, false);
    assert_eq!(layer(&m, lid).way_node_ids(10), Some(vec![3, 1, 2]));
    assert!(layer(&m, lid).node_lat_lon(3).is_some());
}

#[test]
fn undo_of_extend_way_that_created_way_and_node_removes_both() {
    let (mut m, lid) = manager_with(vec![node(1, 40.0, -74.0)], vec![]);
    let l = m.find_layer_mut(lid).unwrap();
    let n = l.add_node(c(40.1), c(-74.1));
    let w = l.add_way(vec![1, n], vec![]);
    let action = UndoableAction::ExtendWay { layer: lid, way_id: w, node_id: n, way_created: true, node_created: true };

    apply_undo_action(&mut m, &action, false);
    assert_eq!(layer(&m, lid).way_node_ids(w), None);
    assert_eq!(layer(&m, lid).node_lat_lon(n), None);
    assert!(layer(&m, lid).node_lat_lon(1).is_some());
}

#[test]
fn undo_of_building_removes_the_way_and_its_new_nodes() {
    let (mut m, lid) = manager_with(vec![], vec![]);
    let l = m.find_layer_mut(lid).unwrap();
    let a = l.add_node(c(0.0), c(0.0));
    let b = l.add_node(c(0.0), c(1.0));
    let d = l.add_node(c(1.0), c(1.0));
    let w = l.add_way(vec![a, b, d, a], vec![("building".to_string(), "yes".to_string())]);
    let action = UndoableAction::CreateBuilding { layer: lid, way_id: w, node_ids: vec![a, b, d] };

    apply_undo_action(&mut m, &action, false);
    let data = layer(&m, lid).get_osm_data().unwrap();
    assert!(data.ways.is_empty());
    assert!(data.nodes.is_empty());
}

#[test]
fn undo_of_snap_extend_way_splices_the_node_out_of_both_ways() {
    let (mut m, lid) = manager_with(
        vec![node(1, 40.0, -74.0), node(2, 40.0, -74.001), node(5, 41.0, -74.0)],
        vec![OsmWay { id: 10, nodes: vec![1, 2], version: 1, tags: Vec::new() }],
    );
    let l = m.find_layer_mut(lid).unwrap();
    let n = l.insert_node_into_way(10, 1, c(40.0), c(-74.0005));
    let w = l.add_way(vec![5, n], vec![]);
    let action = UndoableAction::SnapExtendWay { layer: lid, way_id: w, way_created: true, snap_way_id: 10, snap_index: 1, node_id: n };

    apply_undo_action(&mut m, &action, false);
    assert_eq!(layer(&m, lid).way_node_ids(w), None);
    assert_eq!(layer(&m, lid).way_node_ids(10), Some(vec![1, 2]));
    assert_eq!(layer(&m, lid).node_lat_lon(n), None);
}

#[test]
fn undo_on_a_missing_layer_changes_nothing() {
    let (mut m, lid) = manager_with(vec![node(1, 40.0, -74.0)], vec![]);
    let action = UndoableAction::CreateNode { layer: LayerId(lid.0 + 1), id: 1, lat: c(0.0), lon: c(0.0) };
    apply_undo_action(&mut m, &action, false);
    assert!(layer(&m, lid).node_lat_lon(1).is_some());
    assert!(!layer(&m, lid).is_modified());
}
