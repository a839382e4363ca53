use std::collections::HashMap;

use osm_gpui::layers::osm_layer::{FeatureKind, FeatureRef, OsmLayer, UploadResult};
use osm_gpui::osm::sorted_tags;
use osm_gpui::layers::LayerId;
use osm_gpui::osm::{Coord, OsmData, OsmNode, OsmWay};

fn c(v: f64) -> Coord {
    Coord(v.to_bits())
}

fn f(v: Coord) -> f64 {
    f64::from_bits(v.0)
}

fn data_with(nodes: Vec<OsmNode>, ways: Vec<OsmWay>) -> OsmData {
    let mut map = HashMap::new();
    for n in nodes {
        map.insert(n.id, n);
    }
    let mut way_map = HashMap::new();
    for w in ways {
        way_map.insert(w.id, w);
    }
    OsmData { nodes: map, ways: way_map }
}

fn node(id: i64, lat: f64, lon: f64, version: i32) -> OsmNode {
    OsmNode { id, lat: c(lat), lon: c(lon), version, tags: Vec::new() }
}

fn tagged_node(id: i64, lat: f64, lon: f64, key: &str, value: &str) -> OsmNode {
    OsmNode { id, lat: c(lat), lon: c(lon), version: 1, tags: vec![(key.to_string(), value.to_string())] }
}

fn way(id: i64, nodes: Vec<i64>) -> OsmWay {
    OsmWay { id, nodes, version: 1, tags: Vec::new() }
}

fn tag<'a>(tags: &'a [(String, String)], key: &str) -> Option<&'a str> {
    tags.iter().rev().find(|(k, _)| k == key).map(|(_, v)| v.as_str())
}

fn lat_lon(layer: &OsmLayer, id: i64) -> Option<(f64, f64)> {
    layer.get_osm_data().unwrap().nodes.get(&id).map(|n| (f(n.lat), f(n.lon)))
}

#[test]
fn way_node_ids_returns_members_in_order() {
    let data = data_with(vec![node(1, 40.0, -74.0, 1), node(2, 40.001, -74.001, 1)], vec![way(10, vec![1, 2])]);
    let layer = OsmLayer::new_with_data(LayerId(1), "L".to_string(), data);

    assert_eq!(layer.way_node_ids(10), Some(vec![1, 2]));
    assert_eq!(layer.way_node_ids(999), None);
}

#[test]
fn node_lat_lon_reflects_current_data() {
    let data = data_with(vec![node(1, 40.0, -74.0, 1)], vec![]);
    let layer = OsmLayer::new_with_data(LayerId(1), "L".to_string(), data);

    assert_eq!(layer.node_lat_lon(1), Some((c(40.0), c(-74.0))));
    assert_eq!(layer.node_lat_lon(999), None);
}

#[test]
fn commit_node_moves_updates_data_and_marks_modified() {
    let data = data_with(vec![node(1, 40.0, -74.0, 1), node(2, 41.0, -75.0, 1)], vec![]);
    let mut layer = OsmLayer::new_with_data(LayerId(1), "L".to_string(), data);

    assert!(!layer.is_modified());
    layer.commit_node_moves(&[(1, c(40.5), c(-74.5))]);

    assert!(layer.is_modified());
    assert_eq!(lat_lon(&layer, 1), Some((40.5, -74.5)));
    // Untouched node is unaffected.
    assert_eq!(lat_lon(&layer, 2), Some((41.0, -75.0)));
}

#[test]
fn commit_node_moves_empty_is_noop() {
    let data = data_with(vec![node(1, 40.0, -74.0, 1)], vec![]);
    let mut layer = OsmLayer::new_with_data(LayerId(1), "L".to_string(), data);

    let touched = layer.commit_node_moves(&[]);
    assert!(!layer.is_modified());
    assert!(touched.is_empty());
}

#[test]
fn commit_node_moves_updates_both_referencing_ways_and_indices() {
    let data = data_with(
        vec![node(1, 40.0, -74.0, 1), node(2, 40.001, -74.001, 1), node(3, 40.002, -74.002, 1)],
        vec![way(10, vec![1, 2]), way(20, vec![1, 3])],
    );
    let mut layer = OsmLayer::new_with_data(LayerId(1), "L".to_string(), data);

    let mut touched = layer.commit_node_moves(&[(1, c(41.0), c(-75.0))]);
    touched.sort();

    assert!(layer.is_modified());
    // Both ways list node 1, so both slots need their geometry redone.
    assert_eq!(touched, vec![0, 1]);
    assert_eq!(lat_lon(&layer, 1), Some((41.0, -75.0)));
}

#[test]
fn commit_node_moves_node_not_in_any_way_only_touches_node_cache() {
    let data = data_with(
        vec![node(1, 40.0, -74.0, 1), node(2, 40.001, -74.001, 1), node(3, 41.0, -75.0, 1)],
        vec![way(10, vec![1, 2])],
    );
    let mut layer = OsmLayer::new_with_data(LayerId(1), "L".to_string(), data);

    let touched = layer.commit_node_moves(&[(3, c(42.0), c(-76.0))]);

    assert!(layer.is_modified());
    assert!(touched.is_empty(), "unrelated ways must be untouched");
    assert_eq!(lat_lon(&layer, 3), Some((42.0, -76.0)));
}

#[test]
fn commit_node_moves_of_absent_node_still_marks_modified() {
    let data = data_with(vec![node(1, 40.0, -74.0, 1)], vec![]);
    let mut layer = OsmLayer::new_with_data(LayerId(1), "L".to_string(), data);

    let touched = layer.commit_node_moves(&[(5, c(1.0), c(2.0))]);
    assert!(layer.is_modified());
    assert!(touched.is_empty());
    assert_eq!(lat_lon(&layer, 1), Some((40.0, -74.0)));
    assert!(layer.get_osm_data().unwrap().nodes.get(&5).is_none());
}

#[test]
fn commit_node_moves_last_move_of_a_node_wins() {
    let data = data_with(vec![node(1, 40.0, -74.0, 1)], vec![]);
    let mut layer = OsmLayer::new_with_data(LayerId(1), "L".to_string(), data);

    layer.commit_node_moves(&[(1, c(1.0), c(2.0)), (1, c(3.0), c(4.0))]);
    assert_eq!(lat_lon(&layer, 1), Some((3.0, 4.0)));
}

#[test]
fn set_tag_inserts_and_overwrites_on_node() {
    let data = data_with(vec![node(1, 40.0, -74.0, 1)], vec![]);
    let mut layer = OsmLayer::new_with_data(LayerId(1), "L".to_string(), data);

    layer.set_tag(FeatureKind::Node, 1, "highway", "residential");
    assert!(layer.is_modified());
    let updated = layer.get_osm_data().unwrap();
    assert_eq!(tag(&updated.nodes.get(&1).unwrap().tags, "highway"), Some("residential"));

    layer.set_tag(FeatureKind::Node, 1, "highway", "trunk");
    let updated = layer.get_osm_data().unwrap();
    assert_eq!(tag(&updated.nodes.get(&1).unwrap().tags, "highway"), Some("trunk"));
}

#[test]
fn set_tag_on_way() {
    let data = data_with(vec![node(1, 40.0, -74.0, 1), node(2, 40.001, -74.001, 1)], vec![way(10, vec![1, 2])]);
    let mut layer = OsmLayer::new_with_data(LayerId(1), "L".to_string(), data);

    layer.set_tag(FeatureKind::Way, 10, "surface", "paved");
    assert!(layer.is_modified());
    let updated = layer.get_osm_data().unwrap();
    assert_eq!(tag(&updated.ways[&10].tags, "surface"), Some("paved"));
}

#[test]
fn set_tag_missing_feature_id_is_noop() {
    let data = data_with(vec![node(1, 40.0, -74.0, 1)], vec![]);
    let mut layer = OsmLayer::new_with_data(LayerId(1), "L".to_string(), data);

    layer.set_tag(FeatureKind::Node, 999, "highway", "residential");
    assert!(!layer.is_modified());
}

#[test]
fn remove_tag_removes_existing_key() {
    let data = data_with(vec![tagged_node(1, 40.0, -74.0, "highway", "residential")], vec![]);
    let mut layer = OsmLayer::new_with_data(LayerId(1), "L".to_string(), data);

    layer.remove_tag(FeatureKind::Node, 1, "highway");
    assert!(layer.is_modified());
    let updated = layer.get_osm_data().unwrap();
    assert_eq!(tag(&updated.nodes.get(&1).unwrap().tags, "highway"), None);
}

#[test]
fn remove_tag_missing_feature_id_is_noop() {
    let data = data_with(vec![node(1, 40.0, -74.0, 1)], vec![]);
    let mut layer = OsmLayer::new_with_data(LayerId(1), "L".to_string(), data);

    layer.remove_tag(FeatureKind::Node, 999, "highway");
    assert!(!layer.is_modified());
}

#[test]
fn snapshot_taken_before_edit_is_unaffected_by_make_mut() {
    let data = data_with(vec![node(1, 40.0, -74.0, 1)], vec![]);
    let mut layer = OsmLayer::new_with_data(LayerId(1), "L".to_string(), data);

    let snapshot = layer.get_osm_data().unwrap().duplicate();
    assert_eq!(snapshot.nodes.get(&1).map(|n| (f(n.lat), f(n.lon))), Some((40.0, -74.0)));

    layer.commit_node_moves(&[(1, c(41.0), c(-75.0))]);

    assert_eq!(lat_lon(&layer, 1), Some((41.0, -75.0)));
    assert_eq!(snapshot.nodes.get(&1).map(|n| (f(n.lat), f(n.lon))), Some((40.0, -74.0)));

    let snapshot2 = layer.get_osm_data().unwrap().duplicate();
    layer.set_tag(FeatureKind::Node, 1, "name", "Test");
    assert_eq!(snapshot2.nodes.get(&1).and_then(|n| tag(&n.tags, "name")), None);
    let updated2 = layer.get_osm_data().unwrap();
    assert_eq!(updated2.nodes.get(&1).and_then(|n| tag(&n.tags, "name")), Some("Test"));
}

#[test]
fn create_node_allocates_noncolliding_negative_id_and_is_hit_testable() {
    let data = data_with(vec![node(1, 40.0, -74.0, 1)], vec![]);
    let mut layer = OsmLayer::new_with_data(LayerId(1), "L".to_string(), data);

    let id = layer.create_node(c(40.5), c(-74.5), None).expect("should allocate an id");
    assert!(id < 0, "new node id must be negative, got {}", id);
    assert!(layer.is_modified());

    let updated = layer.get_osm_data().unwrap();
    assert_eq!(updated.nodes.get(&id).map(|n| (f(n.lat), f(n.lon))), Some((40.5, -74.5)));
    assert!(updated.nodes.get(&id).unwrap().tags.is_empty());
    assert_eq!(layer.node_lat_lon(id), Some((c(40.5), c(-74.5))));

    // A second auto-allocation must not collide with the first.
    let id2 = layer.create_node(c(40.5), c(-74.5), None).unwrap();
    assert_ne!(id, id2);
}

#[test]
fn create_node_starts_below_existing_negative_ids() {
    let data = data_with(vec![node(-5, 40.0, -74.0, 0)], vec![]);
    let mut layer = OsmLayer::new_with_data(LayerId(1), "L".to_string(), data);

    let id = layer.create_node(c(41.0), c(-75.0), None).unwrap();
    assert!(id < -5, "new id ({}) must not collide with existing negative id -5", id);
}

#[test]
fn create_node_with_explicit_id_fails_on_collision() {
    let data = data_with(vec![node(-1, 40.0, -74.0, 0)], vec![]);
    let mut layer = OsmLayer::new_with_data(LayerId(1), "L".to_string(), data);

    assert_eq!(layer.create_node(c(41.0), c(-75.0), Some(-1)), None);
    assert_eq!(layer.create_node(c(41.0), c(-75.0), Some(-99)), Some(-99));
}

#[test]
fn create_node_with_explicit_id_moves_next_id_below_it() {
    let data = data_with(vec![node(1, 40.0, -74.0, 1)], vec![]);
    let mut layer = OsmLayer::new_with_data(LayerId(1), "L".to_string(), data);

    assert_eq!(layer.create_node(c(1.0), c(2.0), Some(-7)), Some(-7));
    assert_eq!(layer.create_node(c(1.0), c(2.0), None), Some(-8));
}

#[test]
fn create_node_without_data_is_refused() {
    let mut layer = OsmLayer::new(LayerId(1));
    assert_eq!(layer.create_node(c(1.0), c(2.0), None), None);
    assert!(!layer.has_data());
    assert!(!layer.is_modified());
}

#[test]
fn delete_feature_refuses_node_referenced_by_way_but_succeeds_once_way_deleted() {
    let data = data_with(vec![node(1, 40.0, -74.0, 1), node(2, 40.001, -74.001, 1)], vec![way(10, vec![1, 2])]);
    let mut layer = OsmLayer::new_with_data(LayerId(1), "L".to_string(), data);

    assert_eq!(layer.delete_feature(FeatureKind::Node, 1), None, "node still referenced by a way must be refused");
    assert!(!layer.is_modified());

    assert!(layer.delete_feature(FeatureKind::Way, 10).is_some());
    let snapshot = layer.delete_feature(FeatureKind::Node, 1).expect("standalone node should delete");
    assert_eq!(snapshot.kind, FeatureKind::Node);
    assert_eq!(snapshot.id, 1);
    assert_eq!(snapshot.node_lat_lon, Some((c(40.0), c(-74.0))));

    let updated = layer.get_osm_data().unwrap();
    assert!(!updated.nodes.contains_key(&1));
}

#[test]
fn delete_feature_standalone_node_succeeds_directly() {
    let data = data_with(vec![node(1, 40.0, -74.0, 1)], vec![]);
    let mut layer = OsmLayer::new_with_data(LayerId(1), "L".to_string(), data);

    let snapshot = layer.delete_feature(FeatureKind::Node, 1).expect("standalone node should delete");
    assert!(layer.is_modified());
    assert_eq!(snapshot.node_lat_lon, Some((c(40.0), c(-74.0))));
    assert!(!layer.get_osm_data().unwrap().nodes.contains_key(&1));
    assert_eq!(layer.node_lat_lon(1), None);
}

#[test]
fn delete_feature_way_removes_way_but_keeps_nodes_and_fixes_other_ways() {
    let mut way_a = way(10, vec![1, 2]);
    way_a.tags = vec![("highway".to_string(), "residential".to_string())];
    let data = data_with(
        vec![node(1, 40.0, -74.0, 1), node(2, 40.001, -74.001, 1), node(3, 40.002, -74.002, 1)],
        vec![way_a, way(20, vec![1, 3])],
    );
    let mut layer = OsmLayer::new_with_data(LayerId(1), "L".to_string(), data);

    let snapshot = layer.delete_feature(FeatureKind::Way, 10).expect("way should delete");
    assert!(layer.is_modified());
    assert_eq!(snapshot.kind, FeatureKind::Way);
    assert_eq!(snapshot.way_nodes, vec![1, 2]);
    assert_eq!(snapshot.tags, vec![("highway".to_string(), "residential".to_string())]);

    let updated = layer.get_osm_data().unwrap();
    assert!(!updated.ways.contains_key(&10), "way 10 must be gone");
    assert!(updated.ways.contains_key(&20), "way 20 must remain");
    assert!(updated.nodes.contains_key(&1));
    assert!(updated.nodes.contains_key(&2));

    assert_eq!(layer.way_node_ids(20), Some(vec![1, 3]));
    // Way 20 moved down to slot 0 and is still listed for node 1.
    let touched = layer.commit_node_moves(&[(1, c(40.5), c(-74.5))]);
    assert_eq!(touched, vec![0]);
}

#[test]
fn delete_feature_missing_id_returns_none() {
    let data = data_with(vec![], vec![]);
    let mut layer = OsmLayer::new_with_data(LayerId(1), "L".to_string(), data);
    assert_eq!(layer.delete_feature(FeatureKind::Node, 999), None);
    assert_eq!(layer.delete_feature(FeatureKind::Way, 999), None);
    assert!(!layer.is_modified());
}

#[test]
fn restore_feature_round_trips_deleted_node() {
    let data = data_with(vec![tagged_node(1, 40.0, -74.0, "amenity", "cafe")], vec![]);
    let mut layer = OsmLayer::new_with_data(LayerId(1), "L".to_string(), data);

    let snapshot = layer.delete_feature(FeatureKind::Node, 1).unwrap();
    assert!(!layer.get_osm_data().unwrap().nodes.contains_key(&1));

    layer.restore_feature(snapshot);
    let restored = layer.get_osm_data().unwrap();
    let node = restored.nodes.get(&1).expect("node should be restored");
    assert_eq!((f(node.lat), f(node.lon)), (40.0, -74.0));
    assert_eq!(tag(&node.tags, "amenity"), Some("cafe"));
    assert_eq!(node.version, 0);
}

#[test]
fn restore_feature_round_trips_deleted_way() {
    let mut w = way(10, vec![1, 2]);
    w.tags = vec![("highway".to_string(), "residential".to_string())];
    let data = data_with(vec![node(1, 40.0, -74.0, 1), node(2, 40.001, -74.001, 1)], vec![w]);
    let mut layer = OsmLayer::new_with_data(LayerId(1), "L".to_string(), data);

    let snapshot = layer.delete_feature(FeatureKind::Way, 10).unwrap();
    assert!(layer.way_node_ids(10).is_none());

    layer.restore_feature(snapshot);
    assert_eq!(layer.way_node_ids(10), Some(vec![1, 2]));
    let restored = layer.get_osm_data().unwrap();
    let way = restored.ways.get(&10).unwrap();
    assert_eq!(tag(&way.tags, "highway"), Some("residential"));

    // The node index lists the restored way, so moving one of its members
    // reports its slot.
    let touched = layer.commit_node_moves(&[(1, c(41.0), c(-75.0))]);
    assert_eq!(touched, vec![0]);
}

#[test]
fn diff_for_upload_no_changes_is_empty() {
    let data = data_with(vec![node(1, 40.0, -74.0, 1)], vec![]);
    let layer = OsmLayer::new_with_data(LayerId(1), "L".to_string(), data);

    assert!(layer.diff_for_upload().is_empty());
}

#[test]
fn diff_for_upload_detects_tag_edit_as_modified() {
    let data = data_with(vec![node(1, 40.0, -74.0, 1)], vec![]);
    let mut layer = OsmLayer::new_with_data(LayerId(1), "L".to_string(), data);

    layer.set_tag(FeatureKind::Node, 1, "amenity", "cafe");
    let diff = layer.diff_for_upload();
    assert_eq!(diff.modified_nodes.len(), 1);
    assert_eq!(diff.modified_nodes[0].id, 1);
    assert!(diff.created_nodes.is_empty());
    assert!(diff.deleted_node_ids.is_empty());
}

#[test]
fn diff_for_upload_detects_move_as_modified() {
    let data = data_with(vec![node(1, 40.0, -74.0, 1)], vec![]);
    let mut layer = OsmLayer::new_with_data(LayerId(1), "L".to_string(), data);

    layer.commit_node_moves(&[(1, c(41.0), c(-75.0))]);
    let diff = layer.diff_for_upload();
    assert_eq!(diff.modified_nodes.len(), 1);
    assert_eq!(f(diff.modified_nodes[0].lat), 41.0);
}

#[test]
fn diff_for_upload_without_data_is_empty_and_without_snapshot_lists_everything_as_created() {
    let mut layer = OsmLayer::new(LayerId(1));
    assert!(layer.diff_for_upload().is_empty());

    let id = layer.add_node(c(1.0), c(2.0));
    let diff = layer.diff_for_upload();
    assert_eq!(diff.created_nodes.len(), 1);
    assert_eq!(diff.created_nodes[0].id, id);
}

#[test]
fn apply_upload_result_updates_version_for_modified_node() {
    let data = data_with(vec![node(1, 40.0, -74.0, 1)], vec![]);
    let mut layer = OsmLayer::new_with_data(LayerId(1), "L".to_string(), data);

    layer.commit_node_moves(&[(1, c(41.0), c(-75.0))]);
    assert!(layer.is_modified());

    let mut result = UploadResult::default();
    result.node_id_remap.insert(1, (1, 2));
    layer.apply_upload_result(&result);

    let updated = layer.get_osm_data().unwrap();
    assert_eq!(updated.nodes.get(&1).unwrap().version, 2);
    assert!(!layer.is_modified(), "layer should be clean after a reconciled upload");
    assert!(layer.diff_for_upload().is_empty(), "new baseline should match current data");
}

#[test]
fn apply_upload_result_remaps_created_node_id_in_referencing_way() {
    let data = data_with(vec![node(1, 40.0, -74.0, 1)], vec![]);
    let mut layer = OsmLayer::new_with_data(LayerId(1), "L".to_string(), data);

    // A locally created node (-1) and a way (-2) referencing both the
    // existing node 1 and the new node.
    assert_eq!(layer.create_node(c(40.001), c(-74.001), None), Some(-1));
    let scratch = layer.add_way(vec![], vec![]);
    layer.remove_way(scratch);
    assert_eq!(layer.add_way(vec![1, -1], vec![]), -2);

    let diff = layer.diff_for_upload();
    assert_eq!(diff.created_nodes.len(), 1);
    assert_eq!(diff.created_ways.len(), 1);

    let mut result = UploadResult::default();
    result.node_id_remap.insert(-1, (999, 1));
    result.way_id_remap.insert(-2, (888, 1));
    layer.apply_upload_result(&result);

    let updated = layer.get_osm_data().unwrap();
    assert!(updated.nodes.contains_key(&999), "new node id should be present");
    assert!(!updated.nodes.contains_key(&-1), "old local id should be gone");
    let way = updated.ways.get(&888).expect("way should have its new id");
    assert_eq!(way.nodes, vec![1, 999], "way must reference the node's NEW id, not the stale local one");
    assert!(!layer.is_modified());
    assert!(layer.diff_for_upload().is_empty());
}

#[test]
fn apply_upload_result_confirms_delete_with_no_remap_entry() {
    let data = data_with(vec![node(1, 40.0, -74.0, 1), node(2, 40.001, -74.001, 1)], vec![]);
    let mut layer = OsmLayer::new_with_data(LayerId(1), "L".to_string(), data);

    layer.remove_node(2);

    let diff = layer.diff_for_upload();
    assert_eq!(diff.deleted_node_ids, vec![(2, 1)]);

    let result = UploadResult::default();
    layer.apply_upload_result(&result);
    assert!(!layer.is_modified());
    assert!(layer.diff_for_upload().is_empty());
}

#[test]
fn add_node_assigns_decrementing_placeholder_ids_and_is_hit_testable() {
    let mut layer = OsmLayer::new(LayerId(1));

    let id1 = layer.add_node(c(40.0), c(-74.0));
    let id2 = layer.add_node(c(40.0), c(-74.0));
    assert_eq!(id1, -1, "first placeholder id should be -1");
    assert_eq!(id2, -2, "ids should decrement");
    assert!(layer.is_modified());
    assert_eq!(layer.node_lat_lon(id1), Some((c(40.0), c(-74.0))));
}

#[test]
fn remove_node_drops_it_from_data_and_index() {
    let mut layer = OsmLayer::new(LayerId(1));
    let id = layer.add_node(c(40.0), c(-74.0));

    layer.remove_node(id);

    let data = layer.get_osm_data().expect("data should still exist");
    assert!(!data.nodes.contains_key(&id));
    assert_eq!(layer.node_lat_lon(id), None);
}

#[test]
fn add_way_creates_closed_building_way_and_is_hit_testable() {
    let mut layer = OsmLayer::new(LayerId(1));
    let n1 = layer.add_node(c(40.0), c(-74.001));
    let n2 = layer.add_node(c(40.0), c(-73.999));
    let way_id = layer.add_way(vec![n1, n2, n1], vec![("building".to_string(), "yes".to_string())]);
    assert_eq!(way_id, -1, "first placeholder way id should be -1");

    let tags = layer
        .feature_tags(&FeatureRef { layer_id: layer.id(), kind: FeatureKind::Way, id: way_id })
        .expect("way should have tags");
    assert!(tags.contains(&("building".to_string(), "yes".to_string())));
    let data = layer.get_osm_data().unwrap();
    let way = data.ways.get(&way_id).expect("way should be present");
    assert_eq!(way.nodes, vec![n1, n2, n1]);
    assert_eq!(way.version, 0);
}

#[test]
fn remove_way_drops_it_from_data_and_index_but_keeps_its_nodes() {
    let mut layer = OsmLayer::new(LayerId(1));
    let n1 = layer.add_node(c(40.0), c(-74.001));
    let n2 = layer.add_node(c(40.0), c(-74.0));
    let way_id = layer.add_way(vec![n1, n2], vec![]);

    layer.remove_way(way_id);

    let data = layer.get_osm_data().unwrap();
    assert!(!data.ways.contains_key(&way_id));
    assert!(data.nodes.contains_key(&n1), "removing the way must not remove its nodes");
    assert_eq!(layer.way_node_ids(way_id), None);
    assert!(layer.commit_node_moves(&[(n1, c(1.0), c(1.0))]).is_empty());
}

#[test]
fn extend_way_appends_node_and_updates_bbox() {
    let mut layer = OsmLayer::new(LayerId(1));
    let n1 = layer.add_node(c(40.0), c(-74.001));
    let n2 = layer.add_node(c(40.0), c(-74.0));
    let way_id = layer.add_way(vec![n1, n2], vec![]);
    let n3 = layer.add_node(c(40.001), c(-74.0));

    layer.extend_way(way_id, n3);

    let data = layer.get_osm_data().unwrap();
    let way = data.ways.get(&way_id).unwrap();
    assert_eq!(way.nodes, vec![n1, n2, n3]);
    assert_eq!(layer.commit_node_moves(&[(n3, c(1.0), c(1.0))]), vec![0]);
}

#[test]
fn insert_node_into_way_splices_at_index_and_remove_node_from_way_undoes_it() {
    let mut layer = OsmLayer::new(LayerId(1));
    let n1 = layer.add_node(c(40.0), c(-74.001));
    let n2 = layer.add_node(c(40.0), c(-74.0));
    let way_id = layer.add_way(vec![n1, n2], vec![]);

    let mid = layer.insert_node_into_way(way_id, 1, c(40.0), c(-74.0005));
    let data = layer.get_osm_data().unwrap();
    let way = data.ways.get(&way_id).unwrap();
    assert_eq!(way.nodes, vec![n1, mid, n2]);

    layer.remove_node_from_way(way_id, 1);
    let data = layer.get_osm_data().unwrap();
    let way = data.ways.get(&way_id).unwrap();
    assert_eq!(way.nodes, vec![n1, n2]);
    assert!(data.nodes.contains_key(&mid), "remove_node_from_way must not delete the node itself");
    // The way's slot is no longer listed for the spliced-out node.
    assert!(layer.commit_node_moves(&[(mid, c(1.0), c(1.0))]).is_empty());
}

#[test]
fn insert_node_into_way_past_the_end_only_creates_the_node() {
    let mut layer = OsmLayer::new(LayerId(1));
    let n1 = layer.add_node(c(40.0), c(-74.0));
    let way_id = layer.add_way(vec![n1], vec![]);

    let id = layer.insert_node_into_way(way_id, 5, c(1.0), c(2.0));
    assert_eq!(layer.way_node_ids(way_id), Some(vec![n1]));
    assert_eq!(layer.node_lat_lon(id), Some((c(1.0), c(2.0))));
}

#[test]
fn clear_osm_data_resets_the_layer() {
    let data = data_with(vec![node(1, 40.0, -74.0, 1)], vec![way(10, vec![1])]);
    let mut layer = OsmLayer::new_with_data(LayerId(3), "L".to_string(), data);
    layer.set_tag(FeatureKind::Node, 1, "a", "b");

    layer.clear_osm_data();
    assert!(!layer.has_data());
    assert!(!layer.is_modified());
    assert!(layer.diff_for_upload().is_empty());
    assert_eq!(layer.add_node(c(0.0), c(0.0)), -1);
    assert_eq!(layer.id(), LayerId(3));
    assert_eq!(layer.name(), "L");
}

#[test]
fn feature_tags_are_sorted_by_key_with_the_last_value_of_each_key() {
    let mut n = node(1, 0.0, 0.0, 1);
    n.tags = vec![
        ("name".to_string(), "A".to_string()),
        ("amenity".to_string(), "cafe".to_string()),
        ("name".to_string(), "B".to_string()),
    ];
    let layer = OsmLayer::new_with_data(LayerId(2), "L".to_string(), data_with(vec![n], vec![]));
    let tags = layer.feature_tags(&FeatureRef { layer_id: LayerId(2), kind: FeatureKind::Node, id: 1 }).unwrap();
    assert_eq!(
        tags,
        vec![("amenity".to_string(), "cafe".to_string()), ("name".to_string(), "B".to_string())]
    );
    assert_eq!(layer.feature_tags(&FeatureRef { layer_id: LayerId(3), kind: FeatureKind::Node, id: 1 }), None);
    assert_eq!(layer.feature_tags(&FeatureRef { layer_id: LayerId(2), kind: FeatureKind::Way, id: 1 }), None);
}

#[test]
fn sorted_tags_orders_by_code_point_and_prefix_first() {
    let tags = vec![
        ("b".to_string(), "1".to_string()),
        ("ab".to_string(), "2".to_string()),
        ("a".to_string(), "3".to_string()),
        ("B".to_string(), "4".to_string()),
    ];
    let keys: Vec<String> = sorted_tags(&tags).into_iter().map(|(k, _)| k).collect();
    assert_eq!(keys, vec!["B", "a", "ab", "b"]);
}

#[test]
fn stats_report_counts_or_no_data() {
    let layer = OsmLayer::new_with_data(
        LayerId(1),
        "L".to_string(),
        data_with(vec![node(1, 0.0, 0.0, 1), node(2, 0.0, 0.0, 1)], vec![way(5, vec![1, 2])]),
    );
    assert_eq!(
        layer.stats(),
        vec![("Nodes".to_string(), "2".to_string()), ("Ways".to_string(), "1".to_string())]
    );
    assert_eq!(OsmLayer::new(LayerId(1)).stats(), vec![("Status".to_string(), "No data loaded".to_string())]);
}

#[test]
fn get_all_stats_lists_every_layer_in_draw_order() {
    let mut m = osm_gpui::layers::LayerManager::new();
    let a = m.alloc_id();
    m.add_layer(a, "First".to_string(), OsmLayer::new(a));
    let b = m.alloc_id();
    m.add_layer(b, "Second".to_string(), OsmLayer::new_with_data(b, "Second".to_string(), data_with(vec![node(1, 0.0, 0.0, 1)], vec![])));
    let stats = m.get_all_stats();
    assert_eq!(stats.len(), 2);
    assert_eq!(stats[0].0, "First");
    assert_eq!(stats[0].1, vec![("Status".to_string(), "No data loaded".to_string())]);
    assert_eq!(stats[1].0, "Second");
    assert_eq!(stats[1].1, vec![("Nodes".to_string(), "1".to_string()), ("Ways".to_string(), "0".to_string())]);
}

#[test]
fn an_id_handed_out_is_not_reused_after_its_node_is_removed() {
    let data = data_with(vec![node(1, 40.0, -74.0, 1)], vec![]);
    let mut layer = OsmLayer::new_with_data(LayerId(1), "L".to_string(), data);
    let first = layer.create_node(c(1.0), c(2.0), None).unwrap();
    assert_eq!(first, -1);
    layer.remove_node(first);
    assert!(layer.get_osm_data().unwrap().nodes.get(&first).is_none());
    let second = layer.create_node(c(1.0), c(2.0), None).unwrap();
    assert_eq!(second, -2);
}
