use std::collections::HashMap;

use osm_gpui::layers::diff::diff_osm_data;
use osm_gpui::layers::osm_layer::{compute_next_new_id, reconcile_upload, FeatureKind, UploadResult};
use osm_gpui::osm::{tags_equal, Coord, OsmData, OsmNode, OsmWay};

fn c(v: f64) -> Coord {
    Coord(v.to_bits())
}

fn data(nodes: Vec<OsmNode>, ways: Vec<OsmWay>) -> OsmData {
    let mut map = HashMap::new();
    for n in nodes {
        map.insert(n.id, n);
    }
    let mut way_map = HashMap::new();
    for w in ways {
        way_map.insert(w.id, w);
    }
    OsmData { nodes: map, ways: way_map }
}

fn node(id: i64, lat: f64, lon: f64, version: i32) -> OsmNode {
    OsmNode { id, lat: c(lat), lon: c(lon), version, tags: Vec::new() }
}

fn way(id: i64, nodes: Vec<i64>, version: i32) -> OsmWay {
    OsmWay { id, nodes, version, tags: Vec::new() }
}

fn tag_value<'a>(tags: &'a [(String, String)], key: &str) -> Option<&'a str> {
    tags.iter().rev().find(|(k, _)| k == key).map(|(_, v)| v.as_str())
}

#[test]
fn identical_data_produces_empty_diff() {
    let d = data(vec![node(1, 1.0, 1.0, 1)], vec![way(10, vec![1], 1)]);
    let diff = diff_osm_data(&d, &d);
    assert!(diff.is_empty(), "{:?}", diff);
}

#[test]
fn detects_created_node_and_way() {
    let original = data(vec![node(1, 1.0, 1.0, 1)], vec![]);
    let mut current = original.clone();
    current.nodes.insert(2, node(2, 2.0, 2.0, 1));
    current.ways.insert(10, way(10, vec![1, 2], 1));

    let diff = diff_osm_data(&original, &current);
    assert_eq!(diff.created_nodes.iter().map(|n| n.id).collect::<Vec<_>>(), vec![2]);
    assert_eq!(diff.created_ways.iter().map(|w| w.id).collect::<Vec<_>>(), vec![10]);
    assert!(diff.modified_nodes.is_empty());
    assert!(diff.deleted_node_ids.is_empty());
}

#[test]
fn detects_created_node_with_negative_local_id() {
    let original = data(vec![node(1, 1.0, 1.0, 1)], vec![]);
    let mut current = original.clone();
    current.nodes.insert(-1, node(-1, 3.0, 3.0, 1));

    let diff = diff_osm_data(&original, &current);
    assert_eq!(diff.created_nodes.len(), 1);
    assert_eq!(diff.created_nodes[0].id, -1);
}

#[test]
fn detects_deleted_node_and_way() {
    let original = data(vec![node(1, 1.0, 1.0, 3), node(2, 2.0, 2.0, 5)], vec![way(10, vec![1, 2], 2)]);
    let mut current = original.clone();
    current.nodes.remove(&2);
    current.ways.clear();

    let diff = diff_osm_data(&original, &current);
    assert_eq!(diff.deleted_node_ids, vec![(2, 5)]);
    assert_eq!(diff.deleted_way_ids, vec![(10, 2)]);
    assert!(diff.created_nodes.is_empty());
    assert!(diff.modified_nodes.is_empty());
}

#[test]
fn detects_modified_node_position_and_tags() {
    let original = data(vec![node(1, 1.0, 1.0, 1)], vec![]);
    let mut current = original.clone();
    current.nodes.get_mut(&1).unwrap().lat = c(1.5);

    let diff = diff_osm_data(&original, &current);
    assert_eq!(diff.modified_nodes.len(), 1);
    assert_eq!(diff.modified_nodes[0].lat, c(1.5));

    let mut current2 = original.clone();
    current2.nodes.get_mut(&1).unwrap().tags.push(("amenity".to_string(), "cafe".to_string()));
    let diff2 = diff_osm_data(&original, &current2);
    assert_eq!(diff2.modified_nodes.len(), 1);
}

#[test]
fn detects_modified_way_nodes_and_tags() {
    let original = data(vec![node(1, 1.0, 1.0, 1), node(2, 2.0, 2.0, 1)], vec![way(10, vec![1, 2], 1)]);
    let mut current = original.clone();
    current.ways.get_mut(&10).unwrap().nodes.push(1);

    let diff = diff_osm_data(&original, &current);
    assert_eq!(diff.modified_ways.len(), 1);
    assert_eq!(diff.modified_ways[0].nodes, vec![1, 2, 1]);
}

#[test]
fn unchanged_elements_are_not_reported() {
    let original = data(vec![node(1, 1.0, 1.0, 1), node(2, 2.0, 2.0, 1)], vec![way(10, vec![1, 2], 1)]);
    let mut current = original.clone();
    current.nodes.get_mut(&2).unwrap().lon = c(9.0);

    let diff = diff_osm_data(&original, &current);
    assert_eq!(diff.modified_nodes.len(), 1);
    assert_eq!(diff.modified_nodes[0].id, 2);
    assert!(diff.modified_ways.is_empty());
}

#[test]
fn counts_sums_created_modified_deleted() {
    let original = data(vec![node(1, 1.0, 1.0, 1), node(2, 2.0, 2.0, 1)], vec![]);
    let mut current = original.clone();
    current.nodes.remove(&2);
    current.nodes.insert(3, node(3, 3.0, 3.0, 1));
    current.nodes.get_mut(&1).unwrap().lat = c(9.0);

    let diff = diff_osm_data(&original, &current);
    assert_eq!(diff.counts(), (1, 1, 1));
}

#[test]
fn diff_compares_coordinates_as_numbers() {
    let original = data(
        vec![node(1, 0.0, f64::NAN, 1), node(2, 0.0, 1.0, 1), node(3, 5.0, 1.0, 1)],
        vec![],
    );
    let mut current = original.clone();
    current.nodes.get_mut(&2).unwrap().lat = c(-0.0);
    current.nodes.get_mut(&3).unwrap().lat = c(f64::NAN);
    let diff = diff_osm_data(&original, &current);
    // An untouched NaN is no move; +0 and -0 are the same value, so node 2
    // has not moved; a coordinate that became NaN has.
    assert_eq!(diff.modified_nodes.iter().map(|n| n.id).collect::<Vec<_>>(), vec![3]);
}

#[test]
fn diff_ignores_tag_order_and_overwritten_entries() {
    let mut a = node(1, 1.0, 1.0, 1);
    a.tags = vec![("a".into(), "1".into()), ("b".into(), "2".into())];
    let mut b = node(1, 1.0, 1.0, 1);
    b.tags = vec![("b".into(), "x".into()), ("a".into(), "1".into()), ("b".into(), "2".into())];
    assert!(tags_equal(&a.tags, &b.tags));
    let diff = diff_osm_data(&data(vec![a], vec![]), &data(vec![b], vec![]));
    assert!(diff.is_empty());
}

#[test]
fn next_new_id_is_below_every_existing_id() {
    assert_eq!(compute_next_new_id(&data(vec![node(1, 0.0, 0.0, 1)], vec![])), -1);
    assert_eq!(compute_next_new_id(&data(vec![], vec![])), -1);
    assert_eq!(compute_next_new_id(&data(vec![node(-5, 0.0, 0.0, 0), node(3, 0.0, 0.0, 1)], vec![])), -6);
}

#[test]
fn set_and_remove_tags_on_nodes_and_ways() {
    let mut d = data(vec![node(1, 40.0, -74.0, 1), node(2, 40.0, -74.0, 1)], vec![way(10, vec![1, 2], 1)]);
    assert!(d.set_tag(FeatureKind::Node, 1, "highway", "residential"));
    assert_eq!(tag_value(&d.nodes[&1].tags, "highway"), Some("residential"));
    assert!(d.set_tag(FeatureKind::Node, 1, "highway", "trunk"));
    assert_eq!(tag_value(&d.nodes[&1].tags, "highway"), Some("trunk"));
    assert!(d.set_tag(FeatureKind::Way, 10, "surface", "paved"));
    assert_eq!(tag_value(&d.ways[&10].tags, "surface"), Some("paved"));
    assert!(!d.set_tag(FeatureKind::Node, 999, "highway", "residential"));
    assert!(d.remove_tag(FeatureKind::Node, 1, "highway"));
    assert_eq!(tag_value(&d.nodes[&1].tags, "highway"), None);
    assert!(!d.remove_tag(FeatureKind::Node, 999, "highway"));
}

#[test]
fn reconcile_upload_updates_version_for_modified_node() {
    let d = data(vec![node(1, 41.0, -75.0, 1)], vec![]);
    let mut result = UploadResult::default();
    result.node_id_remap.insert(1, (1, 2));
    let updated = reconcile_upload(d, &result);
    assert_eq!(updated.nodes.get(&1).unwrap().version, 2);
    assert_eq!(updated.nodes.get(&1).unwrap().lat, c(41.0));
}

#[test]
fn reconcile_upload_remaps_created_node_id_in_referencing_way() {
    let d = data(vec![node(1, 40.0, -74.0, 1), node(-1, 40.001, -74.001, 0)], vec![way(-2, vec![1, -1], 0)]);
    let mut result = UploadResult::default();
    result.node_id_remap.insert(-1, (999, 1));
    result.way_id_remap.insert(-2, (888, 1));
    let updated = reconcile_upload(d, &result);
    assert!(updated.nodes.contains_key(&999), "new node id should be present");
    assert!(!updated.nodes.contains_key(&-1), "old local id should be gone");
    assert_eq!(updated.nodes[&999].id, 999);
    let way = updated.ways.get(&888).expect("way should have its new id");
    assert_eq!(way.nodes, vec![1, 999]);
    assert_eq!(way.version, 1);
    assert!(!updated.ways.contains_key(&-2));
}

#[test]
fn reconcile_upload_with_empty_result_changes_nothing() {
    let d = data(vec![node(1, 40.0, -74.0, 1)], vec![way(5, vec![1], 3)]);
    let updated = reconcile_upload(d.clone(), &UploadResult::default());
    assert_eq!(updated.nodes, d.nodes);
    assert_eq!(updated.ways, d.ways);
}

#[test]
fn reconcile_upload_ignores_remaps_of_absent_elements() {
    let d = data(vec![node(1, 40.0, -74.0, 1)], vec![way(5, vec![1, 7], 3)]);
    let mut result = UploadResult::default();
    result.node_id_remap.insert(7, (70, 1));
    result.way_id_remap.insert(6, (60, 1));
    let updated = reconcile_upload(d.clone(), &result);
    assert_eq!(updated.nodes, d.nodes);
    assert_eq!(updated.ways[&5].nodes, vec![1, 7]);
}

#[test]
fn an_untouched_node_with_a_nan_coordinate_is_not_reported() {
    let mut nodes = HashMap::new();
    nodes.insert(1, OsmNode { id: 1, lat: Coord(f64::NAN.to_bits()), lon: Coord(2.0f64.to_bits()), version: 1, tags: Vec::new() });
    let d = OsmData { nodes, ways: HashMap::new() };
    assert!(diff_osm_data(&d, &d).is_empty());
}

#[test]
fn a_sign_change_of_zero_is_not_a_move() {
    let mut a = HashMap::new();
    a.insert(1, OsmNode { id: 1, lat: Coord(0.0f64.to_bits()), lon: Coord(2.0f64.to_bits()), version: 1, tags: Vec::new() });
    let mut b = HashMap::new();
    b.insert(1, OsmNode { id: 1, lat: Coord((-0.0f64).to_bits()), lon: Coord(2.0f64.to_bits()), version: 1, tags: Vec::new() });
    let da = OsmData { nodes: a, ways: HashMap::new() };
    let db = OsmData { nodes: b, ways: HashMap::new() };
    assert!(diff_osm_data(&da, &db).is_empty());
}
