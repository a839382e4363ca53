use std::collections::HashMap;

use osm_gpui::layers::osm_layer::{FeatureKind, FeatureRef, OsmLayer};
use osm_gpui::layers::{LayerId, LayerManager};
use osm_gpui::osm::{Coord, OsmData, OsmNode, OsmWay};
use osm_gpui::tagging::{apply_nsi_preset, delete_tag, feature_tag_snapshots, tag_value};
use osm_gpui::undo::{apply_undo_action, UndoableAction};

fn c(v: f64) -> Coord {
    Coord(v.to_bits())
}

fn t(k: &str, v: &str) -> (String, String) {
    (k.to_string(), v.to_string())
}

fn tagged_node(id: i64, tags: Vec<(String, String)>) -> OsmNode {
    OsmNode { id, lat: c(1.0), lon: c(2.0), version: 1, tags }
}

fn manager(nodes: Vec<OsmNode>, ways: Vec<OsmWay>) -> (LayerManager<OsmLayer>, LayerId) {
    let mut node_map = HashMap::new();
    for n in nodes {
        node_map.insert(n.id, n);
    }
    let mut way_map = HashMap::new();
    for w in ways {
        way_map.insert(w.id, w);
    }
    let mut m = LayerManager::new();
    let id = m.alloc_id();
    m.add_layer(id, "L".to_string(), OsmLayer::new_with_data(id, "L".to_string(), OsmData { nodes: node_map, ways: way_map }));
    (m, id)
}

fn tags_of(m: &LayerManager<OsmLayer>, f: &FeatureRef) -> Option<Vec<(String, String)>> {
    m.find_layer(f.layer_id).unwrap().layer.feature_tags(f)
}

#[test]
fn tag_value_finds_a_key_in_a_sorted_list() {
    let tags = vec![t("amenity", "cafe"), t("name", "Blue"), t("shop", "bakery")];
    assert_eq!(tag_value(&tags, "name"), Some("Blue".to_string()));
    assert_eq!(tag_value(&tags, "amenity"), Some("cafe".to_string()));
    assert_eq!(tag_value(&tags, "opening_hours"), None);
    assert_eq!(tag_value(&Vec::new(), "name"), None);
}

#[test]
fn snapshots_skip_features_that_are_not_on_their_layer() {
    let (m, lid) = manager(vec![tagged_node(1, vec![t("name", "B"), t("amenity", "cafe")])], vec![]);
    let here = FeatureRef { layer_id: lid, kind: FeatureKind::Node, id: 1 };
    let gone = FeatureRef { layer_id: lid, kind: FeatureKind::Node, id: 2 };
    let elsewhere = FeatureRef { layer_id: LayerId(99), kind: FeatureKind::Node, id: 1 };
    let snaps = feature_tag_snapshots(&m, &vec![gone, here, elsewhere]);
    assert_eq!(snaps, vec![(here, vec![t("amenity", "cafe"), t("name", "B")])]);
}

#[test]
fn deleting_a_tag_removes_it_from_every_selected_holder() {
    let (mut m, lid) = manager(
        vec![
            tagged_node(1, vec![t("name", "A"), t("amenity", "cafe")]),
            tagged_node(2, vec![t("amenity", "pub")]),
            tagged_node(3, vec![t("name", "C")]),
            tagged_node(4, vec![t("amenity", "bar")]),
        ],
        vec![],
    );
    let f = |id: i64| FeatureRef { layer_id: lid, kind: FeatureKind::Node, id };
    let action = delete_tag(&mut m, &vec![f(1), f(3), f(2)], "amenity").unwrap();
    match &action {
        UndoableAction::SetTags { entries } => {
            assert_eq!(
                entries,
                &vec![
                    (f(1), "amenity".to_string(), Some("cafe".to_string()), None),
                    (f(2), "amenity".to_string(), Some("pub".to_string()), None),
                ]
            );
        }
        _ => panic!("expected a tag edit"),
    }
    assert_eq!(tags_of(&m, &f(1)), Some(vec![t("name", "A")]));
    assert_eq!(tags_of(&m, &f(2)), Some(vec![]));
    assert_eq!(tags_of(&m, &f(3)), Some(vec![t("name", "C")]));
    assert_eq!(tags_of(&m, &f(4)), Some(vec![t("amenity", "bar")]));
    assert!(m.find_layer(lid).unwrap().layer.is_modified());
}

#[test]
fn deleting_a_tag_nobody_has_changes_nothing() {
    let (mut m, lid) = manager(vec![tagged_node(1, vec![t("name", "A")])], vec![]);
    let f = FeatureRef { layer_id: lid, kind: FeatureKind::Node, id: 1 };
    assert!(delete_tag(&mut m, &vec![f], "amenity").is_none());
    assert!(delete_tag(&mut m, &vec![], "name").is_none());
    assert_eq!(tags_of(&m, &f), Some(vec![t("name", "A")]));
    assert!(!m.find_layer(lid).unwrap().layer.is_modified());
}

#[test]
fn undoing_a_tag_deletion_puts_the_tags_back() {
    let way = OsmWay { id: 5, nodes: vec![1, 2], version: 1, tags: vec![t("highway", "path"), t("name", "Trail")] };
    let (mut m, lid) = manager(
        vec![tagged_node(1, vec![t("name", "A"), t("tourism", "viewpoint")]), tagged_node(2, vec![])],
        vec![way],
    );
    let n1 = FeatureRef { layer_id: lid, kind: FeatureKind::Node, id: 1 };
    let w5 = FeatureRef { layer_id: lid, kind: FeatureKind::Way, id: 5 };
    let before_n1 = tags_of(&m, &n1);
    let before_w5 = tags_of(&m, &w5);
    let action = delete_tag(&mut m, &vec![n1, w5], "name").unwrap();
    assert_eq!(tags_of(&m, &n1), Some(vec![t("tourism", "viewpoint")]));
    assert_eq!(tags_of(&m, &w5), Some(vec![t("highway", "path")]));
    apply_undo_action(&mut m, &action, false);
    assert_eq!(tags_of(&m, &n1), before_n1);
    assert_eq!(tags_of(&m, &w5), before_w5);
    apply_undo_action(&mut m, &action, true);
    assert_eq!(tags_of(&m, &n1), Some(vec![t("tourism", "viewpoint")]));
}

#[test]
fn a_preset_sets_its_keys_and_keeps_the_others() {
    let (mut m, lid) = manager(
        vec![tagged_node(1, vec![t("addr:street", "Main"), t("amenity", "cafe"), t("name", "Old")])],
        vec![],
    );
    let f = FeatureRef { layer_id: lid, kind: FeatureKind::Node, id: 1 };
    let preset = vec![t("name", "New"), t("brand", "Joe"), t("amenity", "cafe")];
    let action = apply_nsi_preset(&mut m, f, &preset).unwrap();
    match &action {
        UndoableAction::SetTags { entries } => {
            assert_eq!(
                entries,
                &vec![
                    (f, "brand".to_string(), None, Some("Joe".to_string())),
                    (f, "name".to_string(), Some("Old".to_string()), Some("New".to_string())),
                ]
            );
        }
        _ => panic!("expected a tag edit"),
    }
    assert_eq!(
        tags_of(&m, &f),
        Some(vec![t("addr:street", "Main"), t("amenity", "cafe"), t("brand", "Joe"), t("name", "New")])
    );
    apply_undo_action(&mut m, &action, false);
    assert_eq!(tags_of(&m, &f), Some(vec![t("addr:street", "Main"), t("amenity", "cafe"), t("name", "Old")]));
}

#[test]
fn a_preset_that_changes_nothing_records_nothing() {
    let (mut m, lid) = manager(vec![tagged_node(1, vec![t("amenity", "cafe")])], vec![]);
    let f = FeatureRef { layer_id: lid, kind: FeatureKind::Node, id: 1 };
    assert!(apply_nsi_preset(&mut m, f, &vec![t("amenity", "cafe")]).is_none());
    assert!(apply_nsi_preset(&mut m, f, &vec![]).is_none());
    let gone = FeatureRef { layer_id: lid, kind: FeatureKind::Way, id: 1 };
    assert!(apply_nsi_preset(&mut m, gone, &vec![t("amenity", "pub")]).is_none());
    assert!(!m.find_layer(lid).unwrap().layer.is_modified());
}

#[test]
fn the_last_of_two_preset_entries_for_a_key_wins() {
    let (mut m, lid) = manager(vec![tagged_node(1, vec![])], vec![]);
    let f = FeatureRef { layer_id: lid, kind: FeatureKind::Node, id: 1 };
    apply_nsi_preset(&mut m, f, &vec![t("shop", "bakery"), t("shop", "deli")]).unwrap();
    assert_eq!(tags_of(&m, &f), Some(vec![t("shop", "deli")]));
}
