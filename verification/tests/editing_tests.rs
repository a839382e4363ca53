use std::collections::HashMap;

use osm_gpui::editing::{
    add_extend_or_start_way, building_click, commit_building, commit_extrude, delete_selected_features, handle_add_click,
    insert_node_on_segment, AddProgress, AddTarget, BuildingProgress,
};
use osm_gpui::layers::osm_layer::{FeatureKind, OsmLayer};
use osm_gpui::layers::{LayerId, LayerManager};
use osm_gpui::osm::{Coord, OsmData, OsmNode, OsmWay};
use osm_gpui::layers::osm_layer::FeatureRef;
use osm_gpui::undo::{apply_undo_action, UndoableAction};

fn c(v: f64) -> Coord {
    Coord(v.to_bits())
}

fn manager(nodes: Vec<OsmNode>, ways: Vec<OsmWay>) -> (LayerManager<OsmLayer>, LayerId) {
    let mut node_map = HashMap::new();
    for n in nodes {
        node_map.insert(n.id, n);
    }
    let mut way_map = HashMap::new();
    for w in ways {
        way_map.insert(w.id, w);
    }
    let mut m = LayerManager::new();
    let id = m.alloc_id();
    m.add_layer(id, "L".to_string(), OsmLayer::new_with_data(id, "L".to_string(), OsmData { nodes: node_map, ways: way_map }));
    (m, id)
}

fn node(id: i64, lat: f64, lon: f64) -> OsmNode {
    OsmNode { id, lat: c(lat), lon: c(lon), version: 1, tags: Vec::new() }
}

fn layer(m: &LayerManager<OsmLayer>, id: LayerId) -> &OsmLayer {
    &m.find_layer(id).unwrap().layer
}

#[test]
fn first_free_click_places_a_lone_node() {
    let (mut m, lid) = manager(vec![], vec![]);
    let out = handle_add_click(&mut m, lid, None, AddTarget::Free { lat: c(1.0), lon: c(2.0) });
    assert_eq!(out.progress, Some(AddProgress { way_id: None, last_node_id: -1 }));
    assert!(matches!(out.action, Some(UndoableAction::CreateNode { id: -1, .. })));
    assert_eq!(out.selected, Some(FeatureRef { layer_id: lid, kind: FeatureKind::Node, id: -1 }));
    assert_eq!(layer(&m, lid).node_lat_lon(-1), Some((c(1.0), c(2.0))));
}

#[test]
fn clicks_draw_a_way_and_each_undoes_in_one_step() {
    let (mut m, lid) = manager(vec![], vec![]);
    let first = handle_add_click(&mut m, lid, None, AddTarget::Free { lat: c(1.0), lon: c(2.0) });
    let second = handle_add_click(&mut m, lid, first.progress, AddTarget::Free { lat: c(1.5), lon: c(2.5) });
    assert_eq!(second.progress, Some(AddProgress { way_id: Some(-1), last_node_id: -2 }));
    assert_eq!(layer(&m, lid).way_node_ids(-1), Some(vec![-1, -2]));
    assert_eq!(second.selected, Some(FeatureRef { layer_id: lid, kind: FeatureKind::Way, id: -1 }));

    let third = handle_add_click(&mut m, lid, second.progress, AddTarget::Free { lat: c(2.0), lon: c(3.0) });
    assert_eq!(layer(&m, lid).way_node_ids(-1), Some(vec![-1, -2, -3]));
    assert!(matches!(
        third.action,
        Some(UndoableAction::ExtendWay { way_id: -1, node_id: -3, way_created: false, node_created: true, .. })
    ));

    apply_undo_action(&mut m, third.action.as_ref().unwrap(), false);
    assert_eq!(layer(&m, lid).way_node_ids(-1), Some(vec![-1, -2]));
    assert_eq!(layer(&m, lid).node_lat_lon(-3), None);

    apply_undo_action(&mut m, second.action.as_ref().unwrap(), false);
    assert_eq!(layer(&m, lid).way_node_ids(-1), None);
    assert_eq!(layer(&m, lid).node_lat_lon(-2), None);
    assert!(layer(&m, lid).node_lat_lon(-1).is_some());
}

#[test]
fn clicking_a_node_finishes_the_way() {
    let (mut m, lid) = manager(vec![node(7, 0.0, 0.0)], vec![]);
    let first = handle_add_click(&mut m, lid, None, AddTarget::Free { lat: c(1.0), lon: c(1.0) });
    let done = handle_add_click(&mut m, lid, first.progress, AddTarget::Node(7));
    assert_eq!(done.progress, None);
    assert_eq!(layer(&m, lid).way_node_ids(-1), Some(vec![-1, 7]));
    assert!(matches!(done.action, Some(UndoableAction::ExtendWay { node_id: 7, node_created: false, way_created: true, .. })));

    apply_undo_action(&mut m, done.action.as_ref().unwrap(), false);
    assert_eq!(layer(&m, lid).way_node_ids(-1), None);
    assert!(layer(&m, lid).node_lat_lon(7).is_some(), "a connected node is never deleted by undo");
}

#[test]
fn snapped_clicks_splice_into_the_way_hit() {
    let (mut m, lid) = manager(
        vec![node(1, 0.0, 0.0), node(2, 0.0, 1.0)],
        vec![OsmWay { id: 10, nodes: vec![1, 2], version: 1, tags: Vec::new() }],
    );
    let first = handle_add_click(&mut m, lid, None, AddTarget::Snap { way_id: 10, index: 0, lat: c(0.0), lon: c(0.5) });
    assert_eq!(layer(&m, lid).way_node_ids(10), Some(vec![1, -1, 2]));
    assert!(matches!(first.action, Some(UndoableAction::InsertNodeIntoWay { way_id: 10, index: 1, node_id: -1, .. })));

    let free = handle_add_click(&mut m, lid, first.progress, AddTarget::Free { lat: c(1.0), lon: c(0.5) });
    assert_eq!(layer(&m, lid).way_node_ids(-1), Some(vec![-1, -2]));
    let snap = handle_add_click(&mut m, lid, free.progress, AddTarget::Snap { way_id: 10, index: 2, lat: c(0.0), lon: c(0.9) });
    assert_eq!(layer(&m, lid).way_node_ids(10), Some(vec![1, -1, 2, -3]));
    assert_eq!(layer(&m, lid).way_node_ids(-1), Some(vec![-1, -2, -3]));
    assert!(matches!(
        snap.action,
        Some(UndoableAction::SnapExtendWay { way_id: -1, way_created: false, snap_way_id: 10, snap_index: 3, node_id: -3, .. })
    ));

    apply_undo_action(&mut m, snap.action.as_ref().unwrap(), false);
    assert_eq!(layer(&m, lid).way_node_ids(10), Some(vec![1, -1, 2]));
    assert_eq!(layer(&m, lid).way_node_ids(-1), Some(vec![-1, -2]));
    assert_eq!(layer(&m, lid).node_lat_lon(-3), None);
}

#[test]
fn click_on_a_missing_layer_ends_the_drawing() {
    let (mut m, lid) = manager(vec![], vec![]);
    let other = LayerId(lid.0 + 5);
    let out = handle_add_click(&mut m, other, None, AddTarget::Free { lat: c(1.0), lon: c(2.0) });
    assert_eq!(out.progress, None);
    assert!(out.action.is_none());
    assert_eq!(out.selected, None);
    let p = Some(AddProgress { way_id: Some(4), last_node_id: 1 });
    let out = handle_add_click(&mut m, other, p, AddTarget::Node(1));
    assert_eq!(out.selected, Some(FeatureRef { layer_id: other, kind: FeatureKind::Way, id: 4 }));
}

#[test]
fn extend_or_start_way_records_the_matching_undo_entry() {
    let (mut m, lid) = manager(vec![node(1, 0.0, 0.0), node(2, 0.0, 1.0)], vec![]);
    let p = Some(AddProgress { way_id: None, last_node_id: 1 });
    let (w, action) = add_extend_or_start_way(&mut m, lid, p, 2, false, Some((10, 1)));
    assert_eq!(w, -1);
    assert_eq!(layer(&m, lid).way_node_ids(-1), Some(vec![1, 2]));
    assert!(matches!(
        action,
        Some(UndoableAction::SnapExtendWay { way_id: -1, way_created: true, snap_way_id: 10, snap_index: 1, node_id: 2, .. })
    ));
    let (w2, none) = add_extend_or_start_way(&mut m, LayerId(99), Some(AddProgress { way_id: Some(8), last_node_id: 1 }), 2, true, None);
    assert_eq!((w2, none.is_none()), (8, true));
}

#[test]
fn building_commit_adds_a_closed_way_and_undo_removes_it_all() {
    let (mut m, lid) = manager(vec![node(1, 5.0, 5.0)], vec![]);
    let (w, action) = commit_building(&mut m, lid, (c(0.0), c(0.0)), (c(0.0), c(1.0)), (c(1.0), c(1.0)), (c(1.0), c(0.0))).unwrap();
    assert_eq!(w, -1);
    assert_eq!(layer(&m, lid).way_node_ids(-1), Some(vec![-1, -2, -3, -4, -1]));
    assert_eq!(layer(&m, lid).node_lat_lon(-3), Some((c(1.0), c(1.0))));
    let tags = layer(&m, lid).feature_tags(&FeatureRef { layer_id: lid, kind: FeatureKind::Way, id: -1 }).unwrap();
    assert_eq!(tags, vec![("building".to_string(), "yes".to_string())]);
    assert!(matches!(&action, UndoableAction::CreateBuilding { way_id: -1, node_ids, .. } if node_ids == &vec![-1, -2, -3, -4]));

    apply_undo_action(&mut m, &action, false);
    let data = layer(&m, lid).get_osm_data().unwrap();
    assert!(data.ways.is_empty());
    assert_eq!(data.nodes.len(), 1);
    assert!(commit_building(&mut m, LayerId(77), (c(0.0), c(0.0)), (c(0.0), c(1.0)), (c(1.0), c(1.0)), (c(1.0), c(0.0))).is_none());
}

#[test]
fn extrude_builds_on_an_existing_edge() {
    let (mut m, lid) = manager(vec![node(1, 0.0, 0.0), node(2, 0.0, 1.0)], vec![]);
    let (w, action) = commit_extrude(&mut m, lid, 1, 2, (c(1.0), c(0.0)), (c(1.0), c(1.0))).unwrap();
    assert_eq!(layer(&m, lid).way_node_ids(w), Some(vec![1, 2, -2, -1, 1]));
    assert!(matches!(&action, UndoableAction::ExtrudeWay { new_node_ids, .. } if new_node_ids == &vec![-1, -2]));
    assert!(commit_extrude(&mut m, lid, 1, 99, (c(1.0), c(0.0)), (c(1.0), c(1.0))).is_none());

    apply_undo_action(&mut m, &action, false);
    assert_eq!(layer(&m, lid).way_node_ids(w), None);
    assert_eq!(layer(&m, lid).node_lat_lon(-1), None);
    assert!(layer(&m, lid).node_lat_lon(1).is_some());
}

#[test]
fn double_click_inserts_after_the_segment_start() {
    let (mut m, lid) = manager(
        vec![node(1, 0.0, 0.0), node(2, 0.0, 1.0), node(3, 0.0, 2.0)],
        vec![OsmWay { id: 10, nodes: vec![1, 2, 3], version: 1, tags: Vec::new() }],
    );
    let action = insert_node_on_segment(&mut m, lid, 10, 2, c(0.0), c(1.5)).unwrap();
    assert_eq!(layer(&m, lid).way_node_ids(10), Some(vec![1, 2, -1, 3]));
    assert!(matches!(action, UndoableAction::InsertNodeIntoWay { way_id: 10, index: 2, node_id: -1, .. }));
    assert!(insert_node_on_segment(&mut m, lid, 10, 42, c(0.0), c(1.5)).is_none());
    assert!(insert_node_on_segment(&mut m, lid, 11, 2, c(0.0), c(1.5)).is_none());

    apply_undo_action(&mut m, &action, false);
    assert_eq!(layer(&m, lid).way_node_ids(10), Some(vec![1, 2, 3]));
}

#[test]
fn deleting_the_selection_records_each_deletion_and_reports_it() {
    let (mut m, lid) = manager(
        vec![node(1, 0.0, 0.0), node(2, 0.0, 1.0), node(3, 5.0, 5.0)],
        vec![OsmWay { id: 10, nodes: vec![1, 2], version: 1, tags: Vec::new() }],
    );
    let sel = vec![
        FeatureRef { layer_id: lid, kind: FeatureKind::Node, id: 1 },
        FeatureRef { layer_id: lid, kind: FeatureKind::Way, id: 10 },
        FeatureRef { layer_id: lid, kind: FeatureKind::Node, id: 3 },
        FeatureRef { layer_id: LayerId(lid.0 + 9), kind: FeatureKind::Node, id: 2 },
    ];
    let (actions, status) = delete_selected_features(&mut m, &sel);
    assert_eq!(status.as_deref(), Some("Deleted 2 features"));
    assert_eq!(actions.len(), 2);
    assert!(matches!(&actions[0], UndoableAction::DeleteFeature { snapshot, .. } if snapshot.kind == FeatureKind::Way && snapshot.id == 10));
    assert!(matches!(&actions[1], UndoableAction::DeleteFeature { snapshot, .. } if snapshot.kind == FeatureKind::Node && snapshot.id == 3));
    assert!(layer(&m, lid).node_lat_lon(1).is_some(), "node used by the way when it came up is kept");

    let (_, status) = delete_selected_features(&mut m, &vec![FeatureRef { layer_id: lid, kind: FeatureKind::Node, id: 1 }]);
    assert_eq!(status.as_deref(), Some("Deleted 1 feature"));
    let (none, status) = delete_selected_features(&mut m, &vec![FeatureRef { layer_id: lid, kind: FeatureKind::Node, id: 1 }]);
    assert!(none.is_empty());
    assert_eq!(status.as_deref(), Some("Nothing to delete"));
    let (_, status) = delete_selected_features(&mut m, &vec![]);
    assert_eq!(status, None);

    for a in actions.iter().rev() {
        apply_undo_action(&mut m, a, false);
    }
    assert_eq!(layer(&m, lid).way_node_ids(10), Some(vec![1, 2]));
    assert!(layer(&m, lid).node_lat_lon(3).is_some());
}

#[test]
fn building_clicks_place_two_corners_then_commit() {
    let lid = LayerId(3);
    let (p1, commit1) = building_click(Some(lid), None, (c(1.0), c(2.0)));
    assert_eq!(p1, Some(BuildingProgress { corner_a: (c(1.0), c(2.0)), corner_b: None }));
    assert_eq!(commit1, None);
    let (p2, commit2) = building_click(Some(lid), p1, (c(1.0), c(3.0)));
    assert_eq!(p2, Some(BuildingProgress { corner_a: (c(1.0), c(2.0)), corner_b: Some((c(1.0), c(3.0))) }));
    assert_eq!(commit2, None);
    let (p3, commit3) = building_click(Some(lid), p2, (c(2.0), c(3.0)));
    assert_eq!(p3, None);
    assert_eq!(commit3, Some((lid, (c(1.0), c(2.0)), (c(1.0), c(3.0)), (c(2.0), c(3.0)))));
}

#[test]
fn building_clicks_without_an_active_layer_do_nothing() {
    let progress = Some(BuildingProgress { corner_a: (c(1.0), c(2.0)), corner_b: None });
    assert_eq!(building_click(None, progress, (c(5.0), c(5.0))), (progress, None));
    assert_eq!(building_click(None, None, (c(5.0), c(5.0))), (None, None));
}
