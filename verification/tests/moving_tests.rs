use std::collections::HashMap;

use osm_gpui::layers::osm_layer::{FeatureKind, FeatureRef, OsmLayer};
use osm_gpui::layers::{LayerId, LayerManager};
use osm_gpui::moving::{commit_drag, commit_move, resolve_move_targets};
use osm_gpui::osm::{Coord, OsmData, OsmNode, OsmWay};
use osm_gpui::undo::{apply_undo_action, UndoableAction};

fn c(v: f64) -> Coord {
    Coord(v.to_bits())
}

fn node(id: i64, lat: f64, lon: f64) -> OsmNode {
    OsmNode { id, lat: c(lat), lon: c(lon), version: 1, tags: Vec::new() }
}

fn data(nodes: Vec<OsmNode>, ways: Vec<OsmWay>) -> OsmData {
    let mut node_map = HashMap::new();
    for n in nodes {
        node_map.insert(n.id, n);
    }
    let mut way_map = HashMap::new();
    for w in ways {
        way_map.insert(w.id, w);
    }
    OsmData { nodes: node_map, ways: way_map }
}

fn two_layers() -> (LayerManager<OsmLayer>, LayerId, LayerId) {
    let mut m = LayerManager::new();
    let a = m.alloc_id();
    let way = OsmWay { id: 10, nodes: vec![1, 2, 3, 99], version: 1, tags: Vec::new() };
    m.add_layer(
        a,
        "a".to_string(),
        OsmLayer::new_with_data(a, "a".to_string(), data(vec![node(1, 0.0, 0.0), node(2, 1.0, 1.0), node(3, 2.0, 2.0), node(4, 3.0, 3.0)], vec![way])),
    );
    let b = m.alloc_id();
    m.add_layer(b, "b".to_string(), OsmLayer::new_with_data(b, "b".to_string(), data(vec![node(7, 5.0, 5.0)], vec![])));
    (m, a, b)
}

fn sorted(mut targets: Vec<(LayerId, Vec<(i64, Coord, Coord)>)>) -> Vec<(LayerId, Vec<(i64, Coord, Coord)>)> {
    targets.sort_by_key(|t| t.0 .0);
    for t in targets.iter_mut() {
        t.1.sort_by_key(|n| n.0);
    }
    targets
}

#[test]
fn targets_gather_selected_nodes_and_way_members_once_per_layer() {
    let (m, a, b) = two_layers();
    let sel = vec![
        FeatureRef { layer_id: a, kind: FeatureKind::Node, id: 2 },
        FeatureRef { layer_id: a, kind: FeatureKind::Way, id: 10 },
        FeatureRef { layer_id: b, kind: FeatureKind::Node, id: 7 },
        FeatureRef { layer_id: a, kind: FeatureKind::Node, id: 4 },
    ];
    let targets = sorted(resolve_move_targets(&m, &sel));
    assert_eq!(
        targets,
        vec![
            (a, vec![(1, c(0.0), c(0.0)), (2, c(1.0), c(1.0)), (3, c(2.0), c(2.0)), (4, c(3.0), c(3.0))]),
            (b, vec![(7, c(5.0), c(5.0))]),
        ]
    );
}

#[test]
fn targets_leave_out_missing_nodes_and_empty_layers() {
    let (m, a, b) = two_layers();
    let sel = vec![
        FeatureRef { layer_id: b, kind: FeatureKind::Node, id: 8 },
        FeatureRef { layer_id: LayerId(42), kind: FeatureKind::Node, id: 1 },
        FeatureRef { layer_id: a, kind: FeatureKind::Way, id: 11 },
    ];
    assert!(resolve_move_targets(&m, &sel).is_empty());
    assert!(resolve_move_targets(&m, &vec![]).is_empty());
}

#[test]
fn a_committed_drag_moves_the_nodes_and_undo_puts_them_back() {
    let (mut m, a, b) = two_layers();
    let sel = vec![FeatureRef { layer_id: a, kind: FeatureKind::Node, id: 2 }, FeatureRef { layer_id: b, kind: FeatureKind::Node, id: 7 }];
    let targets = resolve_move_targets(&m, &sel);
    let new_positions: Vec<Vec<(Coord, Coord)>> =
        targets.iter().map(|t| t.1.iter().map(|n| (c(f64::from_bits(n.1 .0) + 0.5), c(f64::from_bits(n.2 .0) - 0.5))).collect()).collect();
    let action = commit_drag(&mut m, &targets, &new_positions);
    let pos = |m: &LayerManager<OsmLayer>, l: LayerId, id: i64| m.find_layer(l).unwrap().layer.node_lat_lon(id);
    assert_eq!(pos(&m, a, 2), Some((c(1.5), c(0.5))));
    assert_eq!(pos(&m, b, 7), Some((c(5.5), c(4.5))));
    assert_eq!(pos(&m, a, 1), Some((c(0.0), c(0.0))));
    assert!(m.find_layer(a).unwrap().layer.is_modified());
    match &action {
        UndoableAction::MoveNodes { per_layer } => assert_eq!(per_layer.len(), 2),
        _ => panic!("expected a move"),
    }
    apply_undo_action(&mut m, &action, false);
    assert_eq!(pos(&m, a, 2), Some((c(1.0), c(1.0))));
    assert_eq!(pos(&m, b, 7), Some((c(5.0), c(5.0))));
    apply_undo_action(&mut m, &action, true);
    assert_eq!(pos(&m, a, 2), Some((c(1.5), c(0.5))));
}

#[test]
fn committing_a_move_returns_the_move_it_made() {
    let (mut m, a, _) = two_layers();
    let per_layer = vec![(a, vec![(3, (c(2.0), c(2.0)), (c(9.0), c(8.0)))])];
    let action = commit_move(&mut m, per_layer.clone());
    match action {
        UndoableAction::MoveNodes { per_layer: got } => assert_eq!(got, per_layer),
        _ => panic!("expected a move"),
    }
    assert_eq!(m.find_layer(a).unwrap().layer.node_lat_lon(3), Some((c(9.0), c(8.0))));
}
