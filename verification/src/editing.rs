//! Editing the active layer with the mouse and keyboard: drawing ways in
//! Add mode, buildings in Building mode, extruding and splitting segments,
//! and deleting the selection; what each does to the layer and which undo
//! record it leaves. Hit-testing, snapping and the geometry of the
//! rectangle (screen and float work) happen in the view, which hands the
//! outcome over as plain values such as an `AddTarget`.

use vstd::prelude::*;

use crate::layers::osm_layer::{
    last_position, node_unspliced, unsplice, ways_view, feature_deleted_as, node_added, node_removal, node_spliced, way_extended, way_removal, DeletedFeatureSnapshot,
    FeatureKind, FeatureRef, OsmLayer,
};
use crate::text::{append_str, decimal, push_decimal};
use crate::layers::{LayerEntry, LayerId, LayerManager};
use crate::osm::{Coord, WayView};
use crate::undo::{
    all_wf, detached, first_index, lemma_first_index, lemma_first_index_found, lemma_layer_step, nodes_removed_in_turn, removal_chain, on_layer, undo_step, UndoableAction,
};

verus! {

/// A way being drawn: the way (none until the second click) and the last
/// node placed.
#[derive(Debug, Clone, Copy, PartialEq, Eq, Structural)]
pub struct AddProgress {
    pub way_id: Option<i64>,
    pub last_node_id: i64,
}

/// Where an Add-mode click landed, as the view's hit-testing found it.
#[derive(Debug, Clone, Copy, PartialEq, Eq, Structural)]
pub enum AddTarget {
    /// An existing node of the active layer, clicked while a way is being
    /// drawn (and Ctrl not held): the way is finished by connecting to it.
    Node(i64),
    /// A point snapped onto a way: the way, the position of the first node
    /// of the segment hit, and the point.
    Snap { way_id: i64, index: usize, lat: Coord, lon: Coord },
    /// Free space at a position.
    Free { lat: Coord, lon: Coord },
}

/// What a click changed besides the layer: the drawing progress, the undo
/// record to push (if any), and the feature to select (`None`: keep the
/// selection).
#[derive(Debug, Clone)]
pub struct AddOutcome {
    pub progress: Option<AddProgress>,
    pub action: Option<UndoableAction>,
    pub selected: Option<FeatureRef>,
}


/// `after` is `before` with the way being drawn grown by `node_id`:
/// appended to way `in_progress` when there is one, else a new two-node
/// way from `last` to `node_id` under the next way id. `way_id` is the
/// way's id.
pub open spec fn way_grown(before: OsmLayer, after: OsmLayer, in_progress: Option<i64>, last: i64, node_id: i64, way_id: i64) -> bool {
    match in_progress {
        Some(w) => way_id == w && way_extended(&before, &after, w, node_id),
        None => {
            &&& way_id == before.next_way_id()
            &&& after.next_way_id() == way_id - 1
            &&& after.way_put(&before, WayView { id: way_id, nodes: seq![last, node_id], version: 0, tags: Seq::empty() })
        },
    }
}

/// The undo record of growing a way: a compound one when the node was
/// snapped into another way at `snap`.
pub open spec fn grow_record(
    layer: LayerId,
    way_id: i64,
    way_created: bool,
    node_id: i64,
    node_created: bool,
    snap: Option<(i64, usize)>,
) -> UndoableAction {
    match snap {
        Some(s) => UndoableAction::SnapExtendWay { layer, way_id, way_created, snap_way_id: s.0, snap_index: s.1, node_id },
        None => UndoableAction::ExtendWay { layer, way_id, node_id, way_created, node_created },
    }
}

/// The way in progress, if any.
pub open spec fn way_in_progress(progress: Option<AddProgress>) -> Option<i64> {
    match progress {
        Some(p) => p.way_id,
        None => None,
    }
}

/// The node a new way starts from: the last node placed, or `node_id`
/// itself when nothing is in progress.
pub open spec fn start_node(progress: Option<AddProgress>, node_id: i64) -> i64 {
    match progress {
        Some(p) => p.last_node_id,
        None => node_id,
    }
}

/// Grows the way being drawn on `layer` (see `way_grown`); returns the way
/// id and whether the way was created.
fn grow_way(layer: &mut OsmLayer, progress: Option<AddProgress>, node_id: i64) -> (r: (i64, bool))
    requires
        old(layer).wf(),
        way_in_progress(progress) is None ==> old(layer).next_way_id() > i64::MIN,
    ensures
        final(layer).wf(),
        way_grown(*old(layer), *final(layer), way_in_progress(progress), start_node(progress, node_id), node_id, r.0),
        r.1 == way_in_progress(progress) is None,
{
    let (in_progress, last) = match progress {
        Some(p) => (p.way_id, p.last_node_id),
        None => (None, node_id),
    };
    match in_progress {
        Some(w) => {
            layer.extend_way(w, node_id);
            (w, false)
        },
        None => {
            let w = layer.add_way(vec![last, node_id], Vec::new());
            (w, true)
        },
    }
}

/// Starts a two-node way from the last node drawn to `node_id`, or extends
/// the way in progress with it, on layer `layer_id`; returns the way's id
/// and the undo record (compound when `snap` says the node was just
/// snapped into another way; `node_created` says whether the click created
/// the node). When there is no such layer nothing changes, no record is
/// made, and the id is that of the way in progress (0 when none).
pub fn add_extend_or_start_way(
    layers: &mut LayerManager<OsmLayer>,
    layer_id: LayerId,
    progress: Option<AddProgress>,
    node_id: i64,
    node_created: bool,
    snap: Option<(i64, usize)>,
) -> (r: (i64, Option<UndoableAction>))
    requires
        all_wf(old(layers).entries()),
        way_in_progress(progress) is None ==> (first_index(old(layers).entries(), layer_id) matches Some(i)
            ==> old(layers).entries()[i].layer.next_way_id() > i64::MIN),
    ensures
        all_wf(final(layers).entries()),
        final(layers).next_id() == old(layers).next_id(),
        on_layer(
            old(layers).entries(),
            final(layers).entries(),
            layer_id,
            |a: OsmLayer, b: OsmLayer| way_grown(a, b, way_in_progress(progress), start_node(progress, node_id), node_id, r.0),
        ),
        first_index(old(layers).entries(), layer_id) is Some ==> r.1 == Some(
            grow_record(layer_id, r.0, way_in_progress(progress) is None, node_id, node_created, snap),
        ),
        first_index(old(layers).entries(), layer_id) is None ==> r.1 is None && r.0 == match way_in_progress(progress) {
            Some(w) => w,
            None => 0,
        },
{
    let ghost before = layers.entries();
    let fallback = match progress {
        Some(p) => match p.way_id {
            Some(w) => w,
            None => 0,
        },
        None => 0,
    };
    let found = match layers.find_layer_mut(layer_id) {
        Some(l) => {
            proof {
                let k = choose|k: int| 0 <= k < before.len() && before[k].id == layer_id && *l == before[k].layer && (forall|j: int| 0 <= j < k ==> (#[trigger] before[j]).id != layer_id);
                lemma_first_index(before, layer_id, k);
                assert(before[k].layer.wf());
            }
            let (w, created) = grow_way(l, progress, node_id);
            Some((w, created))
        },
        None => {
            proof {
                lemma_first_index(before, layer_id, -1);
            }
            None
        },
    };
    let ghost rel_way = match found { Some(f) => f.0, None => fallback };
    proof {
        let after = layers.entries();
        let rel = |a: OsmLayer, b: OsmLayer| way_grown(a, b, way_in_progress(progress), start_node(progress, node_id), node_id, rel_way);
        if exists|k: int|
            0 <= k < before.len() && before[k].id == layer_id && after == before.update(k, LayerEntry { layer: after[k].layer, ..before[k] })
                && (forall|j: int| 0 <= j < k ==> (#[trigger] before[j]).id != layer_id) && rel(before[k].layer, after[k].layer)
                && after[k].layer.wf() {
            lemma_layer_step(before, after, layer_id, rel);
        } else {
            lemma_layer_step(before, after, layer_id, rel);
        }
    }
    match found {
        Some((w, created)) => {
            let action = match snap {
                Some((sw, si)) => UndoableAction::SnapExtendWay {
                    layer: layer_id,
                    way_id: w,
                    way_created: created,
                    snap_way_id: sw,
                    snap_index: si,
                    node_id,
                },
                None => UndoableAction::ExtendWay { layer: layer_id, way_id: w, node_id, way_created: created, node_created },
            };
            (w, Some(action))
        },
        None => (fallback, None),
    }
}


/// `after` is `before` with an Add-mode click on `target` applied, and
/// `out` what the click leaves: a node clicked finishes the way (connecting
/// to it); otherwise a node is created (spliced into the way snapped onto
/// after the segment's first node, or free) and either starts a new
/// drawing or grows the way being drawn. One click, one undo record.
pub open spec fn add_click_step(
    before: OsmLayer,
    after: OsmLayer,
    layer_id: LayerId,
    progress: Option<AddProgress>,
    target: AddTarget,
    out: AddOutcome,
) -> bool {
    match target {
        AddTarget::Node(n) => exists|w: i64|
            #[trigger] way_grown(before, after, way_in_progress(progress), start_node(progress, n), n, w)
                && out.progress is None
                && out.action == Some(grow_record(layer_id, w, way_in_progress(progress) is None, n, false, None))
                && out.selected == Some(FeatureRef { layer_id, kind: FeatureKind::Way, id: w }),
        AddTarget::Free { lat, lon } => match progress {
            None => exists|r: i64|
                #[trigger] node_added(&before, &after, lat, lon, r) && out.progress == Some(AddProgress { way_id: None, last_node_id: r })
                    && out.action == Some(UndoableAction::CreateNode { layer: layer_id, id: r, lat, lon })
                    && out.selected == Some(FeatureRef { layer_id, kind: FeatureKind::Node, id: r }),
            Some(p) => exists|mid: OsmLayer, r: i64, w: i64|
                #[trigger] node_added(&before, &mid, lat, lon, r) && #[trigger] way_grown(mid, after, p.way_id, p.last_node_id, r, w)
                    && out.progress == Some(AddProgress { way_id: Some(w), last_node_id: r })
                    && out.action == Some(grow_record(layer_id, w, p.way_id is None, r, true, None))
                    && out.selected == Some(FeatureRef { layer_id, kind: FeatureKind::Way, id: w }),
        },
        AddTarget::Snap { way_id: sw, index, lat, lon } => match progress {
            None => exists|r: i64|
                #[trigger] node_spliced(&before, &after, sw, (index + 1) as usize, lat, lon, r)
                    && out.progress == Some(AddProgress { way_id: None, last_node_id: r })
                    && out.action == Some(UndoableAction::InsertNodeIntoWay { layer: layer_id, way_id: sw, index: (index + 1) as usize, node_id: r })
                    && out.selected == Some(FeatureRef { layer_id, kind: FeatureKind::Node, id: r }),
            Some(p) => exists|mid: OsmLayer, r: i64, w: i64|
                #[trigger] node_spliced(&before, &mid, sw, (index + 1) as usize, lat, lon, r) && #[trigger] way_grown(mid, after, p.way_id, p.last_node_id, r, w)
                    && out.progress == Some(AddProgress { way_id: Some(w), last_node_id: r })
                    && out.action == Some(grow_record(layer_id, w, p.way_id is None, r, true, Some((sw, (index + 1) as usize))))
                    && out.selected == Some(FeatureRef { layer_id, kind: FeatureKind::Way, id: w }),
        },
    }
}

/// What an Add-mode click needs of the layer it lands on: room for a new
/// node id (unless it connects to a node) and for a new way id (when it
/// starts a way).
pub open spec fn can_take_click(l: OsmLayer, progress: Option<AddProgress>, target: AddTarget) -> bool {
    &&& !(target is Node) ==> l.next_node_id() > i64::MIN
    &&& (target is Node || progress is Some) && way_in_progress(progress) is None ==> l.next_way_id() > i64::MIN
}

/// Applies an Add-mode click to `layer` (see `add_click_step`).
fn click_on_layer(layer: &mut OsmLayer, layer_id: LayerId, progress: Option<AddProgress>, target: AddTarget) -> (out: AddOutcome)
    requires
        old(layer).wf(),
        can_take_click(*old(layer), progress, target),
        target is Node ==> progress is Some,
        target matches AddTarget::Snap { index, .. } ==> index < usize::MAX,
    ensures
        final(layer).wf(),
        add_click_step(*old(layer), *final(layer), layer_id, progress, target, out),
{
    match target {
        AddTarget::Node(n) => {
            let (w, created) = grow_way(layer, progress, n);
            AddOutcome {
                progress: None,
                action: Some(UndoableAction::ExtendWay { layer: layer_id, way_id: w, node_id: n, way_created: created, node_created: false }),
                selected: Some(FeatureRef { layer_id, kind: FeatureKind::Way, id: w }),
            }
        },
        AddTarget::Free { lat, lon } => {
            let r = layer.add_node(lat, lon);
            match progress {
                None => AddOutcome {
                    progress: Some(AddProgress { way_id: None, last_node_id: r }),
                    action: Some(UndoableAction::CreateNode { layer: layer_id, id: r, lat, lon }),
                    selected: Some(FeatureRef { layer_id, kind: FeatureKind::Node, id: r }),
                },
                Some(p) => {
                    let (w, created) = grow_way(layer, Some(p), r);
                    AddOutcome {
                        progress: Some(AddProgress { way_id: Some(w), last_node_id: r }),
                        action: Some(UndoableAction::ExtendWay { layer: layer_id, way_id: w, node_id: r, way_created: created, node_created: true }),
                        selected: Some(FeatureRef { layer_id, kind: FeatureKind::Way, id: w }),
                    }
                },
            }
        },
        AddTarget::Snap { way_id: sw, index, lat, lon } => {
            let r = layer.insert_node_into_way(sw, index + 1, lat, lon);
            match progress {
                None => AddOutcome {
                    progress: Some(AddProgress { way_id: None, last_node_id: r }),
                    action: Some(UndoableAction::InsertNodeIntoWay { layer: layer_id, way_id: sw, index: index + 1, node_id: r }),
                    selected: Some(FeatureRef { layer_id, kind: FeatureKind::Node, id: r }),
                },
                Some(p) => {
                    let (w, created) = grow_way(layer, Some(p), r);
                    AddOutcome {
                        progress: Some(AddProgress { way_id: Some(w), last_node_id: r }),
                        action: Some(UndoableAction::SnapExtendWay {
                            layer: layer_id,
                            way_id: w,
                            way_created: created,
                            snap_way_id: sw,
                            snap_index: index + 1,
                            node_id: r,
                        }),
                        selected: Some(FeatureRef { layer_id, kind: FeatureKind::Way, id: w }),
                    }
                },
            }
        },
    }
}


/// What a click leaves when the active layer is gone: connecting to a node
/// still ends the drawing and selects the way in progress (id 0 when
/// none); any other click just ends the drawing.
pub open spec fn missing_layer_outcome(progress: Option<AddProgress>, target: AddTarget, layer_id: LayerId, out: AddOutcome) -> bool {
    &&& out.progress is None
    &&& out.action is None
    &&& out.selected == match target {
        AddTarget::Node(_) => Some(
            FeatureRef {
                layer_id,
                kind: FeatureKind::Way,
                id: match way_in_progress(progress) {
                    Some(w) => w,
                    None => 0,
                },
            },
        ),
        _ => None,
    }
}

/// Handles a click in Add mode on the active layer `layer_id`, given the
/// drawing in progress and where the click landed (see `add_click_step`).
pub fn handle_add_click(
    layers: &mut LayerManager<OsmLayer>,
    layer_id: LayerId,
    progress: Option<AddProgress>,
    target: AddTarget,
) -> (out: AddOutcome)
    requires
        all_wf(old(layers).entries()),
        target is Node ==> progress is Some,
        target matches AddTarget::Snap { index, .. } ==> index < usize::MAX,
        first_index(old(layers).entries(), layer_id) matches Some(i) ==> can_take_click(
            old(layers).entries()[i].layer,
            progress,
            target,
        ),
    ensures
        all_wf(final(layers).entries()),
        final(layers).next_id() == old(layers).next_id(),
        on_layer(
            old(layers).entries(),
            final(layers).entries(),
            layer_id,
            |a: OsmLayer, b: OsmLayer| add_click_step(a, b, layer_id, progress, target, out),
        ),
        first_index(old(layers).entries(), layer_id) is None ==> missing_layer_outcome(progress, target, layer_id, out),
{
    let ghost before = layers.entries();
    let res = match layers.find_layer_mut(layer_id) {
        Some(l) => {
            proof {
                let k = choose|k: int| 0 <= k < before.len() && before[k].id == layer_id && *l == before[k].layer && (forall|j: int| 0 <= j < k ==> (#[trigger] before[j]).id != layer_id);
                lemma_first_index(before, layer_id, k);
                assert(before[k].layer.wf());
            }
            Some(click_on_layer(l, layer_id, progress, target))
        },
        None => {
            proof {
                lemma_first_index(before, layer_id, -1);
            }
            None
        },
    };
    let out = match res {
        Some(o) => o,
        None => {
            let selected = match target {
                AddTarget::Node(_) => {
                    let w = match progress {
                        Some(p) => match p.way_id {
                            Some(w) => w,
                            None => 0,
                        },
                        None => 0,
                    };
                    Some(FeatureRef { layer_id, kind: FeatureKind::Way, id: w })
                },
                _ => None,
            };
            AddOutcome { progress: None, action: None, selected }
        },
    };
    proof {
        let after = layers.entries();
        let rel = |a: OsmLayer, b: OsmLayer| add_click_step(a, b, layer_id, progress, target, out);
        if exists|k: int|
            0 <= k < before.len() && before[k].id == layer_id && after == before.update(k, LayerEntry { layer: after[k].layer, ..before[k] })
                && (forall|j: int| 0 <= j < k ==> (#[trigger] before[j]).id != layer_id) && rel(before[k].layer, after[k].layer)
                && after[k].layer.wf() {
            lemma_layer_step(before, after, layer_id, rel);
        } else {
            lemma_layer_step(before, after, layer_id, rel);
        }
    }
    out
}


/// One click, one undo step: undoing the click that starts a way from the
/// last node placed to a new node in free space gives back the nodes, the
/// ways and the way order as they were (provided no way had the new way's
/// id yet).
pub proof fn law_undo_of_way_start_click(
    l0: OsmLayer,
    l1: OsmLayer,
    l2: OsmLayer,
    layer_id: LayerId,
    last: i64,
    lat: Coord,
    lon: Coord,
    out: AddOutcome,
)
    requires
        l0.wf(),
        !l0.way_views().contains_key(l0.next_way_id()),
        !l0.slots().contains_key(l0.next_way_id()),
        add_click_step(l0, l1, layer_id, Some(AddProgress { way_id: None, last_node_id: last }), AddTarget::Free { lat, lon }, out),
        out.action matches Some(a) && undo_step(l1, l2, a, false),
    ensures
        l2.node_views() == l0.node_views(),
        l2.way_views() == l0.way_views(),
        l2.slot_ids() == l0.slot_ids(),
{
    let (mid, r, w) = choose|mid: OsmLayer, r: i64, w: i64|
        #[trigger] node_added(&l0, &mid, lat, lon, r) && #[trigger] way_grown(mid, l1, None, last, r, w)
            && out.progress == Some(AddProgress { way_id: Some(w), last_node_id: r })
            && out.action == Some(grow_record(layer_id, w, true, r, true, None))
            && out.selected == Some(FeatureRef { layer_id, kind: FeatureKind::Way, id: w });
    let a = out.action->0;
    assert(a == UndoableAction::ExtendWay { layer: layer_id, way_id: w, node_id: r, way_created: true, node_created: true });
    let m = choose|m: OsmLayer| #[trigger] detached(l1, m, w, r, true) && node_removal(&m, &l2, r);
    assert(l1.slots().contains_key(w));
    assert(l1.way_views().contains_key(w));
    assert(m.way_views() =~= l0.way_views());
    assert(m.node_views().contains_key(r));
    assert(l2.node_views() =~= l0.node_views());
    l0.lemma_slot_count();
    assert(l1.slot_ids() == l0.slot_ids().push(w));
    assert(m.slot_ids() =~= l0.slot_ids());
}


/// One click, one undo step: undoing the click that extends the way being
/// drawn with a new node in free space gives back the nodes, the ways and
/// the way order as they were.
pub proof fn law_undo_of_way_extend_click(
    l0: OsmLayer,
    l1: OsmLayer,
    l2: OsmLayer,
    layer_id: LayerId,
    way: i64,
    last: i64,
    lat: Coord,
    lon: Coord,
    out: AddOutcome,
)
    requires
        l0.wf(),
        add_click_step(l0, l1, layer_id, Some(AddProgress { way_id: Some(way), last_node_id: last }), AddTarget::Free { lat, lon }, out),
        out.action matches Some(a) && undo_step(l1, l2, a, false),
    ensures
        l2.node_views() == l0.node_views(),
        l2.way_views() == l0.way_views(),
        l2.slot_ids() == l0.slot_ids(),
{
    let (mid, r, w) = choose|mid: OsmLayer, r: i64, w: i64|
        #[trigger] node_added(&l0, &mid, lat, lon, r) && #[trigger] way_grown(mid, l1, Some(way), last, r, w)
            && out.progress == Some(AddProgress { way_id: Some(w), last_node_id: r })
            && out.action == Some(grow_record(layer_id, w, false, r, true, None))
            && out.selected == Some(FeatureRef { layer_id, kind: FeatureKind::Way, id: w });
    let a = out.action->0;
    assert(a == UndoableAction::ExtendWay { layer: layer_id, way_id: w, node_id: r, way_created: false, node_created: true });
    let m = choose|m: OsmLayer| #[trigger] detached(l1, m, w, r, false) && node_removal(&m, &l2, r);
    assert(w == way);
    if mid.slots().contains_key(w) && mid.way_views().contains_key(w) {
        let nodes = mid.way_views()[w].nodes;
        let d1 = l1.data()->0;
        assert(ways_view(d1.ways@)[w] == d1.ways@[w]@);
        assert(d1.ways@[w].nodes@.len() == d1.ways@[w].nodes.len());
        assert(l1.way_views()[w].nodes == nodes.push(r));
        assert(nodes.push(r).last() == r);
        assert(last_position(nodes.push(r), r) == Some(nodes.len() as int));
        let idx = nodes.len() as usize;
        assert(idx as int == nodes.len());
        assert(l1.slots().contains_key(w) && l1.way_views().contains_key(w));
        assert(unsplice(&l1, &m, w, idx));
        assert(node_unspliced(&l1, &m, w, idx));
        assert(nodes.push(r).remove(nodes.len() as int) =~= nodes);
        assert(m.way_views() =~= mid.way_views());
        assert(m.node_views().contains_key(r));
        assert(l2.node_views() =~= l0.node_views());
    } else {
        assert(l1 == mid);
        assert(m == l1);
        assert(m.node_views().contains_key(r));
        assert(l2.node_views() =~= l0.node_views());
    }
}

/// A rectangle being drawn in Building mode: its first corner, and its
/// second once placed.
#[derive(Debug, Clone, Copy, PartialEq, Eq)]
pub struct BuildingProgress {
    pub corner_a: (Coord, Coord),
    pub corner_b: Option<(Coord, Coord)>,
}

/// What a Building-mode click at `at` does, given the layer being edited
/// and the rectangle in progress: the first click places the first corner,
/// the second the second, and the third asks to commit the rectangle (on
/// that layer, with both corners and the cursor) and starts over. With no
/// layer being edited nothing happens. Returns the rectangle in progress
/// after the click and what to commit, if anything.
pub fn building_click(active: Option<LayerId>, progress: Option<BuildingProgress>, at: (Coord, Coord)) -> (r: (
    Option<BuildingProgress>,
    Option<(LayerId, (Coord, Coord), (Coord, Coord), (Coord, Coord))>,
))
    ensures
        active is None ==> r == (progress, None::<(LayerId, (Coord, Coord), (Coord, Coord), (Coord, Coord))>),
        active matches Some(lid) ==> r == match progress {
            None => (Some(BuildingProgress { corner_a: at, corner_b: None }), None),
            Some(p) => match p.corner_b {
                None => (Some(BuildingProgress { corner_a: p.corner_a, corner_b: Some(at) }), None),
                Some(b) => (None, Some((lid, p.corner_a, b, at))),
            },
        },
{
    let lid = match active {
        Some(lid) => lid,
        None => return (progress, None),
    };
    match progress {
        None => (Some(BuildingProgress { corner_a: at, corner_b: None }), None),
        Some(p) => match p.corner_b {
            None => (Some(BuildingProgress { corner_a: p.corner_a, corner_b: Some(at) }), None),
            Some(b) => (None, Some((lid, p.corner_a, b, at))),
        },
    }
}

/// Whether `tags` is exactly `building=yes`.
pub open spec fn building_tags(tags: Seq<(String, String)>) -> bool {
    tags.len() == 1 && tags[0].0@ == "building"@ && tags[0].1@ == "yes"@
}

/// The tag list `building=yes`.
fn building_yes() -> (r: Vec<(String, String)>)
    ensures
        building_tags(r@),
{
    vec![("building".to_owned(), "yes".to_owned())]
}

/// `after` is `before` with a closed `building=yes` way over the node ids
/// `ring` (first id repeated last) added under the next way id `w`.
pub open spec fn building_way_added(before: OsmLayer, after: OsmLayer, ring: Seq<i64>, w: i64) -> bool {
    &&& w == before.next_way_id()
    &&& after.next_way_id() == w - 1
    &&& exists|tags: Seq<(String, String)>|
        building_tags(tags) && #[trigger] after.way_put(&before, WayView { id: w, nodes: ring, version: 0, tags })
}

/// `after` is `before` with four new nodes at the corners `c` (ids `r`,
/// `r - 1`, `r - 2`, `r - 3` in that order) and a closed `building=yes`
/// way `w` around them.
pub open spec fn building_made(before: OsmLayer, after: OsmLayer, c: Seq<(Coord, Coord)>, r: i64, w: i64) -> bool {
    exists|m1: OsmLayer, m2: OsmLayer, m3: OsmLayer, m4: OsmLayer|
        #[trigger] node_added(&before, &m1, c[0].0, c[0].1, r) && #[trigger] node_added(&m1, &m2, c[1].0, c[1].1, (r - 1) as i64)
            && #[trigger] node_added(&m2, &m3, c[2].0, c[2].1, (r - 2) as i64) && #[trigger] node_added(&m3, &m4, c[3].0, c[3].1, (r - 3) as i64)
            && building_way_added(m4, after, seq![r, (r - 1) as i64, (r - 2) as i64, (r - 3) as i64, r], w)
}

/// Adds the closed `building=yes` way over `ring` to `layer`.
fn add_building_way(layer: &mut OsmLayer, ring: Vec<i64>) -> (w: i64)
    requires
        old(layer).wf(),
        old(layer).next_way_id() > i64::MIN,
    ensures
        final(layer).wf(),
        building_way_added(*old(layer), *final(layer), ring@, w),
{
    let tags = building_yes();
    let ghost t = tags@;
    let w = layer.add_way(ring, tags);
    assert(building_tags(t));
    w
}

/// Draws a building on `layer`: four nodes at the corners (in order) and
/// a closed `building=yes` way around them.
fn building_on_layer(layer: &mut OsmLayer, c0: (Coord, Coord), c1: (Coord, Coord), c2: (Coord, Coord), c3: (Coord, Coord)) -> (r: (i64, Vec<i64>))
    requires
        old(layer).wf(),
        old(layer).next_node_id() >= i64::MIN + 4,
        old(layer).next_way_id() > i64::MIN,
    ensures
        final(layer).wf(),
        building_made(*old(layer), *final(layer), seq![c0, c1, c2, c3], old(layer).next_node_id(), r.0),
        r.1@ == seq![old(layer).next_node_id(), (old(layer).next_node_id() - 1) as i64, (old(layer).next_node_id() - 2) as i64, (old(layer).next_node_id() - 3) as i64],
{
    let n0 = layer.add_node(c0.0, c0.1);
    let ghost m1 = *layer;
    let n1 = layer.add_node(c1.0, c1.1);
    let ghost m2 = *layer;
    let n2 = layer.add_node(c2.0, c2.1);
    let ghost m3 = *layer;
    let n3 = layer.add_node(c3.0, c3.1);
    let ghost m4 = *layer;
    let w = add_building_way(layer, vec![n0, n1, n2, n3, n0]);
    proof {
        let c = seq![c0, c1, c2, c3];
        let r = old(layer).next_node_id();
        assert(c[0] == c0 && c[1] == c1 && c[2] == c2 && c[3] == c3);
        assert(n1 == (r - 1) as i64 && n2 == (r - 2) as i64 && n3 == (r - 3) as i64);
        assert(node_added(&*old(layer), &m1, c[0].0, c[0].1, r));
        assert(node_added(&m1, &m2, c[1].0, c[1].1, (r - 1) as i64));
        assert(node_added(&m2, &m3, c[2].0, c[2].1, (r - 2) as i64));
        assert(node_added(&m3, &m4, c[3].0, c[3].1, (r - 3) as i64));
        assert(seq![n0, n1, n2, n3, n0] =~= seq![r, (r - 1) as i64, (r - 2) as i64, (r - 3) as i64, r]);
        assert(building_way_added(m4, *layer, seq![r, (r - 1) as i64, (r - 2) as i64, (r - 3) as i64, r], w));
    }
    (w, vec![n0, n1, n2, n3])
}

/// Commits a building drawn in Building mode on layer `layer_id`: the
/// corners are the two clicked (`corner_a`, `corner_b`) and the two
/// opposite ones (`far_b`, `far_a`) the view computed from the cursor.
/// Returns the way's id and the undo record; `None` and no change when
/// there is no such layer.
pub fn commit_building(
    layers: &mut LayerManager<OsmLayer>,
    layer_id: LayerId,
    corner_a: (Coord, Coord),
    corner_b: (Coord, Coord),
    far_b: (Coord, Coord),
    far_a: (Coord, Coord),
) -> (r: Option<(i64, UndoableAction)>)
    requires
        all_wf(old(layers).entries()),
        first_index(old(layers).entries(), layer_id) matches Some(i) ==> old(layers).entries()[i].layer.next_node_id()
            >= i64::MIN + 4 && old(layers).entries()[i].layer.next_way_id() > i64::MIN,
    ensures
        all_wf(final(layers).entries()),
        final(layers).next_id() == old(layers).next_id(),
        r is Some <==> first_index(old(layers).entries(), layer_id) is Some,
        r matches Some(res) ==> {
            let i = first_index(old(layers).entries(), layer_id)->0;
            let n = old(layers).entries()[i].layer.next_node_id();
            &&& on_layer(
                old(layers).entries(),
                final(layers).entries(),
                layer_id,
                |a: OsmLayer, b: OsmLayer| building_made(a, b, seq![corner_a, corner_b, far_b, far_a], n, res.0),
            )
            &&& res.1 matches UndoableAction::CreateBuilding { layer, way_id, node_ids } && layer == layer_id && way_id
                == res.0 && node_ids@ == seq![n, (n - 1) as i64, (n - 2) as i64, (n - 3) as i64]
        },
        r is None ==> final(layers).entries() == old(layers).entries(),
{
    let ghost before = layers.entries();
    let res = match layers.find_layer_mut(layer_id) {
        Some(l) => {
            let ghost k = choose|k: int| 0 <= k < before.len() && before[k].id == layer_id && *l == before[k].layer && (forall|j: int| 0 <= j < k ==> (#[trigger] before[j]).id != layer_id);
            proof {
                lemma_first_index(before, layer_id, k);
                assert(before[k].layer.wf());
            }
            Some(building_on_layer(l, corner_a, corner_b, far_b, far_a))
        },
        None => {
            proof {
                lemma_first_index(before, layer_id, -1);
            }
            None
        },
    };
    match res {
        Some((w, ids)) => {
            proof {
                let after = layers.entries();
                let i = first_index(before, layer_id)->0;
                let n = before[i].layer.next_node_id();
                let rel = |a: OsmLayer, b: OsmLayer| building_made(a, b, seq![corner_a, corner_b, far_b, far_a], n, w);
                if exists|k: int|
                    0 <= k < before.len() && before[k].id == layer_id && after == before.update(k, LayerEntry { layer: after[k].layer, ..before[k] })
                        && (forall|j: int| 0 <= j < k ==> (#[trigger] before[j]).id != layer_id) && rel(before[k].layer, after[k].layer)
                        && after[k].layer.wf() {
                    lemma_layer_step(before, after, layer_id, rel);
                } else {
                    lemma_layer_step(before, after, layer_id, rel);
                }
            }
            Some((w, UndoableAction::CreateBuilding { layer: layer_id, way_id: w, node_ids: ids }))
        },
        None => None,
    }
}


/// `after` is `before` with two new nodes at `far_a` and `far_b` (ids `r`
/// and `r - 1`) and a closed `building=yes` way `w` over the edge from
/// `node_a` to `node_b` and the new nodes.
pub open spec fn extruded(
    before: OsmLayer,
    after: OsmLayer,
    node_a: i64,
    node_b: i64,
    far_a: (Coord, Coord),
    far_b: (Coord, Coord),
    r: i64,
    w: i64,
) -> bool {
    exists|m1: OsmLayer, m2: OsmLayer|
        #[trigger] node_added(&before, &m1, far_a.0, far_a.1, r) && #[trigger] node_added(&m1, &m2, far_b.0, far_b.1, (r - 1) as i64)
            && building_way_added(m2, after, seq![node_a, node_b, (r - 1) as i64, r, node_a], w)
}

/// Commits an Extrude drag on layer `layer_id`: the edge from `node_a` to
/// `node_b` (both present) becomes one side of a closed `building=yes` way
/// whose far corners `far_a`, `far_b` the view computed. Returns the way's
/// id and the undo record; `None` and no change when the layer or either
/// node is missing.
pub fn commit_extrude(
    layers: &mut LayerManager<OsmLayer>,
    layer_id: LayerId,
    node_a: i64,
    node_b: i64,
    far_a: (Coord, Coord),
    far_b: (Coord, Coord),
) -> (r: Option<(i64, UndoableAction)>)
    requires
        all_wf(old(layers).entries()),
        first_index(old(layers).entries(), layer_id) matches Some(i) ==> old(layers).entries()[i].layer.next_node_id()
            >= i64::MIN + 2 && old(layers).entries()[i].layer.next_way_id() > i64::MIN,
    ensures
        all_wf(final(layers).entries()),
        final(layers).next_id() == old(layers).next_id(),
        r is Some <==> (first_index(old(layers).entries(), layer_id) matches Some(i) && old(layers).entries()[i].layer.node_views().contains_key(node_a)
            && old(layers).entries()[i].layer.node_views().contains_key(node_b)),
        r matches Some(res) ==> {
            let i = first_index(old(layers).entries(), layer_id)->0;
            let n = old(layers).entries()[i].layer.next_node_id();
            &&& on_layer(
                old(layers).entries(),
                final(layers).entries(),
                layer_id,
                |a: OsmLayer, b: OsmLayer| extruded(a, b, node_a, node_b, far_a, far_b, n, res.0),
            )
            &&& res.1 matches UndoableAction::ExtrudeWay { layer, way_id, new_node_ids } && layer == layer_id && way_id == res.0
                && new_node_ids@ == seq![n, (n - 1) as i64]
        },
        r is None ==> final(layers).entries() == old(layers).entries(),
{
    let ghost before = layers.entries();
    let present = match layers.find_layer(layer_id) {
        Some(e) => e.layer.node_lat_lon(node_a).is_some() && e.layer.node_lat_lon(node_b).is_some(),
        None => false,
    };
    proof {
        lemma_first_index_found(before, layer_id);
    }
    if !present {
        return None;
    }
    let res = match layers.find_layer_mut(layer_id) {
        Some(l) => {
            let ghost k = choose|k: int| 0 <= k < before.len() && before[k].id == layer_id && *l == before[k].layer && (forall|j: int| 0 <= j < k ==> (#[trigger] before[j]).id != layer_id);
            proof {
                lemma_first_index(before, layer_id, k);
                assert(before[k].layer.wf());
            }
            let a = l.add_node(far_a.0, far_a.1);
            let ghost m1 = *l;
            let b = l.add_node(far_b.0, far_b.1);
            let ghost m2 = *l;
            let w = add_building_way(l, vec![node_a, node_b, b, a, node_a]);
            proof {
                let n = before[k].layer.next_node_id();
                assert(b == (n - 1) as i64);
                assert(seq![node_a, node_b, b, a, node_a] =~= seq![node_a, node_b, (n - 1) as i64, n, node_a]);
                assert(node_added(&before[k].layer, &m1, far_a.0, far_a.1, n));
                assert(node_added(&m1, &m2, far_b.0, far_b.1, (n - 1) as i64));
            }
            Some((w, a, b))
        },
        None => {
            proof {
                lemma_first_index(before, layer_id, -1);
            }
            None
        },
    };
    match res {
        Some((w, a, b)) => {
            proof {
                let after = layers.entries();
                let i = first_index(before, layer_id)->0;
                let n = before[i].layer.next_node_id();
                let rel = |x: OsmLayer, y: OsmLayer| extruded(x, y, node_a, node_b, far_a, far_b, n, w);
                if exists|k: int|
                    0 <= k < before.len() && before[k].id == layer_id && after == before.update(k, LayerEntry { layer: after[k].layer, ..before[k] })
                        && (forall|j: int| 0 <= j < k ==> (#[trigger] before[j]).id != layer_id) && rel(before[k].layer, after[k].layer)
                        && after[k].layer.wf() {
                    lemma_layer_step(before, after, layer_id, rel);
                } else {
                    lemma_layer_step(before, after, layer_id, rel);
                }
            }
            Some((w, UndoableAction::ExtrudeWay { layer: layer_id, way_id: w, new_node_ids: vec![a, b] }))
        },
        None => None,
    }
}

/// The first position of `x` in `s`, if any.
pub open spec fn first_position(s: Seq<i64>, x: i64) -> Option<int> {
    if exists|i: int| 0 <= i < s.len() && s[i] == x {
        Some(choose|i: int| 0 <= i < s.len() && s[i] == x && forall|j: int| 0 <= j < i ==> s[j] != x)
    } else {
        None
    }
}

/// The first position of `x` in `v` (`position`).
fn first_position_of(v: &Vec<i64>, x: i64) -> (r: Option<usize>)
    ensures
        match r {
            Some(i) => i < v@.len() && v@[i as int] == x && forall|j: int| 0 <= j < i ==> v@[j] != x,
            None => forall|j: int| 0 <= j < v@.len() ==> v@[j] != x,
        },
        r matches Some(i) ==> first_position(v@, x) == Some(i as int) && i < usize::MAX,
        r is None ==> first_position(v@, x) is None,
{
    assert(v@.len() == v.len());
    let mut i: usize = 0;
    while i < v.len()
        invariant
            i <= v@.len(),
            forall|j: int| 0 <= j < i ==> v@[j] != x,
        decreases v.len() - i,
    {
        if v[i] == x {
            proof {
                let c = choose|c: int| 0 <= c < v@.len() && v@[c] == x && forall|j: int| 0 <= j < c ==> v@[j] != x;
                if c < i {
                } else if c > i {
                    assert(v@[i as int] == x);
                }
            }
            return Some(i);
        }
        i = i + 1;
    }
    None
}


/// Whether a double-click on the segment of way `way_id` starting at node
/// `node_a` can insert a node in layer `l`: the way is present and lists
/// the node.
pub open spec fn segment_found(l: OsmLayer, way_id: i64, node_a: i64) -> bool {
    l.way_views().contains_key(way_id) && first_position(l.way_views()[way_id].nodes, node_a) is Some
}

/// Inserts a node at `(lat, lon)` into way `way_id` of layer `layer_id`
/// just after the first occurrence of `node_a` (the segment double-clicked
/// starts there), returning the undo record; `None` and no change when the
/// layer, the way or the node in it is missing.
pub fn insert_node_on_segment(
    layers: &mut LayerManager<OsmLayer>,
    layer_id: LayerId,
    way_id: i64,
    node_a: i64,
    lat: Coord,
    lon: Coord,
) -> (r: Option<UndoableAction>)
    requires
        all_wf(old(layers).entries()),
        first_index(old(layers).entries(), layer_id) matches Some(i) ==> old(layers).entries()[i].layer.next_node_id() > i64::MIN,
    ensures
        all_wf(final(layers).entries()),
        final(layers).next_id() == old(layers).next_id(),
        r is Some <==> (first_index(old(layers).entries(), layer_id) matches Some(i) && segment_found(
            old(layers).entries()[i].layer,
            way_id,
            node_a,
        )),
        r matches Some(action) ==> {
            let l = old(layers).entries()[first_index(old(layers).entries(), layer_id)->0].layer;
            let index = (first_position(l.way_views()[way_id].nodes, node_a)->0 + 1) as usize;
            &&& on_layer(
                old(layers).entries(),
                final(layers).entries(),
                layer_id,
                |a: OsmLayer, b: OsmLayer| node_spliced(&a, &b, way_id, index, lat, lon, l.next_node_id()),
            )
            &&& action == UndoableAction::InsertNodeIntoWay { layer: layer_id, way_id, index, node_id: l.next_node_id() }
        },
        r is None ==> final(layers).entries() == old(layers).entries(),
{
    let ghost before = layers.entries();
    proof {
        lemma_first_index_found(before, layer_id);
    }
    let position = match layers.find_layer(layer_id) {
        Some(e) => match e.layer.way_node_ids(way_id) {
            Some(ids) => first_position_of(&ids, node_a),
            None => None,
        },
        None => None,
    };
    let p = match position {
        Some(p) => p,
        None => return None,
    };
    let res = match layers.find_layer_mut(layer_id) {
        Some(l) => {
            let ghost k = choose|k: int| 0 <= k < before.len() && before[k].id == layer_id && *l == before[k].layer && (forall|j: int| 0 <= j < k ==> (#[trigger] before[j]).id != layer_id);
            proof {
                lemma_first_index(before, layer_id, k);
                assert(before[k].layer.wf());
            }
            Some(l.insert_node_into_way(way_id, p + 1, lat, lon))
        },
        None => None,
    };
    match res {
        Some(n) => {
            proof {
                let after = layers.entries();
                let rel = |a: OsmLayer, b: OsmLayer| node_spliced(&a, &b, way_id, (p + 1) as usize, lat, lon, n);
                if exists|k: int|
                    0 <= k < before.len() && before[k].id == layer_id && after == before.update(k, LayerEntry { layer: after[k].layer, ..before[k] })
                        && (forall|j: int| 0 <= j < k ==> (#[trigger] before[j]).id != layer_id) && rel(before[k].layer, after[k].layer)
                        && after[k].layer.wf() {
                    lemma_layer_step(before, after, layer_id, rel);
                } else {
                    lemma_layer_step(before, after, layer_id, rel);
                }
            }
            Some(UndoableAction::InsertNodeIntoWay { layer: layer_id, way_id, index: p + 1, node_id: n })
        },
        None => None,
    }
}


/// Undoing a committed building removes its way and its four nodes: the
/// nodes, the ways and the way order are as before (provided no way had
/// the new way's id yet).
pub proof fn law_undo_of_building(
    l0: OsmLayer,
    l1: OsmLayer,
    l2: OsmLayer,
    c: Seq<(Coord, Coord)>,
    w: i64,
    layer_id: LayerId,
    node_ids: Vec<i64>,
)
    requires
        l0.wf(),
        !l0.way_views().contains_key(l0.next_way_id()),
        !l0.slots().contains_key(l0.next_way_id()),
        building_made(l0, l1, c, l0.next_node_id(), w),
        node_ids@ == seq![l0.next_node_id(), (l0.next_node_id() - 1) as i64, (l0.next_node_id() - 2) as i64, (l0.next_node_id() - 3) as i64],
        undo_step(l1, l2, UndoableAction::CreateBuilding { layer: layer_id, way_id: w, node_ids }, false),
    ensures
        l2.node_views() == l0.node_views(),
        l2.way_views() == l0.way_views(),
        l2.slot_ids() == l0.slot_ids(),
{
    let r = l0.next_node_id();
    let (m1, m2, m3, m4) = choose|m1: OsmLayer, m2: OsmLayer, m3: OsmLayer, m4: OsmLayer|
        #[trigger] node_added(&l0, &m1, c[0].0, c[0].1, r) && #[trigger] node_added(&m1, &m2, c[1].0, c[1].1, (r - 1) as i64)
            && #[trigger] node_added(&m2, &m3, c[2].0, c[2].1, (r - 2) as i64) && #[trigger] node_added(&m3, &m4, c[3].0, c[3].1, (r - 3) as i64)
            && building_way_added(m4, l1, seq![r, (r - 1) as i64, (r - 2) as i64, (r - 3) as i64, r], w);
    let mid = choose|mid: OsmLayer| #[trigger] way_removal(&l1, &mid, w) && nodes_removed_in_turn(mid, l2, node_ids@);
    let states = choose|states: Seq<OsmLayer>| #[trigger] removal_chain(states, node_ids@) && states[0] == mid && states.last() == l2;
    l0.lemma_slot_count();
    assert(w == l0.next_way_id());
    assert(l1.slots().contains_key(w) && l1.way_views().contains_key(w));
    assert(mid.way_views() =~= l0.way_views());
    assert(mid.slot_ids() =~= l0.slot_ids());
    let ids = node_ids@;
    assert(states.len() == 5);
    assert(node_removal(&states[0], &states[1], ids[0]));
    assert(node_removal(&states[1], &states[2], ids[1]));
    assert(node_removal(&states[2], &states[3], ids[2]));
    assert(node_removal(&states[3], &states[4], ids[3]));
    assert(states[0].node_views().contains_key(r));
    assert(states[1].node_views() =~= states[0].node_views().remove(r));
    assert(states[1].node_views().contains_key((r - 1) as i64));
    assert(states[2].node_views() =~= states[1].node_views().remove((r - 1) as i64));
    assert(states[2].node_views().contains_key((r - 2) as i64));
    assert(states[3].node_views() =~= states[2].node_views().remove((r - 2) as i64));
    assert(states[3].node_views().contains_key((r - 3) as i64));
    assert(states[4].node_views() =~= states[3].node_views().remove((r - 3) as i64));
    assert(l2.node_views() =~= l0.node_views());
}


/// Undoing a committed extrusion removes its way and its two new nodes:
/// the nodes, the ways and the way order are as before (provided no way
/// had the new way's id yet).
pub proof fn law_undo_of_extrude(
    l0: OsmLayer,
    l1: OsmLayer,
    l2: OsmLayer,
    node_a: i64,
    node_b: i64,
    far_a: (Coord, Coord),
    far_b: (Coord, Coord),
    w: i64,
    layer_id: LayerId,
    new_node_ids: Vec<i64>,
)
    requires
        l0.wf(),
        !l0.way_views().contains_key(l0.next_way_id()),
        !l0.slots().contains_key(l0.next_way_id()),
        extruded(l0, l1, node_a, node_b, far_a, far_b, l0.next_node_id(), w),
        new_node_ids@ == seq![l0.next_node_id(), (l0.next_node_id() - 1) as i64],
        undo_step(l1, l2, UndoableAction::ExtrudeWay { layer: layer_id, way_id: w, new_node_ids }, false),
    ensures
        l2.node_views() == l0.node_views(),
        l2.way_views() == l0.way_views(),
        l2.slot_ids() == l0.slot_ids(),
{
    let r = l0.next_node_id();
    let (m1, m2) = choose|m1: OsmLayer, m2: OsmLayer|
        #[trigger] node_added(&l0, &m1, far_a.0, far_a.1, r) && #[trigger] node_added(&m1, &m2, far_b.0, far_b.1, (r - 1) as i64)
            && building_way_added(m2, l1, seq![node_a, node_b, (r - 1) as i64, r, node_a], w);
    let mid = choose|mid: OsmLayer| #[trigger] way_removal(&l1, &mid, w) && nodes_removed_in_turn(mid, l2, new_node_ids@);
    let states = choose|states: Seq<OsmLayer>| #[trigger] removal_chain(states, new_node_ids@) && states[0] == mid && states.last() == l2;
    l0.lemma_slot_count();
    assert(w == l0.next_way_id());
    assert(l1.slots().contains_key(w) && l1.way_views().contains_key(w));
    assert(mid.way_views() =~= l0.way_views());
    assert(mid.slot_ids() =~= l0.slot_ids());
    let ids = new_node_ids@;
    assert(states.len() == 3);
    assert(node_removal(&states[0], &states[1], ids[0]));
    assert(node_removal(&states[1], &states[2], ids[1]));
    assert(states[0].node_views().contains_key(r));
    assert(states[1].node_views() =~= states[0].node_views().remove(r));
    assert(states[1].node_views().contains_key((r - 1) as i64));
    assert(states[2].node_views() =~= states[1].node_views().remove((r - 1) as i64));
    assert(l2.node_views() =~= l0.node_views());
}

/// The undo records of the deletions that happened (`snaps[i]` is the
/// record of feature `features[i]`, if it was deleted), in order.
pub open spec fn deletion_records(features: Seq<FeatureRef>, snaps: Seq<Option<DeletedFeatureSnapshot>>) -> Seq<UndoableAction>
    decreases snaps.len(),
{
    if snaps.len() == 0 || features.len() == 0 {
        Seq::empty()
    } else {
        let rest = deletion_records(features.drop_last(), snaps.drop_last());
        match snaps.last() {
            Some(snap) => rest.push(UndoableAction::DeleteFeature { layer: features.last().layer_id, snapshot: snap }),
            None => rest,
        }
    }
}

/// Each manager state of `states` is the one before it after
/// `delete_feature` of the feature at that position on its layer, which
/// returned the snapshot at that position (none when the layer is gone).
pub open spec fn deletion_chain(
    states: Seq<Seq<LayerEntry<OsmLayer>>>,
    features: Seq<FeatureRef>,
    snaps: Seq<Option<DeletedFeatureSnapshot>>,
) -> bool {
    &&& states.len() == features.len() + 1
    &&& snaps.len() == features.len()
    &&& forall|i: int|
        0 <= i < features.len() ==> on_layer(
            states[i],
            #[trigger] states[i + 1],
            features[i].layer_id,
            |a: OsmLayer, b: OsmLayer| feature_deleted_as(&a, &b, features[i].kind, features[i].id, snaps[i]),
        )
    &&& forall|i: int| 0 <= i < features.len() && first_index(states[i], features[i].layer_id) is None ==> #[trigger] snaps[i] is None
}

/// The status line after deleting `n` features.
pub open spec fn deletion_status(n: nat) -> Seq<char> {
    if n == 0 {
        "Nothing to delete"@
    } else if n == 1 {
        "Deleted 1 feature"@
    } else {
        "Deleted "@ + decimal(n) + " features"@
    }
}

/// The status line after deleting `n` features.
fn deletion_message(n: usize) -> (r: String)
    ensures
        r@ == deletion_status(n as nat),
{
    let mut out = String::new();
    if n == 0 {
        append_str(&mut out, "Nothing to delete");
    } else if n == 1 {
        append_str(&mut out, "Deleted 1 feature");
    } else {
        append_str(&mut out, "Deleted ");
        push_decimal(&mut out, n as u64);
        append_str(&mut out, " features");
    }
    out
}

/// Deletes the selected features (the Delete key), each on its layer:
/// nodes a way is listed as using, and features that are gone, are
/// skipped. Returns one undo record per feature deleted, in order, and the
/// status line; with nothing selected nothing happens and there is no
/// status line.
pub fn delete_selected_features(layers: &mut LayerManager<OsmLayer>, features: &Vec<FeatureRef>) -> (r: (
    Vec<UndoableAction>,
    Option<String>,
))
    requires
        all_wf(old(layers).entries()),
    ensures
        all_wf(final(layers).entries()),
        final(layers).next_id() == old(layers).next_id(),
        features@.len() == 0 ==> final(layers).entries() == old(layers).entries() && r.0@.len() == 0 && r.1 is None,
        features@.len() > 0 ==> exists|states: Seq<Seq<LayerEntry<OsmLayer>>>, snaps: Seq<Option<DeletedFeatureSnapshot>>|
            #[trigger] deletion_chain(states, features@, snaps) && states[0] == old(layers).entries() && states.last()
                == final(layers).entries() && r.0@ == deletion_records(features@, snaps),
        features@.len() > 0 ==> r.1 is Some && r.1->0@ == deletion_status(r.0@.len()),
{
    if features.len() == 0 {
        return (Vec::new(), None);
    }
    let ghost mut states: Seq<Seq<LayerEntry<OsmLayer>>> = seq![layers.entries()];
    let ghost mut snaps: Seq<Option<DeletedFeatureSnapshot>> = Seq::empty();
    let mut actions: Vec<UndoableAction> = Vec::new();
    let mut i: usize = 0;
    while i < features.len()
        invariant
            i <= features@.len(),
            all_wf(layers.entries()),
            layers.next_id() == old(layers).next_id(),
            deletion_chain(states, features@.take(i as int), snaps),
            states[0] == old(layers).entries(),
            states.last() == layers.entries(),
            actions@ == deletion_records(features@.take(i as int), snaps),
            actions@.len() <= i,
        decreases features.len() - i,
    {
        let ghost before = layers.entries();
        let ghost prev_states = states;
        let ghost prev_snaps = snaps;
        let f = features[i];
        let ghost mut got: Option<DeletedFeatureSnapshot> = None;
        match layers.find_layer_mut(f.layer_id) {
            Some(l) => {
                proof {
                    let k = choose|k: int| 0 <= k < before.len() && before[k].id == f.layer_id && *l == before[k].layer;
                    assert(before[k].layer.wf());
                }
                let res = l.delete_feature(f.kind, f.id);
                proof {
                    got = res;
                }
                match res {
                    Some(snapshot) => {
                        actions.push(UndoableAction::DeleteFeature { layer: f.layer_id, snapshot });
                    },
                    None => {},
                }
            },
            None => {},
        }
        proof {
            lemma_first_index_found(before, f.layer_id);
            let after = layers.entries();
            let rel = |a: OsmLayer, b: OsmLayer| feature_deleted_as(&a, &b, f.kind, f.id, got);
            if exists|k: int|
                0 <= k < before.len() && before[k].id == f.layer_id && after == before.update(k, LayerEntry { layer: after[k].layer, ..before[k] })
                    && (forall|j: int| 0 <= j < k ==> (#[trigger] before[j]).id != f.layer_id) && rel(before[k].layer, after[k].layer)
                    && after[k].layer.wf() {
                lemma_layer_step(before, after, f.layer_id, rel);
            } else {
                lemma_layer_step(before, after, f.layer_id, rel);
            }
            states = prev_states.push(after);
            snaps = prev_snaps.push(got);
            let t = features@.take(i + 1);
            assert(t.drop_last() =~= features@.take(i as int));
            assert(t.last() == f);
            assert(snaps.drop_last() =~= prev_snaps);
            assert forall|j: int| 0 <= j < t.len() implies on_layer(
                states[j],
                #[trigger] states[j + 1],
                t[j].layer_id,
                |a: OsmLayer, b: OsmLayer| feature_deleted_as(&a, &b, t[j].kind, t[j].id, snaps[j]),
            ) by {
                if j < i {
                    assert(states[j] == prev_states[j] && states[j + 1] == prev_states[j + 1]);
                    assert(t[j] == features@.take(i as int)[j]);
                    assert(snaps[j] == prev_snaps[j]);
                }
            }
            assert forall|j: int| 0 <= j < t.len() && first_index(states[j], t[j].layer_id) is None implies #[trigger] snaps[j] is None by {
                if j < i {
                    assert(states[j] == prev_states[j]);
                    assert(t[j] == features@.take(i as int)[j]);
                    assert(snaps[j] == prev_snaps[j]);
                }
            }
        }
        i = i + 1;
    }
    proof {
        assert(features@.take(features@.len() as int) =~= features@);
    }
    let msg = deletion_message(actions.len());
    (actions, Some(msg))
}

} // verus!
