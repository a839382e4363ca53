//! Undoing and redoing recorded edits of OSM layers.

use vstd::prelude::*;

use crate::layers::osm_layer::{
    last_position, last_position_of, new_node, node_deleted, node_removal,
    node_restored, nodes_committed, restored_way, tag_removed_rel, tag_set_rel, unsplice, way_removal, way_restored,
    deletable, feature_deleted_as, DeletedFeatureSnapshot, FeatureKind, FeatureRef, OsmLayer,
};
use crate::layers::{LayerEntry, LayerId, LayerManager};
use crate::osm::Coord;
use crate::layers::osm_layer::nodes_view;

verus! {

/// One undoable edit, with what undoing (and, where supported, redoing)
/// it needs.
#[derive(Debug, Clone)]
pub enum UndoableAction {
    /// Nodes moved: per layer, each node's id with its position before and
    /// after the move.
    MoveNodes { per_layer: Vec<(LayerId, Vec<(i64, (Coord, Coord), (Coord, Coord))>)> },
    /// Tags edited: per feature, the key with its value before and after
    /// (`None`: the key was absent).
    SetTags { entries: Vec<(FeatureRef, String, Option<String>, Option<String>)> },
    /// A node created under `id`.
    CreateNode { layer: LayerId, id: i64, lat: Coord, lon: Coord },
    /// A feature deleted, with what restoring it needs.
    DeleteFeature { layer: LayerId, snapshot: DeletedFeatureSnapshot },
    /// A node appended to a way; either may have been created by the edit.
    ExtendWay { layer: LayerId, way_id: i64, node_id: i64, way_created: bool, node_created: bool },
    /// A closed way created together with its nodes.
    CreateBuilding { layer: LayerId, way_id: i64, node_ids: Vec<i64> },
    /// A way created from new nodes off an existing one.
    ExtrudeWay { layer: LayerId, way_id: i64, new_node_ids: Vec<i64> },
    /// A new node spliced into a way at `index`.
    InsertNodeIntoWay { layer: LayerId, way_id: i64, index: usize, node_id: i64 },
    /// A new node spliced into way `snap_way_id` at `snap_index` and
    /// appended to way `way_id` (which the edit may have created).
    SnapExtendWay { layer: LayerId, way_id: i64, way_created: bool, snap_way_id: i64, snap_index: usize, node_id: i64 },
}

/// The position of the first layer with id `id`, if any.
pub open spec fn first_index(s: Seq<LayerEntry<OsmLayer>>, id: LayerId) -> Option<int>
    decreases s.len(),
{
    if s.len() == 0 {
        None
    } else {
        match first_index(s.drop_last(), id) {
            Some(i) => Some(i),
            None => if s.last().id == id {
                Some(s.len() - 1)
            } else {
                None
            },
        }
    }
}

/// `first_index` finds the first layer with the id, or says there is none.
pub(crate) proof fn lemma_first_index(s: Seq<LayerEntry<OsmLayer>>, id: LayerId, i: int)
    requires
        -1 <= i < s.len(),
        i >= 0 ==> s[i].id == id,
        forall|j: int| 0 <= j < s.len() && (i < 0 || j < i) ==> (#[trigger] s[j]).id != id,
    ensures
        first_index(s, id) == if i >= 0 {
            Some(i)
        } else {
            None::<int>
        },
    decreases s.len(),
{
    if s.len() > 0 {
        if i == s.len() - 1 {
            lemma_first_index(s.drop_last(), id, -1);
        } else {
            lemma_first_index(s.drop_last(), id, i);
        }
    }
}

/// What `first_index` finds is the first layer with the id; when it finds
/// none, no layer has it.
pub(crate) proof fn lemma_first_index_found(s: Seq<LayerEntry<OsmLayer>>, id: LayerId)
    ensures
        first_index(s, id) matches Some(i) ==> 0 <= i < s.len() && s[i].id == id && forall|j: int| 0 <= j < i ==> (#[trigger] s[j]).id != id,
        first_index(s, id) is None ==> forall|j: int| 0 <= j < s.len() ==> (#[trigger] s[j]).id != id,
    decreases s.len(),
{
    if s.len() > 0 {
        lemma_first_index_found(s.drop_last(), id);
        assert forall|j: int| 0 <= j < s.len() - 1 implies s[j] == s.drop_last()[j] by {}
    }
}

/// `after` is `before` with the first layer with id `id` replaced by one
/// that `rel` relates to it (the rest unchanged), or `before` itself when
/// there is no such layer.
pub open spec fn on_layer(
    before: Seq<LayerEntry<OsmLayer>>,
    after: Seq<LayerEntry<OsmLayer>>,
    id: LayerId,
    rel: spec_fn(OsmLayer, OsmLayer) -> bool,
) -> bool {
    match first_index(before, id) {
        Some(i) => after == before.update(i, LayerEntry { layer: after[i].layer, ..before[i] }) && rel(before[i].layer, after[i].layer),
        None => after == before,
    }
}

/// The moves that undo (`forward` false) or redo a recorded move list.
pub open spec fn move_list(entries: Seq<(i64, (Coord, Coord), (Coord, Coord))>, forward: bool) -> Seq<(i64, Coord, Coord)> {
    entries.map_values(
        |e: (i64, (Coord, Coord), (Coord, Coord))|
            if forward {
                (e.0, (e.2).0, (e.2).1)
            } else {
                (e.0, (e.1).0, (e.1).1)
            },
    )
}

/// Each manager state of `states` is the one before it with the moves of
/// the entry of `per_layer` at that position undone (or redone).
pub open spec fn move_chain(
    states: Seq<Seq<LayerEntry<OsmLayer>>>,
    per_layer: Seq<(LayerId, Vec<(i64, (Coord, Coord), (Coord, Coord))>)>,
    forward: bool,
) -> bool {
    &&& states.len() == per_layer.len() + 1
    &&& forall|i: int|
        0 <= i < per_layer.len() ==> on_layer(
            states[i],
            #[trigger] states[i + 1],
            per_layer[i].0,
            |a: OsmLayer, b: OsmLayer| nodes_committed(&a, &b, move_list(per_layer[i].1@, forward)),
        )
}

/// `after` is `before` with the recorded moves undone (or redone) layer by
/// layer, in order.
pub open spec fn moves_replayed(
    before: Seq<LayerEntry<OsmLayer>>,
    after: Seq<LayerEntry<OsmLayer>>,
    per_layer: Seq<(LayerId, Vec<(i64, (Coord, Coord), (Coord, Coord))>)>,
    forward: bool,
) -> bool {
    exists|states: Seq<Seq<LayerEntry<OsmLayer>>>|
        #[trigger] move_chain(states, per_layer, forward) && states[0] == before && states.last() == after
}

/// `after` is `before` with the tag of one feature set to (or, for `None`,
/// removed from) `value`.
pub open spec fn tag_rel(before: OsmLayer, after: OsmLayer, f: FeatureRef, key: Seq<char>, value: Option<String>) -> bool {
    match value {
        Some(v) => tag_set_rel(&before, &after, f.kind, f.id, key, v@),
        None => tag_removed_rel(&before, &after, f.kind, f.id, key),
    }
}

/// Each manager state of `states` is the one before it with the tag entry
/// of `entries` at that position undone (or redone).
pub open spec fn tag_chain(
    states: Seq<Seq<LayerEntry<OsmLayer>>>,
    entries: Seq<(FeatureRef, String, Option<String>, Option<String>)>,
    forward: bool,
) -> bool {
    &&& states.len() == entries.len() + 1
    &&& forall|i: int|
        0 <= i < entries.len() ==> on_layer(
            states[i],
            #[trigger] states[i + 1],
            entries[i].0.layer_id,
            |a: OsmLayer, b: OsmLayer| tag_rel(a, b, entries[i].0, entries[i].1@, if forward { entries[i].3 } else { entries[i].2 }),
        )
}

/// `after` is `before` with the recorded tag values of the entries put
/// back (or, redoing, put again), in order.
pub open spec fn tags_replayed(
    before: Seq<LayerEntry<OsmLayer>>,
    after: Seq<LayerEntry<OsmLayer>>,
    entries: Seq<(FeatureRef, String, Option<String>, Option<String>)>,
    forward: bool,
) -> bool {
    exists|states: Seq<Seq<LayerEntry<OsmLayer>>>|
        #[trigger] tag_chain(states, entries, forward) && states[0] == before && states.last() == after
}

/// `after` is `before` after `create_node(lat, lon, Some(id))`.
pub open spec fn node_created_as(before: OsmLayer, after: OsmLayer, lat: Coord, lon: Coord, id: i64) -> bool {
    match before.data() {
        None => after == before,
        Some(d) => if d.nodes@.contains_key(id) {
            after == before
        } else {
            &&& after.node_put(&before, d, new_node(id, lat, lon, Seq::empty()))
            &&& after.next_node_id() == if id <= before.next_node_id() {
                id - 1
            } else {
                before.next_node_id() as int
            }
        },
    }
}

/// `after` is `before` after `delete_feature(kind, id)`.
pub open spec fn feature_deletion(before: OsmLayer, after: OsmLayer, kind: FeatureKind, id: i64) -> bool {
    exists|r: Option<DeletedFeatureSnapshot>| #[trigger] feature_deleted_as(&before, &after, kind, id, r)
}

/// `after` is `before` after `restore_feature(snap)`.
pub open spec fn feature_restoration(before: OsmLayer, after: OsmLayer, snap: DeletedFeatureSnapshot) -> bool {
    match snap.kind {
        FeatureKind::Node => if snap.node_lat_lon is Some && before.data() is Some && !before.node_views().contains_key(
            snap.id,
        ) {
            node_restored(&before, &after, snap)
        } else {
            after == before
        },
        FeatureKind::Way => if !before.slots().contains_key(snap.id) && before.data() is Some {
            way_restored(&before, &after, snap)
        } else {
            after == before
        },
    }
}

/// `after` is `before` with node `node_id` detached from way `way_id`:
/// the way removed when the edit created it, else the node's last
/// position in the way spliced out (nothing when it is not there).
pub open spec fn detached(before: OsmLayer, after: OsmLayer, way_id: i64, node_id: i64, way_created: bool) -> bool {
    if way_created {
        way_removal(&before, &after, way_id)
    } else {
        let nodes = if before.way_views().contains_key(way_id) {
            before.way_views()[way_id].nodes
        } else {
            Seq::empty()
        };
        match last_position(nodes, node_id) {
            Some(i) => unsplice(&before, &after, way_id, i as usize),
            None => after == before,
        }
    }
}

/// Each state of `states` is the one before it with the node of `ids` at
/// that position removed.
pub open spec fn removal_chain(states: Seq<OsmLayer>, ids: Seq<i64>) -> bool {
    &&& states.len() == ids.len() + 1
    &&& forall|i: int| 0 <= i < ids.len() ==> node_removal(&states[i], &#[trigger] states[i + 1], ids[i])
}

/// `after` is `before` with the nodes `ids` removed in turn.
pub open spec fn nodes_removed_in_turn(before: OsmLayer, after: OsmLayer, ids: Seq<i64>) -> bool {
    exists|states: Seq<OsmLayer>| #[trigger] removal_chain(states, ids) && states[0] == before && states.last() == after
}

/// `after` is `before` with a single-layer edit undone (`forward` false)
/// or redone. Redoing is supported for created nodes and deleted
/// features; for the drawing edits it does nothing (their ids could not be
/// handed out again).
pub open spec fn undo_step(before: OsmLayer, after: OsmLayer, action: UndoableAction, forward: bool) -> bool {
    match action {
        UndoableAction::CreateNode { id, lat, lon, .. } => if forward {
            node_created_as(before, after, lat, lon, id)
        } else {
            feature_deletion(before, after, FeatureKind::Node, id)
        },
        UndoableAction::DeleteFeature { snapshot, .. } => if forward {
            feature_deletion(before, after, snapshot.kind, snapshot.id)
        } else {
            feature_restoration(before, after, snapshot)
        },
        UndoableAction::ExtendWay { way_id, node_id, way_created, node_created, .. } => if forward {
            after == before
        } else {
            exists|mid: OsmLayer|
                #[trigger] detached(before, mid, way_id, node_id, way_created) && if node_created {
                    node_removal(&mid, &after, node_id)
                } else {
                    after == mid
                }
        },
        UndoableAction::CreateBuilding { way_id, node_ids, .. } => if forward {
            after == before
        } else {
            exists|mid: OsmLayer| #[trigger] way_removal(&before, &mid, way_id) && nodes_removed_in_turn(mid, after, node_ids@)
        },
        UndoableAction::ExtrudeWay { way_id, new_node_ids, .. } => if forward {
            after == before
        } else {
            exists|mid: OsmLayer| #[trigger] way_removal(&before, &mid, way_id) && nodes_removed_in_turn(mid, after, new_node_ids@)
        },
        UndoableAction::InsertNodeIntoWay { way_id, index, node_id, .. } => if forward {
            after == before
        } else {
            exists|mid: OsmLayer| #[trigger] unsplice(&before, &mid, way_id, index) && node_removal(&mid, &after, node_id)
        },
        UndoableAction::SnapExtendWay { way_id, way_created, snap_way_id, snap_index, node_id, .. } => if forward {
            after == before
        } else {
            exists|m1: OsmLayer, m2: OsmLayer|
                #[trigger] detached(before, m1, way_id, node_id, way_created) && #[trigger] unsplice(&m1, &m2, snap_way_id, snap_index)
                    && node_removal(&m2, &after, node_id)
        },
        _ => after == before,
    }
}

/// The layer a single-layer edit was made on.
pub open spec fn action_layer(action: UndoableAction) -> Option<LayerId> {
    match action {
        UndoableAction::CreateNode { layer, .. } => Some(layer),
        UndoableAction::DeleteFeature { layer, .. } => Some(layer),
        UndoableAction::ExtendWay { layer, .. } => Some(layer),
        UndoableAction::CreateBuilding { layer, .. } => Some(layer),
        UndoableAction::ExtrudeWay { layer, .. } => Some(layer),
        UndoableAction::InsertNodeIntoWay { layer, .. } => Some(layer),
        UndoableAction::SnapExtendWay { layer, .. } => Some(layer),
        _ => None,
    }
}

/// What `apply_undo_action` needs of a recorded edit: no node id is the
/// lowest `i64` where undoing or redoing it would re-create that node.
pub open spec fn replayable(action: UndoableAction, forward: bool) -> bool {
    match action {
        UndoableAction::CreateNode { id, .. } => forward ==> id != i64::MIN,
        UndoableAction::DeleteFeature { snapshot, .. } => !forward && snapshot.kind == FeatureKind::Node
            && snapshot.node_lat_lon is Some ==> snapshot.id != i64::MIN,
        _ => true,
    }
}

/// Every layer satisfies its invariant.
pub open spec fn all_wf(s: Seq<LayerEntry<OsmLayer>>) -> bool {
    forall|i: int| 0 <= i < s.len() ==> (#[trigger] s[i]).layer.wf()
}


/// The moves that undo (or redo) a recorded move list.
fn replay_moves(entries: &Vec<(i64, (Coord, Coord), (Coord, Coord))>, forward: bool) -> (r: Vec<(i64, Coord, Coord)>)
    ensures
        r@ == move_list(entries@, forward),
{
    let mut out: Vec<(i64, Coord, Coord)> = Vec::new();
    let mut i: usize = 0;
    while i < entries.len()
        invariant
            i <= entries@.len(),
            out@ == move_list(entries@.take(i as int), forward),
        decreases entries.len() - i,
    {
        let (id, before, after) = entries[i];
        let (lat, lon) = if forward { after } else { before };
        out.push((id, lat, lon));
        assert(out@ =~= move_list(entries@.take(i + 1), forward));
        i = i + 1;
    }
    assert(entries@.take(entries@.len() as int) =~= entries@);
    out
}

/// Detaches node `node_id` from way `way_id` (see `detached`).
fn detach(layer: &mut OsmLayer, way_id: i64, node_id: i64, way_created: bool)
    requires
        old(layer).wf(),
    ensures
        final(layer).wf(),
        detached(*old(layer), *final(layer), way_id, node_id, way_created),
{
    if way_created {
        layer.remove_way(way_id);
    } else {
        let node_ids = match layer.way_node_ids(way_id) {
            Some(ids) => ids,
            None => Vec::new(),
        };
        let ghost nodes = if old(layer).way_views().contains_key(way_id) {
            old(layer).way_views()[way_id].nodes
        } else {
            Seq::empty()
        };
        proof {
            if old(layer).way_views().contains_key(way_id) {
                assert(old(layer).data() is Some);
            }
            assert(node_ids@ == nodes);
        }
        match last_position_of(&node_ids, node_id) {
            Some(i) => layer.remove_node_from_way(way_id, i),
            None => {},
        }
    }
}

/// Removes the nodes `ids` in turn.
fn remove_nodes(layer: &mut OsmLayer, ids: &Vec<i64>)
    requires
        old(layer).wf(),
    ensures
        final(layer).wf(),
        nodes_removed_in_turn(*old(layer), *final(layer), ids@),
{
    let ghost mut states: Seq<OsmLayer> = seq![*layer];
    let mut i: usize = 0;
    while i < ids.len()
        invariant
            i <= ids@.len(),
            layer.wf(),
            removal_chain(states, ids@.take(i as int)),
            states[0] == *old(layer),
            states.last() == *layer,
        decreases ids.len() - i,
    {
        let ghost before = states;
        layer.remove_node(ids[i]);
        proof {
            states = before.push(*layer);
            let t = ids@.take(i + 1);
            assert forall|j: int| 0 <= j < t.len() implies node_removal(&states[j], &#[trigger] states[j + 1], t[j]) by {
                if j < i {
                    assert(states[j] == before[j] && states[j + 1] == before[j + 1]);
                    assert(t[j] == ids@.take(i as int)[j]);
                }
            }
        }
        i = i + 1;
    }
    assert(ids@.take(ids@.len() as int) =~= ids@);
}

/// Undoes (`forward` false) or redoes a single-layer edit on `layer`.
fn undo_on_layer(layer: &mut OsmLayer, action: &UndoableAction, forward: bool)
    requires
        old(layer).wf(),
        replayable(*action, forward),
    ensures
        final(layer).wf(),
        undo_step(*old(layer), *final(layer), *action, forward),
{
    match action {
        UndoableAction::CreateNode { id, lat, lon, .. } => {
            if forward {
                let _ = layer.create_node(*lat, *lon, Some(*id));
            } else {
                let _ = layer.delete_feature(FeatureKind::Node, *id);
            }
        },
        UndoableAction::DeleteFeature { snapshot, .. } => {
            if forward {
                let _ = layer.delete_feature(snapshot.kind, snapshot.id);
            } else {
                let copy = snapshot.duplicate();
                layer.restore_feature(copy);
                assert(restored_way(copy) == restored_way(*snapshot));
            }
        },
        UndoableAction::ExtendWay { way_id, node_id, way_created, node_created, .. } => {
            if !forward {
                detach(layer, *way_id, *node_id, *way_created);
                let ghost mid = *layer;
                if *node_created {
                    layer.remove_node(*node_id);
                }
                assert(detached(*old(layer), mid, *way_id, *node_id, *way_created));
            }
        },
        UndoableAction::CreateBuilding { way_id, node_ids, .. } => {
            if !forward {
                layer.remove_way(*way_id);
                let ghost mid = *layer;
                remove_nodes(layer, node_ids);
                assert(way_removal(&*old(layer), &mid, *way_id));
            }
        },
        UndoableAction::ExtrudeWay { way_id, new_node_ids, .. } => {
            if !forward {
                layer.remove_way(*way_id);
                let ghost mid = *layer;
                remove_nodes(layer, new_node_ids);
                assert(way_removal(&*old(layer), &mid, *way_id));
            }
        },
        UndoableAction::InsertNodeIntoWay { way_id, index, node_id, .. } => {
            if !forward {
                layer.remove_node_from_way(*way_id, *index);
                let ghost mid = *layer;
                layer.remove_node(*node_id);
                assert(unsplice(&*old(layer), &mid, *way_id, *index));
            }
        },
        UndoableAction::SnapExtendWay { way_id, way_created, snap_way_id, snap_index, node_id, .. } => {
            if !forward {
                detach(layer, *way_id, *node_id, *way_created);
                let ghost m1 = *layer;
                layer.remove_node_from_way(*snap_way_id, *snap_index);
                let ghost m2 = *layer;
                layer.remove_node(*node_id);
                assert(detached(*old(layer), m1, *way_id, *node_id, *way_created));
                assert(unsplice(&m1, &m2, *snap_way_id, *snap_index));
            }
        },
        UndoableAction::MoveNodes { .. } => {},
        UndoableAction::SetTags { .. } => {},
    }
}


/// The layer of a single-layer edit.
fn layer_of(action: &UndoableAction) -> (r: Option<LayerId>)
    ensures
        r == action_layer(*action),
{
    match action {
        UndoableAction::CreateNode { layer, .. } => Some(*layer),
        UndoableAction::DeleteFeature { layer, .. } => Some(*layer),
        UndoableAction::ExtendWay { layer, .. } => Some(*layer),
        UndoableAction::CreateBuilding { layer, .. } => Some(*layer),
        UndoableAction::ExtrudeWay { layer, .. } => Some(*layer),
        UndoableAction::InsertNodeIntoWay { layer, .. } => Some(*layer),
        UndoableAction::SnapExtendWay { layer, .. } => Some(*layer),
        UndoableAction::MoveNodes { .. } => None,
        UndoableAction::SetTags { .. } => None,
    }
}

/// A layer found and changed as `rel` says gives `on_layer`.
proof fn lemma_on_layer_found(
    before: Seq<LayerEntry<OsmLayer>>,
    after: Seq<LayerEntry<OsmLayer>>,
    id: LayerId,
    idx: int,
    rel: spec_fn(OsmLayer, OsmLayer) -> bool,
)
    requires
        0 <= idx < before.len(),
        before[idx].id == id,
        forall|j: int| 0 <= j < idx ==> (#[trigger] before[j]).id != id,
        after == before.update(idx, LayerEntry { layer: after[idx].layer, ..before[idx] }),
        rel(before[idx].layer, after[idx].layer),
    ensures
        on_layer(before, after, id, rel),
{
    lemma_first_index(before, id, idx);
}

/// No layer with the id and nothing changed gives `on_layer`.
proof fn lemma_on_layer_missing(
    before: Seq<LayerEntry<OsmLayer>>,
    id: LayerId,
    rel: spec_fn(OsmLayer, OsmLayer) -> bool,
)
    requires
        forall|j: int| 0 <= j < before.len() ==> (#[trigger] before[j]).id != id,
    ensures
        on_layer(before, before, id, rel),
{
    lemma_first_index(before, id, -1);
}

/// A lookup by id followed by an edit of the layer found (related to it by
/// `rel` and keeping its invariant), or a failed lookup that changed
/// nothing, gives `on_layer` and keeps every layer's invariant.
pub(crate) proof fn lemma_layer_step(
    before: Seq<LayerEntry<OsmLayer>>,
    after: Seq<LayerEntry<OsmLayer>>,
    id: LayerId,
    rel: spec_fn(OsmLayer, OsmLayer) -> bool,
)
    requires
        all_wf(before),
        (exists|k: int|
            0 <= k < before.len() && before[k].id == id && after == before.update(k, LayerEntry { layer: after[k].layer, ..before[k] })
                && (forall|j: int| 0 <= j < k ==> (#[trigger] before[j]).id != id) && rel(before[k].layer, after[k].layer)
                && after[k].layer.wf()) || ((forall|j: int| 0 <= j < before.len() ==> (#[trigger] before[j]).id != id) && after
            == before),
    ensures
        on_layer(before, after, id, rel),
        all_wf(after),
{
    if exists|k: int|
        0 <= k < before.len() && before[k].id == id && after == before.update(k, LayerEntry { layer: after[k].layer, ..before[k] })
            && (forall|j: int| 0 <= j < k ==> (#[trigger] before[j]).id != id) && rel(before[k].layer, after[k].layer)
            && after[k].layer.wf() {
        let k = choose|k: int|
            0 <= k < before.len() && before[k].id == id && after == before.update(k, LayerEntry { layer: after[k].layer, ..before[k] })
                && (forall|j: int| 0 <= j < k ==> (#[trigger] before[j]).id != id) && rel(before[k].layer, after[k].layer)
                && after[k].layer.wf();
        lemma_on_layer_found(before, after, id, k, rel);
        assert forall|j: int| 0 <= j < after.len() implies (#[trigger] after[j]).layer.wf() by {
            if j != k {
                assert(after[j] == before[j]);
            }
        }
    } else {
        lemma_on_layer_missing(before, id, rel);
    }
}

/// Undoes (`forward` false) or redoes a recorded edit on the layer (the
/// first with the recorded id) it was made on; layers that are gone are
/// skipped. Node moves and tag edits are replayed entry by entry, in
/// order. Redoing is supported for moves, tag edits, created nodes and
/// deleted features; redoing a drawing edit does nothing.
pub fn apply_undo_action(layers: &mut LayerManager<OsmLayer>, action: &UndoableAction, forward: bool)
    requires
        all_wf(old(layers).entries()),
        replayable(*action, forward),
    ensures
        all_wf(final(layers).entries()),
        final(layers).next_id() == old(layers).next_id(),
        match *action {
            UndoableAction::MoveNodes { per_layer } => moves_replayed(old(layers).entries(), final(layers).entries(), per_layer@, forward),
            UndoableAction::SetTags { entries } => tags_replayed(old(layers).entries(), final(layers).entries(), entries@, forward),
            _ => on_layer(
                old(layers).entries(),
                final(layers).entries(),
                action_layer(*action)->0,
                |a: OsmLayer, b: OsmLayer| undo_step(a, b, *action, forward),
            ),
        },
{
    match action {
        UndoableAction::MoveNodes { per_layer } => {
            let ghost mut states: Seq<Seq<LayerEntry<OsmLayer>>> = seq![layers.entries()];
            let mut i: usize = 0;
            while i < per_layer.len()
                invariant
                    i <= per_layer@.len(),
                    all_wf(layers.entries()),
                    layers.next_id() == old(layers).next_id(),
                    move_chain(states, per_layer@.take(i as int), forward),
                    states[0] == old(layers).entries(),
                    states.last() == layers.entries(),
                decreases per_layer.len() - i,
            {
                let ghost before = layers.entries();
                let ghost prev = states;
                let id = per_layer[i].0;
                let moves = replay_moves(&per_layer[i].1, forward);
                let ghost rel = |a: OsmLayer, b: OsmLayer| nodes_committed(&a, &b, move_list(per_layer@[i as int].1@, forward));
                match layers.find_layer_mut(id) {
                    Some(l) => {
                        proof {
                            let k = choose|k: int| 0 <= k < before.len() && before[k].id == id && *l == before[k].layer;
                            assert(before[k].layer.wf());
                        }
                        let _ = l.commit_node_moves(moves.as_slice());
                    },
                    None => {},
                }
                proof {
                    let after = layers.entries();
                    if exists|k: int|
                        0 <= k < before.len() && before[k].id == id && after == before.update(k, LayerEntry { layer: after[k].layer, ..before[k] })
                            && (forall|j: int| 0 <= j < k ==> (#[trigger] before[j]).id != id) && rel(before[k].layer, after[k].layer)
                            && after[k].layer.wf() {
                        lemma_layer_step(before, after, id, rel);
                    } else {
                        lemma_layer_step(before, after, id, rel);
                    }
                    states = prev.push(after);
                    let t = per_layer@.take(i + 1);
                    assert forall|j: int| 0 <= j < t.len() implies on_layer(
                        states[j],
                        #[trigger] states[j + 1],
                        t[j].0,
                        |a: OsmLayer, b: OsmLayer| nodes_committed(&a, &b, move_list(t[j].1@, forward)),
                    ) by {
                        if j < i {
                            assert(states[j] == prev[j] && states[j + 1] == prev[j + 1]);
                            assert(t[j] == per_layer@.take(i as int)[j]);
                        }
                    }
                }
                i = i + 1;
            }
            assert(per_layer@.take(per_layer@.len() as int) =~= per_layer@);
            assert(move_chain(states, per_layer@, forward));
            assert(states[0] == old(layers).entries());
            assert(states.last() == layers.entries());
            assert(moves_replayed(old(layers).entries(), layers.entries(), per_layer@, forward));
        },
        UndoableAction::SetTags { entries } => {
            let ghost mut states: Seq<Seq<LayerEntry<OsmLayer>>> = seq![layers.entries()];
            let mut i: usize = 0;
            while i < entries.len()
                invariant
                    i <= entries@.len(),
                    all_wf(layers.entries()),
                    layers.next_id() == old(layers).next_id(),
                    tag_chain(states, entries@.take(i as int), forward),
                    states[0] == old(layers).entries(),
                    states.last() == layers.entries(),
                decreases entries.len() - i,
            {
                let ghost before = layers.entries();
                let ghost prev = states;
                let e = &entries[i];
                let value = if forward { &e.3 } else { &e.2 };
                let ghost rel = |a: OsmLayer, b: OsmLayer| tag_rel(a, b, entries@[i as int].0, entries@[i as int].1@, if forward {
                    entries@[i as int].3
                } else {
                    entries@[i as int].2
                });
                match layers.find_layer_mut(e.0.layer_id) {
                    Some(l) => {
                        proof {
                            let k = choose|k: int| 0 <= k < before.len() && before[k].id == e.0.layer_id && *l == before[k].layer;
                            assert(before[k].layer.wf());
                        }
                        match value {
                            Some(v) => l.set_tag(e.0.kind, e.0.id, e.1.as_str(), v.as_str()),
                            None => l.remove_tag(e.0.kind, e.0.id, e.1.as_str()),
                        }
                    },
                    None => {},
                }
                proof {
                    let after = layers.entries();
                    if exists|k: int|
                        0 <= k < before.len() && before[k].id == e.0.layer_id && after == before.update(k, LayerEntry { layer: after[k].layer, ..before[k] })
                            && (forall|j: int| 0 <= j < k ==> (#[trigger] before[j]).id != e.0.layer_id) && rel(before[k].layer, after[k].layer)
                            && after[k].layer.wf() {
                        lemma_layer_step(before, after, e.0.layer_id, rel);
                    } else {
                        lemma_layer_step(before, after, e.0.layer_id, rel);
                    }
                    states = prev.push(after);
                    let t = entries@.take(i + 1);
                    assert forall|j: int| 0 <= j < t.len() implies on_layer(
                        states[j],
                        #[trigger] states[j + 1],
                        t[j].0.layer_id,
                        |a: OsmLayer, b: OsmLayer| tag_rel(a, b, t[j].0, t[j].1@, if forward { t[j].3 } else { t[j].2 }),
                    ) by {
                        if j < i {
                            assert(states[j] == prev[j] && states[j + 1] == prev[j + 1]);
                            assert(t[j] == entries@.take(i as int)[j]);
                        }
                    }
                }
                i = i + 1;
            }
            assert(entries@.take(entries@.len() as int) =~= entries@);
            assert(tag_chain(states, entries@, forward));
        },
        _ => {
            let ghost before = layers.entries();
            let ghost rel = |a: OsmLayer, b: OsmLayer| undo_step(a, b, *action, forward);
            let id = match layer_of(action) {
                Some(id) => id,
                None => {
                    assert(false);
                    return ;
                },
            };
            match layers.find_layer_mut(id) {
                Some(l) => {
                    proof {
                        let k = choose|k: int| 0 <= k < before.len() && before[k].id == id && *l == before[k].layer;
                        assert(before[k].layer.wf());
                    }
                    undo_on_layer(l, action, forward);
                },
                None => {},
            }
            proof {
                let after = layers.entries();
                if exists|k: int|
                        0 <= k < before.len() && before[k].id == id && after == before.update(k, LayerEntry { layer: after[k].layer, ..before[k] })
                            && (forall|j: int| 0 <= j < k ==> (#[trigger] before[j]).id != id) && rel(before[k].layer, after[k].layer)
                            && after[k].layer.wf() {
                        lemma_layer_step(before, after, id, rel);
                    } else {
                        lemma_layer_step(before, after, id, rel);
                    }
            }
        },
    }
}


/// Undoing the creation of a node (deleting it again) gives back the
/// nodes and ways as they were, provided the node index listed no way for
/// the new id.
pub proof fn law_undo_create_node(l0: OsmLayer, l1: OsmLayer, l2: OsmLayer, id: i64, lat: Coord, lon: Coord)
    requires
        l0.wf(),
        l0.data() is Some,
        !l0.node_views().contains_key(id),
        !(l0.node_slots().contains_key(id) && l0.node_slots()[id].len() > 0),
        node_created_as(l0, l1, lat, lon, id),
        feature_deletion(l1, l2, FeatureKind::Node, id),
    ensures
        l2.node_views() == l0.node_views(),
        l2.way_views() == l0.way_views(),
        l2.slot_ids() == l0.slot_ids(),
        l2.slots() == l0.slots(),
{
    let d0 = l0.data()->0;
    assert(!d0.nodes@.contains_key(id));
    assert(l1.node_views().contains_key(id));
    let r = choose|r: Option<DeletedFeatureSnapshot>| #[trigger] feature_deleted_as(&l1, &l2, FeatureKind::Node, id, r);
    assert(deletable(&l1, FeatureKind::Node, id));
    let d1 = l1.data()->0;
    let d2 = l2.data()->0;
    assert(nodes_view(d2.nodes@) =~= nodes_view(d1.nodes@).remove(id));
    assert(l2.node_views() =~= l0.node_views());
}

} // verus!
