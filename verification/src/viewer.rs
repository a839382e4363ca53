//! The map viewer's bookkeeping of its layers: the layer panel's moves,
//! deletions, visibility toggles and choice of the layer being edited;
//! keeping the selection to what is drawn; adding a loaded or downloaded
//! dataset as a layer; and collecting what to upload, then reconciling the
//! layers with the server's answer.

use vstd::prelude::*;

use crate::layers::diff::LayerDiff;
use crate::layers::osm_layer::{upload_applied, FeatureRef, OsmLayer, UploadResult};
use crate::layers::{LayerEntry, LayerId, LayerManager};
use crate::osm::OsmData;
use crate::undo::{all_wf, first_index, lemma_first_index, lemma_first_index_found, lemma_layer_step, on_layer};

verus! {

/// Moves the layer at `index` by `delta` places (the panel's "move up" and
/// "move down"); nothing happens when either place is outside the list.
pub fn move_layer_by<L>(layers: &mut LayerManager<L>, index: usize, delta: i32)
    ensures
        final(layers).next_id() == old(layers).next_id(),
        ({
            let e = old(layers).entries();
            if index < e.len() && 0 <= index + delta < e.len() {
                final(layers).entries() == e.remove(index as int).insert(index + delta, e[index as int])
            } else {
                final(layers).entries() == e
            }
        }),
{
    let ghost e = layers.entries();
    let total = layers.layers().len();
    if index >= total {
        return;
    }
    let to: usize;
    if delta >= 0 {
        let d = delta as usize;
        if d >= total - index {
            return;
        }
        to = index + d;
    } else {
        let d = (-(delta as i64)) as usize;
        if d > index {
            return;
        }
        to = index - d;
    }
    layers.move_layer(index, to);
    proof {
        if to == index {
            assert(e.remove(index as int).insert(index as int, e[index as int]) =~= e);
        }
    }
}

/// Deletes the layer at `index` (nothing happens when there is none); when
/// it was the layer being edited, no layer is any more.
pub fn delete_layer_at<L>(layers: &mut LayerManager<L>, active: &mut Option<LayerId>, index: usize)
    ensures
        final(layers).next_id() == old(layers).next_id(),
        index < old(layers).entries().len() ==> final(layers).entries() == old(layers).entries().remove(index as int)
            && *final(active) == if *old(active) == Some(old(layers).entries()[index as int].id) {
            None
        } else {
            *old(active)
        },
        index >= old(layers).entries().len() ==> final(layers).entries() == old(layers).entries() && *final(active)
            == *old(active),
{
    if index < layers.layers().len() {
        let id = layers.layers()[index].id;
        if *active == Some(id) {
            *active = None;
        }
    }
    let _ = layers.remove_at(index);
}

/// Makes the layer at `index` the one being edited (nothing happens when
/// there is none).
pub fn set_active_layer(layers: &LayerManager<OsmLayer>, active: &mut Option<LayerId>, index: usize)
    ensures
        *final(active) == if index < layers.entries().len() {
            Some(layers.entries()[index as int].id)
        } else {
            *old(active)
        },
{
    if index < layers.layers().len() {
        *active = Some(layers.layers()[index].id);
    }
}

/// `after` is `before` shown if it was hidden and hidden if it was shown,
/// with nothing else changed.
pub open spec fn visibility_toggled(before: OsmLayer, after: OsmLayer) -> bool {
    &&& after.shown() == !before.shown()
    &&& after.layer_id() == before.layer_id()
    &&& after.label() == before.label()
    &&& after.data() == before.data()
    &&& after.original() == before.original()
    &&& after.modified_spec() == before.modified_spec()
    &&& after.slot_ids() == before.slot_ids()
    &&& after.slots() == before.slots()
    &&& after.node_slots() == before.node_slots()
    &&& after.next_node_id() == before.next_node_id()
    &&& after.next_way_id() == before.next_way_id()
}

/// Shows the layer with id `id` if it is hidden, hides it if it is shown.
pub fn toggle_layer_visibility(layers: &mut LayerManager<OsmLayer>, id: LayerId)
    requires
        all_wf(old(layers).entries()),
    ensures
        all_wf(final(layers).entries()),
        final(layers).next_id() == old(layers).next_id(),
        on_layer(old(layers).entries(), final(layers).entries(), id, |a: OsmLayer, b: OsmLayer| visibility_toggled(a, b)),
{
    let ghost before = layers.entries();
    match layers.find_layer_mut(id) {
        Some(l) => {
            proof {
                let k = choose|k: int| 0 <= k < before.len() && before[k].id == id && *l == before[k].layer;
                assert(before[k].layer.wf());
            }
            let shown = l.is_visible();
            l.set_visible(!shown);
        },
        None => {},
    }
    proof {
        lemma_layer_step(before, layers.entries(), id, |a: OsmLayer, b: OsmLayer| visibility_toggled(a, b));
    }
}

/// Adds a loaded or downloaded dataset as a new layer on top, under a
/// fresh id and a display name based on `name` ("OSM" when it is empty)
/// that no layer has; it becomes the layer being edited when none is.
pub fn add_osm_dataset(layers: &mut LayerManager<OsmLayer>, active: &mut Option<LayerId>, name: String, data: OsmData) -> (id:
    LayerId)
    requires
        old(layers).entries().len() < u64::MAX,
        old(layers).next_id() < u64::MAX,
        data.wf(),
        !data.nodes@.contains_key(i64::MIN),
    ensures
        id.0 == old(layers).next_id(),
        final(layers).next_id() == old(layers).next_id() + 1,
        final(layers).entries().len() == old(layers).entries().len() + 1,
        final(layers).entries().drop_last() == old(layers).entries(),
        final(layers).entries().last().id == id,
        old(layers).fresh_name_for(
            if name@.len() == 0 {
                "OSM"@
            } else {
                name@
            },
            final(layers).entries().last().name@,
        ),
        final(layers).entries().last().layer.wf(),
        final(layers).entries().last().layer.layer_id() == id,
        final(layers).entries().last().layer.label() == final(layers).entries().last().name@,
        final(layers).entries().last().layer.shown(),
        final(layers).entries().last().layer.fresh_from(data),
        *final(active) == if *old(active) is None {
            Some(id)
        } else {
            *old(active)
        },
{
    let base = if name.as_str().is_empty() {
        "OSM".to_owned()
    } else {
        name
    };
    let candidate = layers.unique_name(base.as_str());
    let id = layers.alloc_id();
    let layer = OsmLayer::new_with_data(id, candidate.clone(), data);
    layers.add_layer(id, candidate, layer);
    if active.is_none() {
        *active = Some(id);
    }
    proof {
        assert(layers.entries().drop_last() =~= old(layers).entries());
    }
    id
}

/// The layers with edits not yet uploaded, in draw order.
pub open spec fn modified_layers(ls: Seq<LayerEntry<OsmLayer>>) -> Seq<LayerEntry<OsmLayer>>
    decreases ls.len(),
{
    if ls.len() == 0 {
        Seq::empty()
    } else if ls.last().layer.modified_spec() {
        modified_layers(ls.drop_last()).push(ls.last())
    } else {
        modified_layers(ls.drop_last())
    }
}

/// What to upload: for each layer with edits not yet uploaded, in draw
/// order, its id, its name, and what the first layer with that id has to
/// upload.
pub fn pending_uploads(layers: &LayerManager<OsmLayer>) -> (r: Vec<(LayerId, String, LayerDiff)>)
    requires
        all_wf(layers.entries()),
    ensures
        r@.len() == modified_layers(layers.entries()).len(),
        forall|i: int|
            0 <= i < r@.len() ==> (#[trigger] r@[i]).0 == modified_layers(layers.entries())[i].id && r@[i].1@
                == modified_layers(layers.entries())[i].name@ && layers.entries()[first_index(
                layers.entries(),
                r@[i].0,
            )->0].layer.upload_diff(r@[i].2),
{
    let ghost ls = layers.entries();
    let all = layers.layers();
    let mut out: Vec<(LayerId, String, LayerDiff)> = Vec::new();
    let mut i: usize = 0;
    while i < all.len()
        invariant
            i <= all@.len(),
            all@ == ls,
            ls == layers.entries(),
            all_wf(ls),
            out@.len() == modified_layers(ls.take(i as int)).len(),
            forall|j: int|
                0 <= j < out@.len() ==> (#[trigger] out@[j]).0 == modified_layers(ls.take(i as int))[j].id && out@[j].1@
                    == modified_layers(ls.take(i as int))[j].name@ && first_index(ls, out@[j].0) is Some
                    && ls[first_index(ls, out@[j].0)->0].layer.upload_diff(out@[j].2),
        decreases all.len() - i,
    {
        proof {
            assert(ls.take(i + 1).drop_last() =~= ls.take(i as int));
            assert(ls.take(i + 1).last() == ls[i as int]);
        }
        if all[i].layer.is_modified() {
            let id = all[i].id;
            match layers.find_layer(id) {
                Some(e) => {
                    proof {
                        let k = choose|k: int|
                            0 <= k < ls.len() && ls[k] == *e && e.id == id && forall|j: int|
                                0 <= j < k ==> (#[trigger] ls[j]).id != id;
                        lemma_first_index(ls, id, k);
                        assert(ls[k].layer.wf());
                    }
                    let d = e.layer.diff_for_upload();
                    out.push((id, all[i].name.clone(), d));
                },
                None => {
                    proof {
                        assert(ls[i as int].id == id);
                    }
                },
            }
        }
        i = i + 1;
    }
    proof {
        assert(ls.take(ls.len() as int) =~= ls);
    }
    out
}

/// Whether none of the pending uploads has anything in it.
pub fn nothing_to_upload(pending: &Vec<(LayerId, String, LayerDiff)>) -> (r: bool)
    ensures
        r == forall|i: int| 0 <= i < pending@.len() ==> (#[trigger] pending@[i]).2.empty_spec(),
{
    let mut i: usize = 0;
    while i < pending.len()
        invariant
            i <= pending@.len(),
            forall|j: int| 0 <= j < i ==> (#[trigger] pending@[j]).2.empty_spec(),
        decreases pending.len() - i,
    {
        if !pending[i].2.is_empty() {
            return false;
        }
        i = i + 1;
    }
    true
}

/// Each manager state of `states` is the one before it with the upload's
/// answer applied to the first layer with the id at that position.
pub open spec fn upload_chain(states: Seq<Seq<LayerEntry<OsmLayer>>>, ids: Seq<LayerId>, result: UploadResult) -> bool {
    &&& states.len() == ids.len() + 1
    &&& forall|i: int|
        0 <= i < ids.len() ==> on_layer(
            states[i],
            #[trigger] states[i + 1],
            ids[i],
            |a: OsmLayer, b: OsmLayer| upload_applied(&a, &b, result),
        )
}

/// Applies a successful upload's answer to each uploaded layer, by id, in
/// order; ids of layers that are gone are skipped.
pub fn apply_upload_to(layers: &mut LayerManager<OsmLayer>, ids: &Vec<LayerId>, result: &UploadResult)
    requires
        all_wf(old(layers).entries()),
        forall|k: i64| #[trigger] result.node_id_remap@.contains_key(k) ==> result.node_id_remap@[k].0 != i64::MIN,
    ensures
        all_wf(final(layers).entries()),
        final(layers).next_id() == old(layers).next_id(),
        exists|states: Seq<Seq<LayerEntry<OsmLayer>>>|
            #[trigger] upload_chain(states, ids@, *result) && states[0] == old(layers).entries() && states.last()
                == final(layers).entries(),
{
    let ghost mut states: Seq<Seq<LayerEntry<OsmLayer>>> = seq![layers.entries()];
    let mut i: usize = 0;
    while i < ids.len()
        invariant
            i <= ids@.len(),
            all_wf(layers.entries()),
            layers.next_id() == old(layers).next_id(),
            forall|k: i64| #[trigger] result.node_id_remap@.contains_key(k) ==> result.node_id_remap@[k].0 != i64::MIN,
            upload_chain(states, ids@.take(i as int), *result),
            states[0] == old(layers).entries(),
            states.last() == layers.entries(),
        decreases ids.len() - i,
    {
        let ghost before = layers.entries();
        let ghost prev = states;
        let id = ids[i];
        match layers.find_layer_mut(id) {
            Some(l) => {
                proof {
                    let k = choose|k: int| 0 <= k < before.len() && before[k].id == id && *l == before[k].layer;
                    assert(before[k].layer.wf());
                }
                l.apply_upload_result(result);
            },
            None => {},
        }
        proof {
            let after = layers.entries();
            lemma_layer_step(before, after, id, |a: OsmLayer, b: OsmLayer| upload_applied(&a, &b, *result));
            states = prev.push(after);
            let t = ids@.take(i + 1);
            assert forall|j: int| 0 <= j < t.len() implies on_layer(
                states[j],
                #[trigger] states[j + 1],
                t[j],
                |a: OsmLayer, b: OsmLayer| upload_applied(&a, &b, *result),
            ) by {
                if j < i {
                    assert(states[j] == prev[j] && states[j + 1] == prev[j + 1]);
                    assert(t[j] == ids@.take(i as int)[j]);
                }
            }
        }
        i = i + 1;
    }
    proof {
        assert(ids@.take(ids@.len() as int) =~= ids@);
    }
}

/// The feature is on a layer (the first with its layer id) that is shown.
pub open spec fn on_shown_layer(ls: Seq<LayerEntry<OsmLayer>>, f: FeatureRef) -> bool {
    match first_index(ls, f.layer_id) {
        Some(j) => ls[j].layer.shown(),
        None => false,
    }
}

/// The features of `fs` on shown layers, in order.
pub open spec fn shown_features(ls: Seq<LayerEntry<OsmLayer>>, fs: Seq<FeatureRef>) -> Seq<FeatureRef>
    decreases fs.len(),
{
    if fs.len() == 0 {
        Seq::empty()
    } else if on_shown_layer(ls, fs.last()) {
        shown_features(ls, fs.drop_last()).push(fs.last())
    } else {
        shown_features(ls, fs.drop_last())
    }
}

/// The selection without the features whose layer is gone or hidden, so
/// that nothing not drawn on the map stays selected.
pub fn visible_selection(layers: &LayerManager<OsmLayer>, selected: &Vec<FeatureRef>) -> (r: Vec<FeatureRef>)
    ensures
        r@ == shown_features(layers.entries(), selected@),
{
    let ghost ls = layers.entries();
    let mut out: Vec<FeatureRef> = Vec::new();
    let mut i: usize = 0;
    while i < selected.len()
        invariant
            i <= selected@.len(),
            ls == layers.entries(),
            out@ == shown_features(ls, selected@.take(i as int)),
        decreases selected.len() - i,
    {
        let f = selected[i];
        proof {
            assert(selected@.take(i + 1).drop_last() =~= selected@.take(i as int));
            assert(selected@.take(i + 1).last() == f);
            lemma_first_index_found(ls, f.layer_id);
        }
        match layers.find_layer(f.layer_id) {
            Some(e) => {
                proof {
                    let k = choose|k: int|
                        0 <= k < ls.len() && ls[k] == *e && e.id == f.layer_id && forall|j: int|
                            0 <= j < k ==> (#[trigger] ls[j]).id != f.layer_id;
                    lemma_first_index(ls, f.layer_id, k);
                }
                if e.layer.is_visible() {
                    out.push(f);
                }
            },
            None => {
                proof {
                    lemma_first_index(ls, f.layer_id, -1);
                }
            },
        }
        i = i + 1;
    }
    proof {
        assert(selected@.take(selected@.len() as int) =~= selected@);
    }
    out
}

/// Whether some layer has edits not yet uploaded (asked before quitting).
pub fn has_unsaved_changes(layers: &LayerManager<OsmLayer>) -> (r: bool)
    ensures
        r == exists|i: int| 0 <= i < layers.entries().len() && (#[trigger] layers.entries()[i]).layer.modified_spec(),
{
    let all = layers.layers();
    let mut i: usize = 0;
    while i < all.len()
        invariant
            i <= all@.len(),
            all@ == layers.entries(),
            forall|j: int| 0 <= j < i ==> !(#[trigger] all@[j]).layer.modified_spec(),
        decreases all.len() - i,
    {
        if all[i].layer.is_modified() {
            return true;
        }
        i = i + 1;
    }
    false
}

} // verus!
