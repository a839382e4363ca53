//! Tag edits on the selection: reading each selected feature's tags, and
//! deleting one key from all of them as a single undoable edit.

use vstd::prelude::*;

use crate::layers::osm_layer::{
    has_feature, nodes_view, retagged, tag_removed_rel, tag_set_rel, tags_of, ways_view, FeatureKind, FeatureRef, OsmLayer,
};
use crate::layers::{LayerEntry, LayerManager};
use crate::osm::{keys_increasing, lemma_sorted_get, sorted_tags, tag_map, OsmData};
use crate::settings::{table_get, table_view};
use crate::text::{lemma_lex_order, lex_lt, str_eq};
use crate::undo::{
    all_wf, apply_undo_action, first_index, lemma_first_index, lemma_first_index_found, on_layer, tag_chain, tag_rel, tags_replayed,
    UndoableAction,
};

verus! {

/// The feature is on the first layer with its layer id, and that layer has
/// data holding it.
pub open spec fn tagged(ls: Seq<LayerEntry<OsmLayer>>, f: FeatureRef) -> bool {
    match first_index(ls, f.layer_id) {
        Some(i) => ls[i].layer.layer_id() == f.layer_id && ls[i].layer.data() is Some && has_feature(
            ls[i].layer.data()->0,
            f.kind,
            f.id,
        ),
        None => false,
    }
}

/// The tags of a feature on its layer, as a map from key to value.
pub open spec fn tags_on(ls: Seq<LayerEntry<OsmLayer>>, f: FeatureRef) -> Map<Seq<char>, Seq<char>> {
    tag_map(tags_of(ls[first_index(ls, f.layer_id)->0].layer.data()->0, f.kind, f.id))
}

/// The features of `fs` that are on their layer, in order.
pub open spec fn tagged_features(ls: Seq<LayerEntry<OsmLayer>>, fs: Seq<FeatureRef>) -> Seq<FeatureRef>
    decreases fs.len(),
{
    if fs.len() == 0 {
        Seq::empty()
    } else if tagged(ls, fs.last()) {
        tagged_features(ls, fs.drop_last()).push(fs.last())
    } else {
        tagged_features(ls, fs.drop_last())
    }
}

/// Each selected feature that is on its layer, with its tags sorted by key
/// (one entry per key), in selection order.
pub fn feature_tag_snapshots(layers: &LayerManager<OsmLayer>, features: &Vec<FeatureRef>) -> (r: Vec<
    (FeatureRef, Vec<(String, String)>),
>)
    ensures
        r@.len() == tagged_features(layers.entries(), features@).len(),
        forall|i: int|
            0 <= i < r@.len() ==> (#[trigger] r@[i]).0 == tagged_features(layers.entries(), features@)[i]
                && keys_increasing(r@[i].1@) && tag_map(r@[i].1@) == tags_on(layers.entries(), r@[i].0),
{
    let ghost ls = layers.entries();
    let mut out: Vec<(FeatureRef, Vec<(String, String)>)> = Vec::new();
    let mut i: usize = 0;
    while i < features.len()
        invariant
            i <= features@.len(),
            ls == layers.entries(),
            out@.len() == tagged_features(ls, features@.take(i as int)).len(),
            forall|j: int|
                0 <= j < out@.len() ==> (#[trigger] out@[j]).0 == tagged_features(ls, features@.take(i as int))[j]
                    && keys_increasing(out@[j].1@) && tag_map(out@[j].1@) == tags_on(ls, out@[j].0),
        decreases features.len() - i,
    {
        let f = features[i];
        proof {
            assert(features@.take(i + 1).drop_last() =~= features@.take(i as int));
            assert(features@.take(i + 1).last() == f);
        }
        match layers.find_layer(f.layer_id) {
            Some(e) => {
                proof {
                    let k = choose|k: int|
                        0 <= k < ls.len() && ls[k] == *e && e.id == f.layer_id && forall|j: int|
                            0 <= j < k ==> (#[trigger] ls[j]).id != f.layer_id;
                    lemma_first_index(ls, f.layer_id, k);
                }
                match e.layer.feature_tags(&f) {
                    Some(t) => {
                        out.push((f, t));
                    },
                    None => {},
                }
            },
            None => {
                proof {
                    lemma_first_index(ls, f.layer_id, -1);
                }
            },
        }
        i = i + 1;
    }
    proof {
        assert(features@.take(features@.len() as int) =~= features@);
    }
    out
}

/// The features of `fs` whose tags have `key`, in order.
pub open spec fn key_holders(ls: Seq<LayerEntry<OsmLayer>>, fs: Seq<FeatureRef>, key: Seq<char>) -> Seq<FeatureRef>
    decreases fs.len(),
{
    if fs.len() == 0 {
        Seq::empty()
    } else if tags_on(ls, fs.last()).contains_key(key) {
        key_holders(ls, fs.drop_last(), key).push(fs.last())
    } else {
        key_holders(ls, fs.drop_last(), key)
    }
}

/// The selected features, on their layers, that have tag `key`.
pub open spec fn tag_deletion_targets(ls: Seq<LayerEntry<OsmLayer>>, selected: Seq<FeatureRef>, key: Seq<char>) -> Seq<
    FeatureRef,
> {
    key_holders(ls, tagged_features(ls, selected), key)
}

/// `entries` records deleting tag `key` from each of `targets` on the
/// layers `ls`: the feature, the key, its value there before, and no value
/// after.
pub open spec fn tag_deletion_records(
    entries: Seq<(FeatureRef, String, Option<String>, Option<String>)>,
    ls: Seq<LayerEntry<OsmLayer>>,
    targets: Seq<FeatureRef>,
    key: Seq<char>,
) -> bool {
    &&& entries.len() == targets.len()
    &&& forall|i: int|
        0 <= i < entries.len() ==> (#[trigger] entries[i]).0 == targets[i] && entries[i].1@ == key && entries[i].2 is Some
            && entries[i].2->0@ == tags_on(ls, targets[i])[key] && entries[i].3 is None
}

/// The value of `key` in a tag list sorted by key, if it has one.
pub fn tag_value(tags: &Vec<(String, String)>, key: &str) -> (r: Option<String>)
    requires
        keys_increasing(tags@),
    ensures
        match r {
            Some(v) => tag_map(tags@).contains_key(key@) && v@ == tag_map(tags@)[key@],
            None => !tag_map(tags@).contains_key(key@),
        },
{
    proof {
        lemma_sorted_get(tags@, key@);
    }
    let mut i: usize = 0;
    while i < tags.len()
        invariant
            i <= tags@.len(),
            keys_increasing(tags@),
            forall|p: int| 0 <= p < i ==> (#[trigger] tags@[p]).0@ != key@,
        decreases tags.len() - i,
    {
        if str_eq(tags[i].0.as_str(), key) {
            proof {
                lemma_sorted_get(tags@, key@);
                assert(tags@[i as int].0@ == key@);
                assert(table_get(table_view(tags@), key@) == Some(tags@[i as int].1@));
            }
            return Some(tags[i].1.clone());
        }
        i = i + 1;
    }
    None
}

/// Deletes tag `key` from every selected feature that has it, on its
/// layer, as one edit: returns the tag edit that undoes it (each feature
/// with the key, its old value and no new value), or `None`, with nothing
/// changed, when no selected feature has the key.
pub fn delete_tag(layers: &mut LayerManager<OsmLayer>, selected: &Vec<FeatureRef>, key: &str) -> (r: Option<UndoableAction>)
    requires
        all_wf(old(layers).entries()),
    ensures
        all_wf(final(layers).entries()),
        final(layers).next_id() == old(layers).next_id(),
        tag_deletion_targets(old(layers).entries(), selected@, key@).len() == 0 ==> r is None && final(layers).entries()
            == old(layers).entries(),
        tag_deletion_targets(old(layers).entries(), selected@, key@).len() > 0 ==> (r matches Some(
            UndoableAction::SetTags { entries },
        ) && tag_deletion_records(
            entries@,
            old(layers).entries(),
            tag_deletion_targets(old(layers).entries(), selected@, key@),
            key@,
        ) && tags_replayed(old(layers).entries(), final(layers).entries(), entries@, true)),
        forall|f: FeatureRef|
            #![trigger tags_on(final(layers).entries(), f)]
            #![trigger tagged(old(layers).entries(), f)]
            tagged(old(layers).entries(), f) ==> tagged(final(layers).entries(), f) && tags_on(final(layers).entries(), f)
                == if selected@.contains(f) {
                tags_on(old(layers).entries(), f).remove(key@)
            } else {
                tags_on(old(layers).entries(), f)
            },
{
    let snaps = feature_tag_snapshots(layers, selected);
    let ghost ls = layers.entries();
    let ghost tf = tagged_features(ls, selected@);
    let mut entries: Vec<(FeatureRef, String, Option<String>, Option<String>)> = Vec::new();
    let mut i: usize = 0;
    while i < snaps.len()
        invariant
            i <= snaps@.len(),
            snaps@.len() == tf.len(),
            forall|j: int|
                0 <= j < snaps@.len() ==> (#[trigger] snaps@[j]).0 == tf[j] && keys_increasing(snaps@[j].1@) && tag_map(
                    snaps@[j].1@,
                ) == tags_on(ls, snaps@[j].0),
            tag_deletion_records(entries@, ls, key_holders(ls, tf.take(i as int), key@), key@),
        decreases snaps.len() - i,
    {
        proof {
            assert(tf.take(i + 1).drop_last() =~= tf.take(i as int));
            assert(tf.take(i + 1).last() == tf[i as int]);
        }
        match tag_value(&snaps[i].1, key) {
            Some(v) => {
                let k = key.to_owned();
                entries.push((snaps[i].0, k, Some(v), None));
            },
            None => {},
        }
        i = i + 1;
    }
    proof {
        assert(tf.take(tf.len() as int) =~= tf);
    }
    if entries.len() == 0 {
        proof {
            assert(tag_chain(seq![ls], entries@, true));
            lemma_deletion_effect(ls, ls, selected@, key@, entries@);
        }
        return None;
    }
    let action = UndoableAction::SetTags { entries };
    apply_undo_action(layers, &action, true);
    proof {
        lemma_deletion_effect(ls, layers.entries(), selected@, key@, entries@);
    }
    Some(action)
}

/// The value entry `e` gives its key: its value after, or (backward)
/// before.
pub open spec fn entry_value(e: (FeatureRef, String, Option<String>, Option<String>), forward: bool) -> Option<String> {
    if forward {
        e.3
    } else {
        e.2
    }
}

/// The tag map `m` of feature `f` after entry `e`, when it is about `f`:
/// its key set to its value after (backward: before), or removed where
/// that value is `None`.
pub open spec fn tag_step(
    m: Map<Seq<char>, Seq<char>>,
    e: (FeatureRef, String, Option<String>, Option<String>),
    f: FeatureRef,
    forward: bool,
) -> Map<Seq<char>, Seq<char>> {
    if e.0 == f {
        match if forward {
            e.3
        } else {
            e.2
        } {
            Some(v) => m.insert(e.1@, v@),
            None => m.remove(e.1@),
        }
    } else {
        m
    }
}

/// The tag map `m` of feature `f` after the entries are applied in order.
pub open spec fn replay_tags(
    m: Map<Seq<char>, Seq<char>>,
    entries: Seq<(FeatureRef, String, Option<String>, Option<String>)>,
    f: FeatureRef,
    forward: bool,
) -> Map<Seq<char>, Seq<char>>
    decreases entries.len(),
{
    if entries.len() == 0 {
        m
    } else {
        tag_step(replay_tags(m, entries.drop_last(), f, forward), entries.last(), f, forward)
    }
}

/// Retagging one feature keeps every feature, and the tags of the others.
proof fn lemma_retagged_other(d: OsmData, d2: OsmData, kind: FeatureKind, id: i64, tags: Seq<(String, String)>, gk: FeatureKind, gid: i64)
    requires
        retagged(d, d2, kind, id, tags),
        has_feature(d, gk, gid),
    ensures
        has_feature(d2, gk, gid),
        !(gk == kind && gid == id) ==> tags_of(d2, gk, gid) == tags_of(d, gk, gid),
{
    match kind {
        FeatureKind::Node => {
            if d.nodes@.contains_key(id) {
                assert(nodes_view(d2.nodes@).dom() == d2.nodes@.dom());
                assert(nodes_view(d.nodes@).dom() == d.nodes@.dom());
                assert(d2.nodes@.dom() =~= d.nodes@.dom().insert(id));
                if gk == FeatureKind::Node && gid != id {
                    assert(nodes_view(d2.nodes@)[gid] == d2.nodes@[gid]@);
                    assert(nodes_view(d.nodes@)[gid] == d.nodes@[gid]@);
                }
            }
        },
        FeatureKind::Way => {
            if d.ways@.contains_key(id) {
                assert(ways_view(d2.ways@).dom() == d2.ways@.dom());
                assert(ways_view(d.ways@).dom() == d.ways@.dom());
                assert(d2.ways@.dom() =~= d.ways@.dom().insert(id));
                if gk == FeatureKind::Way && gid != id {
                    assert(ways_view(d2.ways@)[gid] == d2.ways@[gid]@);
                    assert(ways_view(d.ways@)[gid] == d.ways@[gid]@);
                }
            }
        },
    }
}

/// One step of a replayed tag edit keeps every feature on its layer and
/// changes only the tags of the feature it is about.
proof fn lemma_tag_step(
    states: Seq<Seq<LayerEntry<OsmLayer>>>,
    entries: Seq<(FeatureRef, String, Option<String>, Option<String>)>,
    forward: bool,
    i: int,
    g: FeatureRef,
)
    requires
        tag_chain(states, entries, forward),
        0 <= i < entries.len(),
        tagged(states[i], g),
    ensures
        tagged(states[i + 1], g),
        tags_on(states[i + 1], g) == tag_step(tags_on(states[i], g), entries[i], g, forward),
{
    let s = states[i];
    let t = states[i + 1];
    let e = entries[i];
    let val = if forward {
        e.3
    } else {
        e.2
    };
    assert(on_layer(
        s,
        t,
        e.0.layer_id,
        |a: OsmLayer, b: OsmLayer| tag_rel(a, b, e.0, e.1@, if forward { e.3 } else { e.2 }),
    ));
    let m = tags_on(s, g);
    let want = if e.0 == g {
        match val {
            Some(v) => m.insert(e.1@, v@),
            None => m.remove(e.1@),
        }
    } else {
        m
    };
    assert(tag_step(m, e, g, forward) == want);
    lemma_first_index_found(s, g.layer_id);
    lemma_first_index_found(s, e.0.layer_id);
    let gi = first_index(s, g.layer_id)->0;
    match first_index(s, e.0.layer_id) {
        None => {
            assert(t == s);
            assert(e.0.layer_id != g.layer_id);
        },
        Some(k) => {
            assert(t == s.update(k, LayerEntry { layer: t[k].layer, ..s[k] }));
            assert(forall|j: int| 0 <= j < t.len() ==> (#[trigger] t[j]).id == s[j].id);
            lemma_first_index(t, g.layer_id, gi);
            assert(first_index(t, g.layer_id) == Some(gi));
            if gi != k {
                assert(t[gi] == s[gi]);
                assert(e.0.layer_id != g.layer_id);
                assert(tags_on(t, g) == m);
            } else {
                let a = s[k].layer;
                let b = t[k].layer;
                assert(tag_rel(a, b, e.0, e.1@, val));
                let d = a.data()->0;
                assert(g.layer_id == e.0.layer_id);
                let d2 = b.data()->0;
                match val {
                    Some(v) => {
                        assert(tag_set_rel(&a, &b, e.0.kind, e.0.id, e.1@, v@));
                        lemma_retagged_other(d, d2, e.0.kind, e.0.id, tags_of(d2, e.0.kind, e.0.id), g.kind, g.id);
                    },
                    None => {
                        assert(tag_removed_rel(&a, &b, e.0.kind, e.0.id, e.1@));
                        lemma_retagged_other(d, d2, e.0.kind, e.0.id, tags_of(d2, e.0.kind, e.0.id), g.kind, g.id);
                    },
                }
                assert(b.layer_id() == a.layer_id());
                assert(tags_on(t, g) == tag_map(tags_of(d2, g.kind, g.id)));
                assert(m == tag_map(tags_of(d, g.kind, g.id)));
                if g.kind == e.0.kind && g.id == e.0.id {
                    assert(e.0 == g);
                } else {
                    assert(e.0 != g);
                }
            }
        },
    }
}

/// Replaying a tag edit keeps every feature on its layer and gives each
/// the tags `replay_tags` says.
proof fn lemma_tag_chain(
    states: Seq<Seq<LayerEntry<OsmLayer>>>,
    entries: Seq<(FeatureRef, String, Option<String>, Option<String>)>,
    forward: bool,
    g: FeatureRef,
)
    requires
        tag_chain(states, entries, forward),
        tagged(states[0], g),
    ensures
        tagged(states.last(), g),
        tags_on(states.last(), g) == replay_tags(tags_on(states[0], g), entries, g, forward),
    decreases entries.len(),
{
    if entries.len() > 0 {
        let n = entries.len() - 1;
        let ps = states.drop_last();
        let pe = entries.drop_last();
        assert forall|j: int| 0 <= j < pe.len() implies on_layer(
            ps[j],
            #[trigger] ps[j + 1],
            pe[j].0.layer_id,
            |a: OsmLayer, b: OsmLayer| tag_rel(a, b, pe[j].0, pe[j].1@, if forward { pe[j].3 } else { pe[j].2 }),
        ) by {
            assert(ps[j] == states[j] && ps[j + 1] == states[j + 1] && pe[j] == entries[j]);
            assert(on_layer(
                states[j],
                states[j + 1],
                entries[j].0.layer_id,
                |a: OsmLayer, b: OsmLayer| tag_rel(a, b, entries[j].0, entries[j].1@, if forward { entries[j].3 } else { entries[j].2 }),
            ));
        }
        assert(tag_chain(ps, pe, forward));
        lemma_tag_chain(ps, pe, forward, g);
        assert(ps.last() == states[n]);
        lemma_tag_step(states, entries, forward, n, g);
        assert(entries.last() == entries[n]);
    }
}

/// Some entry is about feature `f`.
pub open spec fn mentions(entries: Seq<(FeatureRef, String, Option<String>, Option<String>)>, f: FeatureRef) -> bool {
    exists|i: int| 0 <= i < entries.len() && (#[trigger] entries[i]).0 == f
}

/// An entry is about `f` when one before the last is, or the last is.
proof fn lemma_mentions_last(entries: Seq<(FeatureRef, String, Option<String>, Option<String>)>, f: FeatureRef)
    requires
        entries.len() > 0,
    ensures
        mentions(entries, f) == (mentions(entries.drop_last(), f) || entries.last().0 == f),
{
    let pe = entries.drop_last();
    if mentions(pe, f) {
        let i = choose|i: int| 0 <= i < pe.len() && (#[trigger] pe[i]).0 == f;
        assert(entries[i] == pe[i]);
    }
    if entries.last().0 == f {
        assert(entries[entries.len() - 1] == entries.last());
    }
    if mentions(entries, f) {
        let i = choose|i: int| 0 <= i < entries.len() && (#[trigger] entries[i]).0 == f;
        if i < entries.len() - 1 {
            assert(pe[i] == entries[i]);
        }
    }
}

/// Entries about `f` that all remove `key` leave `f` without it, once any
/// of them is there.
proof fn lemma_replay_removes(
    m: Map<Seq<char>, Seq<char>>,
    entries: Seq<(FeatureRef, String, Option<String>, Option<String>)>,
    f: FeatureRef,
    key: Seq<char>,
    forward: bool,
)
    requires
        forall|i: int|
            0 <= i < entries.len() && (#[trigger] entries[i]).0 == f ==> entries[i].1@ == key && entry_value(entries[i], forward) is None,
    ensures
        replay_tags(m, entries, f, forward) == if mentions(entries, f) {
            m.remove(key)
        } else {
            m
        },
    decreases entries.len(),
{
    if entries.len() > 0 {
        let pe = entries.drop_last();
        assert forall|i: int| 0 <= i < pe.len() && (#[trigger] pe[i]).0 == f implies pe[i].1@ == key && entry_value(pe[i], forward) is None by {
            assert(pe[i] == entries[i]);
        }
        lemma_replay_removes(m, pe, f, key, forward);
        lemma_mentions_last(entries, f);
        let e = entries.last();
        if e.0 == f {
            assert(entries[entries.len() - 1] == e);
            assert(m.remove(key).remove(key) =~= m.remove(key));
        }
    }
}

/// Entries about `f` that all set `key` to `val` leave `f` with it, once
/// any of them is there.
proof fn lemma_replay_sets(
    m: Map<Seq<char>, Seq<char>>,
    entries: Seq<(FeatureRef, String, Option<String>, Option<String>)>,
    f: FeatureRef,
    key: Seq<char>,
    val: Seq<char>,
    forward: bool,
)
    requires
        forall|i: int|
            0 <= i < entries.len() && (#[trigger] entries[i]).0 == f ==> entries[i].1@ == key && entry_value(entries[i], forward) is Some && entry_value(entries[i], forward)->0@ == val,
    ensures
        replay_tags(m, entries, f, forward) == if mentions(entries, f) {
            m.insert(key, val)
        } else {
            m
        },
    decreases entries.len(),
{
    if entries.len() > 0 {
        let pe = entries.drop_last();
        assert forall|i: int| 0 <= i < pe.len() && (#[trigger] pe[i]).0 == f implies pe[i].1@ == key && entry_value(pe[i], forward) is Some && entry_value(pe[i], forward)->0@ == val by {
            assert(pe[i] == entries[i]);
        }
        lemma_replay_sets(m, pe, f, key, val, forward);
        lemma_mentions_last(entries, f);
        let e = entries.last();
        if e.0 == f {
            assert(entries[entries.len() - 1] == e);
            assert(m.insert(key, val).insert(key, val) =~= m.insert(key, val));
        }
    }
}

/// A sequence with one more element holds what it held, and the new one.
proof fn lemma_push_contains(s: Seq<FeatureRef>, x: FeatureRef, f: FeatureRef)
    ensures
        s.push(x).contains(f) == (s.contains(f) || x == f),
{
    let t = s.push(x);
    if s.contains(f) {
        let i = choose|i: int| 0 <= i < s.len() && s[i] == f;
        assert(t[i] == s[i]);
    }
    if x == f {
        assert(t[s.len() as int] == x);
    }
    if t.contains(f) {
        let i = choose|i: int| 0 <= i < t.len() && t[i] == f;
        if i < s.len() {
            assert(s[i] == t[i]);
        }
    }
}

/// A sequence without its last element holds what it held, but perhaps
/// that element.
proof fn lemma_drop_last_contains(s: Seq<FeatureRef>, f: FeatureRef)
    requires
        s.len() > 0,
    ensures
        s.contains(f) == (s.drop_last().contains(f) || s.last() == f),
{
    assert(s.drop_last().push(s.last()) =~= s);
    lemma_push_contains(s.drop_last(), s.last(), f);
}

/// The features on their layers among `fs` are those of `fs` that are.
proof fn lemma_tagged_features_contain(ls: Seq<LayerEntry<OsmLayer>>, fs: Seq<FeatureRef>, f: FeatureRef)
    ensures
        tagged_features(ls, fs).contains(f) == (fs.contains(f) && tagged(ls, f)),
    decreases fs.len(),
{
    if fs.len() > 0 {
        lemma_tagged_features_contain(ls, fs.drop_last(), f);
        lemma_drop_last_contains(fs, f);
        if tagged(ls, fs.last()) {
            lemma_push_contains(tagged_features(ls, fs.drop_last()), fs.last(), f);
        }
    }
}

/// The holders of `key` among `fs` are those of `fs` whose tags have it.
proof fn lemma_key_holders_contain(ls: Seq<LayerEntry<OsmLayer>>, fs: Seq<FeatureRef>, key: Seq<char>, f: FeatureRef)
    ensures
        key_holders(ls, fs, key).contains(f) == (fs.contains(f) && tags_on(ls, f).contains_key(key)),
    decreases fs.len(),
{
    if fs.len() > 0 {
        lemma_key_holders_contain(ls, fs.drop_last(), key, f);
        lemma_drop_last_contains(fs, f);
        if tags_on(ls, fs.last()).contains_key(key) {
            lemma_push_contains(key_holders(ls, fs.drop_last(), key), fs.last(), f);
        }
    }
}

/// The records of a tag deletion are about exactly its targets: the
/// selected features, on their layers, that have the key.
proof fn lemma_records_mention(
    entries: Seq<(FeatureRef, String, Option<String>, Option<String>)>,
    ls: Seq<LayerEntry<OsmLayer>>,
    selected: Seq<FeatureRef>,
    key: Seq<char>,
    f: FeatureRef,
)
    requires
        tag_deletion_records(entries, ls, tag_deletion_targets(ls, selected, key), key),
    ensures
        mentions(entries, f) == (selected.contains(f) && tagged(ls, f) && tags_on(ls, f).contains_key(key)),
{
    let targets = tag_deletion_targets(ls, selected, key);
    lemma_tagged_features_contain(ls, selected, f);
    lemma_key_holders_contain(ls, tagged_features(ls, selected), key, f);
    if mentions(entries, f) {
        let i = choose|i: int| 0 <= i < entries.len() && (#[trigger] entries[i]).0 == f;
        assert(targets[i] == f);
    }
    if targets.contains(f) {
        let i = choose|i: int| 0 <= i < targets.len() && targets[i] == f;
        assert(entries[i].0 == f);
    }
}

/// What replaying a tag deletion does: every feature that was on its layer
/// stays there, the selected ones without `key` and the others with their
/// tags as they were.
proof fn lemma_deletion_effect(
    before: Seq<LayerEntry<OsmLayer>>,
    after: Seq<LayerEntry<OsmLayer>>,
    selected: Seq<FeatureRef>,
    key: Seq<char>,
    entries: Seq<(FeatureRef, String, Option<String>, Option<String>)>,
)
    requires
        tag_deletion_records(entries, before, tag_deletion_targets(before, selected, key), key),
        tags_replayed(before, after, entries, true),
    ensures
        forall|f: FeatureRef|
            #![trigger tags_on(after, f)]
            #![trigger tagged(before, f)]
            tagged(before, f) ==> tagged(after, f) && tags_on(after, f) == if selected.contains(f) {
                tags_on(before, f).remove(key)
            } else {
                tags_on(before, f)
            },
{
    let st = choose|states: Seq<Seq<LayerEntry<OsmLayer>>>|
        #[trigger] tag_chain(states, entries, true) && states[0] == before && states.last() == after;
    let targets = tag_deletion_targets(before, selected, key);
    assert forall|f: FeatureRef|
        #![trigger tags_on(after, f)]
        #![trigger tagged(before, f)]
        tagged(before, f) implies tagged(after, f) && tags_on(after, f) == if selected.contains(f) {
            tags_on(before, f).remove(key)
        } else {
            tags_on(before, f)
        } by {
        let m0 = tags_on(before, f);
        lemma_tag_chain(st, entries, true, f);
        lemma_replay_removes(m0, entries, f, key, true);
        lemma_records_mention(entries, before, selected, key, f);
        if selected.contains(f) && !m0.contains_key(key) {
            assert(m0.remove(key) =~= m0);
        }
    }
}

/// Undoing a tag deletion gives the tags back: after the deletion of `key`
/// from the features `selected` (recorded as `entries`) took the layers
/// from `before` to `deleted`, undoing it (to `restored`) leaves every
/// feature that was on its layer there still, with the same tags, as a
/// map, as in `before`.
pub proof fn law_undo_of_tag_deletion(
    before: Seq<LayerEntry<OsmLayer>>,
    deleted: Seq<LayerEntry<OsmLayer>>,
    restored: Seq<LayerEntry<OsmLayer>>,
    selected: Seq<FeatureRef>,
    key: Seq<char>,
    entries: Seq<(FeatureRef, String, Option<String>, Option<String>)>,
)
    requires
        tag_deletion_records(entries, before, tag_deletion_targets(before, selected, key), key),
        tags_replayed(before, deleted, entries, true),
        tags_replayed(deleted, restored, entries, false),
    ensures
        forall|f: FeatureRef|
            #![trigger tags_on(restored, f)]
            #![trigger tagged(before, f)]
            tagged(before, f) ==> tagged(restored, f) && tags_on(restored, f) == tags_on(before, f),
{
    let s1 = choose|states: Seq<Seq<LayerEntry<OsmLayer>>>|
        #[trigger] tag_chain(states, entries, true) && states[0] == before && states.last() == deleted;
    let s2 = choose|states: Seq<Seq<LayerEntry<OsmLayer>>>|
        #[trigger] tag_chain(states, entries, false) && states[0] == deleted && states.last() == restored;
    let targets = tag_deletion_targets(before, selected, key);
    assert forall|f: FeatureRef|
        #![trigger tags_on(restored, f)]
        #![trigger tagged(before, f)]
        tagged(before, f) implies tagged(restored, f) && tags_on(restored, f) == tags_on(before, f) by {
        let m0 = tags_on(before, f);
        lemma_tag_chain(s1, entries, true, f);
        lemma_tag_chain(s2, entries, false, f);
        lemma_replay_removes(m0, entries, f, key, true);
        assert forall|i: int| 0 <= i < entries.len() && (#[trigger] entries[i]).0 == f implies entries[i].1@ == key && entry_value(entries[i], false) is Some && entry_value(entries[i], false)->0@ == m0[key] by {
            assert(targets[i] == f);
        }
        let m1 = tags_on(deleted, f);
        lemma_replay_sets(m1, entries, f, key, m0[key], false);
        lemma_records_mention(entries, before, selected, key, f);
        if mentions(entries, f) {
            assert(m0.remove(key).insert(key, m0[key]) =~= m0);
        }
    }
}

/// The map from key to value after `after` of the entries, the later of
/// two with the same key winning.
pub open spec fn entries_map(entries: Seq<(FeatureRef, String, Option<String>, Option<String>)>) -> Map<Seq<char>, Seq<char>>
    decreases entries.len(),
{
    if entries.len() == 0 {
        Map::empty()
    } else {
        entries_map(entries.drop_last()).insert(entries.last().1@, entries.last().3->0@)
    }
}

/// Entries about `f` that all set a value put their keys over `m`.
proof fn lemma_replay_inserts(
    m: Map<Seq<char>, Seq<char>>,
    entries: Seq<(FeatureRef, String, Option<String>, Option<String>)>,
    f: FeatureRef,
)
    requires
        forall|i: int| 0 <= i < entries.len() ==> (#[trigger] entries[i]).0 == f && entries[i].3 is Some,
    ensures
        replay_tags(m, entries, f, true) == m.union_prefer_right(entries_map(entries)),
    decreases entries.len(),
{
    if entries.len() == 0 {
        assert(m.union_prefer_right(Map::empty()) =~= m);
    } else {
        let pe = entries.drop_last();
        assert forall|i: int| 0 <= i < pe.len() implies (#[trigger] pe[i]).0 == f && pe[i].3 is Some by {
            assert(pe[i] == entries[i]);
        }
        lemma_replay_inserts(m, pe, f);
        let e = entries.last();
        assert(e == entries[entries.len() - 1]);
        assert(m.union_prefer_right(entries_map(pe)).insert(e.1@, e.3->0@) =~= m.union_prefer_right(
            entries_map(pe).insert(e.1@, e.3->0@),
        ));
    }
}

/// In entries with increasing keys, a key's value in `entries_map` is the
/// one of the entry with that key, and only their keys are there.
proof fn lemma_entries_map(entries: Seq<(FeatureRef, String, Option<String>, Option<String>)>)
    requires
        forall|i: int, j: int| 0 <= i < j < entries.len() ==> lex_lt(#[trigger] entries[i].1@, #[trigger] entries[j].1@),
    ensures
        forall|k: Seq<char>|
            #[trigger] entries_map(entries).contains_key(k) == exists|i: int| 0 <= i < entries.len() && (#[trigger] entries[i]).1@ == k,
        forall|i: int| 0 <= i < entries.len() ==> entries_map(entries)[(#[trigger] entries[i]).1@] == entries[i].3->0@,
    decreases entries.len(),
{
    if entries.len() > 0 {
        let pe = entries.drop_last();
        let n = entries.len() - 1;
        assert forall|i: int, j: int| 0 <= i < j < pe.len() implies lex_lt(#[trigger] pe[i].1@, #[trigger] pe[j].1@) by {
            assert(pe[i] == entries[i] && pe[j] == entries[j]);
        }
        lemma_entries_map(pe);
        let e = entries.last();
        assert(e == entries[n]);
        assert forall|k: Seq<char>|
            #[trigger] entries_map(entries).contains_key(k) == exists|i: int| 0 <= i < entries.len() && (#[trigger] entries[i]).1@ == k by {
            assert(entries_map(entries) == entries_map(pe).insert(e.1@, e.3->0@));
            if k == e.1@ {
                assert(entries[n].1@ == k);
            }
            if exists|i: int| 0 <= i < pe.len() && (#[trigger] pe[i]).1@ == k {
                let i = choose|i: int| 0 <= i < pe.len() && (#[trigger] pe[i]).1@ == k;
                assert(entries[i] == pe[i]);
            }
            if exists|i: int| 0 <= i < entries.len() && (#[trigger] entries[i]).1@ == k {
                let i = choose|i: int| 0 <= i < entries.len() && (#[trigger] entries[i]).1@ == k;
                if i < n {
                    assert(pe[i] == entries[i]);
                }
            }
        }
        assert forall|i: int| 0 <= i < entries.len() implies entries_map(entries)[(#[trigger] entries[i]).1@] == entries[i].3->0@ by {
            if i < n {
                assert(pe[i] == entries[i]);
                assert(lex_lt(entries[i].1@, entries[n].1@));
                lemma_lex_order(entries[i].1@, entries[n].1@, entries[n].1@);
            }
        }
    }
}

/// Preset key `k` changes the tags `m`: the preset `pm` has it, and `m`
/// lacks it or holds another value.
pub open spec fn preset_changes(m: Map<Seq<char>, Seq<char>>, pm: Map<Seq<char>, Seq<char>>, k: Seq<char>) -> bool {
    pm.contains_key(k) && !(m.contains_key(k) && m[k] == pm[k])
}

/// `entries` records applying the preset tags `pm` to feature `f` with
/// tags `m`: one entry per key the preset changes, in increasing key
/// order, each with the value before (none when the key was missing) and
/// the preset's value after.
pub open spec fn preset_records(
    entries: Seq<(FeatureRef, String, Option<String>, Option<String>)>,
    f: FeatureRef,
    m: Map<Seq<char>, Seq<char>>,
    pm: Map<Seq<char>, Seq<char>>,
) -> bool {
    &&& forall|i: int, j: int| 0 <= i < j < entries.len() ==> lex_lt(#[trigger] entries[i].1@, #[trigger] entries[j].1@)
    &&& forall|i: int|
        0 <= i < entries.len() ==> (#[trigger] entries[i]).0 == f && preset_changes(m, pm, entries[i].1@) && (entries[i].2 is Some
            == m.contains_key(entries[i].1@)) && (entries[i].2 is Some ==> entries[i].2->0@ == m[entries[i].1@]) && entries[i].3 is Some
            && entries[i].3->0@ == pm[entries[i].1@]
    &&& forall|k: Seq<char>| #[trigger] preset_changes(m, pm, k) ==> exists|i: int| 0 <= i < entries.len() && (#[trigger] entries[i]).1@ == k
}

/// What replaying a preset's records does: the feature gets the preset's
/// keys over its own tags, and every other feature keeps its tags.
proof fn lemma_preset_effect(
    before: Seq<LayerEntry<OsmLayer>>,
    after: Seq<LayerEntry<OsmLayer>>,
    target: FeatureRef,
    pm: Map<Seq<char>, Seq<char>>,
    entries: Seq<(FeatureRef, String, Option<String>, Option<String>)>,
)
    requires
        tagged(before, target),
        preset_records(entries, target, tags_on(before, target), pm),
        tags_replayed(before, after, entries, true),
    ensures
        forall|g: FeatureRef|
            #![trigger tags_on(after, g)]
            #![trigger tagged(before, g)]
            tagged(before, g) ==> tagged(after, g) && tags_on(after, g) == if g == target {
                tags_on(before, g).union_prefer_right(pm)
            } else {
                tags_on(before, g)
            },
{
    let st = choose|states: Seq<Seq<LayerEntry<OsmLayer>>>|
        #[trigger] tag_chain(states, entries, true) && states[0] == before && states.last() == after;
    let m = tags_on(before, target);
    assert forall|g: FeatureRef|
        #![trigger tags_on(after, g)]
        #![trigger tagged(before, g)]
        tagged(before, g) implies tagged(after, g) && tags_on(after, g) == if g == target {
            tags_on(before, g).union_prefer_right(pm)
        } else {
            tags_on(before, g)
        } by {
        lemma_tag_chain(st, entries, true, g);
        if g == target {
            lemma_replay_inserts(m, entries, target);
            lemma_entries_map(entries);
            let em = entries_map(entries);
            assert forall|k: Seq<char>| #[trigger] m.union_prefer_right(em).contains_key(k) == m.union_prefer_right(pm).contains_key(k)
                && (m.union_prefer_right(em).contains_key(k) ==> m.union_prefer_right(em)[k] == m.union_prefer_right(pm)[k]) by {
                if em.contains_key(k) {
                    let i = choose|i: int| 0 <= i < entries.len() && (#[trigger] entries[i]).1@ == k;
                    assert(preset_changes(m, pm, entries[i].1@));
                } else if pm.contains_key(k) {
                    if preset_changes(m, pm, k) {
                        let i = choose|i: int| 0 <= i < entries.len() && (#[trigger] entries[i]).1@ == k;
                    }
                }
            }
            assert(m.union_prefer_right(em) =~= m.union_prefer_right(pm));
        } else {
            lemma_replay_removes(tags_on(before, g), entries, g, Seq::empty(), true);
            if mentions(entries, g) {
                let i = choose|i: int| 0 <= i < entries.len() && (#[trigger] entries[i]).0 == g;
            }
        }
    }
}

/// The records of applying preset tags to feature `target` with the tags
/// `existing` (sorted by key): one per key whose value the preset changes,
/// in key order.
fn preset_entries(target: FeatureRef, existing: &Vec<(String, String)>, preset_tags: &Vec<(String, String)>) -> (r: Vec<
    (FeatureRef, String, Option<String>, Option<String>),
>)
    requires
        keys_increasing(existing@),
    ensures
        preset_records(r@, target, tag_map(existing@), tag_map(preset_tags@)),
{
    let ghost m = tag_map(existing@);
    let ghost pm = tag_map(preset_tags@);
    let sp = sorted_tags(preset_tags);
    let mut entries: Vec<(FeatureRef, String, Option<String>, Option<String>)> = Vec::new();
    let mut idx: usize = 0;
    while idx < sp.len()
        invariant
            idx <= sp@.len(),
            keys_increasing(sp@),
            tag_map(sp@) == pm,
            keys_increasing(existing@),
            tag_map(existing@) == m,
            forall|i: int, j: int| 0 <= i < j < entries@.len() ==> lex_lt(#[trigger] entries@[i].1@, #[trigger] entries@[j].1@),
            forall|i: int| 0 <= i < entries@.len() ==> exists|p: int| 0 <= p < idx && (#[trigger] entries@[i]).1@ == sp@[p].0@,
            forall|i: int|
                0 <= i < entries@.len() ==> (#[trigger] entries@[i]).0 == target && preset_changes(m, pm, entries@[i].1@) && (
                entries@[i].2 is Some == m.contains_key(entries@[i].1@)) && (entries@[i].2 is Some ==> entries@[i].2->0@
                    == m[entries@[i].1@]) && entries@[i].3 is Some && entries@[i].3->0@ == pm[entries@[i].1@],
            forall|p: int|
                0 <= p < idx && preset_changes(m, pm, (#[trigger] sp@[p]).0@) ==> exists|i: int|
                    0 <= i < entries@.len() && (#[trigger] entries@[i]).1@ == sp@[p].0@,
        decreases sp.len() - idx,
    {
        let key = &sp[idx].0;
        let value = &sp[idx].1;
        proof {
            lemma_sorted_get(sp@, key@);
            assert(table_get(table_view(sp@), key@) == Some(sp@[idx as int].1@));
        }
        let before = tag_value(&existing, key.as_str());
        let same = match &before {
            Some(b) => str_eq(b.as_str(), value.as_str()),
            None => false,
        };
        let ghost prev = entries@;
        if !same {
            entries.push((target, key.clone(), before, Some(value.clone())));
        }
        proof {
            assert(pm.contains_key(key@) && pm[key@] == value@);
            assert forall|i: int, j: int| 0 <= i < j < entries@.len() implies lex_lt(#[trigger] entries@[i].1@, #[trigger] entries@[j].1@) by {
                if j == prev.len() {
                    assert(entries@[i] == prev[i]);
                    let p = choose|p: int| 0 <= p < idx && (#[trigger] prev[i]).1@ == sp@[p].0@;
                    assert(lex_lt(sp@[p].0@, sp@[idx as int].0@));
                } else {
                    assert(entries@[i] == prev[i] && entries@[j] == prev[j]);
                }
            }
            assert forall|i: int| 0 <= i < entries@.len() implies exists|p: int| 0 <= p < idx + 1 && (#[trigger] entries@[i]).1@ == sp@[p].0@ by {
                if i < prev.len() {
                    assert(entries@[i] == prev[i]);
                    let p = choose|p: int| 0 <= p < idx && (#[trigger] prev[i]).1@ == sp@[p].0@;
                } else {
                    assert(entries@[i].1@ == sp@[idx as int].0@);
                }
            }
            assert forall|i: int|
                0 <= i < entries@.len() implies (#[trigger] entries@[i]).0 == target && preset_changes(m, pm, entries@[i].1@) && (
                entries@[i].2 is Some == m.contains_key(entries@[i].1@)) && (entries@[i].2 is Some ==> entries@[i].2->0@
                    == m[entries@[i].1@]) && entries@[i].3 is Some && entries@[i].3->0@ == pm[entries@[i].1@] by {
                if i < prev.len() {
                    assert(entries@[i] == prev[i]);
                }
            }
            assert forall|p: int|
                0 <= p < idx + 1 && preset_changes(m, pm, (#[trigger] sp@[p]).0@) implies exists|i: int|
                    0 <= i < entries@.len() && (#[trigger] entries@[i]).1@ == sp@[p].0@ by {
                if p < idx {
                    let i = choose|i: int| 0 <= i < prev.len() && (#[trigger] prev[i]).1@ == sp@[p].0@;
                    assert(entries@[i] == prev[i]);
                } else {
                    assert(entries@[prev.len() as int].1@ == sp@[p].0@);
                }
            }
        }
        idx = idx + 1;
    }
    proof {
        assert forall|k: Seq<char>| #[trigger] preset_changes(m, pm, k) implies exists|i: int|
            0 <= i < entries@.len() && (#[trigger] entries@[i]).1@ == k by {
            lemma_sorted_get(sp@, k);
            let p = choose|p: int| 0 <= p < sp@.len() && (#[trigger] sp@[p]).0@ == k;
        }
        assert(preset_records(entries@, target, m, pm));
    }
    entries
}

/// Applies preset tags (as a name-suggestion or preset pick gives them,
/// the last of two entries for one key winning) to the feature `target`
/// as one edit: each preset key is set to the preset's value, other tags
/// are left as they are and none is removed. Returns the tag edit that
/// undoes it: one entry per key whose value changes, in key order; `None`,
/// with nothing changed, when the feature is not on its layer or the preset
/// changes nothing.
pub fn apply_nsi_preset(layers: &mut LayerManager<OsmLayer>, target: FeatureRef, preset_tags: &Vec<(String, String)>) -> (r:
    Option<UndoableAction>)
    requires
        all_wf(old(layers).entries()),
    ensures
        all_wf(final(layers).entries()),
        final(layers).next_id() == old(layers).next_id(),
        r is None ==> final(layers).entries() == old(layers).entries(),
        r is None && tagged(old(layers).entries(), target) ==> forall|k: Seq<char>|
            !#[trigger] preset_changes(tags_on(old(layers).entries(), target), tag_map(preset_tags@), k),
        r is Some ==> (r matches Some(UndoableAction::SetTags { entries }) && tagged(old(layers).entries(), target)
            && entries@.len() > 0 && preset_records(
            entries@,
            target,
            tags_on(old(layers).entries(), target),
            tag_map(preset_tags@),
        ) && tags_replayed(old(layers).entries(), final(layers).entries(), entries@, true)),
        forall|g: FeatureRef|
            #![trigger tags_on(final(layers).entries(), g)]
            #![trigger tagged(old(layers).entries(), g)]
            tagged(old(layers).entries(), g) ==> tagged(final(layers).entries(), g) && tags_on(final(layers).entries(), g) == if g
                == target {
                tags_on(old(layers).entries(), g).union_prefer_right(tag_map(preset_tags@))
            } else {
                tags_on(old(layers).entries(), g)
            },
{
    let ghost ls = layers.entries();
    let ghost pm = tag_map(preset_tags@);
    proof {
        lemma_first_index_found(ls, target.layer_id);
    }
    let existing = match layers.find_layer(target.layer_id) {
        Some(e) => {
            proof {
                let k = choose|k: int|
                    0 <= k < ls.len() && ls[k] == *e && e.id == target.layer_id && forall|j: int|
                        0 <= j < k ==> (#[trigger] ls[j]).id != target.layer_id;
                lemma_first_index(ls, target.layer_id, k);
            }
            match e.layer.feature_tags(&target) {
                Some(t) => t,
                None => {
                    return None;
                },
            }
        },
        None => {
            proof {
                lemma_first_index(ls, target.layer_id, -1);
            }
            return None;
        },
    };
    let ghost m = tags_on(ls, target);
    assert(tagged(ls, target));
    let entries = preset_entries(target, &existing, preset_tags);
    if entries.len() == 0 {
        proof {
            assert(tag_chain(seq![ls], entries@, true));
            lemma_preset_effect(ls, ls, target, pm, entries@);
        }
        return None;
    }
    let action = UndoableAction::SetTags { entries };
    apply_undo_action(layers, &action, true);
    proof {
        lemma_preset_effect(ls, layers.entries(), target, pm, entries@);
    }
    Some(action)
}

/// Replaying backward entries (with increasing keys) that record, for each
/// key, what `m` held there, gives each of their keys back its state in
/// `m`, and leaves the other keys of `m1` as they were.
proof fn lemma_replay_resets(
    m1: Map<Seq<char>, Seq<char>>,
    m: Map<Seq<char>, Seq<char>>,
    entries: Seq<(FeatureRef, String, Option<String>, Option<String>)>,
    f: FeatureRef,
)
    requires
        forall|i: int, j: int| 0 <= i < j < entries.len() ==> lex_lt(#[trigger] entries[i].1@, #[trigger] entries[j].1@),
        forall|i: int|
            0 <= i < entries.len() ==> (#[trigger] entries[i]).0 == f && (entries[i].2 is Some == m.contains_key(entries[i].1@)) && (
            entries[i].2 is Some ==> entries[i].2->0@ == m[entries[i].1@]),
    ensures
        forall|k: Seq<char>|
            #![trigger replay_tags(m1, entries, f, false).contains_key(k)]
            (exists|i: int| 0 <= i < entries.len() && (#[trigger] entries[i]).1@ == k) ==> (replay_tags(m1, entries, f, false).contains_key(k)
                == m.contains_key(k) && (m.contains_key(k) ==> replay_tags(m1, entries, f, false)[k] == m[k])),
        forall|k: Seq<char>|
            #![trigger replay_tags(m1, entries, f, false).contains_key(k)]
            !(exists|i: int| 0 <= i < entries.len() && (#[trigger] entries[i]).1@ == k) ==> (replay_tags(m1, entries, f, false).contains_key(
                k,
            ) == m1.contains_key(k) && (m1.contains_key(k) ==> replay_tags(m1, entries, f, false)[k] == m1[k])),
    decreases entries.len(),
{
    if entries.len() > 0 {
        let n = entries.len() - 1;
        let pe = entries.drop_last();
        assert forall|i: int, j: int| 0 <= i < j < pe.len() implies lex_lt(#[trigger] pe[i].1@, #[trigger] pe[j].1@) by {
            assert(pe[i] == entries[i] && pe[j] == entries[j]);
        }
        assert forall|i: int|
            0 <= i < pe.len() implies (#[trigger] pe[i]).0 == f && (pe[i].2 is Some == m.contains_key(pe[i].1@)) && (pe[i].2 is Some
                ==> pe[i].2->0@ == m[pe[i].1@]) by {
            assert(pe[i] == entries[i]);
        }
        lemma_replay_resets(m1, m, pe, f);
        let e = entries.last();
        assert(e == entries[n]);
        let p = replay_tags(m1, pe, f, false);
        let r = replay_tags(m1, entries, f, false);
        assert(r == tag_step(p, e, f, false));
        assert forall|k: Seq<char>|
            #![trigger r.contains_key(k)]
            (exists|i: int| 0 <= i < entries.len() && (#[trigger] entries[i]).1@ == k) ==> (r.contains_key(k) == m.contains_key(k) && (
            m.contains_key(k) ==> r[k] == m[k])) by {
            if exists|i: int| 0 <= i < entries.len() && (#[trigger] entries[i]).1@ == k {
                if k != e.1@ {
                    let i = choose|i: int| 0 <= i < entries.len() && (#[trigger] entries[i]).1@ == k;
                    assert(pe[i] == entries[i]);
                    assert(p.contains_key(k) == m.contains_key(k));
                }
            }
        }
        assert forall|k: Seq<char>|
            #![trigger r.contains_key(k)]
            !(exists|i: int| 0 <= i < entries.len() && (#[trigger] entries[i]).1@ == k) ==> (r.contains_key(k) == m1.contains_key(k) && (
            m1.contains_key(k) ==> r[k] == m1[k])) by {
            if !(exists|i: int| 0 <= i < entries.len() && (#[trigger] entries[i]).1@ == k) {
                assert(entries[n].1@ != k);
                if exists|i: int| 0 <= i < pe.len() && (#[trigger] pe[i]).1@ == k {
                    let i = choose|i: int| 0 <= i < pe.len() && (#[trigger] pe[i]).1@ == k;
                    assert(entries[i] == pe[i]);
                }
                assert(p.contains_key(k) == m1.contains_key(k));
            }
        }
    }
}

/// Undoing a preset gives the tags back: after a preset's records (made
/// from the layers `before`) took them to `applied`, undoing the records
/// (to `restored`) leaves every feature that was on its layer with the
/// same tags, as a map, as in `before`.
pub proof fn law_undo_of_preset(
    before: Seq<LayerEntry<OsmLayer>>,
    applied: Seq<LayerEntry<OsmLayer>>,
    restored: Seq<LayerEntry<OsmLayer>>,
    target: FeatureRef,
    pm: Map<Seq<char>, Seq<char>>,
    entries: Seq<(FeatureRef, String, Option<String>, Option<String>)>,
)
    requires
        tagged(before, target),
        preset_records(entries, target, tags_on(before, target), pm),
        tags_replayed(before, applied, entries, true),
        tags_replayed(applied, restored, entries, false),
    ensures
        forall|f: FeatureRef|
            #![trigger tags_on(restored, f)]
            #![trigger tagged(before, f)]
            tagged(before, f) ==> tagged(restored, f) && tags_on(restored, f) == tags_on(before, f),
{
    lemma_preset_effect(before, applied, target, pm, entries);
    let s2 = choose|states: Seq<Seq<LayerEntry<OsmLayer>>>|
        #[trigger] tag_chain(states, entries, false) && states[0] == applied && states.last() == restored;
    let m = tags_on(before, target);
    assert forall|f: FeatureRef|
        #![trigger tags_on(restored, f)]
        #![trigger tagged(before, f)]
        tagged(before, f) implies tagged(restored, f) && tags_on(restored, f) == tags_on(before, f) by {
        assert(tagged(applied, f));
        lemma_tag_chain(s2, entries, false, f);
        if f == target {
            let m1 = m.union_prefer_right(pm);
            lemma_replay_resets(m1, m, entries, target);
            let r = replay_tags(m1, entries, target, false);
            assert forall|k: Seq<char>| #[trigger] r.contains_key(k) == m.contains_key(k) && (m.contains_key(k) ==> r[k] == m[k]) by {
                if !(exists|i: int| 0 <= i < entries.len() && (#[trigger] entries[i]).1@ == k) {
                    if preset_changes(m, pm, k) {
                        let i = choose|i: int| 0 <= i < entries.len() && (#[trigger] entries[i]).1@ == k;
                    }
                }
            }
            assert(r =~= m);
        } else {
            lemma_replay_removes(tags_on(applied, f), entries, f, Seq::empty(), false);
            if mentions(entries, f) {
                let i = choose|i: int| 0 <= i < entries.len() && (#[trigger] entries[i]).0 == f;
            }
        }
    }
}

} // verus!
