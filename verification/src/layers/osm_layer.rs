//! The data side of an editable OSM layer: id allocation for new nodes,
//! tag and position edits, and reconciling the data with the ids and
//! versions an upload was answered with.

use vstd::prelude::*;

use std::collections::HashMap;

use crate::layers::diff::{
    created_node_ids, created_way_ids, deleted_node_ids, deleted_way_ids, diff_osm_data, diffs, key_list, keep,
    law_unchanged_data_has_empty_diff, lemma_keep, modified_node_ids, modified_way_ids, LayerDiff,
};
use crate::layers::LayerId;
use crate::osm::{copy_ids, copy_tags, keys_increasing, sorted_tags, tag_map, Coord, NodeView, OsmData, OsmNode, OsmWay, WayView};
use crate::text::{decimal, push_decimal, str_eq};

verus! {

/// Whether a feature is a node or a way.
#[derive(Debug, Clone, Copy, PartialEq, Eq, Hash, Structural)]
pub enum FeatureKind {
    Node,
    Way,
}

/// A node or way of a layer.
#[derive(Debug, Clone, Copy, PartialEq, Eq, Structural)]
pub struct FeatureRef {
    pub layer_id: LayerId,
    pub kind: FeatureKind,
    pub id: i64,
}

/// What the server answered an upload with: for every uploaded node and
/// way, by the id it was uploaded under, its (possibly new) id and its new
/// version.
#[derive(Debug, Clone)]
pub struct UploadResult {
    pub node_id_remap: HashMap<i64, (i64, i32)>,
    pub way_id_remap: HashMap<i64, (i64, i32)>,
}

impl UploadResult {
    /// A result with no remapped element.
    pub fn new() -> (r: Self)
        ensures
            r.node_id_remap@ == Map::<i64, (i64, i32)>::empty(),
            r.way_id_remap@ == Map::<i64, (i64, i32)>::empty(),
    {
        UploadResult { node_id_remap: HashMap::new(), way_id_remap: HashMap::new() }
    }
}

impl Default for UploadResult {
    fn default() -> (r: Self)
        ensures
            r.node_id_remap@ == Map::<i64, (i64, i32)>::empty(),
            r.way_id_remap@ == Map::<i64, (i64, i32)>::empty(),
    {
        UploadResult::new()
    }
}

/// Whether `r` is the first id to hand out to a new node given the ids
/// `ids` in use: one below the most negative of them, or -1 when none is
/// negative.
pub open spec fn is_next_new_id(ids: Set<i64>, r: i64) -> bool {
    &&& r < 0
    &&& forall|k: i64| #[trigger] ids.contains(k) ==> r < k
    &&& r == -1 || ids.contains((r + 1) as i64)
}

/// The first id to hand out to a new node: one below the most negative
/// existing node id, or -1 when no existing id is negative.
pub fn compute_next_new_id(data: &OsmData) -> (r: i64)
    requires
        !data.nodes@.contains_key(i64::MIN),
    ensures
        is_next_new_id(data.nodes@.dom(), r),
{
    let keys = key_list(&data.nodes);
    let mut min_existing: i64 = 0;
    let mut i: usize = 0;
    while i < keys.len()
        invariant
            i <= keys@.len(),
            keys@.to_set() == data.nodes@.dom(),
            !data.nodes@.contains_key(i64::MIN),
            min_existing <= 0,
            forall|j: int| 0 <= j < i ==> min_existing <= #[trigger] keys@[j],
            min_existing == 0 || data.nodes@.contains_key(min_existing),
        decreases keys.len() - i,
    {
        assert(keys@.to_set().contains(keys@[i as int]));
        if keys[i] < min_existing {
            min_existing = keys[i];
        }
        i = i + 1;
    }
    proof {
        assert forall|k: i64| #[trigger] data.nodes@.contains_key(k) implies min_existing <= k by {
            assert(keys@.to_set().contains(k));
            let j = choose|j: int| 0 <= j < keys@.len() && keys@[j] == k;
        }
    }
    if min_existing < 0 {
        min_existing - 1
    } else {
        -1
    }
}

/// Sets `key` to `value` in a tag list.
pub fn set_tag_in(tags: &mut Vec<(String, String)>, key: &str, value: &str)
    ensures
        tag_map(final(tags)@) == tag_map(old(tags)@).insert(key@, value@),
{
    let ghost before = tags@;
    tags.push((key.to_owned(), value.to_owned()));
    proof {
        let tv = crate::settings::table_view(tags@);
        assert(tv.drop_last() =~= crate::settings::table_view(before));
        assert(tv.last() == (key@, value@));
        assert forall|k: Seq<char>| #[trigger] crate::settings::table_get(tv, k) == if k == key@ {
            Some(value@)
        } else {
            crate::settings::table_get(crate::settings::table_view(before), k)
        } by {}
        assert(tag_map(tags@) =~= tag_map(before).insert(key@, value@));
    }
}

/// Removes `key` from a tag list.
pub fn remove_tag_in(tags: &mut Vec<(String, String)>, key: &str)
    ensures
        tag_map(final(tags)@) == tag_map(old(tags)@).remove(key@),
{
    let ghost before = crate::settings::table_view(tags@);
    let mut kept: Vec<(String, String)> = Vec::new();
    let mut i: usize = 0;
    while i < tags.len()
        invariant
            i <= tags@.len(),
            before == crate::settings::table_view(tags@),
            forall|k: Seq<char>| #[trigger] crate::settings::table_get(crate::settings::table_view(kept@), k)
                == if k == key@ {
                    None
                } else {
                    crate::settings::table_get(before.take(i as int), k)
                },
        decreases tags.len() - i,
    {
        let ghost kv = crate::settings::table_view(kept@);
        assert(before.take(i + 1).drop_last() =~= before.take(i as int));
        assert(before.take(i + 1).last() == (tags@[i as int].0@, tags@[i as int].1@));
        let ghost e = (tags@[i as int].0@, tags@[i as int].1@);
        if !str_eq(tags[i].0.as_str(), key) {
            kept.push((tags[i].0.clone(), tags[i].1.clone()));
            let ghost nv = crate::settings::table_view(kept@);
            assert(nv.drop_last() =~= kv);
            assert(nv.last() == e);
            assert forall|k: Seq<char>| #[trigger] crate::settings::table_get(nv, k) == if k == key@ {
                None
            } else {
                crate::settings::table_get(before.take(i + 1), k)
            } by {
                assert(crate::settings::table_get(kv, k) == if k == key@ {
                    None
                } else {
                    crate::settings::table_get(before.take(i as int), k)
                });
            }
        } else {
            assert forall|k: Seq<char>| #[trigger] crate::settings::table_get(kv, k) == if k == key@ {
                None
            } else {
                crate::settings::table_get(before.take(i + 1), k)
            } by {
                assert(crate::settings::table_get(kv, k) == if k == key@ {
                    None
                } else {
                    crate::settings::table_get(before.take(i as int), k)
                });
            }
        }
        i = i + 1;
    }
    assert(before.take(tags@.len() as int) =~= before);
    *tags = kept;
    proof {
        assert(tag_map(tags@) =~= tag_map(old(tags)@).remove(key@));
    }
}

/// The views of a node map.
pub open spec fn nodes_view(m: Map<i64, OsmNode>) -> Map<i64, NodeView> {
    m.map_values(|n: OsmNode| n@)
}

/// The views of a way map.
pub open spec fn ways_view(m: Map<i64, OsmWay>) -> Map<i64, WayView> {
    m.map_values(|w: OsmWay| w@)
}

/// Whether `d` has the node or way `id`.
pub open spec fn has_feature(d: OsmData, kind: FeatureKind, id: i64) -> bool {
    match kind {
        FeatureKind::Node => d.nodes@.contains_key(id),
        FeatureKind::Way => d.ways@.contains_key(id),
    }
}

/// `after` is `before` with the tags of feature `id` replaced by `tags`
/// (and nothing else changed) when the feature exists, `before` unchanged
/// otherwise.
pub open spec fn retagged(before: OsmData, after: OsmData, kind: FeatureKind, id: i64, tags: Seq<(String, String)>) -> bool {
    match kind {
        FeatureKind::Node => after.ways@ == before.ways@ && if before.nodes@.contains_key(id) {
            nodes_view(after.nodes@) == nodes_view(before.nodes@).insert(id, NodeView { tags, ..before.nodes@[id]@ })
        } else {
            after.nodes@ == before.nodes@
        },
        FeatureKind::Way => after.nodes@ == before.nodes@ && if before.ways@.contains_key(id) {
            ways_view(after.ways@) == ways_view(before.ways@).insert(id, WayView { tags, ..before.ways@[id]@ })
        } else {
            after.ways@ == before.ways@
        },
    }
}

/// The tags of feature `id` in `d`.
pub open spec fn tags_of(d: OsmData, kind: FeatureKind, id: i64) -> Seq<(String, String)> {
    match kind {
        FeatureKind::Node => d.nodes@[id].tags@,
        FeatureKind::Way => d.ways@[id].tags@,
    }
}

/// `after` is `before` with tag `key` of feature `id` set to `value`
/// (when the feature exists).
pub open spec fn tag_set_on(before: OsmData, after: OsmData, kind: FeatureKind, id: i64, key: Seq<char>, value: Seq<char>) -> bool {
    &&& retagged(before, after, kind, id, tags_of(after, kind, id))
    &&& has_feature(before, kind, id) ==> tag_map(tags_of(after, kind, id)) == tag_map(tags_of(before, kind, id)).insert(key, value)
}

/// `after` is `before` with tag `key` of feature `id` removed (when the
/// feature exists).
pub open spec fn tag_removed_on(before: OsmData, after: OsmData, kind: FeatureKind, id: i64, key: Seq<char>) -> bool {
    &&& retagged(before, after, kind, id, tags_of(after, kind, id))
    &&& has_feature(before, kind, id) ==> tag_map(tags_of(after, kind, id)) == tag_map(tags_of(before, kind, id)).remove(key)
}

impl OsmData {
    /// Sets a tag on the node or way `id`; `false` (and no change) when
    /// there is no such feature.
    pub fn set_tag(&mut self, kind: FeatureKind, id: i64, key: &str, value: &str) -> (found: bool)
        requires
            old(self).wf(),
        ensures
            final(self).wf(),
            found == has_feature(*old(self), kind, id),
            tag_set_on(*old(self), *final(self), kind, id, key@, value@),
    {
        match kind {
            FeatureKind::Node => match self.nodes.remove(&id) {
                Some(mut node) => {
                    set_tag_in(&mut node.tags, key, value);
                    self.nodes.insert(id, node);
                    proof {
                        assert(nodes_view(self.nodes@) =~= nodes_view(old(self).nodes@).insert(id, NodeView {
                            tags: self.nodes@[id].tags@,
                            ..old(self).nodes@[id]@
                        }));
                    }
                    true
                },
                None => {
                    assert(self.nodes@ =~= old(self).nodes@);
                    false
                },
            },
            FeatureKind::Way => match self.ways.remove(&id) {
                Some(mut way) => {
                    set_tag_in(&mut way.tags, key, value);
                    self.ways.insert(id, way);
                    proof {
                        assert(ways_view(self.ways@) =~= ways_view(old(self).ways@).insert(id, WayView {
                            tags: self.ways@[id].tags@,
                            ..old(self).ways@[id]@
                        }));
                    }
                    true
                },
                None => {
                    assert(self.ways@ =~= old(self).ways@);
                    false
                },
            },
        }
    }

    /// Removes a tag from the node or way `id`; `false` (and no change)
    /// when there is no such feature.
    pub fn remove_tag(&mut self, kind: FeatureKind, id: i64, key: &str) -> (found: bool)
        requires
            old(self).wf(),
        ensures
            final(self).wf(),
            found == has_feature(*old(self), kind, id),
            tag_removed_on(*old(self), *final(self), kind, id, key@),
    {
        match kind {
            FeatureKind::Node => match self.nodes.remove(&id) {
                Some(mut node) => {
                    remove_tag_in(&mut node.tags, key);
                    self.nodes.insert(id, node);
                    proof {
                        assert(nodes_view(self.nodes@) =~= nodes_view(old(self).nodes@).insert(id, NodeView {
                            tags: self.nodes@[id].tags@,
                            ..old(self).nodes@[id]@
                        }));
                    }
                    true
                },
                None => {
                    assert(self.nodes@ =~= old(self).nodes@);
                    false
                },
            },
            FeatureKind::Way => match self.ways.remove(&id) {
                Some(mut way) => {
                    remove_tag_in(&mut way.tags, key);
                    self.ways.insert(id, way);
                    proof {
                        assert(ways_view(self.ways@) =~= ways_view(old(self).ways@).insert(id, WayView {
                            tags: self.ways@[id].tags@,
                            ..old(self).ways@[id]@
                        }));
                    }
                    true
                },
                None => {
                    assert(self.ways@ =~= old(self).ways@);
                    false
                },
            },
        }
    }
}

/// Renumbering step: the node `u.0`, if present, gets id `u.1` and version
/// `u.2` and is stored under its new id.
pub open spec fn renumber_node(m: Map<i64, NodeView>, u: (i64, i64, i32)) -> Map<i64, NodeView> {
    if m.contains_key(u.0) {
        m.remove(u.0).insert(u.1, NodeView { id: u.1, version: u.2, ..m[u.0] })
    } else {
        m
    }
}

/// The nodes after the renumbering steps `ups`, in order.
pub open spec fn renumber_nodes(m: Map<i64, NodeView>, ups: Seq<(i64, i64, i32)>) -> Map<i64, NodeView>
    decreases ups.len(),
{
    if ups.len() == 0 {
        m
    } else {
        renumber_node(renumber_nodes(m, ups.drop_last()), ups.last())
    }
}

/// Renumbering step for ways.
pub open spec fn renumber_way(m: Map<i64, WayView>, u: (i64, i64, i32)) -> Map<i64, WayView> {
    if m.contains_key(u.0) {
        m.remove(u.0).insert(u.1, WayView { id: u.1, version: u.2, ..m[u.0] })
    } else {
        m
    }
}

/// The ways after the renumbering steps `ups`, in order.
pub open spec fn renumber_ways(m: Map<i64, WayView>, ups: Seq<(i64, i64, i32)>) -> Map<i64, WayView>
    decreases ups.len(),
{
    if ups.len() == 0 {
        m
    } else {
        renumber_way(renumber_ways(m, ups.drop_last()), ups.last())
    }
}

/// The old ids of a list of renumbering steps.
pub open spec fn olds(ups: Seq<(i64, i64, i32)>) -> Seq<i64> {
    ups.map_values(|u: (i64, i64, i32)| u.0)
}

/// Whether `ups` holds one renumbering step, as the remap gives it, for
/// every remapped id that is present, and no other.
pub open spec fn steps_for(ups: Seq<(i64, i64, i32)>, remap: Map<i64, (i64, i32)>, present: Set<i64>) -> bool {
    &&& crate::layers::diff::lists_exactly(olds(ups), remap.dom().intersect(present))
    &&& forall|i: int| 0 <= i < ups.len() ==> remap[(#[trigger] ups[i]).0] == (ups[i].1, ups[i].2)
}

/// The new id of every remapped node that was present.
pub open spec fn node_id_map(remap: Map<i64, (i64, i32)>, present: Set<i64>) -> Map<i64, i64> {
    Map::new(|k: i64| remap.contains_key(k) && present.contains(k), |k: i64| remap[k].0)
}

/// A way's member ids after renumbering nodes.
pub open spec fn renumbered_members(nodes: Seq<i64>, idm: Map<i64, i64>) -> Seq<i64> {
    nodes.map_values(|n: i64| if idm.contains_key(n) {
        idm[n]
    } else {
        n
    })
}

/// Every way with its member ids renumbered.
pub open spec fn renumber_members(ways: Map<i64, WayView>, idm: Map<i64, i64>) -> Map<i64, WayView> {
    ways.map_values(|w: WayView| WayView { nodes: renumbered_members(w.nodes, idm), ..w })
}

/// The node renumbering steps: one for every remapped node id present.
fn remap_steps(remap: &HashMap<i64, (i64, i32)>, present: &HashMap<i64, OsmNode>) -> (r: Vec<(i64, i64, i32)>)
    ensures
        steps_for(r@, remap@, present@.dom()),
{
    let ghost pd = |k: i64| present@.contains_key(k);
    let keys = key_list(remap);
    let mut out: Vec<(i64, i64, i32)> = Vec::new();
    let mut i: usize = 0;
    while i < keys.len()
        invariant
            i <= keys@.len(),
            keys@.no_duplicates(),
            keys@.to_set() == remap@.dom(),
            forall|k: i64| #[trigger] pd(k) == present@.contains_key(k),
            olds(out@) == keep(keys@.take(i as int), pd),
            forall|j: int| 0 <= j < out@.len() ==> remap@[(#[trigger] out@[j]).0] == (out@[j].1, out@[j].2),
        decreases keys.len() - i,
    {
        let k = keys[i];
        assert(keys@.take(i + 1).drop_last() =~= keys@.take(i as int));
        assert(keys@.take(i + 1).last() == k);
        assert(keys@.to_set().contains(k));
        if present.contains_key(&k) {
            let (new_id, ver) = *remap.get(&k).unwrap();
            let ghost before = olds(out@);
            out.push((k, new_id, ver));
            assert(olds(out@) =~= before.push(k));
        }
        i = i + 1;
    }
    proof {
        assert(keys@.take(keys@.len() as int) =~= keys@);
        lemma_keep(keys@, pd);
        assert(keys@.to_set().filter(pd) =~= remap@.dom().intersect(present@.dom()));
    }
    out
}

/// The way renumbering steps: one for every remapped way id present.
fn way_remap_steps(remap: &HashMap<i64, (i64, i32)>, present: &HashMap<i64, OsmWay>) -> (r: Vec<(i64, i64, i32)>)
    ensures
        steps_for(r@, remap@, present@.dom()),
{
    let ghost pd = |k: i64| remap@.contains_key(k);
    let keys = key_list(present);
    let mut out: Vec<(i64, i64, i32)> = Vec::new();
    let mut i: usize = 0;
    while i < keys.len()
        invariant
            i <= keys@.len(),
            keys@.no_duplicates(),
            keys@.to_set() == present@.dom(),
            forall|k: i64| #[trigger] pd(k) == remap@.contains_key(k),
            olds(out@) == keep(keys@.take(i as int), pd),
            forall|j: int| 0 <= j < out@.len() ==> remap@[(#[trigger] out@[j]).0] == (out@[j].1, out@[j].2),
        decreases keys.len() - i,
    {
        let k = keys[i];
        assert(keys@.take(i + 1).drop_last() =~= keys@.take(i as int));
        assert(keys@.take(i + 1).last() == k);
        match remap.get(&k) {
            Some(entry) => {
                let (new_id, ver) = *entry;
                let ghost before = olds(out@);
                out.push((k, new_id, ver));
                assert(olds(out@) =~= before.push(k));
            },
            None => {},
        }
        i = i + 1;
    }
    proof {
        assert(keys@.take(keys@.len() as int) =~= keys@);
        lemma_keep(keys@, pd);
        assert(keys@.to_set().filter(pd) =~= remap@.dom().intersect(present@.dom()));
    }
    out
}

/// `after` is `before` reconciled with an upload's answer: the node
/// renumbering steps, the members of every way renumbered, then the way
/// renumbering steps (each list in the order its remap was walked).
pub open spec fn reconciled(before: OsmData, result: UploadResult, after: OsmData) -> bool {
    exists|nups: Seq<(i64, i64, i32)>, wups: Seq<(i64, i64, i32)>|
        {
            &&& #[trigger] steps_for(nups, result.node_id_remap@, before.nodes@.dom())
            &&& #[trigger] steps_for(wups, result.way_id_remap@, before.ways@.dom())
            &&& nodes_view(after.nodes@) == renumber_nodes(nodes_view(before.nodes@), nups)
            &&& ways_view(after.ways@) == renumber_ways(
                renumber_members(ways_view(before.ways@), node_id_map(result.node_id_remap@, before.nodes@.dom())),
                wups,
            )
        }
}

/// An upload's answer renumbers cleanly over the ids `present`: no two
/// present elements get the same new id, and no present element is given
/// the id of another present element.
pub open spec fn clean_remap(remap: Map<i64, (i64, i32)>, present: Set<i64>) -> bool {
    &&& forall|a: i64, b: i64|
        #![trigger remap[a], remap[b]]
        remap.contains_key(a) && present.contains(a) && remap.contains_key(b) && present.contains(b) && a != b ==> remap[a].0
            != remap[b].0
    &&& forall|a: i64|
        #![trigger remap[a]]
        remap.contains_key(a) && present.contains(a) && present.contains(remap[a].0) ==> remap[a].0 == a
}

/// Some step of `ups` renumbers `k`.
pub open spec fn step_from(ups: Seq<(i64, i64, i32)>, k: i64) -> bool {
    exists|i: int| 0 <= i < ups.len() && (#[trigger] ups[i]).0 == k
}

/// Some step of `ups` gives the id `k`.
pub open spec fn step_to(ups: Seq<(i64, i64, i32)>, k: i64) -> bool {
    exists|i: int| 0 <= i < ups.len() && (#[trigger] ups[i]).1 == k
}

/// Renumbering steps over distinct present elements with distinct new ids,
/// none taking another present element's id, move each stepped element to
/// its new id with its new version and leave the others where they were.
proof fn lemma_renumber_nodes_ids(m: Map<i64, NodeView>, ups: Seq<(i64, i64, i32)>)
    requires
        forall|i: int, j: int| 0 <= i < j < ups.len() ==> (#[trigger] ups[i]).0 != (#[trigger] ups[j]).0 && ups[i].1 != ups[j].1,
        forall|i: int| 0 <= i < ups.len() ==> m.contains_key((#[trigger] ups[i]).0),
        forall|i: int| 0 <= i < ups.len() && m.contains_key((#[trigger] ups[i]).1) ==> ups[i].1 == ups[i].0,
    ensures
        forall|i: int|
            0 <= i < ups.len() ==> renumber_nodes(m, ups).contains_key((#[trigger] ups[i]).1) && renumber_nodes(m, ups)[ups[i].1]
                == (NodeView { id: ups[i].1, version: ups[i].2, ..m[ups[i].0] }),
        forall|k: i64|
            m.contains_key(k) && !step_from(ups, k) ==> #[trigger] renumber_nodes(m, ups).contains_key(k) && renumber_nodes(m, ups)[k]
                == m[k],
        forall|k: i64| #[trigger] renumber_nodes(m, ups).contains_key(k) ==> (m.contains_key(k) && !step_from(ups, k)) || step_to(ups, k),
    decreases ups.len(),
{
    if ups.len() > 0 {
        let n = ups.len() - 1;
        let pe = ups.drop_last();
        assert forall|i: int, j: int| 0 <= i < j < pe.len() implies (#[trigger] pe[i]).0 != (#[trigger] pe[j]).0 && pe[i].1 != pe[j].1 by {
            assert(pe[i] == ups[i] && pe[j] == ups[j]);
        }
        assert forall|i: int| 0 <= i < pe.len() implies m.contains_key((#[trigger] pe[i]).0) by {
            assert(pe[i] == ups[i]);
        }
        assert forall|i: int| 0 <= i < pe.len() && m.contains_key((#[trigger] pe[i]).1) implies pe[i].1 == pe[i].0 by {
            assert(pe[i] == ups[i]);
        }
        lemma_renumber_nodes_ids(m, pe);
        let p = renumber_nodes(m, pe);
        let u = ups.last();
        assert(u == ups[n]);
        assert(!step_from(pe, u.0)) by {
            if step_from(pe, u.0) {
                let i = choose|i: int| 0 <= i < pe.len() && (#[trigger] pe[i]).0 == u.0;
                assert(pe[i] == ups[i]);
            }
        }
        assert(m.contains_key(u.0));
        assert(m.contains_key(u.0) && !step_from(pe, u.0));
        assert(renumber_nodes(m, pe).contains_key(u.0));
        assert(p.contains_key(u.0) && p[u.0] == m[u.0]);
        let r = renumber_nodes(m, ups);
        assert(r == p.remove(u.0).insert(u.1, NodeView { id: u.1, version: u.2, ..m[u.0] }));
        assert forall|i: int|
            0 <= i < ups.len() implies r.contains_key((#[trigger] ups[i]).1) && r[ups[i].1] == (NodeView {
                id: ups[i].1,
                version: ups[i].2,
                ..m[ups[i].0]
            }) by {
            if i < n {
                assert(pe[i] == ups[i]);
                if ups[i].1 == u.0 {
                    assert(u.0 == ups[i].0);
                }
            }
        }
        assert forall|k: i64| m.contains_key(k) && !step_from(ups, k) implies #[trigger] r.contains_key(k) && r[k] == m[k] by {
            if step_from(pe, k) {
                let i = choose|i: int| 0 <= i < pe.len() && (#[trigger] pe[i]).0 == k;
                assert(pe[i] == ups[i]);
            }
            assert(ups[n].0 != k);
            if k == u.1 {
                assert(m.contains_key(ups[n].1));
            }
        }
        assert forall|k: i64| #[trigger] r.contains_key(k) implies (m.contains_key(k) && !step_from(ups, k)) || step_to(ups, k) by {
            if k == u.1 {
                assert(ups[n].1 == k);
            } else {
                assert(p.contains_key(k) && k != u.0);
                if step_to(pe, k) {
                    let i = choose|i: int| 0 <= i < pe.len() && (#[trigger] pe[i]).1 == k;
                    assert(ups[i] == pe[i]);
                } else {
                    if step_from(ups, k) {
                        let i = choose|i: int| 0 <= i < ups.len() && (#[trigger] ups[i]).0 == k;
                        if i < n {
                            assert(pe[i] == ups[i]);
                        }
                    }
                }
            }
        }
    }
}

/// The way form of `lemma_renumber_nodes_ids`.
proof fn lemma_renumber_ways_ids(m: Map<i64, WayView>, ups: Seq<(i64, i64, i32)>)
    requires
        forall|i: int, j: int| 0 <= i < j < ups.len() ==> (#[trigger] ups[i]).0 != (#[trigger] ups[j]).0 && ups[i].1 != ups[j].1,
        forall|i: int| 0 <= i < ups.len() ==> m.contains_key((#[trigger] ups[i]).0),
        forall|i: int| 0 <= i < ups.len() && m.contains_key((#[trigger] ups[i]).1) ==> ups[i].1 == ups[i].0,
    ensures
        forall|i: int|
            0 <= i < ups.len() ==> renumber_ways(m, ups).contains_key((#[trigger] ups[i]).1) && renumber_ways(m, ups)[ups[i].1]
                == (WayView { id: ups[i].1, version: ups[i].2, ..m[ups[i].0] }),
        forall|k: i64|
            m.contains_key(k) && !step_from(ups, k) ==> #[trigger] renumber_ways(m, ups).contains_key(k) && renumber_ways(m, ups)[k]
                == m[k],
        forall|k: i64| #[trigger] renumber_ways(m, ups).contains_key(k) ==> (m.contains_key(k) && !step_from(ups, k)) || step_to(ups, k),
    decreases ups.len(),
{
    if ups.len() > 0 {
        let n = ups.len() - 1;
        let pe = ups.drop_last();
        assert forall|i: int, j: int| 0 <= i < j < pe.len() implies (#[trigger] pe[i]).0 != (#[trigger] pe[j]).0 && pe[i].1 != pe[j].1 by {
            assert(pe[i] == ups[i] && pe[j] == ups[j]);
        }
        assert forall|i: int| 0 <= i < pe.len() implies m.contains_key((#[trigger] pe[i]).0) by {
            assert(pe[i] == ups[i]);
        }
        assert forall|i: int| 0 <= i < pe.len() && m.contains_key((#[trigger] pe[i]).1) implies pe[i].1 == pe[i].0 by {
            assert(pe[i] == ups[i]);
        }
        lemma_renumber_ways_ids(m, pe);
        let p = renumber_ways(m, pe);
        let u = ups.last();
        assert(u == ups[n]);
        assert(!step_from(pe, u.0)) by {
            if step_from(pe, u.0) {
                let i = choose|i: int| 0 <= i < pe.len() && (#[trigger] pe[i]).0 == u.0;
                assert(pe[i] == ups[i]);
            }
        }
        assert(m.contains_key(u.0));
        assert(m.contains_key(u.0) && !step_from(pe, u.0));
        assert(renumber_ways(m, pe).contains_key(u.0));
        assert(p.contains_key(u.0) && p[u.0] == m[u.0]);
        let r = renumber_ways(m, ups);
        assert(r == p.remove(u.0).insert(u.1, WayView { id: u.1, version: u.2, ..m[u.0] }));
        assert forall|i: int|
            0 <= i < ups.len() implies r.contains_key((#[trigger] ups[i]).1) && r[ups[i].1] == (WayView {
                id: ups[i].1,
                version: ups[i].2,
                ..m[ups[i].0]
            }) by {
            if i < n {
                assert(pe[i] == ups[i]);
                if ups[i].1 == u.0 {
                    assert(u.0 == ups[i].0);
                }
            }
        }
        assert forall|k: i64| m.contains_key(k) && !step_from(ups, k) implies #[trigger] r.contains_key(k) && r[k] == m[k] by {
            if step_from(pe, k) {
                let i = choose|i: int| 0 <= i < pe.len() && (#[trigger] pe[i]).0 == k;
                assert(pe[i] == ups[i]);
            }
            assert(ups[n].0 != k);
            if k == u.1 {
                assert(m.contains_key(ups[n].1));
            }
        }
        assert forall|k: i64| #[trigger] r.contains_key(k) implies (m.contains_key(k) && !step_from(ups, k)) || step_to(ups, k) by {
            if k == u.1 {
                assert(ups[n].1 == k);
            } else {
                assert(p.contains_key(k) && k != u.0);
                if step_to(pe, k) {
                    let i = choose|i: int| 0 <= i < pe.len() && (#[trigger] pe[i]).1 == k;
                    assert(ups[i] == pe[i]);
                } else {
                    if step_from(ups, k) {
                        let i = choose|i: int| 0 <= i < ups.len() && (#[trigger] ups[i]).0 == k;
                        if i < n {
                            assert(pe[i] == ups[i]);
                        }
                    }
                }
            }
        }
    }
}

/// Steps listed for a clean answer over the ids `present` step distinct
/// present elements to distinct new ids, each as the answer gives it, and
/// step exactly the present elements the answer names.
proof fn lemma_clean_steps(ups: Seq<(i64, i64, i32)>, remap: Map<i64, (i64, i32)>, present: Set<i64>)
    requires
        steps_for(ups, remap, present),
        clean_remap(remap, present),
    ensures
        forall|i: int, j: int| 0 <= i < j < ups.len() ==> (#[trigger] ups[i]).0 != (#[trigger] ups[j]).0 && ups[i].1 != ups[j].1,
        forall|i: int| 0 <= i < ups.len() ==> present.contains((#[trigger] ups[i]).0) && remap.contains_key(ups[i].0),
        forall|i: int| 0 <= i < ups.len() && present.contains((#[trigger] ups[i]).1) ==> ups[i].1 == ups[i].0,
        forall|k: i64| #[trigger] step_from(ups, k) <==> remap.contains_key(k) && present.contains(k),
{
    let o = olds(ups);
    assert forall|i: int| 0 <= i < ups.len() implies present.contains((#[trigger] ups[i]).0) && remap.contains_key(ups[i].0) by {
        assert(o[i] == ups[i].0);
        assert(o.to_set().contains(o[i]));
    }
    assert forall|i: int, j: int| 0 <= i < j < ups.len() implies (#[trigger] ups[i]).0 != (#[trigger] ups[j]).0 && ups[i].1 != ups[j].1 by {
        assert(o[i] == ups[i].0 && o[j] == ups[j].0);
        assert(remap[ups[i].0] == (ups[i].1, ups[i].2));
        assert(remap[ups[j].0] == (ups[j].1, ups[j].2));
    }
    assert forall|i: int| 0 <= i < ups.len() && present.contains((#[trigger] ups[i]).1) implies ups[i].1 == ups[i].0 by {
        assert(remap[ups[i].0] == (ups[i].1, ups[i].2));
    }
    assert forall|k: i64| #[trigger] step_from(ups, k) <==> remap.contains_key(k) && present.contains(k) by {
        if remap.contains_key(k) && present.contains(k) {
            assert(o.to_set().contains(k));
            let i = choose|i: int| 0 <= i < o.len() && o[i] == k;
            assert(ups[i].0 == k);
        }
    }
}

/// Reconciling with a clean upload answer (see `clean_remap`) moves each
/// uploaded node and way that is present to the id the answer gives it,
/// with the answer's version and otherwise as it was, and every way's
/// reference to a renumbered node reads the node's new id; every other
/// element stays under its id as it was (but for those references), and
/// nothing else appears.
pub proof fn law_upload_answer_per_id(before: OsmData, result: UploadResult, after: OsmData)
    requires
        reconciled(before, result, after),
        clean_remap(result.node_id_remap@, before.nodes@.dom()),
        clean_remap(result.way_id_remap@, before.ways@.dom()),
    ensures
        forall|a: i64|
            before.nodes@.contains_key(a) && #[trigger] result.node_id_remap@.contains_key(a) ==> after.nodes@.contains_key(
                result.node_id_remap@[a].0,
            ) && after.nodes@[result.node_id_remap@[a].0]@ == (NodeView {
                id: result.node_id_remap@[a].0,
                version: result.node_id_remap@[a].1,
                ..before.nodes@[a]@
            }),
        forall|k: i64|
            before.nodes@.contains_key(k) && !result.node_id_remap@.contains_key(k) ==> #[trigger] after.nodes@.contains_key(k)
                && after.nodes@[k]@ == before.nodes@[k]@,
        forall|k: i64|
            #[trigger] after.nodes@.contains_key(k) ==> (before.nodes@.contains_key(k) && !result.node_id_remap@.contains_key(k))
                || exists|a: i64|
                before.nodes@.contains_key(a) && #[trigger] result.node_id_remap@.contains_key(a) && result.node_id_remap@[a].0 == k,
        forall|a: i64|
            before.ways@.contains_key(a) && #[trigger] result.way_id_remap@.contains_key(a) ==> after.ways@.contains_key(
                result.way_id_remap@[a].0,
            ) && after.ways@[result.way_id_remap@[a].0]@ == (WayView {
                id: result.way_id_remap@[a].0,
                version: result.way_id_remap@[a].1,
                nodes: renumbered_members(before.ways@[a].nodes@, node_id_map(result.node_id_remap@, before.nodes@.dom())),
                ..before.ways@[a]@
            }),
        forall|k: i64|
            before.ways@.contains_key(k) && !result.way_id_remap@.contains_key(k) ==> #[trigger] after.ways@.contains_key(k)
                && after.ways@[k]@ == (WayView {
                nodes: renumbered_members(before.ways@[k].nodes@, node_id_map(result.node_id_remap@, before.nodes@.dom())),
                ..before.ways@[k]@
            }),
        forall|k: i64|
            #[trigger] after.ways@.contains_key(k) ==> (before.ways@.contains_key(k) && !result.way_id_remap@.contains_key(k))
                || exists|a: i64|
                before.ways@.contains_key(a) && #[trigger] result.way_id_remap@.contains_key(a) && result.way_id_remap@[a].0 == k,
{
    let nr = result.node_id_remap@;
    let wr = result.way_id_remap@;
    let (nups, wups) = choose|nups: Seq<(i64, i64, i32)>, wups: Seq<(i64, i64, i32)>|
        {
            &&& #[trigger] steps_for(nups, nr, before.nodes@.dom())
            &&& #[trigger] steps_for(wups, wr, before.ways@.dom())
            &&& nodes_view(after.nodes@) == renumber_nodes(nodes_view(before.nodes@), nups)
            &&& ways_view(after.ways@) == renumber_ways(
                renumber_members(ways_view(before.ways@), node_id_map(nr, before.nodes@.dom())),
                wups,
            )
        };
    let idm = node_id_map(nr, before.nodes@.dom());
    let mn = nodes_view(before.nodes@);
    let mw = renumber_members(ways_view(before.ways@), idm);
    assert(mn.dom() == before.nodes@.dom());
    assert(mw.dom() == before.ways@.dom());
    lemma_clean_steps(nups, nr, before.nodes@.dom());
    lemma_clean_steps(wups, wr, before.ways@.dom());
    lemma_renumber_nodes_ids(mn, nups);
    lemma_renumber_ways_ids(mw, wups);
    let an = nodes_view(after.nodes@);
    let aw = ways_view(after.ways@);
    assert(an.dom() == after.nodes@.dom());
    assert(aw.dom() == after.ways@.dom());
    assert forall|a: i64| before.nodes@.contains_key(a) && #[trigger] nr.contains_key(a) implies after.nodes@.contains_key(nr[a].0)
        && after.nodes@[nr[a].0]@ == (NodeView { id: nr[a].0, version: nr[a].1, ..before.nodes@[a]@ }) by {
        assert(step_from(nups, a));
        let i = choose|i: int| 0 <= i < nups.len() && (#[trigger] nups[i]).0 == a;
        assert(nr[nups[i].0] == (nups[i].1, nups[i].2));
        assert(an[nups[i].1] == after.nodes@[nups[i].1]@);
        assert(mn[a] == before.nodes@[a]@);
    }
    assert forall|k: i64| before.nodes@.contains_key(k) && !nr.contains_key(k) implies #[trigger] after.nodes@.contains_key(k)
        && after.nodes@[k]@ == before.nodes@[k]@ by {
        assert(!step_from(nups, k));
        assert(an[k] == after.nodes@[k]@);
        assert(mn[k] == before.nodes@[k]@);
    }
    assert forall|k: i64| #[trigger] after.nodes@.contains_key(k) implies (before.nodes@.contains_key(k) && !nr.contains_key(k))
        || exists|a: i64| before.nodes@.contains_key(a) && #[trigger] nr.contains_key(a) && nr[a].0 == k by {
        assert(an.contains_key(k));
        if step_to(nups, k) {
            let i = choose|i: int| 0 <= i < nups.len() && (#[trigger] nups[i]).1 == k;
            assert(nr[nups[i].0] == (nups[i].1, nups[i].2));
            assert(before.nodes@.contains_key(nups[i].0) && nr.contains_key(nups[i].0));
        }
    }
    assert forall|a: i64| before.ways@.contains_key(a) && #[trigger] wr.contains_key(a) implies after.ways@.contains_key(wr[a].0)
        && after.ways@[wr[a].0]@ == (WayView {
            id: wr[a].0,
            version: wr[a].1,
            nodes: renumbered_members(before.ways@[a].nodes@, idm),
            ..before.ways@[a]@
        }) by {
        assert(step_from(wups, a));
        let i = choose|i: int| 0 <= i < wups.len() && (#[trigger] wups[i]).0 == a;
        assert(wr[wups[i].0] == (wups[i].1, wups[i].2));
        assert(aw[wups[i].1] == after.ways@[wups[i].1]@);
        assert(ways_view(before.ways@)[a] == before.ways@[a]@);
    }
    assert forall|k: i64| before.ways@.contains_key(k) && !wr.contains_key(k) implies #[trigger] after.ways@.contains_key(k)
        && after.ways@[k]@ == (WayView { nodes: renumbered_members(before.ways@[k].nodes@, idm), ..before.ways@[k]@ }) by {
        assert(!step_from(wups, k));
        assert(aw[k] == after.ways@[k]@);
        assert(ways_view(before.ways@)[k] == before.ways@[k]@);
    }
    assert forall|k: i64| #[trigger] after.ways@.contains_key(k) implies (before.ways@.contains_key(k) && !wr.contains_key(k))
        || exists|a: i64| before.ways@.contains_key(a) && #[trigger] wr.contains_key(a) && wr[a].0 == k by {
        assert(aw.contains_key(k));
        if step_to(wups, k) {
            let i = choose|i: int| 0 <= i < wups.len() && (#[trigger] wups[i]).1 == k;
            assert(wr[wups[i].0] == (wups[i].1, wups[i].2));
            assert(before.ways@.contains_key(wups[i].0) && wr.contains_key(wups[i].0));
        }
    }
}

/// Reconciles the data with an upload's answer: every uploaded node and
/// way present takes the id and version the server gave it (stored under
/// the new id), and ways refer to their member nodes by the new ids. The
/// remaps are applied in the order their maps are walked.
pub fn reconcile_upload(data: OsmData, result: &UploadResult) -> (r: OsmData)
    requires
        data.wf(),
    ensures
        r.wf(),
        reconciled(data, *result, r),
{
    let ghost d0 = data;
    let mut data = data;
    let updates = remap_steps(&result.node_id_remap, &data.nodes);
    let ghost idm = node_id_map(result.node_id_remap@, d0.nodes@.dom());
    let mut node_map: HashMap<i64, i64> = HashMap::new();
    let mut j: usize = 0;
    while j < updates.len()
        invariant
            j <= updates@.len(),
            steps_for(updates@, result.node_id_remap@, d0.nodes@.dom()),
            data.ways@ == d0.ways@,
            data.wf(),
            nodes_view(data.nodes@) == renumber_nodes(nodes_view(d0.nodes@), updates@.take(j as int)),
            forall|k: i64| #[trigger] node_map@.contains_key(k) <==> olds(updates@.take(j as int)).contains(k),
            forall|k: i64| #[trigger] node_map@.contains_key(k) ==> node_map@[k] == result.node_id_remap@[k].0,
        decreases updates.len() - j,
    {
        let (old_id, new_id, ver) = updates[j];
        let ghost before = nodes_view(data.nodes@);
        assert(updates@.take(j + 1).drop_last() =~= updates@.take(j as int));
        assert(updates@.take(j + 1).last() == updates@[j as int]);
        match data.nodes.remove(&old_id) {
            Some(mut node) => {
                node.id = new_id;
                node.version = ver;
                data.nodes.insert(new_id, node);
                assert(nodes_view(data.nodes@) =~= renumber_node(before, (old_id, new_id, ver)));
            },
            None => {
                assert(nodes_view(data.nodes@) =~= renumber_node(before, (old_id, new_id, ver)));
            },
        }
        node_map.insert(old_id, new_id);
        proof {
            let prev = olds(updates@.take(j as int));
            let next = olds(updates@.take(j + 1));
            assert(next =~= prev.push(old_id));
            assert forall|k: i64| #[trigger] node_map@.contains_key(k) <==> next.contains(k) by {
                if next.contains(k) && k != old_id {
                    let a = choose|a: int| 0 <= a < next.len() && next[a] == k;
                    assert(prev[a] == k);
                }
                if prev.contains(k) {
                    let a = choose|a: int| 0 <= a < prev.len() && prev[a] == k;
                    assert(next[a] == k);
                }
                if k == old_id {
                    assert(next[j as int] == k);
                }
            }
        }
        j = j + 1;
    }
    proof {
        assert(updates@.take(updates@.len() as int) =~= updates@);
        assert forall|k: i64| #[trigger] node_map@.contains_key(k) <==> idm.contains_key(k) by {
            if idm.contains_key(k) {
                assert(result.node_id_remap@.dom().intersect(d0.nodes@.dom()).contains(k));
                assert(olds(updates@).to_set().contains(k));
            }
            if node_map@.contains_key(k) {
                assert(olds(updates@).contains(k));
                assert(olds(updates@).to_set().contains(k));
            }
        }
        assert(node_map@ =~= idm);
    }
    let way_keys = key_list(&data.ways);
    let mut i: usize = 0;
    while i < way_keys.len()
        invariant
            i <= way_keys@.len(),
            way_keys@.no_duplicates(),
            way_keys@.to_set() == d0.ways@.dom(),
            node_map@ == idm,
            data.wf(),
            nodes_view(data.nodes@) == renumber_nodes(nodes_view(d0.nodes@), updates@),
            data.ways@.dom() == d0.ways@.dom(),
            forall|k: i64| #[trigger] data.ways@.contains_key(k) ==> ways_view(data.ways@)[k] == if way_keys@.take(i as int).contains(k) {
                renumber_members(ways_view(d0.ways@), idm)[k]
            } else {
                ways_view(d0.ways@)[k]
            },
        decreases way_keys.len() - i,
    {
        let k = way_keys[i];
        assert(way_keys@.to_set().contains(k));
        let ghost before = data.ways@;
        let mut way = data.ways.remove(&k).unwrap();
        let members = renumber_member_ids(&way.nodes, &node_map);
        way.nodes = members;
        data.ways.insert(k, way);
        proof {
            assert forall|m: i64| #[trigger] data.ways@.contains_key(m) implies ways_view(data.ways@)[m] == if way_keys@.take(i + 1).contains(m) {
                renumber_members(ways_view(d0.ways@), idm)[m]
            } else {
                ways_view(d0.ways@)[m]
            } by {
                if m == k {
                    assert(way_keys@.take(i + 1)[i as int] == k);
                    if way_keys@.take(i as int).contains(k) {
                        let a = choose|a: int| 0 <= a < i && #[trigger] way_keys@.take(i as int)[a] == k;
                        assert(way_keys@[a] == way_keys@[i as int]);
                    }
                } else {
                    assert(before.contains_key(m));
                    if way_keys@.take(i + 1).contains(m) {
                        let a = choose|a: int| 0 <= a < i + 1 && #[trigger] way_keys@.take(i + 1)[a] == m;
                        assert(way_keys@.take(i as int)[a] == m);
                    }
                    if way_keys@.take(i as int).contains(m) {
                        let a = choose|a: int| 0 <= a < i && #[trigger] way_keys@.take(i as int)[a] == m;
                        assert(way_keys@.take(i + 1)[a] == m);
                    }
                }
            }
            assert(data.ways@.dom() =~= d0.ways@.dom());
        }
        i = i + 1;
    }
    proof {
        assert(way_keys@.take(way_keys@.len() as int) =~= way_keys@);
        assert forall|k: i64| d0.ways@.contains_key(k) implies way_keys@.contains(k) by {
            assert(way_keys@.to_set().contains(k));
        }
        assert(ways_view(data.ways@) =~= renumber_members(ways_view(d0.ways@), idm));
    }
    let ghost rewritten = ways_view(data.ways@);
    let wups = way_remap_steps(&result.way_id_remap, &data.ways);
    let mut j: usize = 0;
    while j < wups.len()
        invariant
            j <= wups@.len(),
            nodes_view(data.nodes@) == renumber_nodes(nodes_view(d0.nodes@), updates@),
            data.wf(),
            ways_view(data.ways@) == renumber_ways(rewritten, wups@.take(j as int)),
        decreases wups.len() - j,
    {
        let (old_id, new_id, ver) = wups[j];
        let ghost before = ways_view(data.ways@);
        assert(wups@.take(j + 1).drop_last() =~= wups@.take(j as int));
        assert(wups@.take(j + 1).last() == wups@[j as int]);
        match data.ways.remove(&old_id) {
            Some(mut way) => {
                way.id = new_id;
                way.version = ver;
                data.ways.insert(new_id, way);
                assert(ways_view(data.ways@) =~= renumber_way(before, (old_id, new_id, ver)));
            },
            None => {
                assert(ways_view(data.ways@) =~= renumber_way(before, (old_id, new_id, ver)));
            },
        }
        j = j + 1;
    }
    proof {
        assert(wups@.take(wups@.len() as int) =~= wups@);
    }
    data
}

/// Member ids with every renumbered node id replaced by its new id.
fn renumber_member_ids(nodes: &Vec<i64>, node_map: &HashMap<i64, i64>) -> (r: Vec<i64>)
    ensures
        r@ == renumbered_members(nodes@, node_map@),
{
    let mut out: Vec<i64> = Vec::new();
    let mut i: usize = 0;
    while i < nodes.len()
        invariant
            i <= nodes@.len(),
            out@ == renumbered_members(nodes@.take(i as int), node_map@),
        decreases nodes.len() - i,
    {
        let n = nodes[i];
        let m = match node_map.get(&n) {
            Some(new_id) => *new_id,
            None => n,
        };
        out.push(m);
        assert(out@ =~= renumbered_members(nodes@.take(i + 1), node_map@));
        i = i + 1;
    }
    assert(nodes@.take(nodes@.len() as int) =~= nodes@);
    out
}

/// An upload answered with no remapped element leaves the data as it was.
pub proof fn law_empty_answer_changes_nothing(
    nodes: Map<i64, NodeView>,
    ways: Map<i64, WayView>,
    present_nodes: Set<i64>,
    present_ways: Set<i64>,
    nups: Seq<(i64, i64, i32)>,
    wups: Seq<(i64, i64, i32)>,
)
    requires
        steps_for(nups, Map::<i64, (i64, i32)>::empty(), present_nodes),
        steps_for(wups, Map::<i64, (i64, i32)>::empty(), present_ways),
    ensures
        renumber_nodes(nodes, nups) == nodes,
        renumber_ways(renumber_members(ways, node_id_map(Map::<i64, (i64, i32)>::empty(), present_nodes)), wups) == ways,
{
    lemma_no_steps(nups, present_nodes);
    lemma_no_steps(wups, present_ways);
    let idm = node_id_map(Map::<i64, (i64, i32)>::empty(), present_nodes);
    assert(idm =~= Map::<i64, i64>::empty());
    assert forall|k: i64| #[trigger] ways.contains_key(k) implies renumber_members(ways, idm)[k] == ways[k] by {
        assert(renumbered_members(ways[k].nodes, idm) =~= ways[k].nodes);
    }
    assert(renumber_members(ways, idm) =~= ways);
}

/// An empty remap gives no renumbering step.
proof fn lemma_no_steps(ups: Seq<(i64, i64, i32)>, present: Set<i64>)
    requires
        steps_for(ups, Map::<i64, (i64, i32)>::empty(), present),
    ensures
        ups.len() == 0,
{
    if ups.len() > 0 {
        assert(olds(ups).to_set().contains(olds(ups)[0]));
    }
}

/// The editable state of an OSM data layer: its data, the snapshot last
/// synced with the server, the order in which its ways are indexed, and the
/// indexes edits rely on (way id to slot, node id to the slots of the ways
/// that list it); how it is drawn is kept by the view.
pub struct OsmLayer {
    id: LayerId,
    name: String,
    visible: bool,
    osm_data: Option<OsmData>,
    original_data: Option<OsmData>,
    way_ids: Vec<i64>,
    way_id_to_index: HashMap<i64, usize>,
    node_to_ways: HashMap<i64, Vec<usize>>,
    modified: bool,
    next_new_id: i64,
    next_placeholder_way_id: i64,
}

/// The views of a map of slot lists.
pub open spec fn lists_view(m: Map<i64, Vec<usize>>) -> Map<i64, Seq<usize>> {
    m.map_values(|v: Vec<usize>| v@)
}

/// `m` with `slot` appended to the list of `n`.
pub open spec fn add_slot(m: Map<i64, Seq<usize>>, n: i64, slot: usize) -> Map<i64, Seq<usize>> {
    m.insert(
        n,
        (if m.contains_key(n) {
            m[n]
        } else {
            Seq::empty()
        }).push(slot),
    )
}

/// `m` with `slot` appended to the list of every node of `nodes`, in order.
pub open spec fn add_slots(m: Map<i64, Seq<usize>>, nodes: Seq<i64>, slot: usize) -> Map<i64, Seq<usize>>
    decreases nodes.len(),
{
    if nodes.len() == 0 {
        m
    } else {
        add_slot(add_slots(m, nodes.drop_last(), slot), nodes.last(), slot)
    }
}

/// Every slot the way index maps to is below `len`, and no two way ids
/// share a slot.
pub open spec fn slots_ok(m: Map<i64, usize>, len: nat) -> bool {
    &&& forall|k: i64| #[trigger] m.contains_key(k) ==> m[k] < len
    &&& forall|a: i64, b: i64| #[trigger] m.contains_key(a) && #[trigger] m.contains_key(b) && a != b ==> m[a] != m[b]
}

/// Every slot listed for a node is below `len`.
pub open spec fn lists_ok(m: Map<i64, Seq<usize>>, len: nat) -> bool {
    forall|k: i64, j: int| #[trigger] m.contains_key(k) && 0 <= j < m[k].len() ==> #[trigger] m[k][j] < len
}

impl OsmLayer {
    /// The layer's id.
    pub closed spec fn layer_id(&self) -> LayerId {
        self.id
    }

    /// The current data, if any is loaded.
    pub closed spec fn data(&self) -> Option<OsmData> {
        self.osm_data
    }

    /// The snapshot last synced with the server.
    pub closed spec fn original(&self) -> Option<OsmData> {
        self.original_data
    }

    /// Way ids by slot.
    pub closed spec fn slot_ids(&self) -> Seq<i64> {
        self.way_ids@
    }

    /// The slot of each indexed way id.
    pub closed spec fn slots(&self) -> Map<i64, usize> {
        self.way_id_to_index@
    }

    /// For each node id, the slots of the ways listed as using it.
    pub closed spec fn node_slots(&self) -> Map<i64, Seq<usize>> {
        lists_view(self.node_to_ways@)
    }

    /// Whether the data was edited since it was loaded or synced.
    pub closed spec fn modified_spec(&self) -> bool {
        self.modified
    }

    /// The id the next automatically numbered node gets.
    pub closed spec fn next_node_id(&self) -> i64 {
        self.next_new_id
    }

    /// The id the next new way gets.
    pub closed spec fn next_way_id(&self) -> i64 {
        self.next_placeholder_way_id
    }

    /// The layer invariant: the data is well formed, every node id lies
    /// above the next automatic id, both next ids are negative, and every
    /// slot an index refers to exists (no two way ids sharing one).
    pub closed spec fn wf(&self) -> bool {
        &&& self.osm_data matches Some(d) ==> d.wf() && forall|k: i64| #[trigger] d.nodes@.contains_key(k) ==> self.next_new_id < k
        &&& self.original_data matches Some(d) ==> d.wf()
        &&& slots_ok(self.way_id_to_index@, self.way_ids@.len())
        &&& lists_ok(lists_view(self.node_to_ways@), self.way_ids@.len())
        &&& self.next_new_id < 0
        &&& self.next_placeholder_way_id < 0
        &&& self.way_ids@.len() <= usize::MAX
    }

    /// The next automatic node id is fresh: it is negative and below every
    /// node id in the data. `create_node` without an id hands out exactly
    /// this id and moves it down by one, and no other edit raises it (only
    /// setting, clearing or reconciling the data starts it afresh), so each
    /// id handed out is below every node id and every id handed out before
    /// it since the data was last set.
    pub proof fn law_next_node_id_is_fresh(&self)
        requires
            self.wf(),
        ensures
            self.next_node_id() < 0,
            forall|k: i64| #[trigger] self.node_views().contains_key(k) ==> self.next_node_id() < k,
    {
    }

    /// Along a run of edits, the next automatic id never rises.
    proof fn lemma_next_id_monotone(steps: Seq<OsmLayer>, i: int, j: int)
        requires
            0 <= i <= j < steps.len(),
            forall|k: int| 0 <= k < steps.len() - 1 ==> #[trigger] steps[k + 1].next_node_id() <= steps[k].next_node_id(),
        ensures
            steps[j].next_node_id() <= steps[i].next_node_id(),
        decreases j - i,
    {
        if i < j {
            Self::lemma_next_id_monotone(steps, i, j - 1);
            assert(steps[(j - 1) + 1].next_node_id() <= steps[j - 1].next_node_id());
        }
    }

    /// The automatic node ids handed out along a run of edits are fresh and
    /// never repeat: each is negative and below every node id in the data
    /// it was handed out in, and a later one is lower than an earlier one.
    /// `steps[k + 1]` is the layer after the edit made on `steps[k]`; each
    /// edit keeps the next automatic id or lowers it (every edit but
    /// setting, clearing or reconciling the data promises this), and at
    /// each position `k` in `handed` the edit handed out
    /// `steps[k].next_node_id()` and moved it down by one, as `create_node`
    /// without an id does.
    pub proof fn law_auto_ids_fresh_and_decreasing(steps: Seq<OsmLayer>, handed: Set<int>)
        requires
            forall|k: int| 0 <= k < steps.len() ==> #[trigger] steps[k].wf(),
            forall|k: int| 0 <= k < steps.len() - 1 ==> #[trigger] steps[k + 1].next_node_id() <= steps[k].next_node_id(),
            forall|k: int| #[trigger] handed.contains(k) ==> 0 <= k < steps.len() - 1 && steps[k + 1].next_node_id()
                == steps[k].next_node_id() - 1,
        ensures
            forall|k: int| #[trigger] handed.contains(k) ==> steps[k].next_node_id() < 0,
            forall|k: int, n: i64| #[trigger] handed.contains(k) && #[trigger] steps[k].node_views().contains_key(n) ==> steps[k].next_node_id() < n,
            forall|k: int, l: int| #[trigger] handed.contains(k) && #[trigger] handed.contains(l) && k < l ==> steps[l].next_node_id()
                < steps[k].next_node_id(),
    {
        assert forall|k: int, l: int| #[trigger] handed.contains(k) && #[trigger] handed.contains(l) && k < l implies steps[l].next_node_id()
            < steps[k].next_node_id() by {
            Self::lemma_next_id_monotone(steps, k + 1, l);
        }
        assert forall|k: int, n: i64| #[trigger] handed.contains(k) && #[trigger] steps[k].node_views().contains_key(n) implies steps[k].next_node_id() < n by {
            steps[k].law_next_node_id_is_fresh();
        }
        assert forall|k: int| #[trigger] handed.contains(k) implies steps[k].next_node_id() < 0 by {
            steps[k].law_next_node_id_is_fresh();
        }
    }

    /// A well-formed layer has at most `usize::MAX` slots.
    pub proof fn lemma_slot_count(&self)
        requires
            self.wf(),
        ensures
            self.slot_ids().len() <= usize::MAX,
    {
    }

    /// An empty layer named "OSM Data".
    pub fn new(id: LayerId) -> (l: Self)
        ensures
            l.wf(),
            l.layer_id() == id,
            l.shown(),
            l.data() is None,
            l.original() is None,
            l.slot_ids().len() == 0,
            l.slots() == Map::<i64, usize>::empty(),
            l.node_slots() == Map::<i64, Seq<usize>>::empty(),
            !l.modified_spec(),
            l.next_node_id() == -1,
            l.next_way_id() == -1,
    {
        let l = OsmLayer {
            id,
            name: "OSM Data".to_owned(),
            visible: true,
            osm_data: None,
            original_data: None,
            way_ids: Vec::new(),
            way_id_to_index: HashMap::new(),
            node_to_ways: HashMap::new(),
            modified: false,
            next_new_id: -1,
            next_placeholder_way_id: -1,
        };
        assert(l.node_slots() =~= Map::<i64, Seq<usize>>::empty());
        l
    }

    /// The layer's id.
    pub fn id(&self) -> (r: LayerId)
        ensures
            r == self.layer_id(),
    {
        self.id
    }

    /// The layer's display name.
    pub fn name(&self) -> (r: &str)
        ensures
            r@ == self.label(),
    {
        self.name.as_str()
    }

    /// Whether the layer is shown.
    pub fn is_visible(&self) -> (r: bool)
        ensures
            r == self.shown(),
    {
        self.visible
    }

    /// Shows or hides the layer; nothing else changes.
    pub fn set_visible(&mut self, visible: bool)
        ensures
            final(self).shown() == visible,
            old(self).wf() ==> final(self).wf(),
            final(self).layer_id() == old(self).layer_id(),
            final(self).label() == old(self).label(),
            final(self).data() == old(self).data(),
            final(self).original() == old(self).original(),
            final(self).modified_spec() == old(self).modified_spec(),
            final(self).slot_ids() == old(self).slot_ids(),
            final(self).slots() == old(self).slots(),
            final(self).node_slots() == old(self).node_slots(),
            final(self).next_node_id() == old(self).next_node_id(),
            final(self).next_way_id() == old(self).next_way_id(),
    {
        self.visible = visible;
    }

    /// Whether the data was edited since it was loaded or synced.
    pub fn is_modified(&self) -> (r: bool)
        ensures
            r == self.modified_spec(),
    {
        self.modified
    }

    /// Whether data is loaded.
    pub fn has_data(&self) -> (r: bool)
        ensures
            r == self.data() is Some,
    {
        self.osm_data.is_some()
    }

    /// The current data, if any is loaded.
    pub fn get_osm_data(&self) -> (r: Option<&OsmData>)
        ensures
            match r {
                Some(d) => self.data() == Some(*d),
                None => self.data() is None,
            },
    {
        match &self.osm_data {
            Some(d) => Some(d),
            None => None,
        }
    }

    /// The member node ids of way `way_id`, in order.
    pub fn way_node_ids(&self, way_id: i64) -> (r: Option<Vec<i64>>)
        ensures
            match r {
                Some(ids) => self.data() matches Some(d) && d.ways@.contains_key(way_id) && ids@ == d.ways@[way_id].nodes@,
                None => !(self.data() matches Some(d) && d.ways@.contains_key(way_id)),
            },
    {
        match &self.osm_data {
            Some(d) => match d.ways.get(&way_id) {
                Some(w) => Some(copy_ids(&w.nodes)),
                None => None,
            },
            None => None,
        }
    }

    /// The coordinates of node `node_id`.
    pub fn node_lat_lon(&self, node_id: i64) -> (r: Option<(Coord, Coord)>)
        ensures
            match r {
                Some(p) => self.data() matches Some(d) && d.nodes@.contains_key(node_id) && p == (d.nodes@[node_id].lat, d.nodes@[node_id].lon),
                None => !(self.data() matches Some(d) && d.nodes@.contains_key(node_id)),
            },
    {
        match &self.osm_data {
            Some(d) => match d.nodes.get(&node_id) {
                Some(n) => Some((n.lat, n.lon)),
                None => None,
            },
            None => None,
        }
    }
}

/// Appends `slot` to the list of node `n`.
fn push_slot(m: &mut HashMap<i64, Vec<usize>>, n: i64, slot: usize)
    ensures
        lists_view(final(m)@) == add_slot(lists_view(old(m)@), n, slot),
{
    let ghost before = lists_view(m@);
    let mut list = match m.remove(&n) {
        Some(l) => l,
        None => Vec::new(),
    };
    list.push(slot);
    m.insert(n, list);
    assert(lists_view(m@) =~= add_slot(before, n, slot));
}

/// Appends `slot` to the list of every node of `nodes`, in order.
fn push_slots(m: &mut HashMap<i64, Vec<usize>>, nodes: &Vec<i64>, slot: usize)
    ensures
        lists_view(final(m)@) == add_slots(lists_view(old(m)@), nodes@, slot),
{
    let ghost start = lists_view(m@);
    let mut i: usize = 0;
    while i < nodes.len()
        invariant
            i <= nodes@.len(),
            lists_view(m@) == add_slots(start, nodes@.take(i as int), slot),
        decreases nodes.len() - i,
    {
        assert(nodes@.take(i + 1).drop_last() =~= nodes@.take(i as int));
        assert(nodes@.take(i + 1).last() == nodes@[i as int]);
        push_slot(m, nodes[i], slot);
        i = i + 1;
    }
    assert(nodes@.take(nodes@.len() as int) =~= nodes@);
}

/// Whether the ids are in strictly increasing order.
pub open spec fn increasing(s: Seq<i64>) -> bool {
    forall|i: int, j: int| 0 <= i < j < s.len() ==> s[i] < s[j]
}

/// The node slot lists of ways indexed in `order` (the way listed first
/// takes slot 0).
pub open spec fn index_nodes(ways: Map<i64, OsmWay>, order: Seq<i64>) -> Map<i64, Seq<usize>>
    decreases order.len(),
{
    if order.len() == 0 {
        Map::empty()
    } else {
        add_slots(index_nodes(ways, order.drop_last()), ways[order.last()].nodes@, (order.len() - 1) as usize)
    }
}

/// The ids of `keys`, sorted increasingly.
fn sorted_ids(keys: Vec<i64>) -> (r: Vec<i64>)
    requires
        keys@.no_duplicates(),
    ensures
        increasing(r@),
        r@.to_set() == keys@.to_set(),
        r@.len() == keys@.len(),
{
    let mut out: Vec<i64> = Vec::new();
    let mut i: usize = 0;
    while i < keys.len()
        invariant
            i <= keys@.len(),
            keys@.no_duplicates(),
            increasing(out@),
            out@.to_set() == keys@.take(i as int).to_set(),
            out@.len() == i,
        decreases keys.len() - i,
    {
        let k = keys[i];
        let mut pos: usize = 0;
        while pos < out.len() && out[pos] < k
            invariant
                pos <= out@.len(),
                increasing(out@),
                forall|j: int| 0 <= j < pos ==> out@[j] < k,
            decreases out.len() - pos,
        {
            pos = pos + 1;
        }
        proof {
            assert(!keys@.take(i as int).contains(k)) by {
                if keys@.take(i as int).contains(k) {
                    let a = choose|a: int| 0 <= a < i && keys@.take(i as int)[a] == k;
                    assert(keys@[a] == keys@[i as int]);
                }
            }
            assert(!out@.to_set().contains(k));
        }
        let ghost before = out@;
        out.insert(pos, k);
        proof {
            assert(out@ == before.insert(pos as int, k));
            assert forall|a: int, b: int| 0 <= a < b < out@.len() implies out@[a] < out@[b] by {
                if pos < before.len() {
                    assert(before[pos as int] != k) by {
                        assert(before.to_set().contains(before[pos as int]));
                    }
                }
                if b < pos {
                    assert(out@[a] == before[a] && out@[b] == before[b]);
                } else if b == pos {
                    assert(out@[a] == before[a]);
                } else if a < pos {
                    assert(out@[a] == before[a] && out@[b] == before[b - 1]);
                    if pos < before.len() {
                        assert(before[pos as int] >= k);
                        assert(before[pos as int] > k);
                    }
                    if b - 1 > pos as int {
                        assert(before[pos as int] < before[b - 1]);
                    }
                } else if a == pos {
                    assert(out@[b] == before[b - 1]);
                    assert(before[pos as int] >= k);
                    assert(before[pos as int] > k);
                    if b - 1 > pos as int {
                        assert(before[pos as int] < before[b - 1]);
                    }
                } else {
                    assert(out@[a] == before[a - 1] && out@[b] == before[b - 1]);
                }
            }
            assert(keys@.take(i + 1) =~= keys@.take(i as int).push(k));
            keys@.take(i as int).lemma_push_to_set_commute(k);
            assert(out@.to_set() =~= before.to_set().insert(k)) by {
                assert forall|x: i64| out@.to_set().contains(x) implies before.to_set().insert(k).contains(x) by {
                    let a = choose|a: int| 0 <= a < out@.len() && out@[a] == x;
                    if a < pos {
                        assert(before[a] == x);
                    } else if a > pos {
                        assert(before[a - 1] == x);
                    }
                }
                assert forall|x: i64| before.to_set().insert(k).contains(x) implies out@.to_set().contains(x) by {
                    if x == k {
                        assert(out@[pos as int] == k);
                    } else {
                        let a = choose|a: int| 0 <= a < before.len() && before[a] == x;
                        if a < pos {
                            assert(out@[a] == x);
                        } else {
                            assert(out@[a + 1] == x);
                        }
                    }
                }
            }
        }
        i = i + 1;
    }
    assert(keys@.take(keys@.len() as int) =~= keys@);
    out
}

/// The way indexes of `data`: its way ids sorted increasingly, the slot of
/// each, and for each node the slots of the ways that list it (once per
/// occurrence).
fn build_indexes(data: &OsmData) -> (r: (Vec<i64>, HashMap<i64, usize>, HashMap<i64, Vec<usize>>))
    requires
        data.wf(),
    ensures
        increasing(r.0@),
        r.0@.to_set() == data.ways@.dom(),
        r.1@.dom() == data.ways@.dom(),
        forall|i: int| 0 <= i < r.0@.len() ==> r.1@[#[trigger] r.0@[i]] == i,
        lists_view(r.2@) == index_nodes(data.ways@, r.0@),
        forall|k: i64, j: int| #[trigger] r.2@.contains_key(k) && 0 <= j < r.2@[k]@.len() ==> #[trigger] r.2@[k]@[j] < r.0@.len(),
{
    let keys = key_list(&data.ways);
    proof {
        keys@.unique_seq_to_set();
    }
    let order = sorted_ids(keys);
    proof {
        order@.lemma_no_dup_set_cardinality();
        assert(order@.no_duplicates()) by {
            assert forall|a: int, b: int| 0 <= a < order@.len() && 0 <= b < order@.len() && a != b implies order@[a] != order@[b] by {
                if a < b {
                    assert(order@[a] < order@[b]);
                } else {
                    assert(order@[b] < order@[a]);
                }
            }
        }
    }
    let mut slots: HashMap<i64, usize> = HashMap::new();
    let mut lists: HashMap<i64, Vec<usize>> = HashMap::new();
    let mut i: usize = 0;
    while i < order.len()
        invariant
            i <= order@.len(),
            data.wf(),
            increasing(order@),
            order@.no_duplicates(),
            order@.to_set() == data.ways@.dom(),
            slots@.dom() == order@.take(i as int).to_set(),
            forall|a: int| 0 <= a < i ==> slots@[#[trigger] order@[a]] == a,
            lists_view(lists@) == index_nodes(data.ways@, order@.take(i as int)),
            forall|k: i64, j: int| #[trigger] lists@.contains_key(k) && 0 <= j < lists@[k]@.len() ==> #[trigger] lists@[k]@[j] < i,
        decreases order.len() - i,
    {
        let k = order[i];
        assert(order@.to_set().contains(k));
        let way = data.ways.get(&k).unwrap();
        slots.insert(k, i);
        let ghost before_lists = lists@;
        push_slots(&mut lists, &way.nodes, i);
        proof {
            assert(order@.take(i + 1).drop_last() =~= order@.take(i as int));
            assert(order@.take(i + 1).last() == k);
            assert(order@.take(i + 1) =~= order@.take(i as int).push(k));
            order@.take(i as int).lemma_push_to_set_commute(k);
            assert forall|a: int| 0 <= a < i + 1 implies slots@[#[trigger] order@[a]] == a by {
                if a < i {
                    assert(order@[a] != k);
                }
            }
            lemma_add_slots_bound(lists_view(before_lists), way.nodes@, i, (i + 1) as nat);
            assert forall|m: i64, j: int| #[trigger] lists@.contains_key(m) && 0 <= j < lists@[m]@.len() implies #[trigger] lists@[m]@[j] < i + 1 by {
                assert(lists_view(lists@).contains_key(m));
                assert(lists_view(lists@)[m] == lists@[m]@);
            }
        }
        i = i + 1;
    }
    proof {
        assert(order@.take(order@.len() as int) =~= order@);
    }
    (order, slots, lists)
}

/// Appending a slot below `bound` keeps every listed slot below `bound`.
proof fn lemma_add_slots_bound(m: Map<i64, Seq<usize>>, nodes: Seq<i64>, slot: usize, bound: nat)
    requires
        slot < bound,
        forall|k: i64, j: int| #[trigger] m.contains_key(k) && 0 <= j < m[k].len() ==> #[trigger] m[k][j] < bound,
    ensures
        forall|k: i64, j: int| #[trigger] add_slots(m, nodes, slot).contains_key(k) && 0 <= j < add_slots(m, nodes, slot)[k].len()
            ==> #[trigger] add_slots(m, nodes, slot)[k][j] < bound,
    decreases nodes.len(),
{
    if nodes.len() > 0 {
        lemma_add_slots_bound(m, nodes.drop_last(), slot, bound);
        let p = add_slots(m, nodes.drop_last(), slot);
        let n = nodes.last();
        assert forall|k: i64, j: int| #[trigger] add_slot(p, n, slot).contains_key(k) && 0 <= j < add_slot(p, n, slot)[k].len()
            implies #[trigger] add_slot(p, n, slot)[k][j] < bound by {
            if k == n {
                let base = if p.contains_key(n) { p[n] } else { Seq::empty() };
                if j < base.len() {
                    assert(add_slot(p, n, slot)[k][j] == base[j]);
                }
            }
        }
    }
}


/// A dataset with no node and no way.
pub open spec fn no_data(d: OsmData) -> bool {
    d.nodes@.dom().is_empty() && d.ways@.dom().is_empty()
}

impl OsmLayer {
    /// The layer's display name.
    pub closed spec fn label(&self) -> Seq<char> {
        self.name@
    }

    /// Whether the layer is shown.
    pub closed spec fn shown(&self) -> bool {
        self.visible
    }

    /// The layer holds `d` as both its current data and its synced
    /// snapshot, unmodified, with its ways indexed afresh in increasing id
    /// order and the next automatic node id derived from `d`'s node ids.
    pub open spec fn fresh_from(&self, d: OsmData) -> bool {
        &&& self.data() == Some(d)
        &&& self.original() matches Some(o) && o.nodes@ == d.nodes@ && o.ways@ == d.ways@
        &&& increasing(self.slot_ids())
        &&& self.slot_ids().to_set() == d.ways@.dom()
        &&& self.slots().dom() == d.ways@.dom()
        &&& forall|i: int| 0 <= i < self.slot_ids().len() ==> self.slots()[#[trigger] self.slot_ids()[i]] == i
        &&& self.node_slots() == index_nodes(d.ways@, self.slot_ids())
        &&& !self.modified_spec()
        &&& is_next_new_id(d.nodes@.dom(), self.next_node_id())
    }

    /// A layer holding `osm_data` as loaded from the server.
    pub fn new_with_data(id: LayerId, name: String, osm_data: OsmData) -> (l: Self)
        requires
            osm_data.wf(),
            !osm_data.nodes@.contains_key(i64::MIN),
        ensures
            l.wf(),
            l.layer_id() == id,
            l.label() == name@,
            l.shown(),
            l.fresh_from(osm_data),
            l.next_way_id() == -1,
    {
        let mut l = OsmLayer::new(id);
        l.name = name;
        l.set_osm_data(osm_data);
        l
    }

    /// Replaces the data, which becomes the synced snapshot too: every
    /// index is rebuilt and the layer counts as unmodified.
    pub fn set_osm_data(&mut self, osm_data: OsmData)
        requires
            old(self).wf(),
            osm_data.wf(),
            !osm_data.nodes@.contains_key(i64::MIN),
        ensures
            final(self).wf(),
            final(self).fresh_from(osm_data),
            final(self).layer_id() == old(self).layer_id(),
            final(self).label() == old(self).label(),
            final(self).shown() == old(self).shown(),
            final(self).next_way_id() == old(self).next_way_id(),
    {
        let (order, slots, lists) = build_indexes(&osm_data);
        proof {
            assert forall|a: i64, b: i64| #[trigger] slots@.contains_key(a) && #[trigger] slots@.contains_key(b) && a != b
                implies slots@[a] != slots@[b] by {
                assert(order@.to_set().contains(a));
                assert(order@.to_set().contains(b));
                let i = choose|i: int| 0 <= i < order@.len() && order@[i] == a;
                let j = choose|j: int| 0 <= j < order@.len() && order@[j] == b;
                assert(slots@[order@[i]] == i);
                assert(slots@[order@[j]] == j);
            }
            assert forall|k: i64| #[trigger] slots@.contains_key(k) implies slots@[k] < order@.len() by {
                assert(order@.to_set().contains(k));
                let i = choose|i: int| 0 <= i < order@.len() && order@[i] == k;
                assert(slots@[order@[i]] == i);
            }
            assert forall|k: i64, j: int| #[trigger] lists_view(lists@).contains_key(k) && 0 <= j < lists_view(lists@)[k].len()
                implies #[trigger] lists_view(lists@)[k][j] < order@.len() by {
                assert(lists@.contains_key(k));
                assert(lists_view(lists@)[k] == lists@[k]@);
            }
        }
        let next = compute_next_new_id(&osm_data);
        self.way_ids = order;
        self.way_id_to_index = slots;
        self.node_to_ways = lists;
        self.next_new_id = next;
        self.original_data = Some(osm_data.duplicate());
        self.osm_data = Some(osm_data);
        self.modified = false;
        assert(self.way_ids@.len() == self.way_ids.len());
    }

    /// `r` is what the layer has to upload: the diff of the snapshot (no
    /// data when there is none) against the current data, or an empty
    /// diff when no data is loaded.
    pub open spec fn upload_diff(&self, r: LayerDiff) -> bool {
        &&& self.data() is None ==> r.created_nodes@.len() == 0 && r.modified_nodes@.len() == 0
            && r.deleted_node_ids@.len() == 0 && r.created_ways@.len() == 0 && r.modified_ways@.len() == 0
            && r.deleted_way_ids@.len() == 0
        &&& (self.data() matches Some(current) ==> exists|original: OsmData|
            {
                &&& (self.original() matches Some(o) ==> original == o)
                &&& (self.original() is None ==> no_data(original))
                &&& #[trigger] diffs(original, current, r)
            })
    }

    /// What to upload: the diff of the snapshot against the current data
    /// (everything current counts as created when there is no snapshot);
    /// an empty diff when no data is loaded.
    pub fn diff_for_upload(&self) -> (r: LayerDiff)
        requires
            self.wf(),
        ensures
            self.upload_diff(r),
    {
        match &self.osm_data {
            None => LayerDiff::new(),
            Some(current) => match &self.original_data {
                Some(original) => {
                    let r = diff_osm_data(original, current);
                    assert(diffs(*original, *current, r));
                    r
                },
                None => {
                    let empty = OsmData::new();
                    assert(no_data(empty));
                    let r = diff_osm_data(&empty, current);
                    assert(diffs(empty, *current, r));
                    r
                },
            },
        }
    }

    /// Drops the data, the snapshot and every index, and starts the id
    /// counters over.
    pub fn clear_osm_data(&mut self)
        ensures
            final(self).wf(),
            final(self).data() is None,
            final(self).original() is None,
            final(self).slot_ids().len() == 0,
            final(self).slots() == Map::<i64, usize>::empty(),
            final(self).node_slots() == Map::<i64, Seq<usize>>::empty(),
            !final(self).modified_spec(),
            final(self).next_node_id() == -1,
            final(self).next_way_id() == -1,
            final(self).layer_id() == old(self).layer_id(),
            final(self).label() == old(self).label(),
            final(self).shown() == old(self).shown(),
    {
        self.osm_data = None;
        self.original_data = None;
        self.way_ids = Vec::new();
        self.way_id_to_index = HashMap::new();
        self.node_to_ways = HashMap::new();
        self.modified = false;
        self.next_new_id = -1;
        self.next_placeholder_way_id = -1;
        assert(self.node_slots() =~= Map::<i64, Seq<usize>>::empty());
    }
}


/// `after` is `before` after `commit_node_moves(moves)`: unchanged when
/// `moves` is empty or no data is loaded, else every move of a node present
/// applied in order and the layer modified.
pub open spec fn nodes_committed(before: &OsmLayer, after: &OsmLayer, moves: Seq<(i64, Coord, Coord)>) -> bool {
    if moves.len() == 0 || before.data() is None {
        *after == *before
    } else {
        &&& after.same_apart_from_data(before)
        &&& after.data() is Some
        &&& nodes_view(after.data()->0.nodes@) == moved(nodes_view(before.data()->0.nodes@), moves)
        &&& after.data()->0.ways@ == before.data()->0.ways@
        &&& after.modified_spec()
    }
}

/// `after` is `before` after `apply_upload_result(result)`: with no data
/// loaded nothing changes; otherwise the data is reconciled with the
/// answer and becomes the new snapshot, under the same id, name,
/// visibility and way counter.
pub open spec fn upload_applied(before: &OsmLayer, after: &OsmLayer, result: UploadResult) -> bool {
    &&& before.data() is None ==> *after == *before
    &&& (before.data() matches Some(d) ==> exists|r: OsmData| #[trigger] reconciled(d, result, r) && after.fresh_from(r))
    &&& after.layer_id() == before.layer_id()
    &&& after.label() == before.label()
    &&& after.shown() == before.shown()
    &&& after.next_way_id() == before.next_way_id()
}

/// `after` is `before` after `set_tag(kind, id, key, value)`.
pub open spec fn tag_set_rel(before: &OsmLayer, after: &OsmLayer, kind: FeatureKind, id: i64, key: Seq<char>, value: Seq<char>) -> bool {
    match before.data() {
        None => *after == *before,
        Some(d) => {
            &&& after.same_apart_from_data(before)
            &&& after.data() is Some && tag_set_on(d, after.data()->0, kind, id, key, value)
            &&& after.modified_spec() == (before.modified_spec() || has_feature(d, kind, id))
        },
    }
}

/// `after` is `before` after `remove_tag(kind, id, key)`.
pub open spec fn tag_removed_rel(before: &OsmLayer, after: &OsmLayer, kind: FeatureKind, id: i64, key: Seq<char>) -> bool {
    match before.data() {
        None => *after == *before,
        Some(d) => {
            &&& after.same_apart_from_data(before)
            &&& after.data() is Some && tag_removed_on(d, after.data()->0, kind, id, key)
            &&& after.modified_spec() == (before.modified_spec() || has_feature(d, kind, id))
        },
    }
}

/// A renumbered id is one that was there or the new id of some step.
proof fn lemma_renumbered_ids(m: Map<i64, NodeView>, ups: Seq<(i64, i64, i32)>, k: i64)
    requires
        renumber_nodes(m, ups).contains_key(k),
    ensures
        m.contains_key(k) || exists|i: int| 0 <= i < ups.len() && (#[trigger] ups[i]).1 == k,
    decreases ups.len(),
{
    if ups.len() > 0 {
        let p = renumber_nodes(m, ups.drop_last());
        let u = ups.last();
        if p.contains_key(u.0) && k == u.1 {
            assert(ups[ups.len() - 1].1 == k);
        } else {
            assert(p.contains_key(k));
            lemma_renumbered_ids(m, ups.drop_last(), k);
            if !m.contains_key(k) {
                let i = choose|i: int| 0 <= i < ups.drop_last().len() && (#[trigger] ups.drop_last()[i]).1 == k;
                assert(ups[i] == ups.drop_last()[i]);
            }
        }
    }
}

/// The nodes after applying `moves` in order: each move of a node present
/// sets its coordinates.
pub open spec fn moved(m: Map<i64, NodeView>, moves: Seq<(i64, Coord, Coord)>) -> Map<i64, NodeView>
    decreases moves.len(),
{
    if moves.len() == 0 {
        m
    } else {
        let p = moved(m, moves.drop_last());
        let mv = moves.last();
        if p.contains_key(mv.0) {
            p.insert(mv.0, NodeView { lat: mv.1, lon: mv.2, ..p[mv.0] })
        } else {
            p
        }
    }
}

/// The slots of the ways listed for a node that `moves` moves (a move of
/// a node not present touches nothing).
pub open spec fn touched_slots(lists: Map<i64, Seq<usize>>, present: Set<i64>, moves: Seq<(i64, Coord, Coord)>) -> Set<usize> {
    Set::new(
        |s: usize|
            exists|j: int|
                0 <= j < moves.len() && present.contains((#[trigger] moves[j]).0) && lists.contains_key(moves[j].0)
                    && lists[moves[j].0].contains(s),
    )
}

/// Whether `v` holds `x`.
fn holds_slot(v: &Vec<usize>, x: usize) -> (r: bool)
    ensures
        r == v@.contains(x),
{
    let mut i: usize = 0;
    while i < v.len()
        invariant
            i <= v@.len(),
            forall|j: int| 0 <= j < i ==> v@[j] != x,
        decreases v.len() - i,
    {
        if v[i] == x {
            return true;
        }
        i = i + 1;
    }
    false
}

/// Adds to `out` each slot of `list` it does not hold yet.
fn add_distinct(out: &mut Vec<usize>, list: &Vec<usize>)
    requires
        old(out)@.no_duplicates(),
    ensures
        final(out)@.no_duplicates(),
        final(out)@.to_set() == old(out)@.to_set().union(list@.to_set()),
{
    let ghost start = out@.to_set();
    let mut i: usize = 0;
    while i < list.len()
        invariant
            i <= list@.len(),
            out@.no_duplicates(),
            out@.to_set() == start.union(list@.take(i as int).to_set()),
        decreases list.len() - i,
    {
        let x = list[i];
        proof {
            assert(list@.take(i + 1) =~= list@.take(i as int).push(x));
            list@.take(i as int).lemma_push_to_set_commute(x);
        }
        if !holds_slot(out, x) {
            let ghost before = out@;
            out.push(x);
            proof {
                before.lemma_push_to_set_commute(x);
                assert forall|a: int, b: int| 0 <= a < out@.len() && 0 <= b < out@.len() && a != b implies out@[a] != out@[b] by {
                    if a == before.len() {
                        assert(before.contains(out@[b]));
                    } else if b == before.len() {
                        assert(before.contains(out@[a]));
                    }
                }
            }
        } else {
            assert(out@.to_set().contains(x));
        }
        i = i + 1;
    }
    assert(list@.take(list@.len() as int) =~= list@);
}

impl OsmLayer {
    /// The id, name, visibility and snapshot are as in `other`.
    pub open spec fn same_names(&self, other: &OsmLayer) -> bool {
        &&& self.layer_id() == other.layer_id()
        &&& self.label() == other.label()
        &&& self.shown() == other.shown()
        &&& self.original() == other.original()
    }

    /// The id, name, visibility, snapshot and next way id are as in
    /// `other`.
    pub open spec fn same_frame(&self, other: &OsmLayer) -> bool {
        self.same_names(other) && self.next_way_id() == other.next_way_id()
    }

    /// The frame and the way indexes are as in `other`.
    pub open spec fn same_indexes(&self, other: &OsmLayer) -> bool {
        &&& self.same_frame(other)
        &&& self.slot_ids() == other.slot_ids()
        &&& self.slots() == other.slots()
        &&& self.node_slots() == other.node_slots()
    }

    /// Everything but the current data and the modified flag is as in
    /// `other`.
    pub open spec fn same_apart_from_data(&self, other: &OsmLayer) -> bool {
        self.same_indexes(other) && self.next_node_id() == other.next_node_id()
    }

    /// Reconciles the data with a successful upload's answer (see
    /// `reconcile_upload`) and makes the result the new synced snapshot,
    /// as `set_osm_data` does. Nothing happens when no data is loaded.
    pub fn apply_upload_result(&mut self, result: &UploadResult)
        requires
            old(self).wf(),
            forall|k: i64| #[trigger] result.node_id_remap@.contains_key(k) ==> result.node_id_remap@[k].0 != i64::MIN,
        ensures
            final(self).wf(),
            upload_applied(&*old(self), &*final(self), *result),
    {
        let copy = match &self.osm_data {
            Some(current) => current.duplicate(),
            None => return ,
        };
        let ghost d = self.osm_data->0;
        let r = reconcile_upload(copy, result);
        proof {
            assert(reconciled(d, *result, r));
            if r.nodes@.contains_key(i64::MIN) {
                let (nups, wups) = choose|nups: Seq<(i64, i64, i32)>, wups: Seq<(i64, i64, i32)>|
                    {
                        &&& #[trigger] steps_for(nups, result.node_id_remap@, d.nodes@.dom())
                        &&& #[trigger] steps_for(wups, result.way_id_remap@, d.ways@.dom())
                        &&& nodes_view(r.nodes@) == renumber_nodes(nodes_view(d.nodes@), nups)
                        &&& ways_view(r.ways@) == renumber_ways(
                            renumber_members(ways_view(d.ways@), node_id_map(result.node_id_remap@, d.nodes@.dom())),
                            wups,
                        )
                    };
                assert(nodes_view(r.nodes@).contains_key(i64::MIN));
                lemma_renumbered_ids(nodes_view(d.nodes@), nups, i64::MIN);
                if !d.nodes@.contains_key(i64::MIN) {
                    let i = choose|i: int| 0 <= i < nups.len() && (#[trigger] nups[i]).1 == i64::MIN;
                    assert(olds(nups)[i] == nups[i].0);
                    assert(olds(nups).to_set().contains(olds(nups)[i]));
                    assert(result.node_id_remap@.contains_key(nups[i].0));
                }
                assert(false);
            }
        }
        self.set_osm_data(r);
    }
}


impl OsmLayer {
    /// Moves nodes: each move `(id, lat, lon)` of a node present sets its
    /// coordinates, in order, and the layer counts as modified. Returns the
    /// slots of the ways listed as using a moved node, each once: those
    /// whose drawn geometry is stale. Nothing happens (and nothing is
    /// returned) when `moves` is empty or no data is loaded.
    pub fn commit_node_moves(&mut self, moves: &[(i64, Coord, Coord)]) -> (touched: Vec<usize>)
        requires
            old(self).wf(),
        ensures
            final(self).next_node_id() <= old(self).next_node_id(),
            final(self).wf(),
            nodes_committed(old(self), final(self), moves@),
            moves@.len() == 0 || old(self).data() is None ==> touched@.len() == 0,
            old(self).data() matches Some(d) ==> (moves@.len() > 0 ==> touched@.no_duplicates()
                && touched@.to_set() == touched_slots(old(self).node_slots(), d.nodes@.dom(), moves@)),
    {
        if moves.len() == 0 {
            return Vec::new();
        }
        let mut data = match self.osm_data.take() {
            Some(d) => d,
            None => return Vec::new(),
        };
        let ghost d0 = data;
        let ghost lists = lists_view(self.node_to_ways@);
        let mut touched: Vec<usize> = Vec::new();
        let mut i: usize = 0;
        while i < moves.len()
            invariant
                i <= moves@.len(),
                data.wf(),
                data.ways@ == d0.ways@,
                data.nodes@.dom() == d0.nodes@.dom(),
                nodes_view(data.nodes@) == moved(nodes_view(d0.nodes@), moves@.take(i as int)),
                lists == lists_view(self.node_to_ways@),
                touched@.no_duplicates(),
                touched@.to_set() == touched_slots(lists, d0.nodes@.dom(), moves@.take(i as int)),
            decreases moves.len() - i,
        {
            let (id, lat, lon) = moves[i];
            let ghost before = touched@.to_set();
            proof {
                assert(moves@.take(i + 1).drop_last() =~= moves@.take(i as int));
                assert(moves@.take(i + 1).last() == moves@[i as int]);
            }
            let ghost prev = nodes_view(data.nodes@);
            match data.nodes.remove(&id) {
                Some(mut n) => {
                    n.lat = lat;
                    n.lon = lon;
                    data.nodes.insert(id, n);
                    proof {
                        assert(prev.contains_key(id));
                        assert(nodes_view(data.nodes@) =~= prev.insert(id, NodeView { lat, lon, ..prev[id] }));
                        assert(data.nodes@.dom() =~= d0.nodes@.dom());
                    }
                    match self.node_to_ways.get(&id) {
                        Some(list) => {
                            add_distinct(&mut touched, list);
                            proof {
                                assert(lists[id] == list@);
                                assert forall|x: usize| #[trigger] touched@.to_set().contains(x) == touched_slots(lists, d0.nodes@.dom(), moves@.take(i + 1)).contains(x) by {
                                    let t = moves@.take(i + 1);
                                    if touched_slots(lists, d0.nodes@.dom(), t).contains(x) {
                                        let j = choose|j: int| 0 <= j < t.len() && d0.nodes@.dom().contains((#[trigger] t[j]).0) && lists.contains_key(t[j].0) && lists[t[j].0].contains(x);
                                        if j < i {
                                            assert(moves@.take(i as int)[j] == t[j]);
                                        } else {
                                            assert(list@.to_set().contains(x));
                                        }
                                    }
                                    if before.contains(x) {
                                        let j = choose|j: int| 0 <= j < i && d0.nodes@.dom().contains((#[trigger] moves@.take(i as int)[j]).0) && lists.contains_key(moves@.take(i as int)[j].0) && lists[moves@.take(i as int)[j].0].contains(x);
                                        assert(t[j] == moves@.take(i as int)[j]);
                                    }
                                    if list@.to_set().contains(x) {
                                        assert(t[i as int] == moves@[i as int]);
                                    }
                                }
                                assert(touched@.to_set() =~= touched_slots(lists, d0.nodes@.dom(), moves@.take(i + 1)));
                            }
                        },
                        None => {
                            proof {
                                assert forall|x: usize| #[trigger] touched@.to_set().contains(x) == touched_slots(lists, d0.nodes@.dom(), moves@.take(i + 1)).contains(x) by {
                                    let t = moves@.take(i + 1);
                                    if touched_slots(lists, d0.nodes@.dom(), t).contains(x) {
                                        let j = choose|j: int| 0 <= j < t.len() && d0.nodes@.dom().contains((#[trigger] t[j]).0) && lists.contains_key(t[j].0) && lists[t[j].0].contains(x);
                                        assert(moves@.take(i as int)[j] == t[j]);
                                    }
                                    if before.contains(x) {
                                        let j = choose|j: int| 0 <= j < i && d0.nodes@.dom().contains((#[trigger] moves@.take(i as int)[j]).0) && lists.contains_key(moves@.take(i as int)[j].0) && lists[moves@.take(i as int)[j].0].contains(x);
                                        assert(t[j] == moves@.take(i as int)[j]);
                                    }
                                }
                                assert(touched@.to_set() =~= touched_slots(lists, d0.nodes@.dom(), moves@.take(i + 1)));
                            }
                        },
                    }
                },
                None => {
                    proof {
                        assert(!d0.nodes@.contains_key(id));
                        assert(nodes_view(data.nodes@) =~= prev);
                        assert(data.nodes@.dom() =~= d0.nodes@.dom());
                        assert forall|x: usize| #[trigger] touched@.to_set().contains(x) == touched_slots(lists, d0.nodes@.dom(), moves@.take(i + 1)).contains(x) by {
                            let t = moves@.take(i + 1);
                            if touched_slots(lists, d0.nodes@.dom(), t).contains(x) {
                                let j = choose|j: int| 0 <= j < t.len() && d0.nodes@.dom().contains((#[trigger] t[j]).0) && lists.contains_key(t[j].0) && lists[t[j].0].contains(x);
                                assert(moves@.take(i as int)[j] == t[j]);
                            }
                            if before.contains(x) {
                                let j = choose|j: int| 0 <= j < i && d0.nodes@.dom().contains((#[trigger] moves@.take(i as int)[j]).0) && lists.contains_key(moves@.take(i as int)[j].0) && lists[moves@.take(i as int)[j].0].contains(x);
                                assert(t[j] == moves@.take(i as int)[j]);
                            }
                        }
                        assert(touched@.to_set() =~= touched_slots(lists, d0.nodes@.dom(), moves@.take(i + 1)));
                    }
                },
            }
            i = i + 1;
        }
        proof {
            assert(moves@.take(moves@.len() as int) =~= moves@);
        }
        self.osm_data = Some(data);
        self.modified = true;
        touched
    }

    /// Sets a tag on a node or way of the data; the layer counts as
    /// modified when the feature exists. Nothing happens when no data is
    /// loaded or there is no such feature.
    pub fn set_tag(&mut self, kind: FeatureKind, id: i64, key: &str, value: &str)
        requires
            old(self).wf(),
        ensures
            final(self).next_node_id() <= old(self).next_node_id(),
            final(self).wf(),
            tag_set_rel(old(self), final(self), kind, id, key@, value@),
    {
        match self.osm_data.take() {
            Some(mut d) => {
                let ghost d0 = d;
                let found = d.set_tag(kind, id, key, value);
                proof {
                    assert(d.nodes@.dom() =~= d0.nodes@.dom()) by {
                        assert(nodes_view(d.nodes@).dom() == d.nodes@.dom());
                        assert(nodes_view(d0.nodes@).dom() == d0.nodes@.dom());
                    }
                }
                self.osm_data = Some(d);
                if found {
                    self.modified = true;
                }
            },
            None => {},
        }
    }

    /// Removes a tag from a node or way of the data; the layer counts as
    /// modified when the feature exists. Nothing happens when no data is
    /// loaded or there is no such feature.
    pub fn remove_tag(&mut self, kind: FeatureKind, id: i64, key: &str)
        requires
            old(self).wf(),
        ensures
            final(self).next_node_id() <= old(self).next_node_id(),
            final(self).wf(),
            tag_removed_rel(old(self), final(self), kind, id, key@),
    {
        match self.osm_data.take() {
            Some(mut d) => {
                let ghost d0 = d;
                let found = d.remove_tag(kind, id, key);
                proof {
                    assert(d.nodes@.dom() =~= d0.nodes@.dom()) by {
                        assert(nodes_view(d.nodes@).dom() == d.nodes@.dom());
                        assert(nodes_view(d0.nodes@).dom() == d0.nodes@.dom());
                    }
                }
                self.osm_data = Some(d);
                if found {
                    self.modified = true;
                }
            },
            None => {},
        }
    }
}


/// What `restore_feature` needs to bring a deleted node or way back: its
/// id and tags, and a way's member ids or a node's coordinates.
#[derive(Debug, Clone, PartialEq)]
pub struct DeletedFeatureSnapshot {
    pub kind: FeatureKind,
    pub id: i64,
    pub tags: Vec<(String, String)>,
    pub way_nodes: Vec<i64>,
    pub node_lat_lon: Option<(Coord, Coord)>,
}

impl DeletedFeatureSnapshot {
    /// A copy of the record.
    pub fn duplicate(&self) -> (r: Self)
        ensures
            r.kind == self.kind,
            r.id == self.id,
            r.tags@ == self.tags@,
            r.way_nodes@ == self.way_nodes@,
            r.node_lat_lon == self.node_lat_lon,
    {
        DeletedFeatureSnapshot {
            kind: self.kind,
            id: self.id,
            tags: copy_tags(&self.tags),
            way_nodes: copy_ids(&self.way_nodes),
            node_lat_lon: self.node_lat_lon,
        }
    }
}

/// A node as created by an edit: version 0.
pub open spec fn new_node(id: i64, lat: Coord, lon: Coord, tags: Seq<(String, String)>) -> NodeView {
    NodeView { id, lat, lon, version: 0, tags }
}

impl OsmLayer {
    /// `self` is `old` with the node `id` added to (or replaced in) its
    /// data, the ways and indexes unchanged, and the layer modified.
    pub open spec fn node_put(&self, old: &OsmLayer, base: OsmData, node: NodeView) -> bool {
        &&& self.data() matches Some(d2) && d2.ways@ == base.ways@ && nodes_view(d2.nodes@) == nodes_view(base.nodes@).insert(node.id, node)
        &&& self.modified_spec()
        &&& self.same_indexes(old)
    }

    /// Adds (or replaces) the node `id` in the data and marks the layer
    /// modified; the next automatic id moves below `id` when it is not
    /// already. Nothing happens when no data is loaded.
    fn insert_node(&mut self, id: i64, lat: Coord, lon: Coord, tags: Vec<(String, String)>)
        requires
            old(self).wf(),
            old(self).data() is Some ==> id != i64::MIN,
        ensures
            final(self).wf(),
            old(self).data() is None ==> *final(self) == *old(self),
            old(self).data() matches Some(d) ==> final(self).node_put(old(self), d, new_node(id, lat, lon, tags@)),
            old(self).data() is Some ==> final(self).next_node_id() == if id <= old(self).next_node_id() {
                id - 1
            } else {
                old(self).next_node_id() as int
            },
    {
        match self.osm_data.take() {
            Some(mut d) => {
                let ghost d0 = d;
                let ghost t = tags@;
                d.nodes.insert(id, OsmNode { id, lat, lon, version: 0, tags });
                proof {
                    assert(nodes_view(d.nodes@) =~= nodes_view(d0.nodes@).insert(id, new_node(id, lat, lon, t)));
                }
                self.osm_data = Some(d);
                if id <= self.next_new_id {
                    self.next_new_id = id - 1;
                }
                self.modified = true;
            },
            None => {},
        }
    }

    /// Creates a tagless node: under `id` when given (refused, `None`, when
    /// that id is taken: the redo of an undone creation reuses its id), else
    /// under the next automatic id, which then moves down by one. `None`
    /// and no change when no data is loaded.
    pub fn create_node(&mut self, lat: Coord, lon: Coord, id: Option<i64>) -> (r: Option<i64>)
        requires
            old(self).wf(),
            id is None ==> old(self).next_node_id() > i64::MIN,
            id matches Some(i) ==> i != i64::MIN,
        ensures
            final(self).wf(),
            old(self).data() is None ==> r is None && *final(self) == *old(self),
            old(self).data() matches Some(d) ==> match id {
                Some(i) => if d.nodes@.contains_key(i) {
                    r is None && *final(self) == *old(self)
                } else {
                    &&& r == Some(i)
                    &&& final(self).node_put(old(self), d, new_node(i, lat, lon, Seq::empty()))
                    &&& final(self).next_node_id() == if i <= old(self).next_node_id() {
                        i - 1
                    } else {
                        old(self).next_node_id() as int
                    }
                },
                None => {
                    &&& r == Some(old(self).next_node_id())
                    &&& old(self).next_node_id() < 0
                    &&& forall|k: i64| #[trigger] old(self).node_views().contains_key(k) ==> old(self).next_node_id() < k
                    &&& !d.nodes@.contains_key(old(self).next_node_id())
                    &&& final(self).node_put(old(self), d, new_node(old(self).next_node_id(), lat, lon, Seq::empty()))
                    &&& final(self).next_node_id() == old(self).next_node_id() - 1
                },
            },
    {
        let taken = match &self.osm_data {
            None => return None,
            Some(d) => match id {
                Some(i) => d.nodes.contains_key(&i),
                None => false,
            },
        };
        if taken {
            return None;
        }
        let new_id = match id {
            Some(i) => i,
            None => {
                let i = self.next_new_id;
                self.next_new_id = self.next_new_id - 1;
                i
            },
        };
        let no_tags: Vec<(String, String)> = Vec::new();
        assert(no_tags@ =~= Seq::<(String, String)>::empty());
        self.insert_node(new_id, lat, lon, no_tags);
        Some(new_id)
    }

    /// Creates a tagless node under the next automatic id (starting empty
    /// data when none is loaded) and returns that id.
    pub fn add_node(&mut self, lat: Coord, lon: Coord) -> (r: i64)
        requires
            old(self).wf(),
            old(self).next_node_id() > i64::MIN,
        ensures
            final(self).wf(),
            node_added(old(self), final(self), lat, lon, r),
    {
        if self.osm_data.is_none() {
            self.osm_data = Some(OsmData::new());
        }
        let ghost mid = *self;
        proof {
            if old(self).data() is None {
                assert(nodes_view(mid.data()->0.nodes@) =~= Map::<i64, NodeView>::empty());
                assert(ways_view(mid.data()->0.ways@) =~= Map::<i64, WayView>::empty());
            }
            assert(mid.node_views() == old(self).node_views());
            assert(mid.way_views() == old(self).way_views());
        }
        let r = self.create_node(lat, lon, None);
        match r {
            Some(id) => id,
            None => {
                assert(false);
                0
            },
        }
    }
}


/// `after` is `before` with node `id` removed from the data and its node
/// index entry dropped.
pub open spec fn node_removed(before: &OsmLayer, after: &OsmLayer, id: i64) -> bool {
    &&& after.data() is Some && after.way_views() == before.way_views()
    &&& after.node_views() == before.node_views().remove(id)
    &&& after.node_slots() == before.node_slots().remove(id)
    &&& after.modified_spec()
    &&& after.same_frame(before)
    &&& after.slot_ids() == before.slot_ids() && after.slots() == before.slots()
    &&& after.next_node_id() == before.next_node_id()
}

/// `after` is `before` with the node `id`, which no way is listed as
/// using, deleted from the data and from the node index, and `snap`
/// records the node.
pub open spec fn node_deleted(before: &OsmLayer, after: &OsmLayer, id: i64, snap: DeletedFeatureSnapshot) -> bool {
    let d = before.data()->0;
    let d2 = after.data()->0;
    &&& before.data() is Some && d.nodes@.contains_key(id)
    &&& after.data() is Some && d2.ways@ == d.ways@ && d2.nodes@ == d.nodes@.remove(id)
    &&& snap.kind == FeatureKind::Node && snap.id == id && snap.tags@ == d.nodes@[id].tags@
    &&& snap.way_nodes@.len() == 0 && snap.node_lat_lon == Some((d.nodes@[id].lat, d.nodes@[id].lon))
    &&& after.node_slots() == before.node_slots().remove(id)
    &&& after.modified_spec()
    &&& after.same_frame(before)
    &&& after.slot_ids() == before.slot_ids() && after.slots() == before.slots()
    &&& after.next_node_id() == before.next_node_id()
}

/// `after` is `before` with the node recorded by `snap` back in the data
/// (version 0) and the next automatic id kept below it.
pub open spec fn node_restored(before: &OsmLayer, after: &OsmLayer, snap: DeletedFeatureSnapshot) -> bool {
    let d = before.data()->0;
    let p = snap.node_lat_lon->0;
    &&& before.data() is Some && snap.node_lat_lon is Some && !d.nodes@.contains_key(snap.id)
    &&& after.node_put(before, d, new_node(snap.id, p.0, p.1, snap.tags@))
    &&& after.next_node_id() == if snap.id <= before.next_node_id() {
        snap.id - 1
    } else {
        before.next_node_id() as int
    }
}

impl OsmLayer {
    /// Removes node `node_id` from the data and drops its node index
    /// entry, whether or not a way still lists it (callers splice it out of
    /// ways themselves); the layer counts as modified. Nothing happens when
    /// there is no such node.
    pub fn remove_node(&mut self, node_id: i64)
        requires
            old(self).wf(),
        ensures
            final(self).next_node_id() <= old(self).next_node_id(),
            final(self).wf(),
            if old(self).node_views().contains_key(node_id) {
                node_removed(old(self), final(self), node_id)
            } else {
                *final(self) == *old(self)
            },
    {
        let present = match &self.osm_data {
            Some(d) => d.nodes.contains_key(&node_id),
            None => false,
        };
        if !present {
            return ;
        }
        let mut d = self.osm_data.take().unwrap();
        d.nodes.remove(&node_id);
        self.osm_data = Some(d);
        self.node_to_ways.remove(&node_id);
        self.modified = true;
        proof {
            assert(lists_view(self.node_to_ways@) =~= lists_view(old(self).node_to_ways@).remove(node_id));
            assert(self.node_views() =~= old(self).node_views().remove(node_id));
        }
    }

    /// Deletes the node `id` unless a way is listed as using it (the node
    /// index has a non-empty list for it): `None` and no change then, or
    /// when there is no such node.
    fn delete_node(&mut self, id: i64) -> (r: Option<DeletedFeatureSnapshot>)
        requires
            old(self).wf(),
        ensures
            final(self).wf(),
            match r {
                Some(snap) => node_deleted(old(self), final(self), id, snap),
                None => *final(self) == *old(self),
            },
            r is Some <==> (old(self).data() is Some && old(self).data()->0.nodes@.contains_key(id) && !(
            old(self).node_slots().contains_key(id) && old(self).node_slots()[id].len() > 0)),
    {
        let referenced = match self.node_to_ways.get(&id) {
            Some(list) => list.len() > 0,
            None => false,
        };
        if referenced {
            return None;
        }
        let present = match &self.osm_data {
            Some(d) => d.nodes.contains_key(&id),
            None => false,
        };
        if !present {
            return None;
        }
        let mut d = self.osm_data.take().unwrap();
        let node = d.nodes.remove(&id).unwrap();
        self.osm_data = Some(d);
        self.node_to_ways.remove(&id);
        self.modified = true;
        proof {
            assert(lists_view(self.node_to_ways@) =~= lists_view(old(self).node_to_ways@).remove(id));
        }
        let snap = DeletedFeatureSnapshot {
            kind: FeatureKind::Node,
            id,
            tags: node.tags,
            way_nodes: Vec::new(),
            node_lat_lon: Some((node.lat, node.lon)),
        };
        Some(snap)
    }

    /// Puts back the node recorded by `snap`, unless a node with its id is
    /// present (or no data is loaded, or `snap` has no coordinates).
    fn restore_node(&mut self, snap: DeletedFeatureSnapshot)
        requires
            old(self).wf(),
            snap.node_lat_lon is Some && old(self).data() is Some ==> snap.id != i64::MIN,
        ensures
            final(self).wf(),
            if snap.node_lat_lon is Some && old(self).data() is Some && !old(self).data()->0.nodes@.contains_key(snap.id) {
                node_restored(old(self), final(self), snap)
            } else {
                *final(self) == *old(self)
            },
    {
        let (lat, lon) = match snap.node_lat_lon {
            Some(p) => p,
            None => return ,
        };
        let taken = match &self.osm_data {
            Some(d) => d.nodes.contains_key(&snap.id),
            None => true,
        };
        if taken {
            return ;
        }
        self.insert_node(snap.id, lat, lon, snap.tags);
    }
}


/// A slot after slot `idx` is dropped: later slots move down by one.
pub open spec fn shift_down(v: usize, idx: usize) -> usize {
    if v > idx {
        (v - 1) as usize
    } else {
        v
    }
}

/// The way index after dropping way `id` from slot `idx`.
pub open spec fn slots_without(m: Map<i64, usize>, id: i64, idx: usize) -> Map<i64, usize> {
    m.remove(id).map_values(|v: usize| shift_down(v, idx))
}

/// A node's slot list after dropping slot `idx`.
pub open spec fn list_without(s: Seq<usize>, idx: usize) -> Seq<usize> {
    s.filter_map(|w: usize| if w == idx { None } else { Some(shift_down(w, idx)) })
}

/// The node index after dropping slot `idx`: lists left empty go.
pub open spec fn lists_without(m: Map<i64, Seq<usize>>, idx: usize) -> Map<i64, Seq<usize>> {
    Map::new(|k: i64| m.contains_key(k) && list_without(m[k], idx).len() > 0, |k: i64| list_without(m[k], idx))
}

/// Dropping a slot below `len` leaves every listed slot below `len - 1`.
proof fn lemma_list_without_bound(s: Seq<usize>, idx: usize, len: nat)
    requires
        idx < len,
        forall|j: int| 0 <= j < s.len() ==> #[trigger] s[j] < len,
    ensures
        forall|j: int| 0 <= j < list_without(s, idx).len() ==> #[trigger] list_without(s, idx)[j] < len - 1,
    decreases s.len(),
{
    if s.len() > 0 {
        let rest = s.drop_last();
        lemma_list_without_bound(rest, idx, len);
        let r = list_without(rest, idx);
        assert(s.last() == s[s.len() - 1]);
        assert(list_without(s, idx) == if s.last() == idx {
            r
        } else {
            r + seq![shift_down(s.last(), idx)]
        });
        assert forall|j: int| 0 <= j < list_without(s, idx).len() implies #[trigger] list_without(s, idx)[j] < len - 1 by {
            if s.last() != idx && j == r.len() {
                assert(list_without(s, idx)[j] == shift_down(s.last(), idx));
            } else {
                assert(list_without(s, idx)[j] == r[j]);
            }
        }
    }
}

/// The first `i + 1` ids hold the first `i` and the `i`-th.
proof fn lemma_take_next_contains(s: Seq<i64>, i: int)
    requires
        0 <= i < s.len(),
    ensures
        forall|x: i64| #[trigger] s.take(i + 1).contains(x) <==> (s.take(i).contains(x) || x == s[i]),
{
    let t1 = s.take(i + 1);
    let t0 = s.take(i);
    assert(t1 =~= t0.push(s[i]));
    assert forall|x: i64| #[trigger] t1.contains(x) <==> (t0.contains(x) || x == s[i]) by {
        if t1.contains(x) {
            let a = choose|a: int| 0 <= a < t1.len() && t1[a] == x;
            if a < i {
                assert(t0[a] == x);
            }
        }
        if t0.contains(x) {
            let a = choose|a: int| 0 <= a < t0.len() && t0[a] == x;
            assert(t1[a] == x);
        }
        if x == s[i] {
            assert(t1[i] == x);
        }
    }
}

/// A node's slot list without slot `idx`.
fn list_without_slot(s: &Vec<usize>, idx: usize) -> (r: Vec<usize>)
    ensures
        r@ == list_without(s@, idx),
{
    let mut out: Vec<usize> = Vec::new();
    let mut i: usize = 0;
    while i < s.len()
        invariant
            i <= s@.len(),
            out@ == list_without(s@.take(i as int), idx),
        decreases s.len() - i,
    {
        let w = s[i];
        proof {
            assert(s@.take(i + 1).drop_last() =~= s@.take(i as int));
            assert(s@.take(i + 1).last() == w);
        }
        if w != idx {
            let v = if w > idx { w - 1 } else { w };
            let ghost before = out@;
            out.push(v);
            assert(out@ =~= before + seq![v]);
        }
        i = i + 1;
    }
    assert(s@.take(s@.len() as int) =~= s@);
    out
}

/// The way index without way `id`, whose slot `idx` is dropped.
fn slots_without_way(m: &HashMap<i64, usize>, id: i64, idx: usize) -> (r: HashMap<i64, usize>)
    ensures
        r@ == slots_without(m@, id, idx),
{
    let keys = key_list(m);
    let mut out: HashMap<i64, usize> = HashMap::new();
    let mut i: usize = 0;
    while i < keys.len()
        invariant
            i <= keys@.len(),
            keys@.to_set() == m@.dom(),
            out@ == Map::new(|k: i64| keys@.take(i as int).contains(k) && k != id, |k: i64| shift_down(m@[k], idx)),
        decreases keys.len() - i,
    {
        let k = keys[i];
        let ghost before = out@;
        proof {
            assert(keys@.take(i + 1) =~= keys@.take(i as int).push(k));
            assert(keys@.to_set().contains(k));
        }
        if k != id {
            let v = *m.get(&k).unwrap();
            let nv = if v > idx { v - 1 } else { v };
            out.insert(k, nv);
        }
        proof {
            assert(out@ =~= Map::new(|x: i64| keys@.take(i + 1).contains(x) && x != id, |x: i64| shift_down(m@[x], idx))) by {
                lemma_take_next_contains(keys@, i as int);
            }
        }
        i = i + 1;
    }
    proof {
        assert(keys@.take(keys@.len() as int) =~= keys@);
        assert forall|k: i64| keys@.contains(k) <==> m@.contains_key(k) by {
            if m@.contains_key(k) {
                assert(keys@.to_set().contains(k));
            }
        }
        assert(out@ =~= slots_without(m@, id, idx));
    }
    out
}

/// The node index with slot `idx` dropped from every list (lists left
/// empty go).
fn lists_without_slot(m: &HashMap<i64, Vec<usize>>, idx: usize) -> (r: HashMap<i64, Vec<usize>>)
    ensures
        lists_view(r@) == lists_without(lists_view(m@), idx),
{
    let ghost lv = lists_view(m@);
    let keys = key_list(m);
    let mut out: HashMap<i64, Vec<usize>> = HashMap::new();
    let mut i: usize = 0;
    while i < keys.len()
        invariant
            i <= keys@.len(),
            keys@.to_set() == m@.dom(),
            keys@.no_duplicates(),
            lv == lists_view(m@),
            lists_view(out@) == Map::new(
                |k: i64| keys@.take(i as int).contains(k) && list_without(lv[k], idx).len() > 0,
                |k: i64| list_without(lv[k], idx),
            ),
        decreases keys.len() - i,
    {
        let k = keys[i];
        proof {
            assert(keys@.to_set().contains(k));
        }
        let list = m.get(&k).unwrap();
        let nl = list_without_slot(list, idx);
        let ghost before = lists_view(out@);
        proof {
            assert(lv[k] == list@);
            if keys@.take(i as int).contains(k) {
                let a = choose|a: int| 0 <= a < i && keys@.take(i as int)[a] == k;
                assert(keys@[a] == keys@[i as int]);
            }
        }
        if nl.len() > 0 {
            let ghost nv = nl@;
            out.insert(k, nl);
            assert(lists_view(out@) =~= before.insert(k, nv));
        }
        proof {
            assert(lists_view(out@) =~= Map::new(
                |x: i64| keys@.take(i + 1).contains(x) && list_without(lv[x], idx).len() > 0,
                |x: i64| list_without(lv[x], idx),
            )) by {
                lemma_take_next_contains(keys@, i as int);
            }
        }
        i = i + 1;
    }
    proof {
        assert(keys@.take(keys@.len() as int) =~= keys@);
        assert forall|k: i64| keys@.contains(k) <==> lv.contains_key(k) by {
            if lv.contains_key(k) {
                assert(keys@.to_set().contains(k));
            }
        }
        assert(lists_view(out@) =~= lists_without(lv, idx));
    }
    out
}

impl OsmLayer {
    /// Drops way `id`, indexed at slot `idx`, from the way indexes: later
    /// slots move down by one.
    fn unindex_way(&mut self, id: i64, idx: usize)
        requires
            old(self).wf(),
            old(self).slots().contains_key(id),
            old(self).slots()[id] == idx,
        ensures
            final(self).wf(),
            final(self).slot_ids() == old(self).slot_ids().remove(idx as int),
            final(self).slots() == slots_without(old(self).slots(), id, idx),
            final(self).node_slots() == lists_without(old(self).node_slots(), idx),
            final(self).same_frame(old(self)),
            final(self).data() == old(self).data(),
            final(self).modified_spec() == old(self).modified_spec(),
            final(self).next_node_id() == old(self).next_node_id(),
    {
        let ghost len = self.way_ids@.len();
        self.way_ids.remove(idx);
        let slots = slots_without_way(&self.way_id_to_index, id, idx);
        let lists = lists_without_slot(&self.node_to_ways, idx);
        proof {
            let m = old(self).way_id_to_index@;
            assert forall|k: i64| #[trigger] slots@.contains_key(k) implies slots@[k] < len - 1 by {
                assert(m[k] != idx);
            }
            assert forall|a: i64, b: i64| #[trigger] slots@.contains_key(a) && #[trigger] slots@.contains_key(b) && a != b
                implies slots@[a] != slots@[b] by {
                assert(m[a] != m[b]);
                assert(m[a] != idx && m[b] != idx);
            }
            let lv = lists_view(old(self).node_to_ways@);
            assert forall|k: i64, j: int| #[trigger] lists_view(lists@).contains_key(k) && 0 <= j < lists_view(lists@)[k].len()
                implies #[trigger] lists_view(lists@)[k][j] < len - 1 by {
                assert forall|j2: int| 0 <= j2 < lv[k].len() implies #[trigger] lv[k][j2] < len by {
                    assert(lv.contains_key(k));
                }
                lemma_list_without_bound(lv[k], idx, len);
            }
        }
        self.way_id_to_index = slots;
        self.node_to_ways = lists;
    }

    /// Indexes way `id` with member ids `nodes` at a new last slot.
    fn index_new_way(&mut self, id: i64, nodes: &Vec<i64>)
        requires
            old(self).wf(),
        ensures
            final(self).wf(),
            final(self).slot_ids() == old(self).slot_ids().push(id),
            final(self).slots() == old(self).slots().insert(id, old(self).slot_ids().len() as usize),
            final(self).node_slots() == add_slots(old(self).node_slots(), nodes@, old(self).slot_ids().len() as usize),
            final(self).same_frame(old(self)),
            final(self).data() == old(self).data(),
            final(self).modified_spec() == old(self).modified_spec(),
            final(self).next_node_id() == old(self).next_node_id(),
    {
        let slot = self.way_ids.len();
        self.way_id_to_index.insert(id, slot);
        push_slots(&mut self.node_to_ways, nodes, slot);
        self.way_ids.push(id);
        proof {
            lemma_add_slots_bound(lists_view(old(self).node_to_ways@), nodes@, slot, (slot + 1) as nat);
            assert(self.way_ids@.len() == self.way_ids.len());
        }
    }
}


/// Keeps every slot but `slot`.
pub open spec fn not_slot(slot: usize) -> spec_fn(usize) -> bool {
    |w: usize| w != slot
}

/// Filtering keeps every listed slot below `len`.
proof fn lemma_filter_bound(s: Seq<usize>, slot: usize, len: nat)
    requires
        forall|j: int| 0 <= j < s.len() ==> #[trigger] s[j] < len,
    ensures
        forall|j: int| 0 <= j < s.filter(not_slot(slot)).len() ==> #[trigger] s.filter(not_slot(slot))[j] < len,
    decreases s.len(),
{
    reveal(Seq::filter);
    if s.len() > 0 {
        let rest = s.drop_last();
        lemma_filter_bound(rest, slot, len);
        let r = rest.filter(not_slot(slot));
        assert(s.last() == s[s.len() - 1]);
        assert forall|j: int| 0 <= j < s.filter(not_slot(slot)).len() implies #[trigger] s.filter(not_slot(slot))[j] < len by {
            if s.last() != slot && j == r.len() {
                assert(s.filter(not_slot(slot))[j] == s.last());
            } else {
                assert(s.filter(not_slot(slot))[j] == r[j]);
            }
        }
    }
}

/// A slot list without `slot`.
fn list_dropping(s: &Vec<usize>, slot: usize) -> (r: Vec<usize>)
    ensures
        r@ == s@.filter(not_slot(slot)),
{
    let mut out: Vec<usize> = Vec::new();
    let mut i: usize = 0;
    while i < s.len()
        invariant
            i <= s@.len(),
            out@ == s@.take(i as int).filter(not_slot(slot)),
        decreases s.len() - i,
    {
        let w = s[i];
        proof {
            reveal(Seq::filter);
            assert(s@.take(i + 1).drop_last() =~= s@.take(i as int));
            assert(s@.take(i + 1).last() == w);
        }
        if w != slot {
            out.push(w);
        }
        i = i + 1;
    }
    assert(s@.take(s@.len() as int) =~= s@);
    out
}

/// The way whose id `snap` records, as `restore_feature` puts it back.
pub open spec fn restored_way(snap: DeletedFeatureSnapshot) -> WayView {
    WayView { id: snap.id, nodes: snap.way_nodes@, version: 0, tags: snap.tags@ }
}

/// `after` is `before` with way `id` dropped from the data and the way
/// indexes (later slots move down by one; node lists left empty go).
pub open spec fn way_dropped(before: &OsmLayer, after: &OsmLayer, id: i64) -> bool {
    let idx = before.slots()[id];
    &&& before.slots().contains_key(id) && before.way_views().contains_key(id)
    &&& after.data() is Some && after.node_views() == before.node_views()
    &&& after.way_views() == before.way_views().remove(id)
    &&& after.slot_ids() == before.slot_ids().remove(idx as int)
    &&& after.slots() == slots_without(before.slots(), id, idx)
    &&& after.node_slots() == lists_without(before.node_slots(), idx)
    &&& after.modified_spec()
    &&& after.same_frame(before) && after.next_node_id() == before.next_node_id()
}

/// `way_dropped`, with `snap` recording the way.
pub open spec fn way_deleted(before: &OsmLayer, after: &OsmLayer, id: i64, snap: DeletedFeatureSnapshot) -> bool {
    &&& way_dropped(before, after, id)
    &&& snap.kind == FeatureKind::Way && snap.id == id && snap.tags@ == before.way_views()[id].tags
    &&& snap.way_nodes@ == before.way_views()[id].nodes && snap.node_lat_lon is None
}

/// Whether `delete_feature(kind, id)` deletes something from `l`: a node
/// present that no way is listed as using, or a way indexed and present.
pub open spec fn deletable(l: &OsmLayer, kind: FeatureKind, id: i64) -> bool {
    match kind {
        FeatureKind::Node => l.node_views().contains_key(id) && !(l.node_slots().contains_key(id) && l.node_slots()[id].len() > 0),
        FeatureKind::Way => l.slots().contains_key(id) && l.way_views().contains_key(id),
    }
}

/// `after` is `before` after `delete_feature(kind, id)` returned `r`: a
/// snapshot exactly when the feature is deletable (so a node a way is
/// listed as using is refused), and no change when refused.
pub open spec fn feature_deleted_as(before: &OsmLayer, after: &OsmLayer, kind: FeatureKind, id: i64, r: Option<DeletedFeatureSnapshot>) -> bool {
    &&& (r is Some <==> deletable(before, kind, id))
    &&& match r {
        None => *after == *before && !deletable(before, kind, id),
        Some(snap) => match kind {
            FeatureKind::Node => node_deleted(before, after, id, snap),
            FeatureKind::Way => way_deleted(before, after, id, snap),
        },
    }
}

/// `after` is `before` with the way recorded by `snap` back in the data
/// (version 0) and indexed at a new last slot.
pub open spec fn way_restored(before: &OsmLayer, after: &OsmLayer, snap: DeletedFeatureSnapshot) -> bool {
    &&& !before.slots().contains_key(snap.id) && before.data() is Some
    &&& after.way_put(before, restored_way(snap))
    &&& after.next_way_id() == before.next_way_id()
}

/// Whether `insert_node_into_way(way_id, index, ..)` on `l` splices the
/// new node into the way: the way is indexed and present and `index` is
/// at most its length.
pub open spec fn splices(l: &OsmLayer, way_id: i64, index: usize) -> bool {
    l.slots().contains_key(way_id) && l.way_views().contains_key(way_id) && index <= l.way_views()[way_id].nodes.len()
}

impl OsmLayer {
    /// The nodes of the data (none when no data is loaded).
    pub open spec fn node_views(&self) -> Map<i64, NodeView> {
        match self.data() {
            Some(d) => nodes_view(d.nodes@),
            None => Map::empty(),
        }
    }

    /// The ways of the data (none when no data is loaded).
    pub open spec fn way_views(&self) -> Map<i64, WayView> {
        match self.data() {
            Some(d) => ways_view(d.ways@),
            None => Map::empty(),
        }
    }

    /// `self` is `old` with `way` added to (or replaced in) the data and
    /// indexed at a new last slot, and the layer modified.
    pub open spec fn way_put(&self, old: &OsmLayer, way: WayView) -> bool {
        &&& self.data() is Some && self.node_views() == old.node_views()
        &&& self.way_views() == old.way_views().insert(way.id, way)
        &&& self.slot_ids() == old.slot_ids().push(way.id)
        &&& self.slots() == old.slots().insert(way.id, old.slot_ids().len() as usize)
        &&& self.node_slots() == add_slots(old.node_slots(), way.nodes, old.slot_ids().len() as usize)
        &&& self.modified_spec()
        &&& self.same_names(old) && self.next_node_id() == old.next_node_id()
    }

    /// Adds a way with member ids `node_ids` (which should be present)
    /// under the next way id, which then moves down by one (starting empty
    /// data when none is loaded), and returns its id.
    pub fn add_way(&mut self, node_ids: Vec<i64>, tags: Vec<(String, String)>) -> (r: i64)
        requires
            old(self).wf(),
            old(self).next_way_id() > i64::MIN,
        ensures
            final(self).next_node_id() <= old(self).next_node_id(),
            final(self).wf(),
            r == old(self).next_way_id(),
            final(self).next_way_id() == r - 1,
            final(self).way_put(old(self), WayView { id: r, nodes: node_ids@, version: 0, tags: tags@ }),
    {
        let id = self.next_placeholder_way_id;
        self.next_placeholder_way_id = id - 1;
        if self.osm_data.is_none() {
            self.osm_data = Some(OsmData::new());
            proof {
                assert(self.node_views() =~= old(self).node_views());
                assert(self.way_views() =~= old(self).way_views());
            }
        }
        self.index_new_way(id, &node_ids);
        let ghost wv = WayView { id, nodes: node_ids@, version: 0, tags: tags@ };
        let mut d = self.osm_data.take().unwrap();
        let ghost d0 = d;
        d.ways.insert(id, OsmWay { id, nodes: node_ids, version: 0, tags });
        proof {
            assert(ways_view(d.ways@) =~= ways_view(d0.ways@).insert(id, wv));
        }
        self.osm_data = Some(d);
        self.modified = true;
        id
    }

    /// Removes way `way_id` from the data and the way indexes (its nodes
    /// stay); the layer counts as modified. Nothing happens unless the way
    /// is indexed and present.
    pub fn remove_way(&mut self, way_id: i64)
        requires
            old(self).wf(),
        ensures
            final(self).next_node_id() <= old(self).next_node_id(),
            final(self).wf(),
            if old(self).slots().contains_key(way_id) && old(self).way_views().contains_key(way_id) {
                way_dropped(old(self), final(self), way_id)
            } else {
                *final(self) == *old(self)
            },
    {
        let _ = self.take_way(way_id);
    }

    /// Takes way `way_id` out of the data and the way indexes, returning
    /// it; `None` and no change unless it is indexed and present.
    fn take_way(&mut self, way_id: i64) -> (r: Option<OsmWay>)
        requires
            old(self).wf(),
        ensures
            final(self).wf(),
            if old(self).slots().contains_key(way_id) && old(self).way_views().contains_key(way_id) {
                way_dropped(old(self), final(self), way_id) && r is Some && r->0@ == old(self).way_views()[way_id]
            } else {
                *final(self) == *old(self) && r is None
            },
    {
        let idx = match self.way_id_to_index.get(&way_id) {
            Some(i) => *i,
            None => return None,
        };
        let present = match &self.osm_data {
            Some(d) => d.ways.contains_key(&way_id),
            None => false,
        };
        if !present {
            return None;
        }
        let mut d = self.osm_data.take().unwrap();
        let ghost d0 = d;
        let way = d.ways.remove(&way_id).unwrap();
        proof {
            assert(ways_view(d.ways@) =~= ways_view(d0.ways@).remove(way_id));
        }
        self.osm_data = Some(d);
        self.unindex_way(way_id, idx);
        self.modified = true;
        Some(way)
    }

    /// Deletes way `id` (its nodes stay) and records it; `None` and no
    /// change unless it is indexed and present.
    fn delete_way(&mut self, id: i64) -> (r: Option<DeletedFeatureSnapshot>)
        requires
            old(self).wf(),
        ensures
            final(self).wf(),
            match r {
                Some(snap) => way_deleted(old(self), final(self), id, snap),
                None => *final(self) == *old(self),
            },
            r is Some <==> (old(self).slots().contains_key(id) && old(self).way_views().contains_key(id)),
    {
        match self.take_way(id) {
            Some(way) => Some(
                DeletedFeatureSnapshot {
                    kind: FeatureKind::Way,
                    id,
                    tags: way.tags,
                    way_nodes: way.nodes,
                    node_lat_lon: None,
                },
            ),
            None => None,
        }
    }

    /// Puts back the way recorded by `snap` at a new last slot, unless its
    /// id is indexed (or no data is loaded).
    fn restore_way(&mut self, snap: DeletedFeatureSnapshot)
        requires
            old(self).wf(),
        ensures
            final(self).wf(),
            if !old(self).slots().contains_key(snap.id) && old(self).data() is Some {
                way_restored(old(self), final(self), snap)
            } else {
                *final(self) == *old(self)
            },
    {
        if self.way_id_to_index.contains_key(&snap.id) || self.osm_data.is_none() {
            return ;
        }
        let ghost wv = restored_way(snap);
        self.index_new_way(snap.id, &snap.way_nodes);
        let mut d = self.osm_data.take().unwrap();
        let ghost d0 = d;
        d.ways.insert(snap.id, OsmWay { id: snap.id, nodes: snap.way_nodes, version: 0, tags: snap.tags });
        proof {
            assert(ways_view(d.ways@) =~= ways_view(d0.ways@).insert(snap.id, wv));
        }
        self.osm_data = Some(d);
        self.modified = true;
    }

    /// Deletes a node or way, recording what `restore_feature` needs to
    /// bring it back. A node a way is listed as using is refused; `None`
    /// and no change then, or when there is no such feature.
    pub fn delete_feature(&mut self, kind: FeatureKind, id: i64) -> (r: Option<DeletedFeatureSnapshot>)
        requires
            old(self).wf(),
        ensures
            final(self).next_node_id() <= old(self).next_node_id(),
            final(self).wf(),
            r is Some <==> deletable(old(self), kind, id),
            feature_deleted_as(old(self), final(self), kind, id, r),
    {
        match kind {
            FeatureKind::Node => self.delete_node(id),
            FeatureKind::Way => self.delete_way(id),
        }
    }

    /// Puts back a feature that `delete_feature` recorded in `snap`. A way
    /// goes to a new last slot. Nothing happens when a node with the id is
    /// present or a way with the id is indexed, or no data is loaded.
    pub fn restore_feature(&mut self, snap: DeletedFeatureSnapshot)
        requires
            old(self).wf(),
            snap.kind == FeatureKind::Node && snap.node_lat_lon is Some && old(self).data() is Some ==> snap.id != i64::MIN,
        ensures
            final(self).next_node_id() <= old(self).next_node_id(),
            final(self).wf(),
            snap.kind == FeatureKind::Node ==> if snap.node_lat_lon is Some && old(self).data() is Some
                && !old(self).node_views().contains_key(snap.id) {
                node_restored(old(self), final(self), snap)
            } else {
                *final(self) == *old(self)
            },
            snap.kind == FeatureKind::Way ==> if !old(self).slots().contains_key(snap.id) && old(self).data() is Some {
                way_restored(old(self), final(self), snap)
            } else {
                *final(self) == *old(self)
            },
    {
        match snap.kind {
            FeatureKind::Node => self.restore_node(snap),
            FeatureKind::Way => self.restore_way(snap),
        }
    }
}


/// `after` is `before` after `add_node(lat, lon)` handed out id `r`: the
/// node added under the next automatic id (which moves down by one),
/// starting empty data when none was loaded.
pub open spec fn node_added(before: &OsmLayer, after: &OsmLayer, lat: Coord, lon: Coord, r: i64) -> bool {
    &&& r == before.next_node_id()
    &&& after.next_node_id() == r - 1
    &&& !before.node_views().contains_key(r)
    &&& after.data() is Some
    &&& after.node_views() == before.node_views().insert(r, new_node(r, lat, lon, Seq::empty()))
    &&& after.way_views() == before.way_views()
    &&& after.modified_spec()
    &&& after.same_indexes(before)
}

/// `after` is `before` after `extend_way(way_id, node_id)`.
pub open spec fn way_extended(before: &OsmLayer, after: &OsmLayer, way_id: i64, node_id: i64) -> bool {
    if before.slots().contains_key(way_id) && before.way_views().contains_key(way_id) {
        &&& after.data() is Some && after.node_views() == before.node_views()
        &&& after.way_views() == before.way_views().insert(
            way_id,
            WayView { nodes: before.way_views()[way_id].nodes.push(node_id), ..before.way_views()[way_id] },
        )
        &&& after.node_slots() == add_slot(before.node_slots(), node_id, before.slots()[way_id])
        &&& after.modified_spec()
        &&& after.same_frame(before) && after.next_node_id() == before.next_node_id()
        &&& after.slot_ids() == before.slot_ids() && after.slots() == before.slots()
    } else {
        *after == *before
    }
}

/// `after` is `before` with node `r` created at `(lat, lon)` under the
/// next automatic id and, when `splices` holds, spliced into way `way_id`
/// at `index` with the way's slot listed for it.
pub open spec fn node_spliced(before: &OsmLayer, after: &OsmLayer, way_id: i64, index: usize, lat: Coord, lon: Coord, r: i64) -> bool {
    &&& r == before.next_node_id()
    &&& after.next_node_id() == r - 1
    &&& !before.node_views().contains_key(r)
    &&& after.data() is Some
    &&& after.node_views() == before.node_views().insert(r, new_node(r, lat, lon, Seq::empty()))
    &&& after.way_views() == if splices(before, way_id, index) {
        before.way_views().insert(
            way_id,
            WayView { nodes: before.way_views()[way_id].nodes.insert(index as int, r), ..before.way_views()[way_id] },
        )
    } else {
        before.way_views()
    }
    &&& after.node_slots() == if splices(before, way_id, index) {
        add_slot(before.node_slots(), r, before.slots()[way_id])
    } else {
        before.node_slots()
    }
    &&& after.modified_spec()
    &&& after.same_frame(before)
    &&& after.slot_ids() == before.slot_ids() && after.slots() == before.slots()
}

/// `after` is `before` with the node at `index` spliced out of way
/// `way_id` (the node stays) and the way's slot dropped from that node's
/// list.
pub open spec fn node_unspliced(before: &OsmLayer, after: &OsmLayer, way_id: i64, index: usize) -> bool {
    let nodes = before.way_views()[way_id].nodes;
    let gone = nodes[index as int];
    let slot = before.slots()[way_id];
    &&& after.data() is Some && after.node_views() == before.node_views()
    &&& after.way_views() == before.way_views().insert(way_id, WayView { nodes: nodes.remove(index as int), ..before.way_views()[way_id] })
    &&& after.node_slots() == if before.node_slots().contains_key(gone) {
        before.node_slots().insert(gone, before.node_slots()[gone].filter(not_slot(slot)))
    } else {
        before.node_slots()
    }
    &&& after.modified_spec()
    &&& after.same_frame(before) && after.next_node_id() == before.next_node_id()
    &&& after.slot_ids() == before.slot_ids() && after.slots() == before.slots()
}

/// Appending one slot below `len` keeps every listed slot below `len`.
proof fn lemma_add_slot_bound(m: Map<i64, Seq<usize>>, n: i64, slot: usize, len: nat)
    requires
        slot < len,
        lists_ok(m, len),
    ensures
        lists_ok(add_slot(m, n, slot), len),
{
    assert forall|k: i64, j: int| #[trigger] add_slot(m, n, slot).contains_key(k) && 0 <= j < add_slot(m, n, slot)[k].len()
        implies #[trigger] add_slot(m, n, slot)[k][j] < len by {
        if k == n {
            let base = if m.contains_key(n) { m[n] } else { Seq::empty() };
            if j < base.len() {
                assert(add_slot(m, n, slot)[k][j] == base[j]);
            }
        }
    }
}

impl OsmLayer {
    /// Appends node `node_id` (which should be present) to way `way_id` and
    /// lists the way's slot for it; the layer counts as modified. Nothing
    /// happens unless the way is indexed and present.
    pub fn extend_way(&mut self, way_id: i64, node_id: i64)
        requires
            old(self).wf(),
        ensures
            final(self).next_node_id() <= old(self).next_node_id(),
            final(self).wf(),
            way_extended(old(self), final(self), way_id, node_id),
    {
        let slot = match self.way_id_to_index.get(&way_id) {
            Some(i) => *i,
            None => return ,
        };
        let present = match &self.osm_data {
            Some(d) => d.ways.contains_key(&way_id),
            None => false,
        };
        if !present {
            return ;
        }
        let mut d = self.osm_data.take().unwrap();
        let ghost d0 = d;
        let mut way = d.ways.remove(&way_id).unwrap();
        way.nodes.push(node_id);
        d.ways.insert(way_id, way);
        proof {
            assert(ways_view(d.ways@) =~= ways_view(d0.ways@).insert(
                way_id,
                WayView { nodes: d0.ways@[way_id].nodes@.push(node_id), ..d0.ways@[way_id]@ },
            ));
        }
        self.osm_data = Some(d);
        push_slot(&mut self.node_to_ways, node_id, slot);
        self.modified = true;
        proof {
            lemma_add_slot_bound(lists_view(old(self).node_to_ways@), node_id, slot, self.way_ids@.len());
        }
    }

    /// Creates a node at `(lat, lon)` as `add_node` does and splices it
    /// into way `way_id` at position `index`, listing the way's slot for
    /// it; returns the new node's id. The node is created in any case; it
    /// is spliced only when the way is indexed and present and `index` is
    /// at most its length.
    pub fn insert_node_into_way(&mut self, way_id: i64, index: usize, lat: Coord, lon: Coord) -> (r: i64)
        requires
            old(self).wf(),
            old(self).next_node_id() > i64::MIN,
        ensures
            final(self).wf(),
            node_spliced(old(self), final(self), way_id, index, lat, lon, r),
    {
        let new_id = self.add_node(lat, lon);
        proof {
            if old(self).data() is None {
                assert(self.way_views() =~= old(self).way_views());
            }
        }
        let slot = match self.way_id_to_index.get(&way_id) {
            Some(i) => *i,
            None => return new_id,
        };
        let fits = match &self.osm_data {
            Some(d) => match d.ways.get(&way_id) {
                Some(w) => index <= w.nodes.len(),
                None => false,
            },
            None => false,
        };
        if !fits {
            return new_id;
        }
        let mut d = self.osm_data.take().unwrap();
        let ghost d0 = d;
        let mut way = d.ways.remove(&way_id).unwrap();
        way.nodes.insert(index, new_id);
        d.ways.insert(way_id, way);
        proof {
            assert(ways_view(d.ways@) =~= ways_view(d0.ways@).insert(
                way_id,
                WayView { nodes: d0.ways@[way_id].nodes@.insert(index as int, new_id), ..d0.ways@[way_id]@ },
            ));
        }
        self.osm_data = Some(d);
        push_slot(&mut self.node_to_ways, new_id, slot);
        self.modified = true;
        proof {
            lemma_add_slot_bound(lists_view(old(self).node_to_ways@), new_id, slot, self.way_ids@.len());
        }
        new_id
    }

    /// Splices the node at position `index` out of way `way_id` (the node
    /// itself stays) and drops the way's slot from that node's list; the
    /// layer counts as modified. Nothing happens unless the way is indexed
    /// and present and `index` is below its length.
    pub fn remove_node_from_way(&mut self, way_id: i64, index: usize)
        requires
            old(self).wf(),
        ensures
            final(self).next_node_id() <= old(self).next_node_id(),
            final(self).wf(),
            if old(self).slots().contains_key(way_id) && old(self).way_views().contains_key(way_id) && index
                < old(self).way_views()[way_id].nodes.len() {
                node_unspliced(old(self), final(self), way_id, index)
            } else {
                *final(self) == *old(self)
            },
    {
        let slot = match self.way_id_to_index.get(&way_id) {
            Some(i) => *i,
            None => return ,
        };
        let fits = match &self.osm_data {
            Some(d) => match d.ways.get(&way_id) {
                Some(w) => index < w.nodes.len(),
                None => false,
            },
            None => false,
        };
        if !fits {
            return ;
        }
        let mut d = self.osm_data.take().unwrap();
        let ghost d0 = d;
        let mut way = d.ways.remove(&way_id).unwrap();
        let gone = way.nodes.remove(index);
        d.ways.insert(way_id, way);
        proof {
            assert(ways_view(d.ways@) =~= ways_view(d0.ways@).insert(
                way_id,
                WayView { nodes: d0.ways@[way_id].nodes@.remove(index as int), ..d0.ways@[way_id]@ },
            ));
        }
        self.osm_data = Some(d);
        let ghost lv = lists_view(self.node_to_ways@);
        match self.node_to_ways.remove(&gone) {
            Some(list) => {
                let kept = list_dropping(&list, slot);
                self.node_to_ways.insert(gone, kept);
                proof {
                    assert(lv[gone] == list@);
                    assert(lists_view(self.node_to_ways@) =~= lv.insert(gone, lv[gone].filter(not_slot(slot))));
                    assert forall|j: int| 0 <= j < lv[gone].len() implies #[trigger] lv[gone][j] < self.way_ids@.len() by {
                        assert(lv.contains_key(gone));
                    }
                    lemma_filter_bound(lv[gone], slot, self.way_ids@.len());
                }
            },
            None => {
                proof {
                    assert(lists_view(self.node_to_ways@) =~= lv);
                }
            },
        }
        self.modified = true;
    }
}


/// Deleting a node and restoring it from its record gives back the data as
/// it was, the node at version 0; only the node's (empty) index entry is
/// gone.
pub proof fn law_restore_undoes_node_delete(
    l0: OsmLayer,
    l1: OsmLayer,
    l2: OsmLayer,
    id: i64,
    snap: DeletedFeatureSnapshot,
)
    requires
        l0.wf(),
        node_deleted(&l0, &l1, id, snap),
        node_restored(&l1, &l2, snap),
    ensures
        l2.node_views() == l0.node_views().insert(id, NodeView { version: 0, ..l0.node_views()[id] }),
        l2.way_views() == l0.way_views(),
        l2.node_slots() == l0.node_slots().remove(id),
        l2.slot_ids() == l0.slot_ids(),
        l2.slots() == l0.slots(),
        l2.next_node_id() == l0.next_node_id(),
        l2.same_frame(&l0),
{
    let d0 = l0.data()->0;
    let d1 = l1.data()->0;
    assert(d0.nodes@[id].id == id);
    assert(l0.next_node_id() < id);
    assert(nodes_view(d1.nodes@) =~= nodes_view(d0.nodes@).remove(id));
    assert(l2.node_views() =~= l0.node_views().insert(id, NodeView { version: 0, ..l0.node_views()[id] }));
}

/// Deleting a way and restoring it from its record gives back the data as
/// it was, the way at version 0, indexed at the last slot.
pub proof fn law_restore_undoes_way_delete(
    l0: OsmLayer,
    l1: OsmLayer,
    l2: OsmLayer,
    id: i64,
    snap: DeletedFeatureSnapshot,
)
    requires
        l0.wf(),
        way_deleted(&l0, &l1, id, snap),
        way_restored(&l1, &l2, snap),
    ensures
        l2.way_views() == l0.way_views().insert(id, WayView { version: 0, ..l0.way_views()[id] }),
        l2.node_views() == l0.node_views(),
        l2.slot_ids() == l0.slot_ids().remove(l0.slots()[id] as int).push(id),
        l2.slots()[id] == (l0.slot_ids().len() - 1) as usize,
        l2.next_node_id() == l0.next_node_id(),
        l2.same_frame(&l0),
{
    let d0 = l0.data()->0;
    assert(d0.ways@.contains_key(id));
    assert(d0.ways@[id].id == id);
    assert(l0.slots()[id] < l0.slot_ids().len());
    assert(l1.slot_ids().len() == l0.slot_ids().len() - 1);
    assert(l2.way_views() =~= l0.way_views().insert(id, WayView { version: 0, ..l0.way_views()[id] }));
}

/// Splicing a new node into a way, splicing it out again and removing it
/// gives back the data and the node index as they were (provided the
/// index had no entry for the new id).
pub proof fn law_unsplice_undoes_splice(
    l0: OsmLayer,
    l1: OsmLayer,
    l2: OsmLayer,
    l3: OsmLayer,
    way_id: i64,
    index: usize,
    lat: Coord,
    lon: Coord,
    r: i64,
)
    requires
        l0.wf(),
        splices(&l0, way_id, index),
        !l0.node_slots().contains_key(r),
        node_spliced(&l0, &l1, way_id, index, lat, lon, r),
        node_unspliced(&l1, &l2, way_id, index),
        node_removed(&l2, &l3, r),
    ensures
        l3.way_views() == l0.way_views(),
        l3.node_views() == l0.node_views(),
        l3.node_slots() == l0.node_slots(),
        l3.slot_ids() == l0.slot_ids(),
        l3.slots() == l0.slots(),
        l3.same_frame(&l0),
        l3.next_node_id() == l0.next_node_id() - 1,
{
    reveal(Seq::filter);
    let nodes = l0.way_views()[way_id].nodes;
    let slot = l0.slots()[way_id];
    assert(l1.way_views()[way_id].nodes == nodes.insert(index as int, r));
    assert(nodes.insert(index as int, r)[index as int] == r);
    assert(nodes.insert(index as int, r).remove(index as int) =~= nodes);
    assert(l2.way_views() =~= l0.way_views());
    assert(l1.node_slots()[r] =~= seq![slot]);
    let one = seq![slot];
    assert(one.drop_last() =~= Seq::<usize>::empty());
    assert(one.drop_last().filter(not_slot(slot)) =~= Seq::<usize>::empty());
    assert(one.last() == slot);
    assert(!(not_slot(slot))(slot));
    assert(one.filter(not_slot(slot)) =~= Seq::<usize>::empty());
    assert(l3.node_slots() =~= l0.node_slots());
    assert(l3.node_views() =~= l0.node_views());
}

/// A layer just loaded (or just synced by an upload) has nothing to
/// upload.
pub proof fn law_fresh_layer_has_nothing_to_upload(l: OsmLayer, d: OsmData)
    requires
        l.fresh_from(d),
    ensures
        created_node_ids(l.original()->0, d) == Set::<i64>::empty(),
        modified_node_ids(l.original()->0, d) == Set::<i64>::empty(),
        deleted_node_ids(l.original()->0, d) == Set::<i64>::empty(),
        created_way_ids(l.original()->0, d) == Set::<i64>::empty(),
        modified_way_ids(l.original()->0, d) == Set::<i64>::empty(),
        deleted_way_ids(l.original()->0, d) == Set::<i64>::empty(),
{
    let o = l.original()->0;
    law_unchanged_data_has_empty_diff(d);
    assert(created_node_ids(o, d) =~= created_node_ids(d, d));
    assert(modified_node_ids(o, d) =~= modified_node_ids(d, d));
    assert(deleted_node_ids(o, d) =~= deleted_node_ids(d, d));
    assert(created_way_ids(o, d) =~= created_way_ids(d, d));
    assert(modified_way_ids(o, d) =~= modified_way_ids(d, d));
    assert(deleted_way_ids(o, d) =~= deleted_way_ids(d, d));
}


/// Once an upload's answer is applied to a layer with data, the layer is
/// no longer modified and has nothing left to upload.
pub proof fn law_applied_upload_leaves_nothing_to_upload(before: OsmLayer, after: OsmLayer, result: UploadResult)
    requires
        upload_applied(&before, &after, result),
        before.data() is Some,
    ensures
        !after.modified_spec(),
        after.data() is Some && after.original() is Some,
        created_node_ids(after.original()->0, after.data()->0) == Set::<i64>::empty(),
        modified_node_ids(after.original()->0, after.data()->0) == Set::<i64>::empty(),
        deleted_node_ids(after.original()->0, after.data()->0) == Set::<i64>::empty(),
        created_way_ids(after.original()->0, after.data()->0) == Set::<i64>::empty(),
        modified_way_ids(after.original()->0, after.data()->0) == Set::<i64>::empty(),
        deleted_way_ids(after.original()->0, after.data()->0) == Set::<i64>::empty(),
{
    let d = before.data()->0;
    let r = choose|r: OsmData| #[trigger] reconciled(d, result, r) && after.fresh_from(r);
    law_fresh_layer_has_nothing_to_upload(after, r);
}


/// `after` is `before` after `remove_way(way_id)`.
pub open spec fn way_removal(before: &OsmLayer, after: &OsmLayer, way_id: i64) -> bool {
    if before.slots().contains_key(way_id) && before.way_views().contains_key(way_id) {
        way_dropped(before, after, way_id)
    } else {
        *after == *before
    }
}

/// `after` is `before` after `remove_node(id)`.
pub open spec fn node_removal(before: &OsmLayer, after: &OsmLayer, id: i64) -> bool {
    if before.node_views().contains_key(id) {
        node_removed(before, after, id)
    } else {
        *after == *before
    }
}

/// `after` is `before` after `remove_node_from_way(way_id, index)`.
pub open spec fn unsplice(before: &OsmLayer, after: &OsmLayer, way_id: i64, index: usize) -> bool {
    if before.slots().contains_key(way_id) && before.way_views().contains_key(way_id) && index
        < before.way_views()[way_id].nodes.len() {
        node_unspliced(before, after, way_id, index)
    } else {
        *after == *before
    }
}

/// The last position of `x` in `s`, if any.
pub open spec fn last_position(s: Seq<i64>, x: i64) -> Option<int>
    decreases s.len(),
{
    if s.len() == 0 {
        None
    } else if s.last() == x {
        Some(s.len() - 1)
    } else {
        last_position(s.drop_last(), x)
    }
}

/// The last position of `x` in `v` (`rposition`).
pub fn last_position_of(v: &Vec<i64>, x: i64) -> (r: Option<usize>)
    ensures
        match r {
            Some(i) => last_position(v@, x) == Some(i as int),
            None => last_position(v@, x) is None,
        },
{
    let mut i: usize = v.len();
    assert(v@.take(i as int) =~= v@);
    while i > 0
        invariant
            i <= v@.len(),
            last_position(v@, x) == last_position(v@.take(i as int), x),
        decreases i,
    {
        assert(v@.take(i as int).drop_last() =~= v@.take(i - 1));
        if v[i - 1] == x {
            return Some(i - 1);
        }
        i = i - 1;
    }
    None
}


impl OsmLayer {
    /// The tags of a feature of this layer, sorted by key with one entry
    /// per key; `None` when the feature belongs to another layer or is not
    /// in the data.
    pub fn feature_tags(&self, feature: &FeatureRef) -> (r: Option<Vec<(String, String)>>)
        ensures
            match r {
                Some(t) => feature.layer_id == self.layer_id() && self.data() is Some && has_feature(
                    self.data()->0,
                    feature.kind,
                    feature.id,
                ) && keys_increasing(t@) && tag_map(t@) == tag_map(tags_of(self.data()->0, feature.kind, feature.id)),
                None => !(feature.layer_id == self.layer_id() && self.data() is Some && has_feature(
                    self.data()->0,
                    feature.kind,
                    feature.id,
                )),
            },
    {
        if feature.layer_id != self.id {
            return None;
        }
        let data = match &self.osm_data {
            Some(d) => d,
            None => return None,
        };
        match feature.kind {
            FeatureKind::Node => match data.nodes.get(&feature.id) {
                Some(n) => Some(sorted_tags(&n.tags)),
                None => None,
            },
            FeatureKind::Way => match data.ways.get(&feature.id) {
                Some(w) => Some(sorted_tags(&w.tags)),
                None => None,
            },
        }
    }

    /// The layer's statistics: its node and way counts, or a note that no
    /// data is loaded.
    pub fn stats(&self) -> (r: Vec<(String, String)>)
        ensures
            crate::settings::table_view(r@) == self.stats_view(),
    {
        let r = match &self.osm_data {
            Some(d) => {
                let mut nodes = String::new();
                push_decimal(&mut nodes, d.nodes.len() as u64);
                let mut ways = String::new();
                push_decimal(&mut ways, d.ways.len() as u64);
                vec![("Nodes".to_owned(), nodes), ("Ways".to_owned(), ways)]
            },
            None => vec![("Status".to_owned(), "No data loaded".to_owned())],
        };
        assert(crate::settings::table_view(r@) =~= self.stats_view());
        r
    }

    /// The statistics `stats` reports: node and way counts, or a note
    /// that no data is loaded.
    pub open spec fn stats_view(&self) -> Seq<(Seq<char>, Seq<char>)> {
        match self.data() {
            Some(d) => seq![("Nodes"@, decimal(d.nodes@.len())), ("Ways"@, decimal(d.ways@.len()))],
            None => seq![("Status"@, "No data loaded"@)],
        }
    }
}

} // verus!
