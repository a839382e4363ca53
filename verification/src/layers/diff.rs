//! What changed between the last-synced snapshot of a layer's data and its
//! current state: the payload of a changeset upload.

use vstd::prelude::*;

use std::collections::HashMap;
use vstd::std_specs::iter::IteratorSpec;

use crate::osm::{
    coord_unchanged, copy_node, copy_way, node_changed, node_differs, tag_map, way_changed, way_differs, OsmData, OsmNode,
    OsmWay,
};

verus! {

/// The keys of a map, each once, in the map's own order.
pub fn key_list<V>(m: &HashMap<i64, V>) -> (r: Vec<i64>)
    ensures
        r@.no_duplicates(),
        r@.to_set() == m@.dom(),
{
    let mut out: Vec<i64> = Vec::new();
    let keys = m.keys();
    let ghost all: Seq<i64> = keys.remaining().unref();
    assert(all.no_duplicates());
    assert(all.to_set() == m@.dom());
    for k in it: keys
        invariant
            all == it.seq().unref(),
            out@ == it.seq().take(it.index() as int).unref(),
    {
        out.push(*k);
        assert(out@ =~= it.seq().take(it.index() + 1).unref());
    }
    assert(out@ =~= all);
    out
}

/// The elements of `s` that satisfy `p`, in order.
pub open spec fn keep(s: Seq<i64>, p: spec_fn(i64) -> bool) -> Seq<i64>
    decreases s.len(),
{
    if s.len() == 0 {
        Seq::empty()
    } else if p(s.last()) {
        keep(s.drop_last(), p).push(s.last())
    } else {
        keep(s.drop_last(), p)
    }
}

/// Keeping the elements that satisfy `p` keeps each of them once.
pub proof fn lemma_keep(s: Seq<i64>, p: spec_fn(i64) -> bool)
    requires
        s.no_duplicates(),
    ensures
        keep(s, p).no_duplicates(),
        keep(s, p).to_set() == s.to_set().filter(p),
    decreases s.len(),
{
    if s.len() > 0 {
        let q = s.drop_last();
        assert(q.no_duplicates());
        lemma_keep(q, p);
        assert(!q.contains(s.last())) by {
            if q.contains(s.last()) {
                let j = choose|j: int| 0 <= j < q.len() && q[j] == s.last();
                assert(s[j] == s[s.len() - 1]);
            }
        }
        assert(s.to_set() =~= q.to_set().insert(s.last())) by {
            assert(s =~= q.push(s.last()));
            q.lemma_push_to_set_commute(s.last());
        }
        if p(s.last()) {
            let k = keep(q, p);
            assert(!k.contains(s.last())) by {
                if k.contains(s.last()) {
                    assert(k.to_set().contains(s.last()));
                    assert(q.to_set().contains(s.last()));
                }
            }
            assert(k.push(s.last()).no_duplicates()) by {
                assert forall|a: int, b: int| 0 <= a < b < k.len() + 1 implies k.push(s.last())[a] != k.push(s.last())[b] by {
                    if b == k.len() {
                        assert(k.push(s.last())[a] == k[a]);
                    } else {
                        assert(k.push(s.last())[a] == k[a] && k.push(s.last())[b] == k[b]);
                    }
                }
            }
            k.lemma_push_to_set_commute(s.last());
            assert(keep(s, p).to_set() =~= s.to_set().filter(p));
        } else {
            assert(keep(s, p).to_set() =~= s.to_set().filter(p));
        }
    }
}

/// The ids of a list of nodes.
pub open spec fn node_ids(v: Seq<OsmNode>) -> Seq<i64> {
    v.map_values(|n: OsmNode| n.id)
}

/// The ids of a list of ways.
pub open spec fn way_ids(v: Seq<OsmWay>) -> Seq<i64> {
    v.map_values(|w: OsmWay| w.id)
}

/// The ids of a list of (id, version) pairs.
pub open spec fn pair_ids(v: Seq<(i64, i32)>) -> Seq<i64> {
    v.map_values(|p: (i64, i32)| p.0)
}

/// Whether `ids` lists the members of `s`, each once.
pub open spec fn lists_exactly(ids: Seq<i64>, s: Set<i64>) -> bool {
    ids.no_duplicates() && ids.to_set() == s
}

/// Node ids present now but not in the snapshot.
pub open spec fn created_node_ids(original: OsmData, current: OsmData) -> Set<i64> {
    current.nodes@.dom().filter(|k: i64| !original.nodes@.contains_key(k))
}

/// Node ids present in both whose node changed.
pub open spec fn modified_node_ids(original: OsmData, current: OsmData) -> Set<i64> {
    current.nodes@.dom().filter(
        |k: i64| original.nodes@.contains_key(k) && node_changed(original.nodes@[k]@, current.nodes@[k]@),
    )
}

/// Node ids of the snapshot no longer present.
pub open spec fn deleted_node_ids(original: OsmData, current: OsmData) -> Set<i64> {
    original.nodes@.dom().filter(|k: i64| !current.nodes@.contains_key(k))
}

/// Way ids present now but not in the snapshot.
pub open spec fn created_way_ids(original: OsmData, current: OsmData) -> Set<i64> {
    current.ways@.dom().filter(|k: i64| !original.ways@.contains_key(k))
}

/// Way ids present in both whose way changed.
pub open spec fn modified_way_ids(original: OsmData, current: OsmData) -> Set<i64> {
    current.ways@.dom().filter(
        |k: i64| original.ways@.contains_key(k) && way_changed(original.ways@[k]@, current.ways@[k]@),
    )
}

/// Way ids of the snapshot no longer present.
pub open spec fn deleted_way_ids(original: OsmData, current: OsmData) -> Set<i64> {
    original.ways@.dom().filter(|k: i64| !current.ways@.contains_key(k))
}

/// The changes needed to bring the server's copy of a layer's data up to
/// date: created and modified elements in full, deleted ones by id and the
/// version they had in the snapshot.
#[derive(Debug, Clone)]
pub struct LayerDiff {
    pub created_nodes: Vec<OsmNode>,
    pub modified_nodes: Vec<OsmNode>,
    pub deleted_node_ids: Vec<(i64, i32)>,
    pub created_ways: Vec<OsmWay>,
    pub modified_ways: Vec<OsmWay>,
    pub deleted_way_ids: Vec<(i64, i32)>,
}

impl LayerDiff {
    /// A diff with no changes.
    pub fn new() -> (d: Self)
        ensures
            d.created_nodes@.len() == 0,
            d.modified_nodes@.len() == 0,
            d.deleted_node_ids@.len() == 0,
            d.created_ways@.len() == 0,
            d.modified_ways@.len() == 0,
            d.deleted_way_ids@.len() == 0,
    {
        LayerDiff {
            created_nodes: Vec::new(),
            modified_nodes: Vec::new(),
            deleted_node_ids: Vec::new(),
            created_ways: Vec::new(),
            modified_ways: Vec::new(),
            deleted_way_ids: Vec::new(),
        }
    }

    /// Nothing is created, modified or deleted.
    pub open spec fn empty_spec(&self) -> bool {
        self.created_nodes@.len() == 0 && self.modified_nodes@.len() == 0 && self.deleted_node_ids@.len() == 0
            && self.created_ways@.len() == 0 && self.modified_ways@.len() == 0 && self.deleted_way_ids@.len() == 0
    }

    /// Whether there is nothing to upload.
    pub fn is_empty(&self) -> (r: bool)
        ensures
            r == self.empty_spec(),
    {
        self.created_nodes.len() == 0 && self.modified_nodes.len() == 0 && self.deleted_node_ids.len() == 0
            && self.created_ways.len() == 0 && self.modified_ways.len() == 0 && self.deleted_way_ids.len()
            == 0
    }

    /// The numbers of created, modified and deleted elements (nodes and
    /// ways together).
    pub fn counts(&self) -> (r: (usize, usize, usize))
        requires
            self.created_nodes@.len() + self.created_ways@.len() <= usize::MAX,
            self.modified_nodes@.len() + self.modified_ways@.len() <= usize::MAX,
            self.deleted_node_ids@.len() + self.deleted_way_ids@.len() <= usize::MAX,
        ensures
            r.0 == self.created_nodes@.len() + self.created_ways@.len(),
            r.1 == self.modified_nodes@.len() + self.modified_ways@.len(),
            r.2 == self.deleted_node_ids@.len() + self.deleted_way_ids@.len(),
    {
        (
            self.created_nodes.len() + self.created_ways.len(),
            self.modified_nodes.len() + self.modified_ways.len(),
            self.deleted_node_ids.len() + self.deleted_way_ids.len(),
        )
    }
}

impl Default for LayerDiff {
    fn default() -> (d: Self)
        ensures
            d.created_nodes@.len() == 0,
            d.modified_nodes@.len() == 0,
            d.deleted_node_ids@.len() == 0,
            d.created_ways@.len() == 0,
            d.modified_ways@.len() == 0,
            d.deleted_way_ids@.len() == 0,
    {
        LayerDiff::new()
    }
}

/// `d` lists what changed from `original` to `current`: each created,
/// modified and deleted node and way exactly once, created and modified
/// ones as they are now, deleted ones by id with their snapshot version.
pub open spec fn diffs(original: OsmData, current: OsmData, d: LayerDiff) -> bool {
    &&& lists_exactly(node_ids(d.created_nodes@), created_node_ids(original, current))
    &&& lists_exactly(node_ids(d.modified_nodes@), modified_node_ids(original, current))
    &&& lists_exactly(pair_ids(d.deleted_node_ids@), deleted_node_ids(original, current))
    &&& lists_exactly(way_ids(d.created_ways@), created_way_ids(original, current))
    &&& lists_exactly(way_ids(d.modified_ways@), modified_way_ids(original, current))
    &&& lists_exactly(pair_ids(d.deleted_way_ids@), deleted_way_ids(original, current))
    &&& forall|i: int| 0 <= i < d.created_nodes@.len() ==> (#[trigger] d.created_nodes@[i])@ == current.nodes@[d.created_nodes@[i].id]@
    &&& forall|i: int| 0 <= i < d.modified_nodes@.len() ==> (#[trigger] d.modified_nodes@[i])@ == current.nodes@[d.modified_nodes@[i].id]@
    &&& forall|i: int| 0 <= i < d.deleted_node_ids@.len() ==> (#[trigger] d.deleted_node_ids@[i]).1 == original.nodes@[d.deleted_node_ids@[i].0].version
    &&& forall|i: int| 0 <= i < d.created_ways@.len() ==> (#[trigger] d.created_ways@[i])@ == current.ways@[d.created_ways@[i].id]@
    &&& forall|i: int| 0 <= i < d.modified_ways@.len() ==> (#[trigger] d.modified_ways@[i])@ == current.ways@[d.modified_ways@[i].id]@
    &&& forall|i: int| 0 <= i < d.deleted_way_ids@.len() ==> (#[trigger] d.deleted_way_ids@[i]).1 == original.ways@[d.deleted_way_ids@[i].0].version
}

/// Compares the snapshot `original` with `current` by id: every node and
/// way present only now is created, present in both but changed (moved,
/// retagged, other members) is modified, present only in the snapshot is
/// deleted; unchanged elements are left out. Each element is listed once.
pub fn diff_osm_data(original: &OsmData, current: &OsmData) -> (d: LayerDiff)
    requires
        original.wf(),
        current.wf(),
    ensures
        diffs(*original, *current, d),
{
    let (created_nodes, modified_nodes) = changed_nodes(original, current);
    let deleted_node_ids = vanished_nodes(original, current);
    let (created_ways, modified_ways) = changed_ways(original, current);
    let deleted_way_ids = vanished_ways(original, current);
    LayerDiff { created_nodes, modified_nodes, deleted_node_ids, created_ways, modified_ways, deleted_way_ids }
}

/// The created and the modified nodes.
fn changed_nodes(original: &OsmData, current: &OsmData) -> (r: (Vec<OsmNode>, Vec<OsmNode>))
    requires
        original.wf(),
        current.wf(),
    ensures
        lists_exactly(node_ids(r.0@), created_node_ids(*original, *current)),
        lists_exactly(node_ids(r.1@), modified_node_ids(*original, *current)),
        forall|i: int| 0 <= i < r.0@.len() ==> (#[trigger] r.0@[i])@ == current.nodes@[r.0@[i].id]@,
        forall|i: int| 0 <= i < r.1@.len() ==> (#[trigger] r.1@[i])@ == current.nodes@[r.1@[i].id]@,
{
    let ghost pc = |k: i64| !original.nodes@.contains_key(k);
    let ghost pm = |k: i64| original.nodes@.contains_key(k) && node_changed(original.nodes@[k]@, current.nodes@[k]@);
    let keys = key_list(&current.nodes);
    let mut created: Vec<OsmNode> = Vec::new();
    let mut modified: Vec<OsmNode> = Vec::new();
    let mut i: usize = 0;
    while i < keys.len()
        invariant
            i <= keys@.len(),
            keys@.no_duplicates(),
            keys@.to_set() == current.nodes@.dom(),
            original.wf(),
            current.wf(),
            forall|k: i64| #[trigger] pc(k) == !original.nodes@.contains_key(k),
            forall|k: i64| #[trigger] pm(k) == (original.nodes@.contains_key(k) && node_changed(original.nodes@[k]@, current.nodes@[k]@)),
            node_ids(created@) == keep(keys@.take(i as int), pc),
            node_ids(modified@) == keep(keys@.take(i as int), pm),
            forall|j: int| 0 <= j < created@.len() ==> (#[trigger] created@[j])@ == current.nodes@[created@[j].id]@,
            forall|j: int| 0 <= j < modified@.len() ==> (#[trigger] modified@[j])@ == current.nodes@[modified@[j].id]@,
        decreases keys.len() - i,
    {
        let k = keys[i];
        assert(keys@.take(i + 1).drop_last() =~= keys@.take(i as int));
        assert(keys@.take(i + 1).last() == k);
        assert(keys@.to_set().contains(k));
        let node = current.nodes.get(&k).unwrap();
        assert(node.id == k);
        match original.nodes.get(&k) {
            None => {
                let ghost before = node_ids(created@);
                created.push(copy_node(node));
                assert(node_ids(created@) =~= before.push(k));
            },
            Some(orig) => {
                if node_differs(orig, node) {
                    let ghost before = node_ids(modified@);
                    modified.push(copy_node(node));
                    assert(node_ids(modified@) =~= before.push(k));
                }
            },
        }
        i = i + 1;
    }
    proof {
        assert(keys@.take(keys@.len() as int) =~= keys@);
        lemma_keep(keys@, pc);
        lemma_keep(keys@, pm);
        assert(keys@.to_set().filter(pc) =~= created_node_ids(*original, *current));
        assert(keys@.to_set().filter(pm) =~= modified_node_ids(*original, *current));
    }
    (created, modified)
}

/// The created and the modified ways.
fn changed_ways(original: &OsmData, current: &OsmData) -> (r: (Vec<OsmWay>, Vec<OsmWay>))
    requires
        original.wf(),
        current.wf(),
    ensures
        lists_exactly(way_ids(r.0@), created_way_ids(*original, *current)),
        lists_exactly(way_ids(r.1@), modified_way_ids(*original, *current)),
        forall|i: int| 0 <= i < r.0@.len() ==> (#[trigger] r.0@[i])@ == current.ways@[r.0@[i].id]@,
        forall|i: int| 0 <= i < r.1@.len() ==> (#[trigger] r.1@[i])@ == current.ways@[r.1@[i].id]@,
{
    let ghost pc = |k: i64| !original.ways@.contains_key(k);
    let ghost pm = |k: i64| original.ways@.contains_key(k) && way_changed(original.ways@[k]@, current.ways@[k]@);
    let keys = key_list(&current.ways);
    let mut created: Vec<OsmWay> = Vec::new();
    let mut modified: Vec<OsmWay> = Vec::new();
    let mut i: usize = 0;
    while i < keys.len()
        invariant
            i <= keys@.len(),
            keys@.no_duplicates(),
            keys@.to_set() == current.ways@.dom(),
            original.wf(),
            current.wf(),
            forall|k: i64| #[trigger] pc(k) == !original.ways@.contains_key(k),
            forall|k: i64| #[trigger] pm(k) == (original.ways@.contains_key(k) && way_changed(original.ways@[k]@, current.ways@[k]@)),
            way_ids(created@) == keep(keys@.take(i as int), pc),
            way_ids(modified@) == keep(keys@.take(i as int), pm),
            forall|j: int| 0 <= j < created@.len() ==> (#[trigger] created@[j])@ == current.ways@[created@[j].id]@,
            forall|j: int| 0 <= j < modified@.len() ==> (#[trigger] modified@[j])@ == current.ways@[modified@[j].id]@,
        decreases keys.len() - i,
    {
        let k = keys[i];
        assert(keys@.take(i + 1).drop_last() =~= keys@.take(i as int));
        assert(keys@.take(i + 1).last() == k);
        assert(keys@.to_set().contains(k));
        let way = current.ways.get(&k).unwrap();
        assert(way.id == k);
        match original.ways.get(&k) {
            None => {
                let ghost before = way_ids(created@);
                created.push(copy_way(way));
                assert(way_ids(created@) =~= before.push(k));
            },
            Some(orig) => {
                if way_differs(orig, way) {
                    let ghost before = way_ids(modified@);
                    modified.push(copy_way(way));
                    assert(way_ids(modified@) =~= before.push(k));
                }
            },
        }
        i = i + 1;
    }
    proof {
        assert(keys@.take(keys@.len() as int) =~= keys@);
        lemma_keep(keys@, pc);
        lemma_keep(keys@, pm);
        assert(keys@.to_set().filter(pc) =~= created_way_ids(*original, *current));
        assert(keys@.to_set().filter(pm) =~= modified_way_ids(*original, *current));
    }
    (created, modified)
}

/// The (id, version) of every node of the snapshot that is gone.
fn vanished_nodes(original: &OsmData, current: &OsmData) -> (r: Vec<(i64, i32)>)
    requires
        original.wf(),
        current.wf(),
    ensures
        lists_exactly(pair_ids(r@), deleted_node_ids(*original, *current)),
        forall|i: int| 0 <= i < r@.len() ==> (#[trigger] r@[i]).1 == original.nodes@[r@[i].0].version,
{
    let ghost pd = |k: i64| !current.nodes@.contains_key(k);
    let keys = key_list(&original.nodes);
    let mut out: Vec<(i64, i32)> = Vec::new();
    let mut i: usize = 0;
    while i < keys.len()
        invariant
            i <= keys@.len(),
            keys@.no_duplicates(),
            keys@.to_set() == original.nodes@.dom(),
            forall|k: i64| #[trigger] pd(k) == !current.nodes@.contains_key(k),
            pair_ids(out@) == keep(keys@.take(i as int), pd),
            forall|j: int| 0 <= j < out@.len() ==> (#[trigger] out@[j]).1 == original.nodes@[out@[j].0].version,
        decreases keys.len() - i,
    {
        let k = keys[i];
        assert(keys@.take(i + 1).drop_last() =~= keys@.take(i as int));
        assert(keys@.take(i + 1).last() == k);
        assert(keys@.to_set().contains(k));
        let orig = original.nodes.get(&k).unwrap();
        if !current.nodes.contains_key(&k) {
            let ghost before = pair_ids(out@);
            out.push((k, orig.version));
            assert(pair_ids(out@) =~= before.push(k));
        }
        i = i + 1;
    }
    proof {
        assert(keys@.take(keys@.len() as int) =~= keys@);
        lemma_keep(keys@, pd);
        assert(keys@.to_set().filter(pd) =~= deleted_node_ids(*original, *current));
    }
    out
}

/// The (id, version) of every way of the snapshot that is gone.
fn vanished_ways(original: &OsmData, current: &OsmData) -> (r: Vec<(i64, i32)>)
    requires
        original.wf(),
        current.wf(),
    ensures
        lists_exactly(pair_ids(r@), deleted_way_ids(*original, *current)),
        forall|i: int| 0 <= i < r@.len() ==> (#[trigger] r@[i]).1 == original.ways@[r@[i].0].version,
{
    let ghost pd = |k: i64| !current.ways@.contains_key(k);
    let keys = key_list(&original.ways);
    let mut out: Vec<(i64, i32)> = Vec::new();
    let mut i: usize = 0;
    while i < keys.len()
        invariant
            i <= keys@.len(),
            keys@.no_duplicates(),
            keys@.to_set() == original.ways@.dom(),
            forall|k: i64| #[trigger] pd(k) == !current.ways@.contains_key(k),
            pair_ids(out@) == keep(keys@.take(i as int), pd),
            forall|j: int| 0 <= j < out@.len() ==> (#[trigger] out@[j]).1 == original.ways@[out@[j].0].version,
        decreases keys.len() - i,
    {
        let k = keys[i];
        assert(keys@.take(i + 1).drop_last() =~= keys@.take(i as int));
        assert(keys@.take(i + 1).last() == k);
        assert(keys@.to_set().contains(k));
        let orig = original.ways.get(&k).unwrap();
        if !current.ways.contains_key(&k) {
            let ghost before = pair_ids(out@);
            out.push((k, orig.version));
            assert(pair_ids(out@) =~= before.push(k));
        }
        i = i + 1;
    }
    proof {
        assert(keys@.take(keys@.len() as int) =~= keys@);
        lemma_keep(keys@, pd);
        assert(keys@.to_set().filter(pd) =~= deleted_way_ids(*original, *current));
    }
    out
}

/// Data compared with itself has nothing to upload: untouched elements
/// are never listed.
pub proof fn law_unchanged_data_has_empty_diff(d: OsmData)
    ensures
        created_node_ids(d, d) == Set::<i64>::empty(),
        modified_node_ids(d, d) == Set::<i64>::empty(),
        deleted_node_ids(d, d) == Set::<i64>::empty(),
        created_way_ids(d, d) == Set::<i64>::empty(),
        modified_way_ids(d, d) == Set::<i64>::empty(),
        deleted_way_ids(d, d) == Set::<i64>::empty(),
{
    assert(created_node_ids(d, d) =~= Set::<i64>::empty());
    assert(modified_node_ids(d, d) =~= Set::<i64>::empty());
    assert(deleted_node_ids(d, d) =~= Set::<i64>::empty());
    assert(created_way_ids(d, d) =~= Set::<i64>::empty());
    assert(modified_way_ids(d, d) =~= Set::<i64>::empty());
    assert(deleted_way_ids(d, d) =~= Set::<i64>::empty());
}

/// How the diff sorts ids: a node or way present now but not in the
/// snapshot is created, one in the snapshot but gone now is deleted, and
/// one in both is neither created nor deleted; modified ones are in both.
pub proof fn law_diff_sorts_by_presence(original: OsmData, current: OsmData, id: i64)
    ensures
        created_node_ids(original, current).contains(id) <==> (current.nodes@.contains_key(id)
            && !original.nodes@.contains_key(id)),
        deleted_node_ids(original, current).contains(id) <==> (original.nodes@.contains_key(id)
            && !current.nodes@.contains_key(id)),
        modified_node_ids(original, current).contains(id) ==> original.nodes@.contains_key(id)
            && current.nodes@.contains_key(id),
        created_way_ids(original, current).contains(id) <==> (current.ways@.contains_key(id)
            && !original.ways@.contains_key(id)),
        deleted_way_ids(original, current).contains(id) <==> (original.ways@.contains_key(id)
            && !current.ways@.contains_key(id)),
        modified_way_ids(original, current).contains(id) ==> original.ways@.contains_key(id)
            && current.ways@.contains_key(id),
{
}

/// A way kept in the data is uploaded as modified exactly when its member
/// list or its tags (as a key-value map) differ from the snapshot's: a
/// retagged way, or one with other members or another member order, is
/// listed; one with the same members and tags is not.
pub proof fn law_way_modified_iff_members_or_tags_differ(original: OsmData, current: OsmData, id: i64)
    requires
        original.ways@.contains_key(id),
        current.ways@.contains_key(id),
    ensures
        modified_way_ids(original, current).contains(id) <==> (original.ways@[id].nodes@ != current.ways@[id].nodes@
            || tag_map(original.ways@[id].tags@) != tag_map(current.ways@[id].tags@)),
{
}

/// A node kept in the data is uploaded as modified exactly when it moved
/// (a coordinate that is neither the same bits nor an equal value) or its
/// tags (as a key-value map) differ from the snapshot's.
pub proof fn law_node_modified_iff_moved_or_retagged(original: OsmData, current: OsmData, id: i64)
    requires
        original.nodes@.contains_key(id),
        current.nodes@.contains_key(id),
    ensures
        modified_node_ids(original, current).contains(id) <==> (!coord_unchanged(original.nodes@[id].lat, current.nodes@[id].lat)
            || !coord_unchanged(original.nodes@[id].lon, current.nodes@[id].lon)
            || tag_map(original.nodes@[id].tags@) != tag_map(current.nodes@[id].tags@)),
{
}

/// No way needs uploading as modified exactly when every way kept from the
/// snapshot has the same member list and the same tags.
pub proof fn law_no_modified_ways_iff_kept_ways_equal(original: OsmData, current: OsmData)
    ensures
        modified_way_ids(original, current).is_empty() <==> forall|k: i64|
            #![trigger original.ways@[k], current.ways@[k]]
            original.ways@.contains_key(k) && current.ways@.contains_key(k) ==> original.ways@[k].nodes@
                == current.ways@[k].nodes@ && tag_map(original.ways@[k].tags@) == tag_map(current.ways@[k].tags@),
{
    if modified_way_ids(original, current).is_empty() {
        assert forall|k: i64|
            #![trigger original.ways@[k], current.ways@[k]]
            original.ways@.contains_key(k) && current.ways@.contains_key(k) implies original.ways@[k].nodes@
                == current.ways@[k].nodes@ && tag_map(original.ways@[k].tags@) == tag_map(current.ways@[k].tags@) by {
            assert(!modified_way_ids(original, current).contains(k));
        }
    } else {
        let k = modified_way_ids(original, current).choose();
        assert(modified_way_ids(original, current).contains(k));
    }
}

/// Whatever the diff lists is something to upload: a diff is empty exactly
/// when no element was created, modified or deleted.
pub proof fn law_empty_diff_means_no_change(original: OsmData, current: OsmData, d: LayerDiff)
    requires
        lists_exactly(node_ids(d.created_nodes@), created_node_ids(original, current)),
        lists_exactly(node_ids(d.modified_nodes@), modified_node_ids(original, current)),
        lists_exactly(pair_ids(d.deleted_node_ids@), deleted_node_ids(original, current)),
        lists_exactly(way_ids(d.created_ways@), created_way_ids(original, current)),
        lists_exactly(way_ids(d.modified_ways@), modified_way_ids(original, current)),
        lists_exactly(pair_ids(d.deleted_way_ids@), deleted_way_ids(original, current)),
    ensures
        (d.created_nodes@.len() == 0 && d.modified_nodes@.len() == 0 && d.deleted_node_ids@.len() == 0
            && d.created_ways@.len() == 0 && d.modified_ways@.len() == 0 && d.deleted_way_ids@.len() == 0)
            <==> (created_node_ids(original, current).is_empty() && modified_node_ids(original, current).is_empty()
            && deleted_node_ids(original, current).is_empty() && created_way_ids(original, current).is_empty()
            && modified_way_ids(original, current).is_empty() && deleted_way_ids(original, current).is_empty()),
{
    lemma_listed_empty(node_ids(d.created_nodes@), created_node_ids(original, current));
    lemma_listed_empty(node_ids(d.modified_nodes@), modified_node_ids(original, current));
    lemma_listed_empty(pair_ids(d.deleted_node_ids@), deleted_node_ids(original, current));
    lemma_listed_empty(way_ids(d.created_ways@), created_way_ids(original, current));
    lemma_listed_empty(way_ids(d.modified_ways@), modified_way_ids(original, current));
    lemma_listed_empty(pair_ids(d.deleted_way_ids@), deleted_way_ids(original, current));
}

/// A list that lists a set exactly is empty exactly when the set is.
proof fn lemma_listed_empty(ids: Seq<i64>, s: Set<i64>)
    requires
        lists_exactly(ids, s),
    ensures
        (ids.len() == 0) <==> s.is_empty(),
{
    if ids.len() > 0 {
        assert(ids.to_set().contains(ids[0]));
    } else {
        assert(ids.to_set() =~= Set::<i64>::empty());
    }
}

} // verus!
