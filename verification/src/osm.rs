//! OpenStreetMap data as edited by the map: nodes, ways and the dataset
//! that holds them by id.

use vstd::prelude::*;

use std::collections::HashMap;

use crate::settings::{table_get, table_lookup, table_view};
use crate::text::{lemma_lex_order, lex_lt, str_eq, str_lt};

verus! {

/// A coordinate in degrees, held as the IEEE-754 bit pattern of its `f64`
/// value.
#[derive(Debug, Clone, Copy, PartialEq, Eq, Structural)]
pub struct Coord(pub u64);

/// Whether the coordinate is a NaN.
pub open spec fn is_nan(c: Coord) -> bool {
    (c.0 & 0x7ff0_0000_0000_0000u64) == 0x7ff0_0000_0000_0000u64 && (c.0 & 0x000f_ffff_ffff_ffffu64) != 0
}

/// Whether the coordinate is +0 or -0.
pub open spec fn is_zero(c: Coord) -> bool {
    (c.0 & 0x7fff_ffff_ffff_ffffu64) == 0
}

/// Whether two coordinates are equal as `f64` values: a NaN equals
/// nothing, +0 equals -0, and otherwise the bit patterns must agree.
pub open spec fn same_value(a: Coord, b: Coord) -> bool {
    !is_nan(a) && !is_nan(b) && (a.0 == b.0 || (is_zero(a) && is_zero(b)))
}

/// Whether a coordinate stayed as it was: the same bit pattern, or an
/// equal `f64` value (+0 and -0). An untouched NaN counts as unchanged.
pub open spec fn coord_unchanged(a: Coord, b: Coord) -> bool {
    a == b || same_value(a, b)
}

impl Coord {
    /// Whether the coordinate `other` is this one unchanged (see
    /// `coord_unchanged`).
    pub fn unchanged(self, other: Coord) -> (r: bool)
        ensures
            r == coord_unchanged(self, other),
    {
        self.0 == other.0 || self.same_value(other)
    }

    /// `f64` equality of the two coordinates.
    pub fn same_value(self, other: Coord) -> (r: bool)
        ensures
            r == same_value(self, other),
    {
        let a_nan = (self.0 & 0x7ff0_0000_0000_0000u64) == 0x7ff0_0000_0000_0000u64 && (self.0
            & 0x000f_ffff_ffff_ffffu64) != 0;
        let b_nan = (other.0 & 0x7ff0_0000_0000_0000u64) == 0x7ff0_0000_0000_0000u64 && (other.0
            & 0x000f_ffff_ffff_ffffu64) != 0;
        let both_zero = (self.0 & 0x7fff_ffff_ffff_ffffu64) == 0 && (other.0 & 0x7fff_ffff_ffff_ffffu64)
            == 0;
        !a_nan && !b_nan && (self.0 == other.0 || both_zero)
    }
}

/// The key-value map a tag list stands for (a later entry for a key
/// replaces an earlier one).
pub open spec fn tag_map(tags: Seq<(String, String)>) -> Map<Seq<char>, Seq<char>> {
    Map::new(
        |k: Seq<char>| table_get(table_view(tags), k) is Some,
        |k: Seq<char>| table_get(table_view(tags), k)->0,
    )
}

/// A key has a value in a table exactly when some entry has that key.
pub proof fn lemma_table_has_key(t: Seq<(Seq<char>, Seq<char>)>, k: Seq<char>)
    ensures
        table_get(t, k) is Some <==> exists|i: int| 0 <= i < t.len() && (#[trigger] t[i]).0 == k,
    decreases t.len(),
{
    if t.len() > 0 {
        let p = t.drop_last();
        lemma_table_has_key(p, k);
        if exists|i: int| 0 <= i < t.len() && (#[trigger] t[i]).0 == k {
            let i = choose|i: int| 0 <= i < t.len() && (#[trigger] t[i]).0 == k;
            if i < t.len() - 1 {
                assert(p[i] == t[i]);
            }
        }
        if exists|i: int| 0 <= i < p.len() && (#[trigger] p[i]).0 == k {
            let i = choose|i: int| 0 <= i < p.len() && (#[trigger] p[i]).0 == k;
            assert(t[i] == p[i]);
        }
    }
}

/// Whether two tag lists stand for the same key-value map.
pub fn tags_equal(a: &Vec<(String, String)>, b: &Vec<(String, String)>) -> (r: bool)
    ensures
        r == (tag_map(a@) == tag_map(b@)),
{
    let ghost ta = table_view(a@);
    let ghost tb = table_view(b@);
    let mut i: usize = 0;
    while i < a.len()
        invariant
            i <= a@.len(),
            ta == table_view(a@),
            tb == table_view(b@),
            forall|j: int| 0 <= j < i ==> table_get(ta, (#[trigger] a@[j]).0@) == table_get(tb, a@[j].0@),
        decreases a.len() - i,
    {
        let va = table_lookup(a, a[i].0.as_str());
        let vb = table_lookup(b, a[i].0.as_str());
        let same = match (va, vb) {
            (Some(x), Some(y)) => crate::text::str_eq(x.as_str(), y.as_str()),
            (None, None) => true,
            _ => false,
        };
        if !same {
            proof {
                assert(tag_map(a@).contains_key(a@[i as int].0@)) by {
                    lemma_table_has_key(ta, a@[i as int].0@);
                    assert(ta[i as int].0 == a@[i as int].0@);
                }
                if tag_map(a@) == tag_map(b@) {
                    assert(tag_map(b@).contains_key(a@[i as int].0@));
                    assert(tag_map(a@)[a@[i as int].0@] == tag_map(b@)[a@[i as int].0@]);
                }
            }
            return false;
        }
        i = i + 1;
    }
    let mut j: usize = 0;
    while j < b.len()
        invariant
            j <= b@.len(),
            ta == table_view(a@),
            tb == table_view(b@),
            forall|m: int| 0 <= m < a@.len() ==> table_get(ta, (#[trigger] a@[m]).0@) == table_get(tb, a@[m].0@),
            forall|m: int| 0 <= m < j ==> table_get(ta, (#[trigger] b@[m]).0@) is Some,
        decreases b.len() - j,
    {
        if table_lookup(a, b[j].0.as_str()).is_none() {
            proof {
                assert(tag_map(b@).contains_key(b@[j as int].0@)) by {
                    lemma_table_has_key(tb, b@[j as int].0@);
                    assert(tb[j as int].0 == b@[j as int].0@);
                }
            }
            return false;
        }
        j = j + 1;
    }
    proof {
        assert forall|k: Seq<char>| table_get(ta, k) == table_get(tb, k) by {
            lemma_table_has_key(ta, k);
            lemma_table_has_key(tb, k);
            if table_get(ta, k) is Some {
                let m = choose|m: int| 0 <= m < ta.len() && (#[trigger] ta[m]).0 == k;
                assert(a@[m].0@ == k);
            } else if table_get(tb, k) is Some {
                let m = choose|m: int| 0 <= m < tb.len() && (#[trigger] tb[m]).0 == k;
                assert(b@[m].0@ == k);
            }
        }
        assert(tag_map(a@) =~= tag_map(b@));
    }
    true
}

/// Whether the keys of a tag list strictly increase.
pub open spec fn keys_increasing(t: Seq<(String, String)>) -> bool {
    forall|i: int, j: int| 0 <= i < j < t.len() ==> lex_lt(#[trigger] t[i].0@, #[trigger] t[j].0@)
}

/// In a table whose keys are all different, a key's value is the one at
/// its position.
proof fn lemma_unique_get(t: Seq<(Seq<char>, Seq<char>)>, p: int)
    requires
        0 <= p < t.len(),
        forall|i: int, j: int| 0 <= i < j < t.len() ==> (#[trigger] t[i]).0 != (#[trigger] t[j]).0,
    ensures
        table_get(t, t[p].0) == Some(t[p].1),
    decreases t.len(),
{
    if p < t.len() - 1 {
        let q = t.drop_last();
        assert(t.last() == t[t.len() - 1]);
        assert(q[p] == t[p]);
        lemma_unique_get(q, p);
    }
}

/// Increasing keys are all different.
proof fn lemma_increasing_distinct(t: Seq<(String, String)>)
    requires
        keys_increasing(t),
    ensures
        forall|i: int, j: int| 0 <= i < j < t.len() ==> (#[trigger] table_view(t)[i]).0 != (#[trigger] table_view(t)[j]).0,
{
    assert forall|i: int, j: int| 0 <= i < j < t.len() implies (#[trigger] table_view(t)[i]).0 != (#[trigger] table_view(t)[j]).0 by {
        assert(lex_lt(t[i].0@, t[j].0@));
        lemma_lex_order(t[i].0@, t[j].0@, t[j].0@);
    }
}

/// The lookup in a list with increasing keys: the value at the key's
/// position, or none.
pub(crate) proof fn lemma_sorted_get(t: Seq<(String, String)>, x: Seq<char>)
    requires
        keys_increasing(t),
    ensures
        forall|p: int| 0 <= p < t.len() && (#[trigger] t[p]).0@ == x ==> table_get(table_view(t), x) == Some(t[p].1@),
        (forall|p: int| 0 <= p < t.len() ==> (#[trigger] t[p]).0@ != x) ==> table_get(table_view(t), x) is None,
{
    lemma_increasing_distinct(t);
    assert forall|p: int| 0 <= p < t.len() && (#[trigger] t[p]).0@ == x implies table_get(table_view(t), x) == Some(t[p].1@) by {
        lemma_unique_get(table_view(t), p);
    }
    lemma_table_has_key(table_view(t), x);
}

/// The tags as a list sorted by key: one entry per key, with the value the
/// tag map gives it.
pub fn sorted_tags(tags: &Vec<(String, String)>) -> (r: Vec<(String, String)>)
    ensures
        keys_increasing(r@),
        tag_map(r@) == tag_map(tags@),
{
    let mut out: Vec<(String, String)> = Vec::new();
    let mut i: usize = 0;
    while i < tags.len()
        invariant
            i <= tags@.len(),
            keys_increasing(out@),
            forall|x: Seq<char>| #[trigger] table_get(table_view(out@), x) == table_get(table_view(tags@.take(i as int)), x),
        decreases tags.len() - i,
    {
        let k = tags[i].0.clone();
        let v = tags[i].1.clone();
        let mut pos: usize = 0;
        while pos < out.len() && str_lt(out[pos].0.as_str(), k.as_str())
            invariant
                pos <= out@.len(),
                forall|j: int| 0 <= j < pos ==> lex_lt((#[trigger] out@[j]).0@, k@),
            decreases out.len() - pos,
        {
            pos = pos + 1;
        }
        let ghost before = out@;
        let ghost e = (k@, v@);
        proof {
            assert(table_view(tags@.take(i + 1)) =~= table_view(tags@.take(i as int)).push(e));
        }
        let found = pos < out.len() && str_eq(out[pos].0.as_str(), k.as_str());
        if found {
            let _ = out.remove(pos);
            out.insert(pos, (k, v));
            proof {
                assert(out@ =~= before.update(pos as int, out@[pos as int]));
                assert forall|a: int, b: int| 0 <= a < b < out@.len() implies lex_lt(#[trigger] out@[a].0@, #[trigger] out@[b].0@) by {
                    assert(out@[a].0@ == before[a].0@ && out@[b].0@ == before[b].0@);
                }
                assert forall|x: Seq<char>| #[trigger] table_get(table_view(out@), x) == table_get(table_view(tags@.take(i + 1)), x) by {
                    lemma_sorted_get(out@, x);
                    lemma_sorted_get(before, x);
                    let tvi = table_view(tags@.take(i as int));
                    assert(tvi.push(e).drop_last() =~= tvi);
                    assert(table_get(tvi.push(e), x) == if x == k@ {
                        Some(v@)
                    } else {
                        table_get(tvi, x)
                    });
                    if x == k@ {
                        assert(out@[pos as int].0@ == x);
                    } else {
                        if exists|p: int| 0 <= p < out@.len() && (#[trigger] out@[p]).0@ == x {
                            let p = choose|p: int| 0 <= p < out@.len() && (#[trigger] out@[p]).0@ == x;
                            assert(before[p] == out@[p]);
                        } else {
                            assert forall|p: int| 0 <= p < before.len() implies (#[trigger] before[p]).0@ != x by {
                                if p != pos {
                                    assert(before[p] == out@[p]);
                                }
                            }
                        }
                    }
                }
            }
        } else {
            out.insert(pos, (k, v));
            proof {
                assert(out@ == before.insert(pos as int, out@[pos as int]));
                assert(out@[pos as int].0@ == k@);
                if pos < before.len() {
                    lemma_lex_order(before[pos as int].0@, k@, k@);
                    assert(lex_lt(k@, before[pos as int].0@));
                }
                assert forall|a: int, b: int| 0 <= a < b < out@.len() implies lex_lt(#[trigger] out@[a].0@, #[trigger] out@[b].0@) by {
                    if b < pos {
                        assert(out@[a] == before[a] && out@[b] == before[b]);
                    } else if b == pos {
                        assert(out@[a] == before[a]);
                    } else if a < pos {
                        assert(out@[a] == before[a] && out@[b] == before[b - 1]);
                        if b - 1 > pos {
                            assert(lex_lt(before[pos as int].0@, before[b - 1].0@));
                        }
                        lemma_lex_order(before[a].0@, k@, before[pos as int].0@);
                        lemma_lex_order(k@, before[pos as int].0@, before[b - 1].0@);
                        lemma_lex_order(before[a].0@, k@, before[b - 1].0@);
                    } else if a == pos {
                        assert(out@[b] == before[b - 1]);
                        if b - 1 > pos {
                            assert(lex_lt(before[pos as int].0@, before[b - 1].0@));
                            lemma_lex_order(k@, before[pos as int].0@, before[b - 1].0@);
                        }
                    } else {
                        assert(out@[a] == before[a - 1] && out@[b] == before[b - 1]);
                    }
                }
                assert forall|x: Seq<char>| #[trigger] table_get(table_view(out@), x) == table_get(table_view(tags@.take(i + 1)), x) by {
                    lemma_sorted_get(out@, x);
                    lemma_sorted_get(before, x);
                    let tvi = table_view(tags@.take(i as int));
                    assert(tvi.push(e).drop_last() =~= tvi);
                    assert(table_get(tvi.push(e), x) == if x == k@ {
                        Some(v@)
                    } else {
                        table_get(tvi, x)
                    });
                    if x == k@ {
                        assert(out@[pos as int].0@ == x);
                    } else {
                        if exists|p: int| 0 <= p < out@.len() && (#[trigger] out@[p]).0@ == x {
                            let p = choose|p: int| 0 <= p < out@.len() && (#[trigger] out@[p]).0@ == x;
                            if p < pos {
                                assert(before[p] == out@[p]);
                            } else {
                                assert(before[p - 1] == out@[p]);
                            }
                        } else {
                            assert forall|p: int| 0 <= p < before.len() implies (#[trigger] before[p]).0@ != x by {
                                if p < pos {
                                    assert(before[p] == out@[p]);
                                } else {
                                    assert(before[p] == out@[p + 1]);
                                }
                            }
                        }
                    }
                }
            }
        }
        i = i + 1;
    }
    proof {
        assert(tags@.take(tags@.len() as int) =~= tags@);
        assert(tag_map(out@) =~= tag_map(tags@));
    }
    out
}

/// An OSM node.
#[derive(Debug, Clone, PartialEq)]
pub struct OsmNode {
    pub id: i64,
    pub lat: Coord,
    pub lon: Coord,
    pub version: i32,
    pub tags: Vec<(String, String)>,
}

/// An OSM way: the ids of its nodes, in order.
#[derive(Debug, Clone, PartialEq)]
pub struct OsmWay {
    pub id: i64,
    pub nodes: Vec<i64>,
    pub version: i32,
    pub tags: Vec<(String, String)>,
}

/// Abstract form of an `OsmNode`.
pub struct NodeView {
    pub id: i64,
    pub lat: Coord,
    pub lon: Coord,
    pub version: i32,
    pub tags: Seq<(String, String)>,
}

impl View for OsmNode {
    type V = NodeView;

    open spec fn view(&self) -> NodeView {
        NodeView { id: self.id, lat: self.lat, lon: self.lon, version: self.version, tags: self.tags@ }
    }
}

/// Abstract form of an `OsmWay`.
pub struct WayView {
    pub id: i64,
    pub nodes: Seq<i64>,
    pub version: i32,
    pub tags: Seq<(String, String)>,
}

impl View for OsmWay {
    type V = WayView;

    open spec fn view(&self) -> WayView {
        WayView { id: self.id, nodes: self.nodes@, version: self.version, tags: self.tags@ }
    }
}

/// A copy of a tag list.
pub fn copy_tags(t: &Vec<(String, String)>) -> (r: Vec<(String, String)>)
    ensures
        r@ == t@,
{
    let mut out: Vec<(String, String)> = Vec::new();
    let mut i: usize = 0;
    while i < t.len()
        invariant
            i <= t@.len(),
            out@ == t@.take(i as int),
        decreases t.len() - i,
    {
        out.push((t[i].0.clone(), t[i].1.clone()));
        assert(out@ =~= t@.take(i + 1));
        i = i + 1;
    }
    assert(t@.take(t@.len() as int) =~= t@);
    out
}

/// A copy of an id list.
pub fn copy_ids(v: &Vec<i64>) -> (r: Vec<i64>)
    ensures
        r@ == v@,
{
    let mut out: Vec<i64> = Vec::new();
    let mut i: usize = 0;
    while i < v.len()
        invariant
            i <= v@.len(),
            out@ == v@.take(i as int),
        decreases v.len() - i,
    {
        out.push(v[i]);
        assert(out@ =~= v@.take(i + 1));
        i = i + 1;
    }
    assert(v@.take(v@.len() as int) =~= v@);
    out
}

/// A copy of a node.
pub fn copy_node(n: &OsmNode) -> (r: OsmNode)
    ensures
        r@ == n@,
{
    let r = OsmNode { id: n.id, lat: n.lat, lon: n.lon, version: n.version, tags: copy_tags(&n.tags) };
    r
}

/// A copy of a way.
pub fn copy_way(w: &OsmWay) -> (r: OsmWay)
    ensures
        r@ == w@,
{
    OsmWay { id: w.id, nodes: copy_ids(&w.nodes), version: w.version, tags: copy_tags(&w.tags) }
}

/// Whether a node differs from its earlier state: moved (a coordinate
/// neither the same bits nor an equal `f64` value) or retagged.
pub open spec fn node_changed(before: NodeView, after: NodeView) -> bool {
    !coord_unchanged(before.lat, after.lat) || !coord_unchanged(before.lon, after.lon) || tag_map(before.tags)
        != tag_map(after.tags)
}

/// Whether a way differs from its earlier state: other member nodes (or
/// order) or other tags.
pub open spec fn way_changed(before: WayView, after: WayView) -> bool {
    before.nodes != after.nodes || tag_map(before.tags) != tag_map(after.tags)
}

/// Whether a node differs from its earlier state.
pub fn node_differs(before: &OsmNode, after: &OsmNode) -> (r: bool)
    ensures
        r == node_changed(before@, after@),
{
    !before.lat.unchanged(after.lat) || !before.lon.unchanged(after.lon) || !tags_equal(
        &before.tags,
        &after.tags,
    )
}

/// Whether two id lists are equal.
fn ids_equal(a: &Vec<i64>, b: &Vec<i64>) -> (r: bool)
    ensures
        r == (a@ == b@),
{
    if a.len() != b.len() {
        return false;
    }
    let mut i: usize = 0;
    while i < a.len()
        invariant
            a@.len() == b@.len(),
            i <= a@.len(),
            forall|j: int| 0 <= j < i ==> a@[j] == b@[j],
        decreases a.len() - i,
    {
        if a[i] != b[i] {
            return false;
        }
        i = i + 1;
    }
    assert(a@ =~= b@);
    true
}

/// Whether a way differs from its earlier state.
pub fn way_differs(before: &OsmWay, after: &OsmWay) -> (r: bool)
    ensures
        r == way_changed(before@, after@),
{
    !ids_equal(&before.nodes, &after.nodes) || !tags_equal(&before.tags, &after.tags)
}

/// Nodes and ways by id.
#[derive(Debug, Clone)]
pub struct OsmData {
    pub nodes: HashMap<i64, OsmNode>,
    pub ways: HashMap<i64, OsmWay>,
}

impl OsmData {
    /// Every node and way is stored under its own id.
    pub open spec fn wf(&self) -> bool {
        &&& forall|k: i64| #[trigger] self.nodes@.contains_key(k) ==> self.nodes@[k].id == k
        &&& forall|k: i64| #[trigger] self.ways@.contains_key(k) ==> self.ways@[k].id == k
    }

    /// An empty dataset.
    pub fn new() -> (d: Self)
        ensures
            d.wf(),
            d.nodes@ == Map::<i64, OsmNode>::empty(),
            d.ways@ == Map::<i64, OsmWay>::empty(),
    {
        OsmData { nodes: HashMap::new(), ways: HashMap::new() }
    }

    /// A copy of the dataset.
    pub fn duplicate(&self) -> (d: Self)
        ensures
            d.nodes@ == self.nodes@,
            d.ways@ == self.ways@,
    {
        OsmData { nodes: self.nodes.clone(), ways: self.ways.clone() }
    }
}

} // verus!
