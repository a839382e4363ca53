//! Moving nodes by dragging the selection: committing a drag as one
//! undoable edit, and what undoing it gives back.

use vstd::prelude::*;

use crate::layers::osm_layer::{moved, nodes_committed, nodes_view, FeatureKind, FeatureRef, OsmLayer};
use crate::layers::{LayerEntry, LayerId, LayerManager};
use crate::osm::{Coord, NodeView};
use crate::undo::{
    all_wf, apply_undo_action, first_index, lemma_first_index, lemma_first_index_found, move_chain, move_list,
    moves_replayed, on_layer, UndoableAction,
};

verus! {

/// Commits a finished drag: each node of each listed layer (the first with
/// that id) is moved from its recorded position to its new one, layer by
/// layer in order. Returns the edit that undoes it.
pub fn commit_move(
    layers: &mut LayerManager<OsmLayer>,
    per_layer: Vec<(LayerId, Vec<(i64, (Coord, Coord), (Coord, Coord))>)>,
) -> (r: UndoableAction)
    requires
        all_wf(old(layers).entries()),
    ensures
        all_wf(final(layers).entries()),
        final(layers).next_id() == old(layers).next_id(),
        r == (UndoableAction::MoveNodes { per_layer }),
        moves_replayed(old(layers).entries(), final(layers).entries(), per_layer@, true),
{
    let action = UndoableAction::MoveNodes { per_layer };
    apply_undo_action(layers, &action, true);
    action
}

/// Node `k` is among the entries' nodes.
pub open spec fn entry_moves(entries: Seq<(i64, (Coord, Coord), (Coord, Coord))>, k: i64) -> bool {
    exists|p: int| 0 <= p < entries.len() && (#[trigger] entries[p]).0 == k
}

/// The position an entry moves its node to: after, or (backward) before.
pub open spec fn entry_target(e: (i64, (Coord, Coord), (Coord, Coord)), forward: bool) -> (Coord, Coord) {
    if forward {
        e.2
    } else {
        e.1
    }
}

/// A node's view with other coordinates.
pub open spec fn placed(v: NodeView, at: (Coord, Coord)) -> NodeView {
    NodeView { lat: at.0, lon: at.1, ..v }
}

/// Moving keeps the nodes present and changes nothing of a node but its
/// coordinates; a node no move is about stays as it was, and one whose
/// moves all go to `c` ends up at `c`.
proof fn lemma_moved_node(
    m: Map<i64, NodeView>,
    entries: Seq<(i64, (Coord, Coord), (Coord, Coord))>,
    forward: bool,
    k: i64,
    c: (Coord, Coord),
)
    requires
        m.contains_key(k),
    ensures
        moved(m, move_list(entries, forward)).dom() == m.dom(),
        moved(m, move_list(entries, forward))[k] == placed(
            m[k],
            (moved(m, move_list(entries, forward))[k].lat, moved(m, move_list(entries, forward))[k].lon),
        ),
        !entry_moves(entries, k) ==> moved(m, move_list(entries, forward))[k] == m[k],
        entry_moves(entries, k) && (forall|p: int|
            0 <= p < entries.len() && (#[trigger] entries[p]).0 == k ==> entry_target(entries[p], forward) == c)
            ==> moved(m, move_list(entries, forward))[k] == placed(m[k], c),
    decreases entries.len(),
{
    let ml = move_list(entries, forward);
    if entries.len() > 0 {
        let pe = entries.drop_last();
        assert(move_list(pe, forward) =~= ml.drop_last());
        lemma_moved_node(m, pe, forward, k, c);
        let p = moved(m, ml.drop_last());
        let mv = ml.last();
        let e = entries.last();
        assert(mv == ml[entries.len() - 1]);
        assert(e == entries[entries.len() - 1]);
        if p.contains_key(mv.0) {
            assert(moved(m, ml).dom() =~= p.dom());
        }
        if entry_moves(pe, k) {
            let q = choose|q: int| 0 <= q < pe.len() && (#[trigger] pe[q]).0 == k;
            assert(entries[q] == pe[q]);
        }
        if entry_moves(entries, k) && !entry_moves(pe, k) {
            let q = choose|q: int| 0 <= q < entries.len() && (#[trigger] entries[q]).0 == k;
            if q < entries.len() - 1 {
                assert(pe[q] == entries[q]);
            }
        }
        if forall|q: int| 0 <= q < entries.len() && (#[trigger] entries[q]).0 == k ==> entry_target(entries[q], forward) == c {
            assert forall|q: int| 0 <= q < pe.len() && (#[trigger] pe[q]).0 == k implies entry_target(pe[q], forward) == c by {
                assert(pe[q] == entries[q]);
            }
        }
    }
}

/// Moving keeps the nodes present.
proof fn lemma_moved_dom(m: Map<i64, NodeView>, ml: Seq<(i64, Coord, Coord)>)
    ensures
        moved(m, ml).dom() == m.dom(),
    decreases ml.len(),
{
    if ml.len() > 0 {
        lemma_moved_dom(m, ml.drop_last());
        let p = moved(m, ml.drop_last());
        if p.contains_key(ml.last().0) {
            assert(moved(m, ml).dom() =~= p.dom());
        }
    }
}

/// The layers of `b` have the ids of those of `a`, in the same places.
pub open spec fn same_ids(a: Seq<LayerEntry<OsmLayer>>, b: Seq<LayerEntry<OsmLayer>>) -> bool {
    &&& a.len() == b.len()
    &&& forall|x: int| 0 <= x < a.len() ==> (#[trigger] b[x]).id == a[x].id
}

/// Layers with the same ids in the same places are found at the same
/// places.
proof fn lemma_same_ids_found(a: Seq<LayerEntry<OsmLayer>>, b: Seq<LayerEntry<OsmLayer>>, id: LayerId)
    requires
        same_ids(a, b),
    ensures
        first_index(b, id) == first_index(a, id),
{
    lemma_first_index_found(a, id);
    match first_index(a, id) {
        Some(i) => lemma_first_index(b, id, i),
        None => lemma_first_index(b, id, -1),
    }
}

/// A move chain without its last step is a move chain.
proof fn lemma_move_chain_prefix(
    states: Seq<Seq<LayerEntry<OsmLayer>>>,
    per_layer: Seq<(LayerId, Vec<(i64, (Coord, Coord), (Coord, Coord))>)>,
    forward: bool,
)
    requires
        move_chain(states, per_layer, forward),
        per_layer.len() > 0,
    ensures
        move_chain(states.drop_last(), per_layer.drop_last(), forward),
{
    let ps = states.drop_last();
    let pe = per_layer.drop_last();
    assert forall|i: int| 0 <= i < pe.len() implies on_layer(
        ps[i],
        #[trigger] ps[i + 1],
        pe[i].0,
        |a: OsmLayer, b: OsmLayer| nodes_committed(&a, &b, move_list(pe[i].1@, forward)),
    ) by {
        assert(ps[i] == states[i] && ps[i + 1] == states[i + 1] && pe[i] == per_layer[i]);
        assert(on_layer(
            states[i],
            states[i + 1],
            per_layer[i].0,
            |a: OsmLayer, b: OsmLayer| nodes_committed(&a, &b, move_list(per_layer[i].1@, forward)),
        ));
    }
}

/// Replaying moves keeps the layers in place, each layer's data loaded,
/// its nodes present and its ways as they were.
proof fn lemma_move_frame(
    states: Seq<Seq<LayerEntry<OsmLayer>>>,
    per_layer: Seq<(LayerId, Vec<(i64, (Coord, Coord), (Coord, Coord))>)>,
    forward: bool,
)
    requires
        move_chain(states, per_layer, forward),
    ensures
        same_ids(states[0], states.last()),
        forall|j: int|
            0 <= j < states[0].len() && (#[trigger] states[0][j]).layer.data() is Some ==> states.last()[j].layer.data() is Some
                && states.last()[j].layer.data()->0.nodes@.dom() == states[0][j].layer.data()->0.nodes@.dom()
                && states.last()[j].layer.data()->0.ways@ == states[0][j].layer.data()->0.ways@,
    decreases per_layer.len(),
{
    if per_layer.len() > 0 {
        let n = per_layer.len() - 1;
        lemma_move_chain_prefix(states, per_layer, forward);
        lemma_move_frame(states.drop_last(), per_layer.drop_last(), forward);
        let s = states[n];
        let t = states[n + 1];
        assert(states.drop_last().last() == s);
        assert(states.drop_last()[0] == states[0]);
        assert(states.last() == t);
        let e = per_layer[n];
        let ml = move_list(e.1@, forward);
        assert(on_layer(s, t, e.0, |a: OsmLayer, b: OsmLayer| nodes_committed(&a, &b, move_list(e.1@, forward))));
        lemma_first_index_found(s, e.0);
        match first_index(s, e.0) {
            None => {
                assert(t == s);
            },
            Some(x) => {
                assert(t == s.update(x, LayerEntry { layer: t[x].layer, ..s[x] }));
                assert(same_ids(s, t));
                assert forall|j: int|
                    0 <= j < states[0].len() && (#[trigger] states[0][j]).layer.data() is Some implies t[j].layer.data() is Some
                        && t[j].layer.data()->0.nodes@.dom() == states[0][j].layer.data()->0.nodes@.dom()
                        && t[j].layer.data()->0.ways@ == states[0][j].layer.data()->0.ways@ by {
                    if j == x {
                        let a = s[x].layer;
                        let b = t[x].layer;
                        if ml.len() > 0 && a.data() is Some {
                            lemma_moved_dom(nodes_view(a.data()->0.nodes@), ml);
                            assert(nodes_view(b.data()->0.nodes@).dom() == b.data()->0.nodes@.dom());
                            assert(nodes_view(a.data()->0.nodes@).dom() == a.data()->0.nodes@.dom());
                        }
                    } else {
                        assert(t[j] == s[j]);
                    }
                }
            },
        }
    }
}

/// Some entry for the layer at position `j` of `s` is about node `k`.
pub open spec fn chain_moves(
    s: Seq<LayerEntry<OsmLayer>>,
    per_layer: Seq<(LayerId, Vec<(i64, (Coord, Coord), (Coord, Coord))>)>,
    j: int,
    k: i64,
) -> bool {
    exists|i: int| 0 <= i < per_layer.len() && first_index(s, per_layer[i].0) == Some(j) && entry_moves(#[trigger] per_layer[i].1@, k)
}

/// Every entry about node `k` of the layer at position `j` of `s` moves
/// it to `c`.
pub open spec fn chain_targets(
    s: Seq<LayerEntry<OsmLayer>>,
    per_layer: Seq<(LayerId, Vec<(i64, (Coord, Coord), (Coord, Coord))>)>,
    forward: bool,
    j: int,
    k: i64,
    c: (Coord, Coord),
) -> bool {
    forall|i: int, p: int|
        0 <= i < per_layer.len() && first_index(s, per_layer[i].0) == Some(j) && 0 <= p < per_layer[i].1@.len() && (
        #[trigger] per_layer[i].1@[p]).0 == k ==> entry_target(per_layer[i].1@[p], forward) == c
}

/// Replaying moves changes nothing of a node but its coordinates: a node
/// no entry is about stays as it was, and one whose entries all move it to
/// `c` ends up at `c`.
proof fn lemma_move_node_chain(
    states: Seq<Seq<LayerEntry<OsmLayer>>>,
    per_layer: Seq<(LayerId, Vec<(i64, (Coord, Coord), (Coord, Coord))>)>,
    forward: bool,
    j: int,
    k: i64,
    c: (Coord, Coord),
)
    requires
        move_chain(states, per_layer, forward),
        0 <= j < states[0].len(),
        states[0][j].layer.data() is Some,
        states[0][j].layer.data()->0.nodes@.contains_key(k),
    ensures
        nodes_view(states.last()[j].layer.data()->0.nodes@)[k] == placed(
            nodes_view(states[0][j].layer.data()->0.nodes@)[k],
            (
                nodes_view(states.last()[j].layer.data()->0.nodes@)[k].lat,
                nodes_view(states.last()[j].layer.data()->0.nodes@)[k].lon,
            ),
        ),
        !chain_moves(states[0], per_layer, j, k) ==> nodes_view(states.last()[j].layer.data()->0.nodes@)[k] == nodes_view(
            states[0][j].layer.data()->0.nodes@,
        )[k],
        chain_moves(states[0], per_layer, j, k) && chain_targets(states[0], per_layer, forward, j, k, c) ==> nodes_view(
            states.last()[j].layer.data()->0.nodes@,
        )[k] == placed(nodes_view(states[0][j].layer.data()->0.nodes@)[k], c),
    decreases per_layer.len(),
{
    lemma_move_frame(states, per_layer, forward);
    if per_layer.len() > 0 {
        let n = per_layer.len() - 1;
        let ps = states.drop_last();
        let pe = per_layer.drop_last();
        lemma_move_chain_prefix(states, per_layer, forward);
        lemma_move_frame(ps, pe, forward);
        lemma_move_node_chain(ps, pe, forward, j, k, c);
        let s0 = states[0];
        assert(ps[0] == s0);
        let s = states[n];
        let t = states[n + 1];
        assert(ps.last() == s);
        assert(states.last() == t);
        assert(s0[j].layer.data() is Some);
        let m0 = nodes_view(s0[j].layer.data()->0.nodes@);
        let ms = nodes_view(s[j].layer.data()->0.nodes@);
        let mt = nodes_view(t[j].layer.data()->0.nodes@);
        let e = per_layer[n];
        assert(pe.len() == n);
        lemma_same_ids_found(s0, s, e.0);
        let here = first_index(s0, e.0) == Some(j);
        // what the chain says, split into the steps before the last and the last
        if chain_moves(s0, per_layer, j, k) && !(here && entry_moves(e.1@, k)) {
            let i = choose|i: int| 0 <= i < per_layer.len() && first_index(s0, per_layer[i].0) == Some(j) && entry_moves(#[trigger] per_layer[i].1@, k);
            assert(i != n);
            assert(pe[i] == per_layer[i]);
            assert(chain_moves(s0, pe, j, k));
        }
        if chain_moves(s0, pe, j, k) {
            let i = choose|i: int| 0 <= i < pe.len() && first_index(s0, pe[i].0) == Some(j) && entry_moves(#[trigger] pe[i].1@, k);
            assert(pe[i] == per_layer[i]);
            assert(chain_moves(s0, per_layer, j, k));
        }
        if here && entry_moves(e.1@, k) {
            assert(chain_moves(s0, per_layer, j, k));
        }
        if chain_targets(s0, per_layer, forward, j, k, c) {
            assert forall|i: int, p: int|
                0 <= i < pe.len() && first_index(s0, pe[i].0) == Some(j) && 0 <= p < pe[i].1@.len() && (#[trigger] pe[i].1@[p]).0
                    == k implies entry_target(pe[i].1@[p], forward) == c by {
                assert(pe[i] == per_layer[i]);
                assert(per_layer[i].1@[p] == pe[i].1@[p]);
            }
            if here {
                assert forall|p: int| 0 <= p < e.1@.len() && (#[trigger] e.1@[p]).0 == k implies entry_target(e.1@[p], forward) == c by {
                    assert(per_layer[n].1@[p] == e.1@[p]);
                }
            }
        }
        assert(on_layer(s, t, e.0, |a: OsmLayer, b: OsmLayer| nodes_committed(&a, &b, move_list(e.1@, forward))));
        lemma_first_index_found(s, e.0);
        if here {
            assert(t == s.update(j, LayerEntry { layer: t[j].layer, ..s[j] }));
            let a = s[j].layer;
            let b = t[j].layer;
            let ml = move_list(e.1@, forward);
            assert(ms.dom() == s[j].layer.data()->0.nodes@.dom());
            assert(m0.dom() == s0[j].layer.data()->0.nodes@.dom());
            assert(ms.contains_key(k));
            lemma_moved_node(ms, e.1@, forward, k, c);
            if ml.len() == 0 {
                assert(b == a);
                assert(!entry_moves(e.1@, k));
            } else {
                assert(mt == moved(ms, ml));
            }
        } else {
            match first_index(s, e.0) {
                Some(x) => {
                    assert(t == s.update(x, LayerEntry { layer: t[x].layer, ..s[x] }));
                    assert(t[j] == s[j]);
                },
                None => {
                    assert(t == s);
                },
            }
        }
    }
}

/// Entry `e` of the moves for layer id `lid` was recorded from the layers
/// `s`: where its node is on that layer there, its position before is.
pub open spec fn recorded_from(s: Seq<LayerEntry<OsmLayer>>, lid: LayerId, e: (i64, (Coord, Coord), (Coord, Coord))) -> bool {
    match first_index(s, lid) {
        Some(j) => match s[j].layer.data() {
            Some(d) => d.nodes@.contains_key(e.0) ==> (d.nodes@[e.0].lat, d.nodes@[e.0].lon) == e.1,
            None => true,
        },
        None => true,
    }
}

/// Undoing a move puts every node back: after moves recorded from the
/// layers `before` took them to `moved_to`, undoing the moves (to
/// `restored`) leaves every layer in its place with its nodes and ways as
/// they were in `before`.
pub proof fn law_undo_of_move(
    before: Seq<LayerEntry<OsmLayer>>,
    moved_to: Seq<LayerEntry<OsmLayer>>,
    restored: Seq<LayerEntry<OsmLayer>>,
    per_layer: Seq<(LayerId, Vec<(i64, (Coord, Coord), (Coord, Coord))>)>,
)
    requires
        forall|i: int, p: int|
            0 <= i < per_layer.len() && 0 <= p < per_layer[i].1@.len() ==> recorded_from(
                before,
                per_layer[i].0,
                #[trigger] per_layer[i].1@[p],
            ),
        moves_replayed(before, moved_to, per_layer, true),
        moves_replayed(moved_to, restored, per_layer, false),
    ensures
        same_ids(before, restored),
        forall|j: int|
            0 <= j < before.len() && (#[trigger] before[j]).layer.data() is Some ==> restored[j].layer.data() is Some
                && nodes_view(restored[j].layer.data()->0.nodes@) == nodes_view(before[j].layer.data()->0.nodes@)
                && restored[j].layer.data()->0.ways@ == before[j].layer.data()->0.ways@,
{
    let s1 = choose|states: Seq<Seq<LayerEntry<OsmLayer>>>|
        #[trigger] move_chain(states, per_layer, true) && states[0] == before && states.last() == moved_to;
    let s2 = choose|states: Seq<Seq<LayerEntry<OsmLayer>>>|
        #[trigger] move_chain(states, per_layer, false) && states[0] == moved_to && states.last() == restored;
    lemma_move_frame(s1, per_layer, true);
    lemma_move_frame(s2, per_layer, false);
    assert forall|j: int|
        0 <= j < before.len() && (#[trigger] before[j]).layer.data() is Some implies restored[j].layer.data() is Some
            && nodes_view(restored[j].layer.data()->0.nodes@) == nodes_view(before[j].layer.data()->0.nodes@)
            && restored[j].layer.data()->0.ways@ == before[j].layer.data()->0.ways@ by {
        assert(s1[0][j] == before[j]);
        assert(moved_to[j].layer.data() is Some);
        let m0 = nodes_view(before[j].layer.data()->0.nodes@);
        let m2 = nodes_view(restored[j].layer.data()->0.nodes@);
        assert(m2.dom() == restored[j].layer.data()->0.nodes@.dom());
        assert(m0.dom() == before[j].layer.data()->0.nodes@.dom());
        assert forall|k: i64| m0.contains_key(k) implies m2[k] == m0[k] by {
            let d = before[j].layer.data()->0;
            let c0 = (d.nodes@[k].lat, d.nodes@[k].lon);
            lemma_move_node_chain(s1, per_layer, true, j, k, c0);
            lemma_move_node_chain(s2, per_layer, false, j, k, c0);
            if chain_moves(moved_to, per_layer, j, k) {
                let i = choose|i: int|
                    0 <= i < per_layer.len() && first_index(moved_to, per_layer[i].0) == Some(j) && entry_moves(
                        #[trigger] per_layer[i].1@,
                        k,
                    );
                lemma_same_ids_found(before, moved_to, per_layer[i].0);
                assert(chain_moves(before, per_layer, j, k));
            }
            if chain_moves(before, per_layer, j, k) {
                let i = choose|i: int|
                    0 <= i < per_layer.len() && first_index(before, per_layer[i].0) == Some(j) && entry_moves(
                        #[trigger] per_layer[i].1@,
                        k,
                    );
                lemma_same_ids_found(before, moved_to, per_layer[i].0);
                assert(chain_moves(moved_to, per_layer, j, k));
            }
            assert forall|i: int, p: int|
                0 <= i < per_layer.len() && first_index(moved_to, per_layer[i].0) == Some(j) && 0 <= p
                    < per_layer[i].1@.len() && (#[trigger] per_layer[i].1@[p]).0 == k implies entry_target(
                per_layer[i].1@[p],
                false,
            ) == c0 by {
                lemma_same_ids_found(before, moved_to, per_layer[i].0);
                assert(recorded_from(before, per_layer[i].0, per_layer[i].1@[p]));
            }
            assert(chain_targets(moved_to, per_layer, false, j, k, c0));
        }
        assert(m2 =~= m0);
    }
}

/// Feature `f` selects node `k` for a drag: `f` is on a layer (the first
/// with its layer id) and is that node, or a way of that layer's data
/// listing it.
pub open spec fn selects_node(ls: Seq<LayerEntry<OsmLayer>>, f: FeatureRef, k: i64) -> bool {
    match first_index(ls, f.layer_id) {
        Some(j) => match f.kind {
            FeatureKind::Node => f.id == k,
            FeatureKind::Way => match ls[j].layer.data() {
                Some(d) => d.ways@.contains_key(f.id) && d.ways@[f.id].nodes@.contains(k),
                None => false,
            },
        },
        None => false,
    }
}

/// A drag of the selected features `sel` moves node `k` of the layer with
/// id `lid`.
pub open spec fn drag_wants(ls: Seq<LayerEntry<OsmLayer>>, sel: Seq<FeatureRef>, lid: LayerId, k: i64) -> bool {
    exists|q: int| 0 <= q < sel.len() && (#[trigger] sel[q]).layer_id == lid && selects_node(ls, sel[q], k)
}

/// The coordinates of node `k` on the first layer with id `lid`, if it is
/// there.
pub open spec fn node_at(ls: Seq<LayerEntry<OsmLayer>>, lid: LayerId, k: i64) -> Option<(Coord, Coord)> {
    match first_index(ls, lid) {
        Some(j) => match ls[j].layer.data() {
            Some(d) => if d.nodes@.contains_key(k) {
                Some((d.nodes@[k].lat, d.nodes@[k].lon))
            } else {
                None
            },
            None => None,
        },
        None => None,
    }
}

/// Some selected feature of `sel` is on a layer with id `lid`.
pub open spec fn selects_layer(ls: Seq<LayerEntry<OsmLayer>>, sel: Seq<FeatureRef>, lid: LayerId) -> bool {
    exists|q: int| 0 <= q < sel.len() && (#[trigger] sel[q]).layer_id == lid && first_index(ls, lid) is Some
}

/// Appends `x` unless `v` already holds it.
fn push_unique_id(v: &mut Vec<i64>, x: i64)
    requires
        old(v)@.no_duplicates(),
    ensures
        final(v)@.no_duplicates(),
        forall|k: i64| #[trigger] final(v)@.contains(k) == (old(v)@.contains(k) || k == x),
{
    let mut i: usize = 0;
    while i < v.len()
        invariant
            i <= v@.len(),
            v@ == old(v)@,
            old(v)@.no_duplicates(),
            forall|j: int| 0 <= j < i ==> v@[j] != x,
        decreases v.len() - i,
    {
        if v[i] == x {
            return;
        }
        i = i + 1;
    }
    v.push(x);
    proof {
        assert forall|k: i64| #[trigger] v@.contains(k) == (old(v)@.contains(k) || k == x) by {
            if v@.contains(k) {
                let j = choose|j: int| 0 <= j < v@.len() && v@[j] == k;
                if j < old(v)@.len() {
                    assert(old(v)@[j] == k);
                }
            }
            if old(v)@.contains(k) {
                let j = choose|j: int| 0 <= j < old(v)@.len() && old(v)@[j] == k;
                assert(v@[j] == k);
            }
            if k == x {
                assert(v@[old(v)@.len() as int] == x);
            }
        }
    }
}

/// Appends `x` unless `v` already holds it.
fn push_unique_layer(v: &mut Vec<LayerId>, x: LayerId)
    requires
        old(v)@.no_duplicates(),
    ensures
        final(v)@.no_duplicates(),
        forall|k: LayerId| #[trigger] final(v)@.contains(k) == (old(v)@.contains(k) || k == x),
{
    let mut i: usize = 0;
    while i < v.len()
        invariant
            i <= v@.len(),
            v@ == old(v)@,
            old(v)@.no_duplicates(),
            forall|j: int| 0 <= j < i ==> v@[j] != x,
        decreases v.len() - i,
    {
        if v[i] == x {
            return;
        }
        i = i + 1;
    }
    v.push(x);
    proof {
        assert forall|k: LayerId| #[trigger] v@.contains(k) == (old(v)@.contains(k) || k == x) by {
            if v@.contains(k) {
                let j = choose|j: int| 0 <= j < v@.len() && v@[j] == k;
                if j < old(v)@.len() {
                    assert(old(v)@[j] == k);
                }
            }
            if old(v)@.contains(k) {
                let j = choose|j: int| 0 <= j < old(v)@.len() && old(v)@[j] == k;
                assert(v@[j] == k);
            }
            if k == x {
                assert(v@[old(v)@.len() as int] == x);
            }
        }
    }
}

/// The ids of the layers the selected features are on, each once.
fn selected_layer_ids(layers: &LayerManager<OsmLayer>, selected: &Vec<FeatureRef>) -> (r: Vec<LayerId>)
    ensures
        r@.no_duplicates(),
        forall|lid: LayerId| #[trigger] r@.contains(lid) == selects_layer(layers.entries(), selected@, lid),
{
    let ghost ls = layers.entries();
    let mut out: Vec<LayerId> = Vec::new();
    let mut i: usize = 0;
    while i < selected.len()
        invariant
            i <= selected@.len(),
            ls == layers.entries(),
            out@.no_duplicates(),
            forall|lid: LayerId| #[trigger] out@.contains(lid) == selects_layer(ls, selected@.take(i as int), lid),
        decreases selected.len() - i,
    {
        let f = selected[i];
        let found = layers.find_layer(f.layer_id).is_some();
        proof {
            lemma_first_index_found(ls, f.layer_id);
            if found {
                let k = choose|k: int|
                    0 <= k < ls.len() && ls[k].id == f.layer_id && forall|j: int| 0 <= j < k ==> (#[trigger] ls[j]).id != f.layer_id;
                lemma_first_index(ls, f.layer_id, k);
            } else {
                lemma_first_index(ls, f.layer_id, -1);
            }
        }
        let ghost prev = out@;
        if found {
            push_unique_layer(&mut out, f.layer_id);
        }
        proof {
            let t = selected@.take(i + 1);
            let t0 = selected@.take(i as int);
            assert forall|lid: LayerId| #[trigger] out@.contains(lid) == selects_layer(ls, t, lid) by {
                if selects_layer(ls, t, lid) {
                    let q = choose|q: int| 0 <= q < t.len() && (#[trigger] t[q]).layer_id == lid && first_index(ls, lid) is Some;
                    if q < i {
                        assert(t0[q] == t[q]);
                        assert(selects_layer(ls, t0, lid));
                    }
                }
                if selects_layer(ls, t0, lid) {
                    let q = choose|q: int| 0 <= q < t0.len() && (#[trigger] t0[q]).layer_id == lid && first_index(ls, lid) is Some;
                    assert(t[q] == t0[q]);
                }
                if found && lid == f.layer_id {
                    assert(t[i as int] == f);
                }
            }
        }
        i = i + 1;
    }
    proof {
        assert(selected@.take(selected@.len() as int) =~= selected@);
    }
    out
}

/// The nodes a drag of the selection moves on the layer with id `lid`,
/// each once.
fn dragged_node_ids(layers: &LayerManager<OsmLayer>, lid: LayerId, selected: &Vec<FeatureRef>) -> (r: Vec<i64>)
    ensures
        r@.no_duplicates(),
        forall|k: i64| #[trigger] r@.contains(k) == drag_wants(layers.entries(), selected@, lid, k),
{
    let ghost ls = layers.entries();
    let mut ids: Vec<i64> = Vec::new();
    let e = match layers.find_layer(lid) {
        Some(e) => e,
        None => {
            proof {
                lemma_first_index(ls, lid, -1);
                assert forall|k: i64| #[trigger] ids@.contains(k) == drag_wants(ls, selected@, lid, k) by {
                    if drag_wants(ls, selected@, lid, k) {
                        let q = choose|q: int| 0 <= q < selected@.len() && (#[trigger] selected@[q]).layer_id == lid && selects_node(ls, selected@[q], k);
                    }
                }
            }
            return ids;
        },
    };
    let ghost kk = choose|k: int|
        0 <= k < ls.len() && ls[k] == *e && e.id == lid && forall|j: int| 0 <= j < k ==> (#[trigger] ls[j]).id != lid;
    proof {
        lemma_first_index(ls, lid, kk);
    }
    let mut q: usize = 0;
    while q < selected.len()
        invariant
            q <= selected@.len(),
            ls == layers.entries(),
            0 <= kk < ls.len(),
            first_index(ls, lid) == Some(kk),
            ls[kk] == *e,
            ids@.no_duplicates(),
            forall|k: i64| #[trigger] ids@.contains(k) == drag_wants(ls, selected@.take(q as int), lid, k),
        decreases selected.len() - q,
    {
        let f = selected[q];
        let ghost prev = ids@;
        if f.layer_id == lid {
            match f.kind {
                FeatureKind::Node => {
                    push_unique_id(&mut ids, f.id);
                },
                FeatureKind::Way => {
                    match e.layer.way_node_ids(f.id) {
                        Some(ns) => {
                            let mut t: usize = 0;
                            while t < ns.len()
                                invariant
                                    t <= ns@.len(),
                                    ids@.no_duplicates(),
                                    forall|k: i64| #[trigger] ids@.contains(k) == (prev.contains(k) || ns@.take(t as int).contains(k)),
                                decreases ns.len() - t,
                            {
                                let ghost before_push = ids@;
                                push_unique_id(&mut ids, ns[t]);
                                proof {
                                    assert forall|k: i64| #[trigger] ids@.contains(k) == (prev.contains(k) || ns@.take(t + 1).contains(k)) by {
                                        let a = ns@.take(t as int);
                                        let b = ns@.take(t + 1);
                                        if a.contains(k) {
                                            let j = choose|j: int| 0 <= j < a.len() && a[j] == k;
                                            assert(b[j] == k);
                                        }
                                        if b.contains(k) {
                                            let j = choose|j: int| 0 <= j < b.len() && b[j] == k;
                                            if j < t {
                                                assert(a[j] == k);
                                            }
                                        }
                                        if k == ns@[t as int] {
                                            assert(b[t as int] == k);
                                        }
                                        assert(before_push.contains(k) == (prev.contains(k) || a.contains(k)));
                                    }
                                }
                                t = t + 1;
                            }
                            proof {
                                assert(ns@.take(ns@.len() as int) =~= ns@);
                            }
                        },
                        None => {},
                    }
                },
            }
        }
        proof {
            let t1 = selected@.take(q + 1);
            let t0 = selected@.take(q as int);
            assert(t1[q as int] == f);
            assert forall|k: i64| #[trigger] ids@.contains(k) == drag_wants(ls, t1, lid, k) by {
                if drag_wants(ls, t1, lid, k) {
                    let w = choose|w: int| 0 <= w < t1.len() && (#[trigger] t1[w]).layer_id == lid && selects_node(ls, t1[w], k);
                    if w < q {
                        assert(t0[w] == t1[w]);
                        assert(drag_wants(ls, t0, lid, k));
                    }
                }
                if drag_wants(ls, t0, lid, k) {
                    let w = choose|w: int| 0 <= w < t0.len() && (#[trigger] t0[w]).layer_id == lid && selects_node(ls, t0[w], k);
                    assert(t1[w] == t0[w]);
                    assert(drag_wants(ls, t1, lid, k));
                }
                if f.layer_id == lid && selects_node(ls, f, k) {
                    assert(drag_wants(ls, t1, lid, k));
                }
            }
        }
        q = q + 1;
    }
    proof {
        assert(selected@.take(selected@.len() as int) =~= selected@);
    }
    ids
}

/// Which nodes a drag of the selection moves, and from where: for each
/// layer a selected feature is on, each once, the selected nodes of that
/// layer and the nodes of its selected ways, each once with its current
/// coordinates; nodes not in the layer's data are left out, and so are
/// layers left with none. The order of layers and of nodes is not part of
/// the contract.
pub fn resolve_move_targets(layers: &LayerManager<OsmLayer>, selected: &Vec<FeatureRef>) -> (r: Vec<
    (LayerId, Vec<(i64, Coord, Coord)>),
>)
    ensures
        forall|x: int, y: int| 0 <= x < y < r@.len() ==> (#[trigger] r@[x]).0 != (#[trigger] r@[y]).0,
        forall|x: int| 0 <= x < r@.len() ==> (#[trigger] r@[x]).1@.len() > 0,
        forall|x: int, p: int, p2: int|
            0 <= x < r@.len() && 0 <= p < p2 < r@[x].1@.len() ==> (#[trigger] r@[x].1@[p]).0 != (#[trigger] r@[x].1@[p2]).0,
        forall|x: int, p: int|
            0 <= x < r@.len() && 0 <= p < r@[x].1@.len() ==> drag_wants(layers.entries(), selected@, r@[x].0, (#[trigger] r@[x].1@[p]).0)
                && node_at(layers.entries(), r@[x].0, r@[x].1@[p].0) == Some((r@[x].1@[p].1, r@[x].1@[p].2)),
        forall|lid: LayerId, k: i64|
            #[trigger] drag_wants(layers.entries(), selected@, lid, k) && node_at(layers.entries(), lid, k) is Some ==> exists|x: int, p: int|
                0 <= x < r@.len() && 0 <= p < r@[x].1@.len() && r@[x].0 == lid && (#[trigger] r@[x].1@[p]).0 == k,
{
    let ghost ls = layers.entries();
    let lids = selected_layer_ids(layers, selected);
    let mut out: Vec<(LayerId, Vec<(i64, Coord, Coord)>)> = Vec::new();
    let mut i: usize = 0;
    while i < lids.len()
        invariant
            i <= lids@.len(),
            ls == layers.entries(),
            lids@.no_duplicates(),
            forall|lid: LayerId| #[trigger] lids@.contains(lid) == selects_layer(ls, selected@, lid),
            forall|x: int| 0 <= x < out@.len() ==> lids@.take(i as int).contains((#[trigger] out@[x]).0),
            forall|x: int, y: int| 0 <= x < y < out@.len() ==> (#[trigger] out@[x]).0 != (#[trigger] out@[y]).0,
            forall|x: int| 0 <= x < out@.len() ==> (#[trigger] out@[x]).1@.len() > 0,
            forall|x: int, p: int, p2: int|
                0 <= x < out@.len() && 0 <= p < p2 < out@[x].1@.len() ==> (#[trigger] out@[x].1@[p]).0 != (#[trigger] out@[x].1@[p2]).0,
            forall|x: int, p: int|
                0 <= x < out@.len() && 0 <= p < out@[x].1@.len() ==> drag_wants(ls, selected@, out@[x].0, (#[trigger] out@[x].1@[p]).0)
                    && node_at(ls, out@[x].0, out@[x].1@[p].0) == Some((out@[x].1@[p].1, out@[x].1@[p].2)),
            forall|lid: LayerId, k: i64|
                #[trigger] drag_wants(ls, selected@, lid, k) && node_at(ls, lid, k) is Some && lids@.take(i as int).contains(lid)
                    ==> exists|x: int, p: int|
                    0 <= x < out@.len() && 0 <= p < out@[x].1@.len() && out@[x].0 == lid && (#[trigger] out@[x].1@[p]).0 == k,
        decreases lids.len() - i,
    {
        let lid = lids[i];
        let ids = dragged_node_ids(layers, lid, selected);
        let ghost prev = out@;
        proof {
            assert(lids@.contains(lid));
            lemma_first_index_found(ls, lid);
        }
        match layers.find_layer(lid) {
            Some(e) => {
                let ghost kk = choose|k: int|
                    0 <= k < ls.len() && ls[k] == *e && e.id == lid && forall|j: int| 0 <= j < k ==> (#[trigger] ls[j]).id != lid;
                proof {
                    lemma_first_index(ls, lid, kk);
                }
                let mut originals: Vec<(i64, Coord, Coord)> = Vec::new();
                let mut t: usize = 0;
                while t < ids.len()
                    invariant
                        t <= ids@.len(),
                        ls == layers.entries(),
                        first_index(ls, lid) == Some(kk),
                        0 <= kk < ls.len(),
                        ls[kk] == *e,
                        ids@.no_duplicates(),
                        forall|k: i64| #[trigger] ids@.contains(k) == drag_wants(ls, selected@, lid, k),
                        forall|p: int| 0 <= p < originals@.len() ==> ids@.take(t as int).contains((#[trigger] originals@[p]).0),
                        forall|p: int, p2: int| 0 <= p < p2 < originals@.len() ==> (#[trigger] originals@[p]).0 != (#[trigger] originals@[p2]).0,
                        forall|p: int|
                            0 <= p < originals@.len() ==> node_at(ls, lid, (#[trigger] originals@[p]).0) == Some((originals@[p].1, originals@[p].2)),
                        forall|k: i64|
                            #[trigger] ids@.take(t as int).contains(k) && node_at(ls, lid, k) is Some ==> exists|p: int|
                                0 <= p < originals@.len() && (#[trigger] originals@[p]).0 == k,
                    decreases ids.len() - t,
                {
                    let k = ids[t];
                    let ghost before_push = originals@;
                    let ghost a = ids@.take(t as int);
                    let ghost b = ids@.take(t + 1);
                    proof {
                        assert(b[t as int] == k);
                        assert forall|j: int| 0 <= j < a.len() implies a[j] != k by {
                            assert(ids@[j] == a[j]);
                        }
                    }
                    match e.layer.node_lat_lon(k) {
                        Some(pos) => {
                            originals.push((k, pos.0, pos.1));
                        },
                        None => {},
                    }
                    proof {
                        assert forall|m: i64| #[trigger] a.contains(m) implies b.contains(m) by {
                            let j = choose|j: int| 0 <= j < a.len() && a[j] == m;
                            assert(b[j] == m);
                        }
                        assert forall|p: int| 0 <= p < originals@.len() implies b.contains((#[trigger] originals@[p]).0) by {
                            if p < before_push.len() {
                                assert(originals@[p] == before_push[p]);
                                assert(a.contains(before_push[p].0));
                            }
                        }
                        assert forall|p: int, p2: int| 0 <= p < p2 < originals@.len() implies (#[trigger] originals@[p]).0
                            != (#[trigger] originals@[p2]).0 by {
                            if p2 == before_push.len() {
                                assert(originals@[p] == before_push[p]);
                                assert(a.contains(before_push[p].0));
                            } else {
                                assert(originals@[p] == before_push[p] && originals@[p2] == before_push[p2]);
                            }
                        }
                        assert forall|p: int| 0 <= p < originals@.len() implies node_at(ls, lid, (#[trigger] originals@[p]).0) == Some(
                            (originals@[p].1, originals@[p].2),
                        ) by {
                            if p < before_push.len() {
                                assert(originals@[p] == before_push[p]);
                            }
                        }
                        assert forall|m: i64| #[trigger] b.contains(m) && node_at(ls, lid, m) is Some implies exists|p: int|
                            0 <= p < originals@.len() && (#[trigger] originals@[p]).0 == m by {
                            let j = choose|j: int| 0 <= j < b.len() && b[j] == m;
                            if j < t {
                                assert(a[j] == m);
                                assert(a.contains(m));
                                let p = choose|p: int| 0 <= p < before_push.len() && (#[trigger] before_push[p]).0 == m;
                                assert(originals@[p] == before_push[p]);
                            } else {
                                assert(originals@[before_push.len() as int].0 == m);
                            }
                        }
                    }
                    t = t + 1;
                }
                proof {
                    assert(ids@.take(ids@.len() as int) =~= ids@);
                }
                if originals.len() > 0 {
                    out.push((lid, originals));
                }
            },
            None => {},
        }
        proof {
            let a = lids@.take(i as int);
            let b = lids@.take(i + 1);
            assert(b[i as int] == lid);
            assert forall|j: int| 0 <= j < a.len() implies a[j] != lid by {
                assert(lids@[j] == a[j]);
            }
            assert forall|m: LayerId| #[trigger] a.contains(m) implies b.contains(m) by {
                let j = choose|j: int| 0 <= j < a.len() && a[j] == m;
                assert(b[j] == m);
            }
            assert forall|x: int| 0 <= x < out@.len() implies b.contains((#[trigger] out@[x]).0) by {
                if x < prev.len() {
                    assert(out@[x] == prev[x]);
                    assert(a.contains(prev[x].0));
                }
            }
            assert forall|x: int, y: int| 0 <= x < y < out@.len() implies (#[trigger] out@[x]).0 != (#[trigger] out@[y]).0 by {
                if y == prev.len() {
                    assert(out@[x] == prev[x]);
                    assert(a.contains(prev[x].0));
                } else {
                    assert(out@[x] == prev[x] && out@[y] == prev[y]);
                }
            }
            assert forall|x: int| 0 <= x < out@.len() implies (#[trigger] out@[x]).1@.len() > 0 by {
                if x < prev.len() {
                    assert(out@[x] == prev[x]);
                }
            }
            assert forall|x: int, p: int, p2: int|
                0 <= x < out@.len() && 0 <= p < p2 < out@[x].1@.len() implies (#[trigger] out@[x].1@[p]).0 != (#[trigger] out@[x].1@[p2]).0 by {
                if x < prev.len() {
                    assert(out@[x] == prev[x]);
                }
            }
            assert forall|x: int, p: int|
                0 <= x < out@.len() && 0 <= p < out@[x].1@.len() implies drag_wants(ls, selected@, out@[x].0, (#[trigger] out@[x].1@[p]).0)
                    && node_at(ls, out@[x].0, out@[x].1@[p].0) == Some((out@[x].1@[p].1, out@[x].1@[p].2)) by {
                if x < prev.len() {
                    assert(out@[x] == prev[x]);
                } else {
                    assert(ids@.contains(out@[x].1@[p].0));
                }
            }
            assert forall|l2: LayerId, k: i64|
                #[trigger] drag_wants(ls, selected@, l2, k) && node_at(ls, l2, k) is Some && b.contains(l2) implies exists|x: int, p: int|
                    0 <= x < out@.len() && 0 <= p < out@[x].1@.len() && out@[x].0 == l2 && (#[trigger] out@[x].1@[p]).0 == k by {
                let j = choose|j: int| 0 <= j < b.len() && b[j] == l2;
                if j < i {
                    assert(a[j] == l2);
                    let (x, p) = choose|x: int, p: int|
                        0 <= x < prev.len() && 0 <= p < prev[x].1@.len() && prev[x].0 == l2 && (#[trigger] prev[x].1@[p]).0 == k;
                    assert(out@[x] == prev[x]);
                } else {
                    assert(l2 == lid);
                    assert(ids@.contains(k));
                    if first_index(ls, lid) is None {
                        assert(node_at(ls, l2, k) is None);
                    }
                    let last = out@[prev.len() as int];
                    let p = choose|p: int| 0 <= p < last.1@.len() && (#[trigger] last.1@[p]).0 == k;
                    assert(out@[prev.len() as int].1@[p].0 == k);
                }
            }
        }
        i = i + 1;
    }
    proof {
        assert(lids@.take(lids@.len() as int) =~= lids@);
        assert forall|lid: LayerId, k: i64|
            #[trigger] drag_wants(ls, selected@, lid, k) && node_at(ls, lid, k) is Some implies lids@.contains(lid) by {
            let q = choose|q: int| 0 <= q < selected@.len() && (#[trigger] selected@[q]).layer_id == lid && selects_node(ls, selected@[q], k);
            assert(selects_layer(ls, selected@, lid));
        }
    }
    out
}

/// `per_layer` records a drag of `targets` to `new_positions`: per layer,
/// each node with its position before and its new position.
pub open spec fn drag_records(
    targets: Seq<(LayerId, Vec<(i64, Coord, Coord)>)>,
    new_positions: Seq<Vec<(Coord, Coord)>>,
    per_layer: Seq<(LayerId, Vec<(i64, (Coord, Coord), (Coord, Coord))>)>,
) -> bool {
    &&& per_layer.len() == targets.len()
    &&& forall|x: int|
        0 <= x < per_layer.len() ==> (#[trigger] per_layer[x]).0 == targets[x].0 && per_layer[x].1@.len() == targets[x].1@.len()
    &&& forall|x: int, p: int|
        0 <= x < per_layer.len() && 0 <= p < per_layer[x].1@.len() ==> #[trigger] per_layer[x].1@[p] == (
            targets[x].1@[p].0,
            (targets[x].1@[p].1, targets[x].1@[p].2),
            new_positions[x]@[p],
        )
}

/// Commits a finished drag of the nodes `targets` (as `resolve_move_targets`
/// gives them) to `new_positions` (one per node, in the same places): each
/// node is moved on its layer, layer by layer in order. Returns the edit
/// that undoes it.
pub fn commit_drag(
    layers: &mut LayerManager<OsmLayer>,
    targets: &Vec<(LayerId, Vec<(i64, Coord, Coord)>)>,
    new_positions: &Vec<Vec<(Coord, Coord)>>,
) -> (r: UndoableAction)
    requires
        all_wf(old(layers).entries()),
        new_positions@.len() == targets@.len(),
        forall|x: int| 0 <= x < targets@.len() ==> (#[trigger] new_positions@[x])@.len() == targets@[x].1@.len(),
    ensures
        all_wf(final(layers).entries()),
        final(layers).next_id() == old(layers).next_id(),
        r matches UndoableAction::MoveNodes { per_layer } && drag_records(targets@, new_positions@, per_layer@) && moves_replayed(
            old(layers).entries(),
            final(layers).entries(),
            per_layer@,
            true,
        ),
{
    let mut per_layer: Vec<(LayerId, Vec<(i64, (Coord, Coord), (Coord, Coord))>)> = Vec::new();
    let mut x: usize = 0;
    while x < targets.len()
        invariant
            x <= targets@.len(),
            new_positions@.len() == targets@.len(),
            forall|y: int| 0 <= y < targets@.len() ==> (#[trigger] new_positions@[y])@.len() == targets@[y].1@.len(),
            drag_records(targets@.take(x as int), new_positions@, per_layer@),
        decreases targets.len() - x,
    {
        let (lid, nodes) = (&targets[x].0, &targets[x].1);
        let to = &new_positions[x];
        let mut entries: Vec<(i64, (Coord, Coord), (Coord, Coord))> = Vec::new();
        let mut p: usize = 0;
        while p < nodes.len()
            invariant
                p <= nodes@.len(),
                nodes@ == targets@[x as int].1@,
                to@ == new_positions@[x as int]@,
                to@.len() == nodes@.len(),
                entries@.len() == p,
                forall|q: int| 0 <= q < p ==> #[trigger] entries@[q] == (nodes@[q].0, (nodes@[q].1, nodes@[q].2), to@[q]),
            decreases nodes.len() - p,
        {
            let (id, lat, lon) = nodes[p];
            entries.push((id, (lat, lon), to[p]));
            p = p + 1;
        }
        let ghost prev = per_layer@;
        per_layer.push((*lid, entries));
        proof {
            let t = targets@.take(x + 1);
            assert(t[x as int] == targets@[x as int]);
            assert forall|y: int| 0 <= y < per_layer@.len() implies (#[trigger] per_layer@[y]).0 == t[y].0 && per_layer@[y].1@.len()
                == t[y].1@.len() by {
                if y < x {
                    assert(per_layer@[y] == prev[y]);
                    assert(t[y] == targets@.take(x as int)[y]);
                }
            }
            assert forall|y: int, q: int|
                0 <= y < per_layer@.len() && 0 <= q < per_layer@[y].1@.len() implies #[trigger] per_layer@[y].1@[q] == (
                    t[y].1@[q].0,
                    (t[y].1@[q].1, t[y].1@[q].2),
                    new_positions@[y]@[q],
                ) by {
                if y < x {
                    assert(per_layer@[y] == prev[y]);
                    assert(t[y] == targets@.take(x as int)[y]);
                }
            }
        }
        x = x + 1;
    }
    proof {
        assert(targets@.take(targets@.len() as int) =~= targets@);
    }
    commit_move(layers, per_layer)
}

/// Undoing a drag puts every node back: after a drag of nodes taken from
/// the layers `before` with their positions there (as
/// `resolve_move_targets` gives them) took the layers to `moved_to`,
/// undoing it (to `restored`) leaves every layer in its place with its
/// nodes and ways as they were in `before`.
pub proof fn law_undo_of_drag(
    before: Seq<LayerEntry<OsmLayer>>,
    moved_to: Seq<LayerEntry<OsmLayer>>,
    restored: Seq<LayerEntry<OsmLayer>>,
    targets: Seq<(LayerId, Vec<(i64, Coord, Coord)>)>,
    new_positions: Seq<Vec<(Coord, Coord)>>,
    per_layer: Seq<(LayerId, Vec<(i64, (Coord, Coord), (Coord, Coord))>)>,
)
    requires
        forall|x: int, p: int|
            0 <= x < targets.len() && 0 <= p < targets[x].1@.len() ==> node_at(before, targets[x].0, (#[trigger] targets[x].1@[p]).0)
                == Some((targets[x].1@[p].1, targets[x].1@[p].2)),
        drag_records(targets, new_positions, per_layer),
        moves_replayed(before, moved_to, per_layer, true),
        moves_replayed(moved_to, restored, per_layer, false),
    ensures
        same_ids(before, restored),
        forall|j: int|
            0 <= j < before.len() && (#[trigger] before[j]).layer.data() is Some ==> restored[j].layer.data() is Some
                && nodes_view(restored[j].layer.data()->0.nodes@) == nodes_view(before[j].layer.data()->0.nodes@)
                && restored[j].layer.data()->0.ways@ == before[j].layer.data()->0.ways@,
{
    assert forall|i: int, p: int|
        0 <= i < per_layer.len() && 0 <= p < per_layer[i].1@.len() implies recorded_from(before, per_layer[i].0, #[trigger] per_layer[i].1@[p]) by {
        assert(per_layer[i].1@[p] == (targets[i].1@[p].0, (targets[i].1@[p].1, targets[i].1@[p].2), new_positions[i]@[p]));
        assert(node_at(before, targets[i].0, targets[i].1@[p].0) == Some((targets[i].1@[p].1, targets[i].1@[p].2)));
    }
    law_undo_of_move(before, moved_to, restored, per_layer);
}

} // verus!
