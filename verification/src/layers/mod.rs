//! The ordered list of map layers: stable layer ids, draw order, lookup by
//! id or name, and unique display names; and the tile zoom a layer with a
//! zoom range draws at.
//!
//! A layer is held together with the id and display name it was added
//! under; what a layer draws is up to its payload.

use vstd::prelude::*;

pub mod diff;
pub mod osm_layer;

use crate::layers::osm_layer::OsmLayer;
use crate::settings::table_view;
use crate::text::{append_str, decimal, push_decimal, str_eq};

verus! {

/// Stable identity of a layer, independent of its display name.
#[derive(Debug, Clone, Copy, PartialEq, Eq, Hash, Structural)]
pub struct LayerId(pub u64);

/// A layer with the id and display name it was added under.
pub struct LayerEntry<L> {
    pub id: LayerId,
    pub name: String,
    pub layer: L,
}

impl LayerManager<OsmLayer> {
    /// Each layer's name with its statistics, in draw order.
    pub fn get_all_stats(&self) -> (r: Vec<(String, Vec<(String, String)>)>)
        ensures
            r@.len() == self.entries().len(),
            forall|i: int| 0 <= i < r@.len() ==> (#[trigger] r@[i]).0@ == self.entries()[i].name@
                && table_view(r@[i].1@) == self.entries()[i].layer.stats_view(),
    {
        let mut out: Vec<(String, Vec<(String, String)>)> = Vec::new();
        let mut i: usize = 0;
        while i < self.layers.len()
            invariant
                i <= self.layers@.len(),
                out@.len() == i,
                forall|j: int| 0 <= j < i ==> (#[trigger] out@[j]).0@ == self.layers@[j].name@
                    && table_view(out@[j].1@) == self.layers@[j].layer.stats_view(),
            decreases self.layers.len() - i,
        {
            let entry = &self.layers[i];
            out.push((entry.name.clone(), entry.layer.stats()));
            i = i + 1;
        }
        out
    }
}

/// The layers in draw order, and the next id to hand out.
pub struct LayerManager<L> {
    layers: Vec<LayerEntry<L>>,
    next_id: u64,
}

impl<L> LayerManager<L> {
    /// The layers, in draw order.
    pub closed spec fn entries(&self) -> Seq<LayerEntry<L>> {
        self.layers@
    }

    /// The next id `alloc_id` hands out.
    pub closed spec fn next_id(&self) -> u64 {
        self.next_id
    }

    /// An empty manager; ids start at 1.
    pub fn new() -> (m: Self)
        ensures
            m.entries().len() == 0,
            m.next_id() == 1,
    {
        LayerManager { layers: Vec::new(), next_id: 1 }
    }

    /// A fresh id: each call hands out the next one, so no id is handed out
    /// twice.
    pub fn alloc_id(&mut self) -> (id: LayerId)
        requires
            old(self).next_id() < u64::MAX,
        ensures
            id.0 == old(self).next_id(),
            final(self).next_id() == old(self).next_id() + 1,
            final(self).entries() == old(self).entries(),
    {
        let id = LayerId(self.next_id);
        self.next_id = self.next_id + 1;
        id
    }

    /// Adds a layer on top of the others.
    pub fn add_layer(&mut self, id: LayerId, name: String, layer: L)
        ensures
            final(self).entries() == old(self).entries().push(LayerEntry { id, name, layer }),
            final(self).next_id() == old(self).next_id(),
    {
        self.layers.push(LayerEntry { id, name, layer });
    }

    /// Removes and returns the layer at `index`, or `None` when `index` is
    /// out of bounds.
    pub fn remove_at(&mut self, index: usize) -> (r: Option<LayerEntry<L>>)
        ensures
            final(self).next_id() == old(self).next_id(),
            index < old(self).entries().len() ==> r == Some(old(self).entries()[index as int])
                && final(self).entries() == old(self).entries().remove(index as int),
            index >= old(self).entries().len() ==> r is None && final(self).entries() == old(self).entries(),
    {
        if index >= self.layers.len() {
            return None;
        }
        Some(self.layers.remove(index))
    }

    /// Moves the layer at `from` to position `to`; nothing happens when
    /// either index is out of bounds or they are equal.
    pub fn move_layer(&mut self, from: usize, to: usize)
        ensures
            final(self).next_id() == old(self).next_id(),
            ({
                let e = old(self).entries();
                if from >= e.len() || to >= e.len() || from == to {
                    final(self).entries() == e
                } else {
                    final(self).entries() == e.remove(from as int).insert(to as int, e[from as int])
                }
            }),
    {
        let len = self.layers.len();
        if from >= len || to >= len || from == to {
            return;
        }
        let layer = self.layers.remove(from);
        self.layers.insert(to, layer);
    }

    /// The layers, in draw order.
    pub fn layers(&self) -> (r: &[LayerEntry<L>])
        ensures
            r@ == self.entries(),
    {
        self.layers.as_slice()
    }

    /// The first layer with id `id`, if any.
    pub fn find_layer(&self, id: LayerId) -> (r: Option<&LayerEntry<L>>)
        ensures
            match r {
                Some(e) => exists|i: int|
                    0 <= i < self.entries().len() && self.entries()[i] == *e && e.id == id
                        && forall|j: int| 0 <= j < i ==> (#[trigger] self.entries()[j]).id != id,
                None => forall|j: int| 0 <= j < self.entries().len() ==> (#[trigger] self.entries()[j]).id != id,
            },
    {
        let mut i: usize = 0;
        while i < self.layers.len()
            invariant
                i <= self.layers@.len(),
                forall|j: int| 0 <= j < i ==> (#[trigger] self.layers@[j]).id != id,
            decreases self.layers.len() - i,
        {
            if self.layers[i].id == id {
                assert(self.entries()[i as int] == self.layers@[i as int]);
                return Some(&self.layers[i]);
            }
            i = i + 1;
        }
        None
    }

    /// The position of the first layer with id `id`, if any.
    pub fn position_of(&self, id: LayerId) -> (r: Option<usize>)
        ensures
            match r {
                Some(i) => i < self.entries().len() && self.entries()[i as int].id == id
                    && forall|j: int| 0 <= j < i ==> (#[trigger] self.entries()[j]).id != id,
                None => forall|j: int| 0 <= j < self.entries().len() ==> (#[trigger] self.entries()[j]).id != id,
            },
    {
        let mut i: usize = 0;
        while i < self.layers.len()
            invariant
                i <= self.layers@.len(),
                forall|j: int| 0 <= j < i ==> (#[trigger] self.layers@[j]).id != id,
            decreases self.layers.len() - i,
        {
            if self.layers[i].id == id {
                return Some(i);
            }
            i = i + 1;
        }
        None
    }

    /// The payload of the first layer with id `id`, for changing it.
    pub fn find_layer_mut(&mut self, id: LayerId) -> (r: Option<&mut L>)
        ensures
            final(self).next_id() == old(self).next_id(),
            final(self).entries().len() == old(self).entries().len(),
            match r {
                Some(l) => exists|i: int|
                    0 <= i < old(self).entries().len() && old(self).entries()[i].id == id
                        && *l == old(self).entries()[i].layer
                        && (forall|j: int| 0 <= j < i ==> (#[trigger] old(self).entries()[j]).id != id)
                        && final(self).entries() == old(self).entries().update(
                        i,
                        LayerEntry { layer: *final(l), ..old(self).entries()[i] },
                    ),
                None => (forall|j: int| 0 <= j < old(self).entries().len() ==> (#[trigger] old(self).entries()[j]).id != id)
                    && final(self).entries() == old(self).entries(),
            },
    {
        match self.position_of(id) {
            Some(i) => Some(&mut self.layers[i].layer),
            None => None,
        }
    }

    /// Whether some layer is named `name`.
    pub fn has_name(&self, name: &str) -> (r: bool)
        ensures
            r == exists|i: int| 0 <= i < self.entries().len() && (#[trigger] self.entries()[i]).name@ == name@,
    {
        let mut i: usize = 0;
        while i < self.layers.len()
            invariant
                i <= self.layers@.len(),
                forall|j: int| 0 <= j < i ==> (#[trigger] self.layers@[j]).name@ != name@,
            decreases self.layers.len() - i,
        {
            if str_eq(self.layers[i].name.as_str(), name) {
                assert(self.entries()[i as int].name@ == name@);
                return true;
            }
            i = i + 1;
        }
        false
    }

    /// The first layer with display name `name`, if any.
    pub fn layer_named(&self, name: &str) -> (r: Option<&LayerEntry<L>>)
        ensures
            match r {
                Some(e) => exists|i: int|
                    0 <= i < self.entries().len() && self.entries()[i] == *e && e.name@ == name@
                        && forall|j: int| 0 <= j < i ==> (#[trigger] self.entries()[j]).name@ != name@,
                None => forall|j: int| 0 <= j < self.entries().len() ==> (#[trigger] self.entries()[j]).name@ != name@,
            },
    {
        let mut i: usize = 0;
        while i < self.layers.len()
            invariant
                i <= self.layers@.len(),
                forall|j: int| 0 <= j < i ==> (#[trigger] self.layers@[j]).name@ != name@,
            decreases self.layers.len() - i,
        {
            if str_eq(self.layers[i].name.as_str(), name) {
                assert(self.entries()[i as int] == self.layers@[i as int]);
                return Some(&self.layers[i]);
            }
            i = i + 1;
        }
        None
    }

    /// `r` is the display name `unique_name` picks for `base`: one no
    /// layer has, `base` itself or else the first untaken
    /// `"{base} (k)"` from 2 on.
    pub open spec fn fresh_name_for(&self, base: Seq<char>, r: Seq<char>) -> bool {
        &&& !self.name_taken(r)
        &&& r == base || exists|k: nat| 2 <= k && r == numbered(base, k) && self.name_taken(base)
            && forall|m: nat| 2 <= m < k ==> #[trigger] self.name_taken(numbered(base, m))
    }

    /// A display name based on `base` that no layer has: `base` itself if
    /// unused, otherwise `"{base} (2)"`, `"{base} (3)"`, ... — the first
    /// untaken one.
    pub fn unique_name(&self, base: &str) -> (r: String)
        requires
            self.entries().len() < u64::MAX,
        ensures
            self.fresh_name_for(base@, r@),
    {
        if !self.has_name(base) {
            return base.to_owned();
        }
        let n = self.layers.len() as u64;
        let mut i: u64 = 2;
        loop
            invariant
                2 <= i <= n + 1,
                n == self.entries().len(),
                n < u64::MAX,
                self.name_taken(base@),
                forall|m: nat| 2 <= m < i ==> #[trigger] self.name_taken(numbered(base@, m)),
            decreases n + 1 - i,
        {
            let candidate = numbered_name(base, i);
            if !self.has_name(candidate.as_str()) {
                return candidate;
            }
            if i - 1 == n {
                proof {
                    self.lemma_too_many_names(base@, i as nat);
                    let m = choose|m: nat| 2 <= m <= i && !#[trigger] self.name_taken(numbered(base@, m));
                    assert(self.name_taken(numbered(base@, m)));
                }
            }
            i = i + 1;
        }
    }

    /// Whether some layer has the display name `name`.
    pub closed spec fn name_taken(&self, name: Seq<char>) -> bool {
        exists|i: int| 0 <= i < self.entries().len() && (#[trigger] self.entries()[i]).name@ == name
    }

    /// `n` layers cannot take all of `n + 1` distinct names: with `base`
    /// taken, some numbered name up to `"{base} ({n + 1})"` is free.
    proof fn lemma_too_many_names(&self, base: Seq<char>, k: nat)
        requires
            k == self.entries().len() + 1,
            self.name_taken(base),
        ensures
            exists|m: nat| 2 <= m <= k && !#[trigger] self.name_taken(numbered(base, m)),
    {
        if forall|m: nat| 2 <= m <= k ==> #[trigger] self.name_taken(numbered(base, m)) {
            self.lemma_all_taken_impossible(base, k);
        }
    }

    proof fn lemma_all_taken_impossible(&self, base: Seq<char>, k: nat)
        requires
            k == self.entries().len() + 1,
            self.name_taken(base),
            forall|m: nat| 2 <= m <= k ==> #[trigger] self.name_taken(numbered(base, m)),
        ensures
            k == 0,
    {
        let names = Set::new(|s: Seq<char>| self.name_taken(s));
        let name_seq = self.entries().map_values(|e: LayerEntry<L>| e.name@);
        let used = name_seq.to_set();
        assert(names =~= used) by {
            assert forall|s: Seq<char>| names.contains(s) implies used.contains(s) by {
                let i = choose|i: int| 0 <= i < self.entries().len() && (#[trigger] self.entries()[i]).name@ == s;
                assert(name_seq[i] == s);
            }
            assert forall|s: Seq<char>| used.contains(s) implies names.contains(s) by {
                let i = choose|i: int| 0 <= i < name_seq.len() && #[trigger] name_seq[i] == s;
                assert(self.entries()[i].name@ == s);
            }
        }
        name_seq.lemma_cardinality_of_set();
        let cands = Set::new(|s: Seq<char>| s == base || exists|m: nat| 2 <= m <= k && s == numbered(base, m));
        assert(cands.subset_of(names)) by {
            assert forall|s: Seq<char>| cands.contains(s) implies names.contains(s) by {
                if s != base {
                    let m = choose|m: nat| 2 <= m <= k && s == numbered(base, m);
                    assert(self.name_taken(numbered(base, m)));
                }
            }
        }
        lemma_candidates_len(base, k);
        vstd::set_lib::lemma_len_subset(cands, names);
        assert(names.len() <= self.entries().len());
    }
}

/// `"{base} ({k})"`.
pub open spec fn numbered(base: Seq<char>, k: nat) -> Seq<char> {
    base + " ("@ + decimal(k) + ")"@
}

/// Decimal renderings of different numbers differ.
proof fn lemma_decimal_injective(a: nat, b: nat)
    requires
        decimal(a) == decimal(b),
    ensures
        a == b,
    decreases a,
{
    let da = decimal(a);
    let db = decimal(b);
    if a >= 10 && b >= 10 {
        assert(da == decimal(a / 10).push(crate::text::digit_char(a % 10)));
        assert(db == decimal(b / 10).push(crate::text::digit_char(b % 10)));
        assert(da.drop_last() =~= decimal(a / 10));
        assert(db.drop_last() =~= decimal(b / 10));
        assert(da.last() == crate::text::digit_char(a % 10));
        assert(db.last() == crate::text::digit_char(b % 10));
        lemma_decimal_injective(a / 10, b / 10);
        lemma_digit_injective(a % 10, b % 10);
    } else if a < 10 && b < 10 {
        assert(da[0] == crate::text::digit_char(a));
        assert(db[0] == crate::text::digit_char(b));
        lemma_digit_injective(a, b);
    } else if a < 10 {
        lemma_decimal_len(b / 10);
        assert(db.len() == decimal(b / 10).len() + 1);
        assert(da.len() == 1);
    } else {
        lemma_decimal_len(a / 10);
        assert(da.len() == decimal(a / 10).len() + 1);
        assert(db.len() == 1);
    }
}

/// A decimal rendering is never empty.
proof fn lemma_decimal_len(n: nat)
    ensures
        decimal(n).len() >= 1,
    decreases n,
{
    if n >= 10 {
        lemma_decimal_len(n / 10);
    }
}

proof fn lemma_digit_injective(a: nat, b: nat)
    requires
        a < 10,
        b < 10,
        crate::text::digit_char(a) == crate::text::digit_char(b),
    ensures
        a == b,
{
}

/// `base` and the names `"{base} (2)"` .. `"{base} ({k})"` are `k` distinct
/// names.
proof fn lemma_candidates_len(base: Seq<char>, k: nat)
    requires
        k >= 1,
    ensures
        Set::new(|s: Seq<char>| s == base || exists|m: nat| 2 <= m <= k && s == numbered(base, m)).finite(),
        Set::new(|s: Seq<char>| s == base || exists|m: nat| 2 <= m <= k && s == numbered(base, m)).len() == k,
    decreases k,
{
    let cur = Set::new(|s: Seq<char>| s == base || exists|m: nat| 2 <= m <= k && s == numbered(base, m));
    if k == 1 {
        assert(cur =~= set![base]) by {
            assert forall|s: Seq<char>| cur.contains(s) implies s == base by {
                if s != base {
                    let m = choose|m: nat| 2 <= m <= k && s == numbered(base, m);
                }
            }
        }
    } else {
        let prev = Set::new(|s: Seq<char>| s == base || exists|m: nat| 2 <= m <= (k - 1) as nat && s == numbered(base, m));
        lemma_candidates_len(base, (k - 1) as nat);
        assert(cur =~= prev.insert(numbered(base, k))) by {
            assert forall|s: Seq<char>| cur.contains(s) implies prev.insert(numbered(base, k)).contains(s) by {
                if s != base && s != numbered(base, k) {
                    let m = choose|m: nat| 2 <= m <= k && s == numbered(base, m);
                    assert(m != k);
                }
            }
            assert forall|s: Seq<char>| prev.insert(numbered(base, k)).contains(s) implies cur.contains(s) by {
                if s != base && s != numbered(base, k) {
                    let m = choose|m: nat| 2 <= m <= (k - 1) as nat && s == numbered(base, m);
                }
            }
        }
        assert(!prev.contains(numbered(base, k))) by {
            reveal_strlit(" (");
            reveal_strlit(")");
            lemma_decimal_len(k);
            if prev.contains(numbered(base, k)) {
                if numbered(base, k) == base {
                    assert(numbered(base, k).len() > base.len());
                } else {
                    let m = choose|m: nat| 2 <= m <= (k - 1) as nat && numbered(base, k) == numbered(base, m);
                    lemma_numbered_injective(base, m, k);
                }
            }
        }
    }
}

/// Different numbers give different numbered names.
proof fn lemma_numbered_injective(base: Seq<char>, a: nat, b: nat)
    requires
        numbered(base, a) == numbered(base, b),
    ensures
        a == b,
{
    reveal_strlit(" (");
    reveal_strlit(")");
    let na = numbered(base, a);
    let da = decimal(a);
    let db = decimal(b);
    assert(na.len() == base.len() + 2 + da.len() + 1);
    assert(numbered(base, b).len() == base.len() + 2 + db.len() + 1);
    assert(da.len() == db.len());
    assert(da =~= na.subrange(base.len() + 2int, base.len() + 2 + da.len() as int));
    assert(db =~= numbered(base, b).subrange(base.len() + 2int, base.len() + 2 + db.len() as int));
    lemma_decimal_injective(a, b);
}

/// `"{base} ({k})"`.
fn numbered_name(base: &str, k: u64) -> (r: String)
    ensures
        r@ == numbered(base@, k as nat),
{
    let mut s = String::new();
    append_str(&mut s, base);
    append_str(&mut s, " (");
    push_decimal(&mut s, k);
    append_str(&mut s, ")");
    s
}

/// A tile level capped at the global limit of 18.
pub open spec fn capped_level(z: u32) -> u32 {
    if z > 18 {
        18
    } else {
        z
    }
}

/// The tile zoom a layer with an optional zoom range draws at, for the
/// rounded viewport zoom: nothing below the minimum or more than one level
/// above the maximum; one level above the maximum draws the maximum level
/// (scaled up); otherwise the viewport's own level. The level drawn is
/// capped at the global limit of 18.
pub open spec fn zoom_for_level(rounded: u32, min_zoom: Option<u32>, max_zoom: Option<u32>) -> Option<u32> {
    if min_zoom matches Some(min_z) && rounded < min_z {
        None
    } else {
        match max_zoom {
            Some(max_z) => if rounded > max_z + 1 {
                None
            } else if rounded > max_z {
                Some(capped_level(max_z))
            } else {
                Some(capped_level(rounded))
            },
            None => Some(capped_level(rounded)),
        }
    }
}

/// The tile zoom to draw at, from the rounded viewport zoom and the
/// layer's zoom range.
pub fn effective_tile_zoom(rounded: u32, min_zoom: Option<u32>, max_zoom: Option<u32>) -> (r: Option<u32>)
    requires
        max_zoom != Some(u32::MAX),
    ensures
        r == zoom_for_level(rounded, min_zoom, max_zoom),
{
    if let Some(min_z) = min_zoom {
        if rounded < min_z {
            return None;
        }
    }
    let level = if let Some(max_z) = max_zoom {
        if rounded > max_z + 1 {
            return None;
        }
        if rounded > max_z {
            max_z
        } else {
            rounded
        }
    } else {
        rounded
    };
    if level > 18 {
        Some(18)
    } else {
        Some(level)
    }
}

} // verus!
