//! User-defined custom imagery layers: the entries and the operations on
//! the in-memory list that is kept in step with the on-disk copy.

use vstd::prelude::*;

verus! {

/// A custom tile source added by the user.
#[derive(Debug, Clone)]
pub struct CustomImageryEntry {
    pub name: String,
    pub url_template: String,
    pub min_zoom: u32,
    pub max_zoom: u32,
}

impl View for CustomImageryEntry {
    type V = (Seq<char>, Seq<char>, u32, u32);

    open spec fn view(&self) -> (Seq<char>, Seq<char>, u32, u32) {
        (self.name@, self.url_template@, self.min_zoom, self.max_zoom)
    }
}

/// The views of a list of entries.
pub open spec fn entries_view(v: Seq<CustomImageryEntry>) -> Seq<(Seq<char>, Seq<char>, u32, u32)> {
    v.map_values(|e: CustomImageryEntry| e@)
}

/// A copy of an entry.
pub fn copy_entry(e: &CustomImageryEntry) -> (r: CustomImageryEntry)
    ensures
        r@ == e@,
{
    CustomImageryEntry {
        name: e.name.clone(),
        url_template: e.url_template.clone(),
        min_zoom: e.min_zoom,
        max_zoom: e.max_zoom,
    }
}

/// A copy of the current entries.
pub fn snapshot(store: &Vec<CustomImageryEntry>) -> (r: Vec<CustomImageryEntry>)
    ensures
        entries_view(r@) == entries_view(store@),
{
    let mut out: Vec<CustomImageryEntry> = Vec::new();
    let mut i: usize = 0;
    while i < store.len()
        invariant
            i <= store@.len(),
            entries_view(out@) == entries_view(store@.take(i as int)),
        decreases store.len() - i,
    {
        let ghost before = entries_view(out@);
        out.push(copy_entry(&store[i]));
        assert(entries_view(out@) =~= before.push(store@[i as int]@));
        assert(entries_view(store@.take(i + 1)) =~= entries_view(store@.take(i as int)).push(store@[i as int]@));
        i = i + 1;
    }
    assert(store@.take(store@.len() as int) =~= store@);
    out
}

/// Replaces the entries with `entries`.
pub fn update_store(store: &mut Vec<CustomImageryEntry>, entries: Vec<CustomImageryEntry>)
    ensures
        final(store)@ == entries@,
{
    *store = entries;
}

/// Adds `entry` after the existing entries.
pub fn append(store: &mut Vec<CustomImageryEntry>, entry: CustomImageryEntry)
    ensures
        final(store)@ == old(store)@.push(entry),
{
    store.push(entry);
}

} // verus!
