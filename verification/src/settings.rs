//! User settings that the library's logic reads.

use vstd::prelude::*;

verus! {

/// A string-keyed table as the abstract sequence of its (key, value) views.
pub open spec fn table_view(t: Seq<(String, String)>) -> Seq<(Seq<char>, Seq<char>)> {
    t.map_values(|e: (String, String)| (e.0@, e.1@))
}

/// The value stored under `key`; as when such entries are collected into a
/// map, a later entry for the same key replaces an earlier one.
pub open spec fn table_get(t: Seq<(Seq<char>, Seq<char>)>, key: Seq<char>) -> Option<Seq<char>>
    decreases t.len(),
{
    if t.len() == 0 {
        None
    } else if t.last().0 == key {
        Some(t.last().1)
    } else {
        table_get(t.drop_last(), key)
    }
}

/// Looks `key` up in a string-keyed table (the last entry for a key wins).
pub fn table_lookup<'a>(t: &'a Vec<(String, String)>, key: &str) -> (r: Option<&'a String>)
    ensures
        match r {
            Some(v) => table_get(table_view(t@), key@) == Some(v@),
            None => table_get(table_view(t@), key@) is None,
        },
{
    let ghost tv = table_view(t@);
    let mut i = t.len();
    assert(tv.take(t.len() as int) =~= tv);
    while i > 0
        invariant
            i <= t.len(),
            tv == table_view(t@),
            table_get(tv, key@) == table_get(tv.take(i as int), key@),
        decreases i,
    {
        let k = &t[i - 1].0;
        assert(tv.take(i as int).drop_last() =~= tv.take(i - 1));
        if crate::text::str_eq(k.as_str(), key) {
            return Some(&t[i - 1].1);
        }
        i = i - 1;
    }
    assert(tv.take(0) =~= Seq::<(Seq<char>, Seq<char>)>::empty());
    None
}

/// Application settings: user keyboard-shortcut overrides (shortcut id to
/// key spec) and per-server OAuth client-id overrides (OAuth base URL to
/// client id).
pub struct AppSettings {
    pub keybindings: Vec<(String, String)>,
    pub client_ids: Vec<(String, String)>,
}

impl Default for AppSettings {
    fn default() -> (s: Self)
        ensures
            s.keybindings@.len() == 0,
            s.client_ids@.len() == 0,
    {
        AppSettings { keybindings: Vec::new(), client_ids: Vec::new() }
    }
}

} // verus!
