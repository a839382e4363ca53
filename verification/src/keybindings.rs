//! The table of user-customizable keyboard shortcuts, and the rules that
//! resolve a shortcut's effective (possibly user-overridden) key spec.

use vstd::prelude::*;

use crate::settings::{table_get, table_lookup, table_view, AppSettings};
use crate::text::{chars_of, str_eq};

verus! {

/// Grouping used to organize the keyboard-shortcut settings page.
#[derive(Clone, Copy, Debug, PartialEq, Eq, Structural)]
pub enum ShortcutCategory {
    General,
    File,
    Edit,
    Modes,
}

/// One customizable shortcut: a stable id (the key of the settings override
/// table), its built-in default key spec, a label, and its category.
#[derive(Clone, Copy, Debug)]
pub struct ShortcutDef {
    pub id: &'static str,
    pub default_spec: &'static str,
    pub label: &'static str,
    pub category: ShortcutCategory,
}

/// Abstract form of a shortcut: (id, default spec, label, category).
pub type ShortcutView = (Seq<char>, Seq<char>, Seq<char>, ShortcutCategory);

impl View for ShortcutDef {
    type V = ShortcutView;

    open spec fn view(&self) -> ShortcutView {
        (self.id@, self.default_spec@, self.label@, self.category)
    }
}

/// The full set of customizable shortcuts, in display order.
pub open spec fn shortcut_table() -> Seq<ShortcutView> {
    seq![
        ("open_settings"@, "cmd-,"@, "Settings…"@, ShortcutCategory::General),
        ("quit"@, "cmd-q"@, "Quit"@, ShortcutCategory::General),
        ("open_osm_file"@, "cmd-o"@, "Open…"@, ShortcutCategory::File),
        ("download_osm"@, "cmd-shift-d"@, "Download from OSM"@, ShortcutCategory::File),
        ("upload_osm"@, "cmd-shift-u"@, "Upload to OSM…"@, ShortcutCategory::File),
        ("undo"@, "cmd-z"@, "Undo"@, ShortcutCategory::Edit),
        ("redo"@, "cmd-shift-z"@, "Redo"@, ShortcutCategory::Edit),
        ("mode_add"@, "a"@, "Switch to Add mode"@, ShortcutCategory::Modes),
        ("mode_building"@, "b"@, "Switch to Building mode"@, ShortcutCategory::Modes),
        ("mode_extrude"@, "x"@, "Switch to Extrude mode"@, ShortcutCategory::Modes),
    ]
}

/// Whether `id` names a shortcut of the table.
pub open spec fn is_shortcut_id(id: Seq<char>) -> bool {
    exists|i: int| 0 <= i < shortcut_table().len() && #[trigger] shortcut_table()[i].0 == id
}

/// Index of the first table entry whose id is `id`.
pub open spec fn first_index_of_id(id: Seq<char>, from: int) -> int
    decreases shortcut_table().len() - from,
{
    if from < 0 || from >= shortcut_table().len() {
        -1
    } else if shortcut_table()[from].0 == id {
        from
    } else {
        first_index_of_id(id, from + 1)
    }
}

/// The definition of a known shortcut id.
pub open spec fn def_of(id: Seq<char>) -> ShortcutView {
    shortcut_table()[first_index_of_id(id, 0)]
}

/// The effective key spec for `id`: the override in `keybindings` if there
/// is one, else the built-in default.
pub open spec fn effective_spec_of(keybindings: Seq<(Seq<char>, Seq<char>)>, id: Seq<char>) -> Seq<
    char,
> {
    match table_get(keybindings, id) {
        Some(s) => s,
        None => def_of(id).1,
    }
}

/// The table of shortcuts, in display order.
pub fn shortcuts() -> (v: Vec<ShortcutDef>)
    ensures
        v@.map_values(|d: ShortcutDef| d@) == shortcut_table(),
{
    let mut v: Vec<ShortcutDef> = Vec::new();
    v.push(ShortcutDef { id: "open_settings", default_spec: "cmd-,", label: "Settings…", category: ShortcutCategory::General });
    v.push(ShortcutDef { id: "quit", default_spec: "cmd-q", label: "Quit", category: ShortcutCategory::General });
    v.push(ShortcutDef { id: "open_osm_file", default_spec: "cmd-o", label: "Open…", category: ShortcutCategory::File });
    v.push(ShortcutDef { id: "download_osm", default_spec: "cmd-shift-d", label: "Download from OSM", category: ShortcutCategory::File });
    v.push(ShortcutDef { id: "upload_osm", default_spec: "cmd-shift-u", label: "Upload to OSM…", category: ShortcutCategory::File });
    v.push(ShortcutDef { id: "undo", default_spec: "cmd-z", label: "Undo", category: ShortcutCategory::Edit });
    v.push(ShortcutDef { id: "redo", default_spec: "cmd-shift-z", label: "Redo", category: ShortcutCategory::Edit });
    v.push(ShortcutDef { id: "mode_add", default_spec: "a", label: "Switch to Add mode", category: ShortcutCategory::Modes });
    v.push(ShortcutDef { id: "mode_building", default_spec: "b", label: "Switch to Building mode", category: ShortcutCategory::Modes });
    v.push(ShortcutDef { id: "mode_extrude", default_spec: "x", label: "Switch to Extrude mode", category: ShortcutCategory::Modes });
    assert(v@.map_values(|d: ShortcutDef| d@) =~= shortcut_table());
    v
}


/// Looks up a shortcut's definition by id.
pub fn def(id: &str) -> (d: ShortcutDef)
    requires
        is_shortcut_id(id@),
    ensures
        d@ == def_of(id@),
{
    let all = shortcuts();
    let ghost tab = shortcut_table();
    let mut i: usize = 0;
    while i < all.len()
        invariant
            all@.map_values(|d: ShortcutDef| d@) == tab,
            tab == shortcut_table(),
            i <= all.len(),
            is_shortcut_id(id@),
            forall|j: int| 0 <= j < i ==> tab[j].0 != id@,
            first_index_of_id(id@, 0) == first_index_of_id(id@, i as int),
        decreases all.len() - i,
    {
        assert(all@[i as int]@ == tab[i as int]);
        if str_eq(all[i].id, id) {
            return all[i];
        }
        i = i + 1;
    }
    proof {
        let k = choose|k: int| 0 <= k < tab.len() && #[trigger] tab[k].0 == id@;
        assert(tab[k].0 == id@);
    }
    all[0]
}

/// The effective key spec for `id`: the user's override if present in
/// `settings.keybindings`, else the built-in default (only known ids have
/// one).
pub fn effective_spec(settings: &AppSettings, id: &str) -> (r: String)
    requires
        table_get(table_view(settings.keybindings@), id@) is Some || is_shortcut_id(id@),
    ensures
        r@ == effective_spec_of(table_view(settings.keybindings@), id@),
{
    match table_lookup(&settings.keybindings, id) {
        Some(s) => s.clone(),
        None => def(id).default_spec.to_owned(),
    }
}

/// Every shortcut's effective `(id, spec)` pair, in table order.
pub fn effective_bindings(settings: &AppSettings) -> (r: Vec<(&'static str, String)>)
    ensures
        r@.len() == shortcut_table().len(),
        forall|i: int|
            0 <= i < r@.len() ==> (#[trigger] r@[i]).0@ == shortcut_table()[i].0 && r@[i].1@
                == effective_spec_of(table_view(settings.keybindings@), shortcut_table()[i].0),
{
    let all = shortcuts();
    let ghost tab = shortcut_table();
    let mut r: Vec<(&'static str, String)> = Vec::new();
    let mut i: usize = 0;
    while i < all.len()
        invariant
            all@.map_values(|d: ShortcutDef| d@) == tab,
            tab == shortcut_table(),
            i <= all.len(),
            r@.len() == i,
            forall|j: int|
                0 <= j < i ==> (#[trigger] r@[j]).0@ == tab[j].0 && r@[j].1@ == effective_spec_of(
                    table_view(settings.keybindings@),
                    tab[j].0,
                ),
        decreases all.len() - i,
    {
        assert(all@[i as int]@ == tab[i as int]);
        assert(is_shortcut_id(tab[i as int].0));
        let d = all[i];
        let spec = effective_spec(settings, d.id);
        r.push((d.id, spec));
        i = i + 1;
    }
    r
}

/// Key names that can never be assigned to a customizable shortcut.
pub open spec fn reserved_keys() -> Seq<Seq<char>> {
    seq!["escape"@, "enter"@, "return"@, "delete"@, "backspace"@]
}

/// The key portion of a key spec: everything after its last `-`.
pub open spec fn key_part(s: Seq<char>) -> Seq<char>
    decreases s.len(),
{
    if s.len() == 0 {
        s
    } else if s.last() == '-' {
        Seq::empty()
    } else {
        key_part(s.drop_last()).push(s.last())
    }
}

/// ASCII lower-casing of a character code.
pub open spec fn lower_code(c: char) -> u32 {
    if 65 <= (c as u32) <= 90 {
        ((c as u32) + 32) as u32
    } else {
        c as u32
    }
}

/// Equality up to ASCII case.
pub open spec fn eq_ignore_ascii_case(a: Seq<char>, b: Seq<char>) -> bool {
    a.len() == b.len() && forall|i: int| 0 <= i < a.len() ==> lower_code(#[trigger] a[i]) == lower_code(b[i])
}

/// Whether a key spec's key portion is reserved.
pub open spec fn is_reserved_spec(s: Seq<char>) -> bool {
    exists|i: int| 0 <= i < reserved_keys().len() && eq_ignore_ascii_case(#[trigger] reserved_keys()[i], key_part(s))
}

fn lower(c: char) -> (r: u32)
    ensures
        r == lower_code(c),
{
    let x = c as u32;
    if 65 <= x && x <= 90 {
        x + 32
    } else {
        x
    }
}

fn chars_eq_ignore_ascii_case(a: &Vec<char>, b: &Vec<char>) -> (r: bool)
    ensures
        r == eq_ignore_ascii_case(a@, b@),
{
    if a.len() != b.len() {
        return false;
    }
    let mut i: usize = 0;
    while i < a.len()
        invariant
            a.len() == b.len(),
            i <= a.len(),
            forall|j: int| 0 <= j < i ==> lower_code(#[trigger] a@[j]) == lower_code(b@[j]),
        decreases a.len() - i,
    {
        if lower(a[i]) != lower(b[i]) {
            return false;
        }
        i = i + 1;
    }
    true
}

/// The characters of `s` after its last `-` (all of `s` if it has none).
fn key_chars(s: &str) -> (k: Vec<char>)
    ensures
        k@ == key_part(s@),
{
    let cs = chars_of(s);
    let ghost q = s@;
    let mut i = cs.len();
    assert(q.take(q.len() as int) =~= q);
    assert(q.subrange(q.len() as int, q.len() as int) =~= Seq::<char>::empty());
    while i > 0 && cs[i - 1] != '-'
        invariant
            cs@ == q,
            i <= cs.len(),
            key_part(q) == key_part(q.take(i as int)) + q.subrange(i as int, q.len() as int),
        decreases i,
    {
        let ghost t = q.take(i as int);
        assert(t.drop_last() =~= q.take(i - 1));
        assert(q.subrange(i - 1, q.len() as int) =~= seq![q[i - 1]] + q.subrange(i as int, q.len() as int));
        assert(key_part(t) == key_part(q.take(i - 1)).push(q[i - 1]));
        assert(key_part(q.take(i - 1)).push(q[i - 1]) + q.subrange(i as int, q.len() as int)
            =~= key_part(q.take(i - 1)) + q.subrange(i - 1, q.len() as int));
        i = i - 1;
    }
    assert(key_part(q.take(i as int)) =~= Seq::<char>::empty()) by {
        if i > 0 {
            assert(q.take(i as int).last() == '-');
        } else {
            assert(q.take(0) =~= Seq::<char>::empty());
        }
    }
    let mut k: Vec<char> = Vec::new();
    let mut j = i;
    while j < cs.len()
        invariant
            cs@ == q,
            i <= j <= cs.len(),
            k@ =~= q.subrange(i as int, j as int),
        decreases cs.len() - j,
    {
        k.push(cs[j]);
        j = j + 1;
    }
    assert(key_part(q) =~= q.subrange(i as int, q.len() as int));
    k
}

/// True if `spec`'s key portion (ignoring any modifier prefix) is reserved
/// and so can't be assigned to a customizable shortcut.
pub fn is_reserved(spec: &str) -> (r: bool)
    ensures
        r == is_reserved_spec(spec@),
{
    let key = key_chars(spec);
    let mut reserved: Vec<&'static str> = Vec::new();
    reserved.push("escape");
    reserved.push("enter");
    reserved.push("return");
    reserved.push("delete");
    reserved.push("backspace");
    assert(reserved@.map_values(|s: &str| s@) =~= reserved_keys());
    let mut i: usize = 0;
    while i < reserved.len()
        invariant
            reserved@.map_values(|s: &str| s@) == reserved_keys(),
            key@ == key_part(spec@),
            i <= reserved.len(),
            forall|j: int| 0 <= j < i ==> !eq_ignore_ascii_case(#[trigger] reserved_keys()[j], key_part(spec@)),
        decreases reserved.len() - i,
    {
        let r = chars_of(reserved[i]);
        assert(r@ == reserved_keys()[i as int]);
        if chars_eq_ignore_ascii_case(&r, &key) {
            return true;
        }
        i = i + 1;
    }
    false
}

/// True if `spec` has no modifier prefix (e.g. `"a"`, not `"cmd-a"`).
pub fn is_bare_key(spec: &str) -> (r: bool)
    ensures
        r == !spec@.contains('-'),
{
    let cs = chars_of(spec);
    let mut i: usize = 0;
    while i < cs.len()
        invariant
            cs@ == spec@,
            i <= cs.len(),
            forall|j: int| 0 <= j < i ==> cs@[j] != '-',
        decreases cs.len() - i,
    {
        if cs[i] == '-' {
            assert(spec@[i as int] == '-');
            return false;
        }
        i = i + 1;
    }
    true
}

/// Index of the first shortcut (from `from` on) other than `id` whose
/// effective spec is `spec`, or -1 if there is none.
pub open spec fn conflict_index(
    keybindings: Seq<(Seq<char>, Seq<char>)>,
    id: Seq<char>,
    spec: Seq<char>,
    from: int,
) -> int
    decreases shortcut_table().len() - from,
{
    if from < 0 || from >= shortcut_table().len() {
        -1
    } else if shortcut_table()[from].0 != id && effective_spec_of(keybindings, shortcut_table()[from].0)
        == spec {
        from
    } else {
        conflict_index(keybindings, id, spec, from + 1)
    }
}

/// If `spec` is already the effective binding of a shortcut other than
/// `id`, the label of (the first such) shortcut.
pub fn conflict(settings: &AppSettings, id: &str, candidate: &str) -> (r: Option<&'static str>)
    ensures
        r is Some <==> conflict_index(table_view(settings.keybindings@), id@, candidate@, 0) >= 0,
        r is Some ==> r->0@ == def_of(
            shortcut_table()[conflict_index(table_view(settings.keybindings@), id@, candidate@, 0)].0,
        ).2,
{
    let bindings = effective_bindings(settings);
    let ghost kb = table_view(settings.keybindings@);
    let ghost tab = shortcut_table();
    let mut i: usize = 0;
    while i < bindings.len()
        invariant
            bindings@.len() == tab.len(),
            tab == shortcut_table(),
            kb == table_view(settings.keybindings@),
            forall|j: int|
                0 <= j < bindings@.len() ==> (#[trigger] bindings@[j]).0@ == tab[j].0
                    && bindings@[j].1@ == effective_spec_of(kb, tab[j].0),
            i <= bindings.len(),
            conflict_index(kb, id@, candidate@, 0) == conflict_index(kb, id@, candidate@, i as int),
        decreases bindings.len() - i,
    {
        let other_id = bindings[i].0;
        if !str_eq(other_id, id) && str_eq(bindings[i].1.as_str(), candidate) {
            assert(is_shortcut_id(tab[i as int].0));
            assert(bindings@[i as int].0@ == tab[i as int].0);
            assert(conflict_index(kb, id@, candidate@, i as int) == i as int);
            let d = def(other_id);
            assert(d.label@ == def_of(tab[i as int].0).2);
            assert(conflict_index(kb, id@, candidate@, 0) == i as int);
            return Some(d.label);
        }
        i = i + 1;
    }
    None
}

/// A conflict is always another shortcut that currently has the candidate
/// spec, and no conflict means no other shortcut (from `from` on) has it.
pub proof fn law_conflict_is_another_shortcut(
    keybindings: Seq<(Seq<char>, Seq<char>)>,
    id: Seq<char>,
    spec: Seq<char>,
    from: int,
)
    requires
        0 <= from,
    ensures
        ({
            let k = conflict_index(keybindings, id, spec, from);
            &&& k >= 0 ==> from <= k < shortcut_table().len() && shortcut_table()[k].0 != id
                && effective_spec_of(keybindings, shortcut_table()[k].0) == spec
            &&& k < 0 ==> forall|j: int|
                from <= j < shortcut_table().len() && #[trigger] shortcut_table()[j].0 != id
                    ==> effective_spec_of(keybindings, shortcut_table()[j].0) != spec
        }),
    decreases shortcut_table().len() - from,
{
    if from < shortcut_table().len() {
        law_conflict_is_another_shortcut(keybindings, id, spec, from + 1);
    }
}

} // verus!
