//! Tagging-schema field definitions (text, combo, check, radio and
//! multi-combo widgets) for presets: the field index read from a JSON array
//! of field objects, and the resolution of a preset's field-id lists.

use vstd::prelude::*;

use serde_json::Value;

use crate::json::{
    array_len, get_index, get_key, is_null, json_tree, member, member_str, node_at, parse_json,
    str_at, subtree, json_document, JsonNode, JsonStep, JsonTree,
};
use crate::text::{append_str, chars_of, split_on, str_eq, string_from_chars, trim, trim_ws};

verus! {

/// The kind of input widget a field is edited with.
#[derive(Debug, Clone, Copy, PartialEq, Eq, Hash, Structural)]
pub enum FieldType {
    Text,
    Combo,
    Check,
    Radio,
    MultiCombo,
}

/// One choice of a combo or radio field.
#[derive(Debug, Clone)]
pub struct FieldOption {
    pub value: String,
    pub label: String,
}

/// A field definition: which tag it edits and how.
#[derive(Debug, Clone)]
pub struct Field {
    pub id: String,
    pub key: String,
    pub field_type: FieldType,
    pub label: String,
    pub placeholder: Option<String>,
    pub options: Vec<FieldOption>,
}

/// Abstract form of a `Field`.
pub struct FieldView {
    pub id: Seq<char>,
    pub key: Seq<char>,
    pub field_type: FieldType,
    pub label: Seq<char>,
    pub placeholder: Option<Seq<char>>,
    /// (value, label) of each option, in order.
    pub options: Seq<(Seq<char>, Seq<char>)>,
}

/// The (value, label) views of a list of options.
pub open spec fn options_view(o: Seq<FieldOption>) -> Seq<(Seq<char>, Seq<char>)> {
    o.map_values(|x: FieldOption| (x.value@, x.label@))
}

impl View for Field {
    type V = FieldView;

    open spec fn view(&self) -> FieldView {
        FieldView {
            id: self.id@,
            key: self.key@,
            field_type: self.field_type,
            label: self.label@,
            placeholder: match self.placeholder {
                Some(p) => Some(p@),
                None => None,
            },
            options: options_view(self.options@),
        }
    }
}

/// The field type a schema name stands for (`text`, `combo`, `check`,
/// `radio`, `multiCombo`).
pub open spec fn type_named(s: Seq<char>) -> Option<FieldType> {
    if s == "text"@ {
        Some(FieldType::Text)
    } else if s == "combo"@ {
        Some(FieldType::Combo)
    } else if s == "check"@ {
        Some(FieldType::Check)
    } else if s == "radio"@ {
        Some(FieldType::Radio)
    } else if s == "multiCombo"@ {
        Some(FieldType::MultiCombo)
    } else {
        None
    }
}

/// The option an object describes: its `value` and `label` strings.
pub open spec fn option_at(t: JsonTree) -> Option<(Seq<char>, Seq<char>)> {
    if node_at(t, Seq::empty()) == Some(JsonNode::Object) {
        match (str_at(t, member("value"@)), str_at(t, member("label"@))) {
            (Some(v), Some(l)) => Some((v, l)),
            _ => None,
        }
    } else {
        None
    }
}

/// The options described by the first `n` elements of the array `a`, or
/// `None` if one of them is not an option.
pub open spec fn options_prefix(a: JsonTree, n: nat) -> Option<Seq<(Seq<char>, Seq<char>)>>
    decreases n,
{
    if n == 0 {
        Some(Seq::empty())
    } else {
        match (options_prefix(a, (n - 1) as nat), option_at(subtree(a, JsonStep::Index((n - 1) as nat)))) {
            (Some(p), Some(o)) => Some(p.push(o)),
            _ => None,
        }
    }
}

/// A field object's `options`: none when absent, else an array of options.
pub open spec fn options_at(t: JsonTree) -> Option<Seq<(Seq<char>, Seq<char>)>> {
    match node_at(t, member("options"@)) {
        None => Some(Seq::empty()),
        Some(JsonNode::Array(n)) => options_prefix(subtree(t, JsonStep::Key("options"@)), n),
        _ => None,
    }
}

/// A field object's `placeholder`: none when absent or `null`, else a
/// string.
pub open spec fn placeholder_at(t: JsonTree) -> Option<Option<Seq<char>>> {
    match node_at(t, member("placeholder"@)) {
        None => Some(None),
        Some(JsonNode::Null) => Some(None),
        Some(JsonNode::Str(s)) => Some(Some(s)),
        _ => None,
    }
}

/// The field an object describes: required strings `id`, `key`,
/// `field_type` (a type name) and `label`; optional `placeholder` and
/// `options`; other members are ignored.
pub open spec fn field_at(t: JsonTree) -> Option<FieldView> {
    if node_at(t, Seq::empty()) != Some(JsonNode::Object) {
        None
    } else {
        match (
            str_at(t, member("id"@)),
            str_at(t, member("key"@)),
            str_at(t, member("field_type"@)),
            str_at(t, member("label"@)),
        ) {
            (Some(id), Some(key), Some(ft), Some(label)) => match (
                type_named(ft),
                placeholder_at(t),
                options_at(t),
            ) {
                (Some(field_type), Some(placeholder), Some(options)) => Some(
                    FieldView { id, key, field_type, label, placeholder, options },
                ),
                _ => None,
            },
            _ => None,
        }
    }
}

/// The fields described by the first `n` elements of the root array.
pub open spec fn fields_prefix(doc: JsonTree, n: nat) -> Option<Seq<FieldView>>
    decreases n,
{
    if n == 0 {
        Some(Seq::empty())
    } else {
        match (fields_prefix(doc, (n - 1) as nat), field_at(subtree(doc, JsonStep::Index((n - 1) as nat)))) {
            (Some(p), Some(f)) => Some(p.push(f)),
            _ => None,
        }
    }
}

/// The fields a document lists: it must be an array of field objects.
pub open spec fn fields_in(doc: JsonTree) -> Option<Seq<FieldView>> {
    match node_at(doc, Seq::empty()) {
        Some(JsonNode::Array(n)) => fields_prefix(doc, n),
        _ => None,
    }
}

/// The map from id to field that a list of fields collects into: a later
/// field with the same id replaces an earlier one.
pub open spec fn field_map(list: Seq<FieldView>) -> Map<Seq<char>, FieldView>
    decreases list.len(),
{
    if list.len() == 0 {
        Map::empty()
    } else {
        field_map(list.drop_last()).insert(list.last().id, list.last())
    }
}

/// The views of a list of fields.
pub open spec fn views(v: Seq<Field>) -> Seq<FieldView> {
    v.map_values(|f: Field| f@)
}

/// Whether no two fields of the list share an id.
pub open spec fn distinct_ids(v: Seq<FieldView>) -> bool {
    forall|i: int, j: int| 0 <= i < j < v.len() ==> (#[trigger] v[i]).id != (#[trigger] v[j]).id
}

/// A field-id list resolved against a map: the fields of the ids it has, in
/// list order.
pub open spec fn resolved(m: Map<Seq<char>, FieldView>, ids: Seq<Seq<char>>) -> Seq<FieldView>
    decreases ids.len(),
{
    if ids.len() == 0 {
        Seq::empty()
    } else if m.contains_key(ids.last()) {
        resolved(m, ids.drop_last()).push(m[ids.last()])
    } else {
        resolved(m, ids.drop_last())
    }
}

/// The ids of `more` that are not in `shown`, in order.
pub open spec fn not_shown(more: Seq<Seq<char>>, shown: Seq<Seq<char>>) -> Seq<Seq<char>>
    decreases more.len(),
{
    if more.len() == 0 {
        Seq::empty()
    } else if shown.contains(more.last()) {
        not_shown(more.drop_last(), shown)
    } else {
        not_shown(more.drop_last(), shown).push(more.last())
    }
}

/// The ids of a distinct list are exactly the keys of its map, and the map
/// has one key per field.
pub proof fn lemma_field_map_distinct(v: Seq<FieldView>)
    requires
        distinct_ids(v),
    ensures
        field_map(v).dom().finite(),
        field_map(v).dom().len() == v.len(),
        forall|k: Seq<char>| field_map(v).contains_key(k) <==> exists|i: int| 0 <= i < v.len() && (#[trigger] v[i]).id == k,
        forall|i: int| 0 <= i < v.len() ==> field_map(v)[(#[trigger] v[i]).id] == v[i],
    decreases v.len(),
{
    if v.len() > 0 {
        let p = v.drop_last();
        assert(distinct_ids(p));
        lemma_field_map_distinct(p);
        assert forall|k: Seq<char>| field_map(v).contains_key(k) <==> exists|i: int| 0 <= i < v.len() && (#[trigger] v[i]).id == k by {
            if field_map(v).contains_key(k) && k != v.last().id {
                let i = choose|i: int| 0 <= i < p.len() && (#[trigger] p[i]).id == k;
                assert(v[i] == p[i]);
            }
            if exists|i: int| 0 <= i < v.len() && (#[trigger] v[i]).id == k {
                let i = choose|i: int| 0 <= i < v.len() && (#[trigger] v[i]).id == k;
                if i < v.len() - 1 {
                    assert(p[i] == v[i]);
                }
            }
        }
        assert(!field_map(p).contains_key(v.last().id)) by {
            if field_map(p).contains_key(v.last().id) {
                let i = choose|i: int| 0 <= i < p.len() && (#[trigger] p[i]).id == v.last().id;
                assert(v[i] == p[i]);
                assert(v[i].id != v[v.len() - 1].id);
            }
        }
        assert forall|i: int| 0 <= i < v.len() implies field_map(v)[(#[trigger] v[i]).id] == v[i] by {
            if i < v.len() - 1 {
                assert(p[i] == v[i]);
                assert(v[i].id != v[v.len() - 1].id);
            }
        }
    }
}

/// Fields keyed by id.
pub struct FieldIndex {
    fields: Vec<Field>,
}

impl View for FieldIndex {
    type V = Map<Seq<char>, FieldView>;

    closed spec fn view(&self) -> Map<Seq<char>, FieldView> {
        field_map(views(self.fields@))
    }
}

impl FieldIndex {
    /// The index invariant: no two stored fields share an id.
    pub closed spec fn wf(&self) -> bool {
        distinct_ids(views(self.fields@))
    }

    /// The index of a list of fields; a later field with an id replaces an
    /// earlier one.
    pub fn from_fields(list: Vec<Field>) -> (ix: Self)
        ensures
            ix.wf(),
            ix@ == field_map(views(list@)),
    {
        let mut ix = FieldIndex { fields: Vec::new() };
        let ghost all = views(list@);
        for f in it: list.into_iter()
            invariant
                all == views(it.seq()),
                ix.wf(),
                ix@ == field_map(all.take(it.index() as int)),
        {
            let ghost k = it.index() as int;
            assert(f@ == all[k]);
            assert(all.take(k + 1).drop_last() =~= all.take(k));
            ix.insert(f);
        }
        assert(all.take(all.len() as int) =~= all);
        ix
    }

    /// Adds `f`, replacing the field with the same id if there is one.
    fn insert(&mut self, f: Field)
        requires
            old(self).wf(),
        ensures
            final(self).wf(),
            final(self)@ == old(self)@.insert(f@.id, f@),
    {
        let ghost fv = f@;
        let ghost before = views(self.fields@);
        let mut i: usize = 0;
        while i < self.fields.len() && !str_eq(self.fields[i].id.as_str(), f.id.as_str())
            invariant
                i <= self.fields.len(),
                self.fields@ == old(self).fields@,
                fv == f@,
                forall|j: int| 0 <= j < i ==> (#[trigger] self.fields@[j])@.id != fv.id,
            decreases self.fields.len() - i,
        {
            i = i + 1;
        }
        proof {
            lemma_field_map_distinct(before);
        }
        if i < self.fields.len() {
            let ghost at = i as int;
            assert(before[at].id == fv.id);
            self.fields.set(i, f);
            let ghost after = views(self.fields@);
            assert(after =~= before.update(at, fv));
            assert(distinct_ids(after)) by {
                assert forall|a: int, b: int| 0 <= a < b < after.len() implies (#[trigger] after[a]).id != (#[trigger] after[b]).id by {
                    if a != at && b != at {
                        assert(before[a].id != before[b].id);
                    } else if a == at {
                        assert(before[a].id != before[b].id);
                    } else {
                        assert(before[a].id != before[b].id);
                    }
                }
            }
            proof {
                lemma_field_map_distinct(after);
                assert(field_map(after) =~= field_map(before).insert(fv.id, fv)) by {
                    assert forall|k: Seq<char>| #[trigger] field_map(after).contains_key(k) <==> field_map(before).insert(fv.id, fv).contains_key(k) by {
                        if field_map(after).contains_key(k) {
                            let j = choose|j: int| 0 <= j < after.len() && (#[trigger] after[j]).id == k;
                            if j != at {
                                assert(after[j] == before[j]);
                            }
                        }
                        if field_map(before).contains_key(k) {
                            let j = choose|j: int| 0 <= j < before.len() && (#[trigger] before[j]).id == k;
                            if j != at {
                                assert(after[j] == before[j]);
                            } else {
                                assert(after[at].id == k);
                            }
                        }
                        if k == fv.id {
                            assert(after[at].id == k);
                        }
                    }
                    assert forall|k: Seq<char>| #[trigger] field_map(after).contains_key(k) implies field_map(after)[k] == field_map(before).insert(fv.id, fv)[k] by {
                        let j = choose|j: int| 0 <= j < after.len() && (#[trigger] after[j]).id == k;
                        if j != at {
                            assert(after[j] == before[j]);
                            assert(field_map(before)[before[j].id] == before[j]);
                        }
                    }
                }
            }
        } else {
            self.fields.push(f);
            let ghost after = views(self.fields@);
            assert(after =~= before.push(fv));
            assert(after.drop_last() =~= before);
            assert(distinct_ids(after)) by {
                assert forall|a: int, b: int| 0 <= a < b < after.len() implies (#[trigger] after[a]).id != (#[trigger] after[b]).id by {
                    if b < after.len() - 1 {
                        assert(before[a].id != before[b].id);
                    } else {
                        assert(self.fields@[a]@.id != fv.id);
                    }
                }
            }
        }
    }

    /// Parses a JSON array of field objects into an index; on malformed
    /// JSON or a malformed field, a message.
    pub fn from_json(body: &str) -> (r: Result<Self, String>)
        ensures
            match json_document(body@) {
                None => r is Err,
                Some(doc) => match fields_in(doc) {
                    None => r is Err,
                    Some(list) => r matches Ok(ix) && ix.wf() && ix@ == field_map(list),
                },
            },
    {
        let json = match parse_json(body) {
            Ok(v) => v,
            Err(msg) => return Err(msg),
        };
        let ghost doc = json_tree(&json);
        let n = match array_len(&json) {
            Some(n) => n,
            None => return Err("expected an array of fields".to_owned()),
        };
        let mut list: Vec<Field> = Vec::new();
        let mut i: usize = 0;
        while i < n
            invariant
                i <= n,
                doc == json_tree(&json),
                json_document(body@) == Some(doc),
                node_at(doc, Seq::empty()) == Some(JsonNode::Array(n as nat)),
                fields_prefix(doc, i as nat) == Some(views(list@)),
            decreases n - i,
        {
            let elem = get_index(&json, i).unwrap();
            let f = match parse_field(elem) {
                Some(f) => f,
                None => {
                    proof {
                        lemma_prefix_fails(doc, (i + 1) as nat, n as nat);
                    }
                    return Err("malformed field".to_owned());
                },
            };
            let ghost before = views(list@);
            list.push(f);
            assert(views(list@) =~= before.push(f@));
            i = i + 1;
        }
        Ok(FieldIndex::from_fields(list))
    }

    /// The field with id `id`, if any.
    pub fn get(&self, id: &str) -> (r: Option<&Field>)
        requires
            self.wf(),
        ensures
            match r {
                Some(f) => self@.contains_key(id@) && self@[id@] == f@,
                None => !self@.contains_key(id@),
            },
    {
        proof {
            lemma_field_map_distinct(views(self.fields@));
        }
        let mut i: usize = 0;
        while i < self.fields.len()
            invariant
                i <= self.fields.len(),
                self.wf(),
                forall|j: int| 0 <= j < i ==> (#[trigger] self.fields@[j])@.id != id@,
            decreases self.fields.len() - i,
        {
            if str_eq(self.fields[i].id.as_str(), id) {
                proof {
                    lemma_field_map_distinct(views(self.fields@));
                    assert(views(self.fields@)[i as int] == self.fields@[i as int]@);
                }
                return Some(&self.fields[i]);
            }
            i = i + 1;
        }
        proof {
            if self@.contains_key(id@) {
                let j = choose|j: int| 0 <= j < views(self.fields@).len() && (#[trigger] views(self.fields@)[j]).id == id@;
                assert(views(self.fields@)[j] == self.fields@[j]@);
            }
        }
        None
    }

    /// The number of distinct field ids.
    pub fn len(&self) -> (r: usize)
        requires
            self.wf(),
        ensures
            r == self@.dom().len(),
    {
        proof {
            lemma_field_map_distinct(views(self.fields@));
        }
        self.fields.len()
    }

    /// Whether the index holds no field.
    pub fn is_empty(&self) -> (r: bool)
        requires
            self.wf(),
        ensures
            r == (self@.dom().len() == 0),
    {
        proof {
            lemma_field_map_distinct(views(self.fields@));
        }
        self.fields.len() == 0
    }
}

/// If element `k - 1` of the root array is not a field, no prefix of `m >= k`
/// elements is a list of fields.
proof fn lemma_prefix_fails(doc: JsonTree, k: nat, m: nat)
    requires
        1 <= k <= m,
        field_at(subtree(doc, JsonStep::Index((k - 1) as nat))) is None,
    ensures
        fields_prefix(doc, m) is None,
    decreases m,
{
    if m > k {
        lemma_prefix_fails(doc, k, (m - 1) as nat);
    }
}

/// The option an object value describes.
fn parse_option(v: &Value) -> (r: Option<FieldOption>)
    ensures
        match option_at(json_tree(v)) {
            Some(o) => r matches Some(x) && (x.value@, x.label@) == o,
            None => r is None,
        },
{
    if !crate::json::is_object(v) {
        return None;
    }
    let value = match member_str(v, "value") {
        Some(s) => s,
        None => return None,
    };
    let label = match member_str(v, "label") {
        Some(s) => s,
        None => return None,
    };
    Some(FieldOption { value, label })
}

/// The field an object value describes.
fn parse_field(v: &Value) -> (r: Option<Field>)
    ensures
        match field_at(json_tree(v)) {
            Some(f) => r matches Some(x) && x@ == f,
            None => r is None,
        },
{
    let ghost t = json_tree(v);
    if !crate::json::is_object(v) {
        return None;
    }
    let id = match member_str(v, "id") {
        Some(s) => s,
        None => return None,
    };
    let key = match member_str(v, "key") {
        Some(s) => s,
        None => return None,
    };
    let ft = match member_str(v, "field_type") {
        Some(s) => s,
        None => return None,
    };
    let label = match member_str(v, "label") {
        Some(s) => s,
        None => return None,
    };
    let field_type = match field_type_named(ft.as_str()) {
        Some(t) => t,
        None => return None,
    };
    proof {
        crate::json::lemma_member(t, "placeholder"@);
        crate::json::lemma_member(t, "options"@);
    }
    let placeholder = match get_key(v, "placeholder") {
        None => None,
        Some(p) => {
            if is_null(p) {
                None
            } else {
                match crate::json::as_str(p) {
                    Some(s) => Some(s.to_owned()),
                    None => return None,
                }
            }
        },
    };
    let options = match get_key(v, "options") {
        None => Vec::new(),
        Some(a) => {
            let ghost at = json_tree(a);
            let m = match array_len(a) {
                Some(m) => m,
                None => return None,
            };
            let mut out: Vec<FieldOption> = Vec::new();
            let mut i: usize = 0;
            while i < m
                invariant
                    i <= m,
                    at == json_tree(a),
                    t == json_tree(v),
                    at == subtree(t, JsonStep::Key("options"@)),
                    node_at(t, member("options"@)) == Some(JsonNode::Array(m as nat)),
                    node_at(at, Seq::empty()) == Some(JsonNode::Array(m as nat)),
                    options_prefix(at, i as nat) == Some(options_view(out@)),
                decreases m - i,
            {
                let e = get_index(a, i).unwrap();
                let o = match parse_option(e) {
                    Some(o) => o,
                    None => {
                        proof {
                            lemma_options_fail(at, (i + 1) as nat, m as nat);
                        }
                        return None;
                    },
                };
                let ghost before = options_view(out@);
                out.push(o);
                assert(options_view(out@) =~= before.push((o.value@, o.label@)));
                i = i + 1;
            }
            out
        },
    };
    let r = Field { id, key, field_type, label, placeholder, options };
    assert(str_at(t, member("id"@)) == Some(r.id@));
    assert(str_at(t, member("key"@)) == Some(r.key@));
    assert(str_at(t, member("label"@)) == Some(r.label@));
    assert(type_named(ft@) == Some(r.field_type));
    assert(placeholder_at(t) == Some(r@.placeholder));
    assert(options_at(t) == Some(r@.options));
    Some(r)
}

/// If element `k - 1` of an array is not an option, no prefix of `m >= k`
/// elements is a list of options.
proof fn lemma_options_fail(a: JsonTree, k: nat, m: nat)
    requires
        1 <= k <= m,
        option_at(subtree(a, JsonStep::Index((k - 1) as nat))) is None,
    ensures
        options_prefix(a, m) is None,
    decreases m,
{
    if m > k {
        lemma_options_fail(a, k, (m - 1) as nat);
    }
}

/// The field type named `s`.
fn field_type_named(s: &str) -> (r: Option<FieldType>)
    ensures
        r == type_named(s@),
{
    if str_eq(s, "text") {
        Some(FieldType::Text)
    } else if str_eq(s, "combo") {
        Some(FieldType::Combo)
    } else if str_eq(s, "check") {
        Some(FieldType::Check)
    } else if str_eq(s, "radio") {
        Some(FieldType::Radio)
    } else if str_eq(s, "multiCombo") {
        Some(FieldType::MultiCombo)
    } else {
        None
    }
}

/// A preset's default field ids resolved to fields, in order, skipping ids
/// the index lacks.
pub fn resolve_fields<'a>(index: &'a FieldIndex, field_ids: &[String]) -> (r: Vec<&'a Field>)
    requires
        index.wf(),
    ensures
        r@.map_values(|f: &Field| f@) == resolved(index@, field_ids@.map_values(|s: String| s@)),
{
    let ghost ids = field_ids@.map_values(|s: String| s@);
    let mut out: Vec<&'a Field> = Vec::new();
    let mut i: usize = 0;
    while i < field_ids.len()
        invariant
            i <= field_ids@.len(),
            index.wf(),
            ids == field_ids@.map_values(|s: String| s@),
            out@.map_values(|f: &Field| f@) == resolved(index@, ids.take(i as int)),
        decreases field_ids.len() - i,
    {
        let ghost before = out@.map_values(|f: &Field| f@);
        assert(ids.take(i + 1).drop_last() =~= ids.take(i as int));
        assert(ids.take(i + 1).last() == field_ids@[i as int]@);
        match index.get(field_ids[i].as_str()) {
            Some(f) => {
                out.push(f);
                assert(out@.map_values(|f: &Field| f@) =~= before.push(f@));
            },
            None => {},
        }
        i = i + 1;
    }
    assert(ids.take(field_ids@.len() as int) =~= ids);
    out
}

/// Whether `v` holds a string equal to `s`.
fn contains_string(v: &[String], s: &str) -> (r: bool)
    ensures
        r == v@.map_values(|x: String| x@).contains(s@),
{
    let mut i: usize = 0;
    while i < v.len()
        invariant
            i <= v@.len(),
            forall|j: int| 0 <= j < i ==> (#[trigger] v@[j])@ != s@,
        decreases v.len() - i,
    {
        if str_eq(v[i].as_str(), s) {
            assert(v@.map_values(|x: String| x@)[i as int] == s@);
            return true;
        }
        i = i + 1;
    }
    proof {
        let vs = v@.map_values(|x: String| x@);
        if vs.contains(s@) {
            let j = choose|j: int| 0 <= j < vs.len() && #[trigger] vs[j] == s@;
            assert(v@[j]@ == s@);
        }
    }
    false
}

/// A preset's additional field ids resolved to fields, in order, leaving
/// out the ids already shown and those the index lacks.
pub fn resolve_more_fields<'a>(
    index: &'a FieldIndex,
    more_field_ids: &[String],
    already_shown: &[String],
) -> (r: Vec<&'a Field>)
    requires
        index.wf(),
    ensures
        r@.map_values(|f: &Field| f@) == resolved(
            index@,
            not_shown(more_field_ids@.map_values(|s: String| s@), already_shown@.map_values(|s: String| s@)),
        ),
{
    let ghost ids = more_field_ids@.map_values(|s: String| s@);
    let ghost shown = already_shown@.map_values(|s: String| s@);
    let mut out: Vec<&'a Field> = Vec::new();
    let mut i: usize = 0;
    while i < more_field_ids.len()
        invariant
            i <= more_field_ids@.len(),
            index.wf(),
            ids == more_field_ids@.map_values(|s: String| s@),
            shown == already_shown@.map_values(|s: String| s@),
            out@.map_values(|f: &Field| f@) == resolved(index@, not_shown(ids.take(i as int), shown)),
        decreases more_field_ids.len() - i,
    {
        let ghost before = out@.map_values(|f: &Field| f@);
        assert(ids.take(i + 1).drop_last() =~= ids.take(i as int));
        assert(ids.take(i + 1).last() == more_field_ids@[i as int]@);
        if !contains_string(already_shown, more_field_ids[i].as_str()) {
            let ghost kept = not_shown(ids.take(i as int), shown);
            assert(not_shown(ids.take(i + 1), shown) == kept.push(more_field_ids@[i as int]@));
            assert(kept.push(more_field_ids@[i as int]@).drop_last() =~= kept);
            match index.get(more_field_ids[i].as_str()) {
                Some(f) => {
                    out.push(f);
                    assert(out@.map_values(|f: &Field| f@) =~= before.push(f@));
                },
                None => {},
            }
        }
        i = i + 1;
    }
    assert(ids.take(more_field_ids@.len() as int) =~= ids);
    out
}

/// Every field a list of fields collects to is stored under its own id.
pub proof fn lemma_field_map_ids(list: Seq<FieldView>)
    ensures
        forall|k: Seq<char>| #[trigger] field_map(list).contains_key(k) ==> field_map(list)[k].id == k,
    decreases list.len(),
{
    if list.len() > 0 {
        lemma_field_map_ids(list.drop_last());
    }
}

/// Whether `f` is the field of one of the ids.
pub open spec fn field_of_some(m: Map<Seq<char>, FieldView>, ids: Seq<Seq<char>>, f: FieldView) -> bool {
    exists|j: int| 0 <= j < ids.len() && m.contains_key(ids[j]) && f == m[#[trigger] ids[j]]
}

/// The fields an id list resolves to each come from an id of the list.
proof fn lemma_resolved_from_ids(m: Map<Seq<char>, FieldView>, ids: Seq<Seq<char>>)
    ensures
        forall|i: int| 0 <= i < resolved(m, ids).len() ==> field_of_some(m, ids, #[trigger] resolved(m, ids)[i]),
    decreases ids.len(),
{
    if ids.len() > 0 {
        let p = ids.drop_last();
        lemma_resolved_from_ids(m, p);
        let r = resolved(m, ids);
        let rp = resolved(m, p);
        assert forall|i: int| 0 <= i < r.len() implies field_of_some(m, ids, #[trigger] r[i]) by {
            if m.contains_key(ids.last()) && i == rp.len() {
                assert(r[i] == m[ids[ids.len() - 1]]);
            } else {
                assert(r[i] == rp[i]);
                assert(field_of_some(m, p, rp[i]));
                let j = choose|j: int| 0 <= j < p.len() && m.contains_key(p[j]) && rp[i] == m[#[trigger] p[j]];
                assert(ids[j] == p[j]);
            }
        }
    }
}

/// The ids `not_shown` keeps are ids of `more` that are not shown.
proof fn lemma_not_shown_members(more: Seq<Seq<char>>, shown: Seq<Seq<char>>)
    ensures
        forall|j: int| 0 <= j < not_shown(more, shown).len() ==> !shown.contains(#[trigger] not_shown(more, shown)[j]),
    decreases more.len(),
{
    if more.len() > 0 {
        let p = more.drop_last();
        lemma_not_shown_members(p, shown);
        let kp = not_shown(p, shown);
        let k = not_shown(more, shown);
        assert forall|j: int| 0 <= j < k.len() implies !shown.contains(#[trigger] k[j]) by {
            if shown.contains(more.last()) {
                assert(k == kp);
            } else {
                assert(k == kp.push(more.last()));
                if j < kp.len() {
                    assert(k[j] == kp[j]);
                }
            }
        }
    }
}

/// "Add field" never offers a field that is already shown: no field that
/// `resolve_more_fields` resolves has an id among the shown ones.
pub proof fn law_more_fields_exclude_shown(list: Seq<FieldView>, more: Seq<Seq<char>>, shown: Seq<Seq<char>>)
    ensures
        forall|i: int| 0 <= i < resolved(field_map(list), not_shown(more, shown)).len() ==> !shown.contains(
            (#[trigger] resolved(field_map(list), not_shown(more, shown))[i]).id,
        ),
{
    let m = field_map(list);
    let ids = not_shown(more, shown);
    lemma_field_map_ids(list);
    lemma_resolved_from_ids(m, ids);
    lemma_not_shown_members(more, shown);
    assert forall|i: int| 0 <= i < resolved(m, ids).len() implies !shown.contains(
        (#[trigger] resolved(m, ids)[i]).id,
    ) by {
        assert(field_of_some(m, ids, resolved(m, ids)[i]));
        let j = choose|j: int| 0 <= j < ids.len() && m.contains_key(ids[j]) && resolved(m, ids)[i] == m[#[trigger] ids[j]];
        assert(m[ids[j]].id == ids[j]);
    }
}

/// The non-empty pieces of `pieces`, each trimmed, in order.
pub open spec fn kept_values(pieces: Seq<Seq<char>>) -> Seq<Seq<char>>
    decreases pieces.len(),
{
    if pieces.len() == 0 {
        Seq::empty()
    } else if trim_ws(pieces.last()).len() > 0 {
        kept_values(pieces.drop_last()).push(trim_ws(pieces.last()))
    } else {
        kept_values(pieces.drop_last())
    }
}

/// The values a multi-select tag value holds: its `;`-separated pieces,
/// trimmed, without the empty ones.
pub open spec fn multi_values_of(v: Seq<char>) -> Seq<Seq<char>> {
    kept_values(split_on(v, ';'))
}

/// Values joined with `;` between them.
pub open spec fn joined(vals: Seq<Seq<char>>) -> Seq<char>
    decreases vals.len(),
{
    if vals.len() == 0 {
        Seq::empty()
    } else if vals.len() == 1 {
        vals[0]
    } else {
        joined(vals.drop_last()) + seq![';'] + vals.last()
    }
}

/// The values other than `x`, in order.
pub open spec fn values_without(vals: Seq<Seq<char>>, x: Seq<char>) -> Seq<Seq<char>>
    decreases vals.len(),
{
    if vals.len() == 0 {
        Seq::empty()
    } else if vals.last() == x {
        values_without(vals.drop_last(), x)
    } else {
        values_without(vals.drop_last(), x).push(vals.last())
    }
}

/// The views of a list of strings.
pub open spec fn strings_view(v: Seq<String>) -> Seq<Seq<char>> {
    v.map_values(|s: String| s@)
}

/// The values a multi-select tag value holds (see `multi_values_of`).
pub fn multi_values(v: &str) -> (r: Vec<String>)
    ensures
        strings_view(r@) == multi_values_of(v@),
{
    let cs = chars_of(v);
    let mut out: Vec<String> = Vec::new();
    let mut start: usize = 0;
    let mut i: usize = 0;
    assert(split_on(cs@.take(0), ';') =~= seq![Seq::<char>::empty()]);
    while i < cs.len()
        invariant
            start <= i <= cs@.len(),
            split_on(cs@.take(i as int), ';').len() >= 1,
            strings_view(out@) == kept_values(split_on(cs@.take(i as int), ';').drop_last()),
            cs@.subrange(start as int, i as int) == split_on(cs@.take(i as int), ';').last(),
        decreases cs.len() - i,
    {
        let ghost pre = cs@.take(i as int);
        let ghost nxt = cs@.take(i + 1);
        assert(nxt.drop_last() =~= pre);
        assert(nxt.last() == cs@[i as int]);
        if cs[i] == ';' {
            let piece = string_from_chars(&cs, start, i);
            let t = trim(piece.as_str());
            let ghost sp = split_on(pre, ';');
            let ghost before = out@;
            if t.as_str().is_empty() == false {
                out.push(t);
            }
            proof {
                assert(split_on(nxt, ';') == sp.push(Seq::empty()));
                assert(split_on(nxt, ';').drop_last() =~= sp);
                assert(sp.drop_last().push(sp.last()) =~= sp);
                assert(kept_values(sp) == if trim_ws(sp.last()).len() > 0 {
                    kept_values(sp.drop_last()).push(trim_ws(sp.last()))
                } else {
                    kept_values(sp.drop_last())
                });
                assert(strings_view(out@) =~= kept_values(sp));
                assert(cs@.subrange((i + 1) as int, (i + 1) as int) =~= Seq::<char>::empty());
            }
            start = i + 1;
        } else {
            proof {
                let sp = split_on(pre, ';');
                assert(split_on(nxt, ';') == sp.update(sp.len() - 1, sp.last().push(cs@[i as int])));
                assert(split_on(nxt, ';').drop_last() =~= sp.drop_last());
                assert(cs@.subrange(start as int, i + 1) =~= sp.last().push(cs@[i as int]));
            }
        }
        i = i + 1;
    }
    let piece = string_from_chars(&cs, start, i);
    let t = trim(piece.as_str());
    let ghost sp = split_on(cs@.take(i as int), ';');
    if t.as_str().is_empty() == false {
        out.push(t);
    }
    proof {
        assert(cs@.take(i as int) =~= cs@);
        assert(sp.drop_last().push(sp.last()) =~= sp);
        assert(strings_view(out@) =~= kept_values(sp));
    }
    out
}

/// The values joined with `;` between them.
pub fn join_values(vals: &Vec<String>) -> (r: String)
    ensures
        r@ == joined(strings_view(vals@)),
{
    let mut out = String::new();
    let mut i: usize = 0;
    while i < vals.len()
        invariant
            i <= vals@.len(),
            out@ == joined(strings_view(vals@.take(i as int))),
        decreases vals.len() - i,
    {
        let ghost sv = strings_view(vals@.take(i + 1));
        assert(sv.drop_last() =~= strings_view(vals@.take(i as int)));
        assert(sv.last() == vals@[i as int]@);
        if i > 0 {
            append_str(&mut out, ";");
            proof {
                reveal_strlit(";");
            }
        }
        append_str(&mut out, vals[i].as_str());
        proof {
            if i == 0 {
                assert(sv.len() == 1);
                assert(out@ =~= sv[0]);
            } else {
                assert(out@ =~= joined(sv.drop_last()) + seq![';'] + sv.last());
            }
        }
        i = i + 1;
    }
    assert(vals@.take(vals@.len() as int) =~= vals@);
    out
}

/// The multi-select tag value with `value` taken out: the remaining values
/// joined with `;`.
pub fn multi_value_removed(current: &str, value: &str) -> (r: String)
    ensures
        r@ == joined(values_without(multi_values_of(current@), value@)),
{
    let vals = multi_values(current);
    let mut kept: Vec<String> = Vec::new();
    let mut i: usize = 0;
    while i < vals.len()
        invariant
            i <= vals@.len(),
            strings_view(vals@) == multi_values_of(current@),
            strings_view(kept@) == values_without(strings_view(vals@.take(i as int)), value@),
        decreases vals.len() - i,
    {
        let ghost sv = strings_view(vals@.take(i + 1));
        assert(sv.drop_last() =~= strings_view(vals@.take(i as int)));
        assert(sv.last() == vals@[i as int]@);
        if !str_eq(vals[i].as_str(), value) {
            kept.push(vals[i].clone());
            assert(strings_view(kept@) =~= values_without(sv, value@));
        }
        i = i + 1;
    }
    assert(vals@.take(vals@.len() as int) =~= vals@);
    join_values(&kept)
}

/// The multi-select tag value with `value` added after the current values,
/// joined with `;`.
pub fn multi_value_added(current: &str, value: &str) -> (r: String)
    ensures
        r@ == joined(multi_values_of(current@).push(value@)),
{
    let mut vals = multi_values(current);
    vals.push(value.to_owned());
    assert(strings_view(vals@) =~= multi_values_of(current@).push(value@));
    join_values(&vals)
}

} // verus!
