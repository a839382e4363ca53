//! Reading JSON documents parsed by `serde_json`.
//!
//! A document is modelled as a map from paths (object keys and array
//! indices, from the root) to what stands at that path. A node's children
//! are exactly the paths that extend it by one step.

use vstd::prelude::*;

use serde_json::Value;

verus! {

/// One step into a JSON value.
pub enum JsonStep {
    Key(Seq<char>),
    Index(nat),
}

/// What stands at a path of a JSON document. A number is given by its
/// integer value (`None` when it is not an integer) and the IEEE-754 bit
/// pattern of its `f64` value (`Value::as_f64`).
pub enum JsonNode {
    Null,
    Bool(bool),
    Number(Option<int>, u64),
    Str(Seq<char>),
    Array(nat),
    Object,
}

/// A JSON document: every path of the tree, mapped to the node found there.
pub type JsonTree = Map<Seq<JsonStep>, JsonNode>;

#[verifier::external_type_specification]
#[verifier::external_body]
pub struct ExJsonValue(serde_json::Value);

/// The tree that `serde_json::from_str` builds from `text`, or `None` when
/// the text is not valid JSON.
pub uninterp spec fn json_document(text: Seq<char>) -> Option<JsonTree>;

/// The tree held by a `serde_json::Value`.
pub uninterp spec fn json_tree(v: &Value) -> JsonTree;

/// The part of `t` below one step from its root.
pub open spec fn subtree(t: JsonTree, step: JsonStep) -> JsonTree {
    Map::new(|p: Seq<JsonStep>| t.contains_key(seq![step] + p), |p: Seq<JsonStep>| t[seq![step] + p])
}

/// The node at `path`, if any.
pub open spec fn node_at(t: JsonTree, path: Seq<JsonStep>) -> Option<JsonNode> {
    if t.contains_key(path) {
        Some(t[path])
    } else {
        None
    }
}

/// The string at `path`, if a string stands there.
pub open spec fn str_at(t: JsonTree, path: Seq<JsonStep>) -> Option<Seq<char>> {
    match node_at(t, path) {
        Some(JsonNode::Str(s)) => Some(s),
        _ => None,
    }
}

/// The boolean at `path`, if a boolean stands there.
pub open spec fn bool_at(t: JsonTree, path: Seq<JsonStep>) -> Option<bool> {
    match node_at(t, path) {
        Some(JsonNode::Bool(b)) => Some(b),
        _ => None,
    }
}

/// The integer at `path` if it fits an `i64` (`Value::as_i64`).
pub open spec fn i64_at(t: JsonTree, path: Seq<JsonStep>) -> Option<i64> {
    match node_at(t, path) {
        Some(JsonNode::Number(Some(n), _)) => if i64::MIN <= n <= i64::MAX {
            Some(n as i64)
        } else {
            None
        },
        _ => None,
    }
}

/// The integer at `path` if it is non-negative and fits a `u64`
/// (`Value::as_u64`).
pub open spec fn u64_at(t: JsonTree, path: Seq<JsonStep>) -> Option<u64> {
    match node_at(t, path) {
        Some(JsonNode::Number(Some(n), _)) => if 0 <= n <= u64::MAX {
            Some(n as u64)
        } else {
            None
        },
        _ => None,
    }
}

/// The length of the array at `path`, if an array stands there.
pub open spec fn array_len_at(t: JsonTree, path: Seq<JsonStep>) -> Option<nat> {
    match node_at(t, path) {
        Some(JsonNode::Array(n)) => Some(n),
        _ => None,
    }
}

/// Parses JSON text (`serde_json::from_str`); on failure, the parser's
/// message.
#[verifier::external_body]
pub(crate) fn parse_json(text: &str) -> (r: Result<Value, String>)
    ensures
        r is Ok <==> json_document(text@) is Some,
        r matches Ok(v) ==> json_tree(&v) == json_document(text@)->0,
{
    serde_json::from_str::<Value>(text).map_err(|e| e.to_string())
}

/// The member `key` of an object (`Value::get` with a key); `None` when `v`
/// is not an object or has no such member. (Only objects have members.)
#[verifier::external_body]
pub(crate) fn get_key<'a>(v: &'a Value, key: &str) -> (r: Option<&'a Value>)
    ensures
        r is Some <==> json_tree(v).contains_key(seq![JsonStep::Key(key@)]),
        r is Some ==> node_at(json_tree(v), Seq::empty()) == Some(JsonNode::Object),
        r matches Some(c) ==> json_tree(c) == subtree(json_tree(v), JsonStep::Key(key@)),
{
    v.get(key)
}

/// Element `i` of an array (`Value::get` with an index); `None` when `v` is
/// not an array or is too short. (Only arrays have elements, one for each
/// index below their length.)
#[verifier::external_body]
pub(crate) fn get_index<'a>(v: &'a Value, i: usize) -> (r: Option<&'a Value>)
    ensures
        r is Some <==> json_tree(v).contains_key(seq![JsonStep::Index(i as nat)]),
        r is Some <==> (array_len_at(json_tree(v), Seq::empty()) is Some && i < array_len_at(
            json_tree(v),
            Seq::empty(),
        )->0),
        r matches Some(c) ==> json_tree(c) == subtree(json_tree(v), JsonStep::Index(i as nat)),
{
    v.get(i)
}

/// The string a value holds (`Value::as_str`).
#[verifier::external_body]
pub(crate) fn as_str(v: &Value) -> (r: Option<&str>)
    ensures
        match r {
            Some(s) => str_at(json_tree(v), Seq::empty()) == Some(s@),
            None => str_at(json_tree(v), Seq::empty()) is None,
        },
{
    v.as_str()
}

/// The boolean a value holds (`Value::as_bool`).
#[verifier::external_body]
pub(crate) fn as_bool(v: &Value) -> (r: Option<bool>)
    ensures
        r == bool_at(json_tree(v), Seq::empty()),
{
    v.as_bool()
}

/// The integer a value holds, if it fits an `i64` (`Value::as_i64`).
#[verifier::external_body]
pub(crate) fn as_i64(v: &Value) -> (r: Option<i64>)
    ensures
        r == i64_at(json_tree(v), Seq::empty()),
{
    v.as_i64()
}

/// The integer a value holds, if non-negative and fitting a `u64`
/// (`Value::as_u64`).
#[verifier::external_body]
pub(crate) fn as_u64(v: &Value) -> (r: Option<u64>)
    ensures
        r == u64_at(json_tree(v), Seq::empty()),
{
    v.as_u64()
}

/// The bit pattern of the `f64` value a number holds.
pub open spec fn f64_bits_of(t: JsonTree) -> Option<u64> {
    match node_at(t, Seq::empty()) {
        Some(JsonNode::Number(_, b)) => Some(b),
        _ => None,
    }
}

/// The `f64` value of a number, as its bit pattern (`Value::as_f64`,
/// then `f64::to_bits`); `None` when `v` is not a number.
#[verifier::external_body]
pub(crate) fn as_f64_bits(v: &Value) -> (r: Option<u64>)
    ensures
        r == f64_bits_of(json_tree(v)),
{
    v.as_f64().map(|x| x.to_bits())
}

/// The length of the array a value holds (`Value::as_array`, then `len`).
#[verifier::external_body]
pub(crate) fn array_len(v: &Value) -> (r: Option<usize>)
    ensures
        match r {
            Some(n) => array_len_at(json_tree(v), Seq::empty()) == Some(n as nat),
            None => array_len_at(json_tree(v), Seq::empty()) is None,
        },
{
    v.as_array().map(|a| a.len())
}

/// Whether a value is an object (`Value::is_object`).
#[verifier::external_body]
pub(crate) fn is_object(v: &Value) -> (r: bool)
    ensures
        r == (node_at(json_tree(v), Seq::empty()) == Some(JsonNode::Object)),
{
    v.is_object()
}

/// Whether a value is `null` (`Value::is_null`).
#[verifier::external_body]
pub(crate) fn is_null(v: &Value) -> (r: bool)
    ensures
        r == (node_at(json_tree(v), Seq::empty()) == Some(JsonNode::Null)),
{
    v.is_null()
}

/// The path to the member `k` of the root object.
pub open spec fn member(k: Seq<char>) -> Seq<JsonStep> {
    seq![JsonStep::Key(k)]
}

/// What stands at a member of the root is what stands at the root of that
/// member's value.
pub proof fn lemma_member(t: JsonTree, k: Seq<char>)
    ensures
        node_at(subtree(t, JsonStep::Key(k)), Seq::empty()) == node_at(t, member(k)),
{
    assert(seq![JsonStep::Key(k)] + Seq::<JsonStep>::empty() =~= member(k));
}

/// The string held by the member `k` of an object, if it is a string.
pub fn member_str(v: &Value, k: &str) -> (r: Option<String>)
    ensures
        match r {
            Some(s) => str_at(json_tree(v), member(k@)) == Some(s@),
            None => str_at(json_tree(v), member(k@)) is None,
        },
{
    proof {
        lemma_member(json_tree(v), k@);
    }
    match get_key(v, k) {
        Some(c) => match as_str(c) {
            Some(s) => Some(s.to_owned()),
            None => None,
        },
        None => None,
    }
}

/// The boolean held by the member `k` of an object, if it is a boolean.
pub fn member_bool(v: &Value, k: &str) -> (r: Option<bool>)
    ensures
        r == bool_at(json_tree(v), member(k@)),
{
    proof {
        lemma_member(json_tree(v), k@);
    }
    match get_key(v, k) {
        Some(c) => as_bool(c),
        None => None,
    }
}

/// The integer held by the member `k` of an object, if it is a
/// non-negative integer fitting a `u64`.
pub fn member_u64(v: &Value, k: &str) -> (r: Option<u64>)
    ensures
        r == u64_at(json_tree(v), member(k@)),
{
    proof {
        lemma_member(json_tree(v), k@);
    }
    match get_key(v, k) {
        Some(c) => as_u64(c),
        None => None,
    }
}

/// What lies at `path` below one step is what lies at the longer path.
pub proof fn lemma_subtree_path(t: JsonTree, step: JsonStep, path: Seq<JsonStep>)
    ensures
        node_at(subtree(t, step), path) == node_at(t, seq![step] + path),
{
}

} // verus!
