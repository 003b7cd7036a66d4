//! JSON values as `serde_json` holds them, and the diff and patch of
//! `json_patch`, behind contracts over a model of JSON.

use crate::modpack::text_le;
use json_patch::{Patch, PatchError};
use serde_json::Value;
use vstd::prelude::*;

verus! {

/// `serde_json::Value`: a JSON value.
#[verifier::external_type_specification]
#[verifier::external_body]
pub struct ExValue(Value);

/// `serde_json::Error`: why a text is no JSON, or a value was not written.
#[verifier::external_type_specification]
#[verifier::external_body]
pub struct ExJsonError(serde_json::Error);

/// `json_patch::Patch`: a list of operations on a JSON value.
#[verifier::external_type_specification]
#[verifier::external_body]
pub struct ExPatch(Patch);

/// `serde_json::Map`: the members of a JSON object, by key.
#[verifier::external_type_specification]
#[verifier::external_body]
#[verifier::reject_recursive_types(K)]
#[verifier::reject_recursive_types(V)]
pub struct ExJsonMap<K, V>(serde_json::Map<K, V>);

/// `json_patch::PatchOperation`: one operation of a patch.
#[verifier::external_type_specification]
#[verifier::external_body]
pub struct ExPatchOperation(json_patch::PatchOperation);

/// `json_patch::PatchError`: why a patch did not apply.
#[verifier::external_type_specification]
#[verifier::external_body]
pub struct ExPatchError(PatchError);

/// A JSON value. A number stands as its text.
pub enum Json {
    Null,
    Flag(bool),
    Number(Seq<char>),
    Text(Seq<char>),
    List(Seq<Json>),
    Object(Map<Seq<char>, Json>),
}

/// One operation of a patch, addressed by a JSON pointer.
pub enum JsonOp {
    Add { path: Seq<char>, value: Json },
    Remove { path: Seq<char> },
    Replace { path: Seq<char>, value: Json },
    Move { from: Seq<char>, path: Seq<char> },
    Copy { from: Seq<char>, path: Seq<char> },
    Test { path: Seq<char>, value: Json },
}

/// What a `serde_json::Value` holds.
pub uninterp spec fn json_model(value: Value) -> Json;

/// The members that a `serde_json::Map` holds.
pub uninterp spec fn json_members(members: serde_json::Map<String, Value>) -> Map<Seq<char>, Json>;

/// The operations that a `json_patch::Patch` holds.
pub uninterp spec fn patch_ops(patch: Patch) -> Seq<JsonOp>;

/// What `serde_json::from_str` reads from a text; `None` where it fails.
pub uninterp spec fn json_parsed(text: Seq<char>) -> Option<Json>;

/// What `serde_json::to_string_pretty` writes for a value; `None` where it
/// fails.
pub uninterp spec fn json_pretty(value: Json) -> Option<Seq<char>>;

/// The patch that `json_patch::diff` computes: applied to `left` it gives
/// `right`.
pub uninterp spec fn json_diff(left: Json, right: Json) -> Seq<JsonOp>;

/// What `json_patch::patch` makes of a value; `None` where an operation fails.
pub uninterp spec fn json_patched(doc: Json, ops: Seq<JsonOp>) -> Option<Json>;

/// The keys of an object in the order in which `serde_json` walks them.
pub uninterp spec fn json_key_order(value: Json) -> Seq<Seq<char>>;

/// The keys of an object, each once and in ascending order.
pub open spec fn lists_keys(order: Seq<Seq<char>>, object: Map<Seq<char>, Json>) -> bool {
    &&& forall|i: int| 0 <= i < order.len() ==> object.contains_key(#[trigger] order[i])
    &&& forall|key: Seq<char>| #[trigger] object.contains_key(key) ==> order.contains(key)
    &&& forall|i: int, j: int|
        0 <= i < j < order.len() ==> #[trigger] order[i] != #[trigger] order[j] && text_le(
            order[i],
            order[j],
        )
}

/// What the values hold, one by one.
pub open spec fn models(values: Seq<Value>) -> Seq<Json> {
    Seq::new(values.len(), |i: int| json_model(values[i]))
}

/// The texts of the strings, one by one.
pub open spec fn texts(strings: Seq<String>) -> Seq<Seq<char>> {
    Seq::new(strings.len(), |i: int| strings[i]@)
}

/// The object that has the first `count` keys with their values; of two
/// equal keys the later one counts.
pub open spec fn object_of(keys: Seq<Seq<char>>, values: Seq<Json>, count: nat) -> Map<
    Seq<char>,
    Json,
>
    decreases count,
{
    if count == 0 || count > keys.len() || count > values.len() {
        Map::empty()
    } else {
        object_of(keys, values, (count - 1) as nat).insert(keys[count - 1], values[count - 1])
    }
}

/// `serde_json::from_str`: the value that a JSON text holds.
#[verifier::external_body]
pub(crate) fn json_from_str(text: &str) -> (parsed: Result<Value, serde_json::Error>)
    ensures
        match parsed {
            Ok(value) => json_parsed(text@) == Some(json_model(value)),
            Err(_) => json_parsed(text@) is None,
        },
{
    serde_json::from_str::<Value>(text)
}

/// `serde_json::to_string_pretty`: the indented text of a value.
#[verifier::external_body]
pub(crate) fn json_to_string_pretty(value: &Value) -> (written: Result<String, serde_json::Error>)
    ensures
        match written {
            Ok(text) => json_pretty(json_model(*value)) == Some(text@),
            Err(_) => json_pretty(json_model(*value)) is None,
        },
{
    serde_json::to_string_pretty(value)
}

/// `json_patch::diff`: the operations that lead from `left` to `right`.
#[verifier::external_body]
pub(crate) fn json_diff_values(left: &Value, right: &Value) -> (patch: Patch)
    ensures
        patch_ops(patch) == json_diff(json_model(*left), json_model(*right)),
{
    json_patch::diff(left, right)
}

/// `json_patch::patch`: applies the operations in order; where one fails,
/// the value is left as it was.
#[verifier::external_body]
pub(crate) fn json_apply(doc: &mut Value, patch: &Patch) -> (applied: Result<(), PatchError>)
    ensures
        match applied {
            Ok(_) => json_patched(json_model(*old(doc)), patch_ops(*patch)) == Some(
                json_model(*final(doc)),
            ),
            Err(_) => json_patched(json_model(*old(doc)), patch_ops(*patch)) is None
                && json_model(*final(doc)) == json_model(*old(doc)),
        },
{
    json_patch::patch(doc, patch)
}

/// `Value::String`: the JSON string of a text.
#[verifier::external_body]
pub(crate) fn json_string(text: &str) -> (value: Value)
    ensures
        json_model(value) == Json::Text(text@),
{
    Value::String(text.to_owned())
}

/// `Value::Array`: the JSON array of the values.
#[verifier::external_body]
pub(crate) fn json_array(items: Vec<Value>) -> (value: Value)
    ensures
        json_model(value) == Json::List(models(items@)),
{
    Value::Array(items)
}

/// `serde_json::Map::new`: a map without members.
#[verifier::external_body]
pub(crate) fn members_new() -> (members: serde_json::Map<String, Value>)
    ensures
        json_members(members).dom() == Set::<Seq<char>>::empty(),
{
    serde_json::Map::new()
}

/// `serde_json::Map::insert`: the key has the value from now on, whether it
/// was there before or not.
#[verifier::external_body]
pub(crate) fn members_insert(members: &mut serde_json::Map<String, Value>, key: String, value: Value)
    ensures
        json_members(*final(members)) == json_members(*old(members)).insert(
            key@,
            json_model(value),
        ),
{
    members.insert(key, value);
}

/// `Value::Object`: the JSON object with these members.
#[verifier::external_body]
pub(crate) fn json_from_members(members: serde_json::Map<String, Value>) -> (value: Value)
    ensures
        json_model(value) == Json::Object(json_members(members)),
{
    Value::Object(members)
}

/// `Value::as_str`: the text of a JSON string.
#[verifier::external_body]
pub(crate) fn json_as_str(value: &Value) -> (text: Option<&str>)
    ensures
        match text {
            Some(s) => json_model(*value) == Json::Text(s@),
            None => !(json_model(*value) is Text),
        },
{
    value.as_str()
}

/// `Value::as_array`: the items of a JSON array.
#[verifier::external_body]
pub(crate) fn json_as_array(value: &Value) -> (items: Option<&Vec<Value>>)
    ensures
        match items {
            Some(v) => json_model(*value) == Json::List(models(v@)),
            None => !(json_model(*value) is List),
        },
{
    value.as_array()
}

/// `Value::get` with a key: the member of a JSON object under that key. An
/// object has finitely many keys.
#[verifier::external_body]
pub(crate) fn json_get<'a>(value: &'a Value, key: &str) -> (member: Option<&'a Value>)
    ensures
        match member {
            Some(m) => json_model(*value) is Object && json_model(*value)->Object_0.dom().finite()
                && json_model(*value)->Object_0.contains_key(key@) && json_model(
                *value,
            )->Object_0[key@] == json_model(*m),
            None => !(json_model(*value) is Object && json_model(*value)->Object_0.contains_key(
                key@,
            )),
        },
{
    value.get(key)
}

/// `Map::keys` of `Value::as_object`: the keys of a JSON object, in the
/// order of the map, which is a `BTreeMap`: every key once, ascending by its
/// bytes.
#[verifier::external_body]
pub(crate) fn json_keys(value: &Value) -> (keys: Option<Vec<String>>)
    ensures
        match keys {
            Some(k) => json_model(*value) is Object && texts(k@) == json_key_order(
                json_model(*value),
            ) && lists_keys(json_key_order(json_model(*value)), json_model(*value)->Object_0),
            None => !(json_model(*value) is Object),
        },
{
    value.as_object().map(|object| object.keys().cloned().collect())
}

/// The JSON object with two members.
pub(crate) fn json_object2(k1: &str, v1: Value, k2: &str, v2: Value) -> (value: Value)
    ensures
        json_model(value) == Json::Object(
            Map::empty().insert(k1@, json_model(v1)).insert(k2@, json_model(v2)),
        ),
{
    let mut members = members_new();
    assert(json_members(members) =~= Map::empty());
    members_insert(&mut members, k1.to_owned(), v1);
    members_insert(&mut members, k2.to_owned(), v2);
    json_from_members(members)
}

/// The JSON object with three members.
pub(crate) fn json_object3(k1: &str, v1: Value, k2: &str, v2: Value, k3: &str, v3: Value) -> (value:
    Value)
    ensures
        json_model(value) == Json::Object(
            Map::empty().insert(k1@, json_model(v1)).insert(k2@, json_model(v2)).insert(
                k3@,
                json_model(v3),
            ),
        ),
{
    let mut members = members_new();
    assert(json_members(members) =~= Map::empty());
    members_insert(&mut members, k1.to_owned(), v1);
    members_insert(&mut members, k2.to_owned(), v2);
    members_insert(&mut members, k3.to_owned(), v3);
    json_from_members(members)
}

} // verus!
