//! What the tools of the agent have in common: who may call them, and the JSON schemas of their
//! inputs.

use vstd::prelude::*;

use crate::json::{
    fields_view, json_str, lemma_fields_view, lemma_list_view, list_view, Json, JsonV,
};
use crate::text::owned;

verus! {

broadcast use vstd::string::group_string_axioms;

/// Who runs an agent loop.
#[derive(Clone, Copy, Debug, PartialEq, Eq, Structural)]
pub enum AgentKind {
    /// The agent that talks with the user.
    Lead,
    /// A nested agent with a bounded number of turns.
    Subagent,
    /// A persistent agent of the team.
    Teammate,
}

/// What a tool says of a call before it runs.
#[derive(Debug)]
pub enum PermissionCheck {
    /// The call may run.
    Pass,
    /// The user decides, for the reason given.
    NeedsApproval(String),
}

/// The schema of a value of the JSON type `kind`.
pub open spec fn typed_v(kind: Seq<char>) -> JsonV {
    JsonV::Object(seq![("type"@, JsonV::Text(kind))])
}

/// The schema of a boolean that is `value` where it is left out.
pub open spec fn flag_v(value: bool) -> JsonV {
    JsonV::Object(seq![("type"@, JsonV::Text("boolean"@)), ("default"@, JsonV::Bool(value))])
}

/// The schema of an object with these properties, of which `required` must be there.
pub open spec fn schema_v(
    properties: Seq<(Seq<char>, JsonV)>,
    required: Seq<JsonV>,
) -> JsonV {
    JsonV::Object(
        seq![
            ("type"@, JsonV::Text("object"@)),
            ("properties"@, JsonV::Object(properties)),
            ("required"@, JsonV::Array(required)),
        ],
    )
}

/// The object with these fields.
pub(crate) fn object(fields: Vec<(String, Json)>) -> (r: Json)
    ensures
        r@ == JsonV::Object(fields_view(fields@)),
{
    Json::Object(fields)
}

/// Puts a field behind the others.
pub(crate) fn put(fields: &mut Vec<(String, Json)>, key: &str, value: Json)
    ensures
        fields_view(final(fields)@) == fields_view(old(fields)@).push((key@, value@)),
{
    let ghost before = fields@;
    fields.push((owned(key), value));
    proof {
        lemma_fields_view(before);
        lemma_fields_view(fields@);
        assert(fields_view(fields@) =~= fields_view(before).push((key@, value@)));
    }
}

/// Puts a text behind the other elements.
pub(crate) fn put_text(items: &mut Vec<Json>, text: &str)
    ensures
        list_view(final(items)@) == list_view(old(items)@).push(JsonV::Text(text@)),
{
    let ghost before = items@;
    items.push(json_str(text));
    proof {
        lemma_list_view(before);
        lemma_list_view(items@);
        assert(list_view(items@) =~= list_view(before).push(JsonV::Text(text@)));
    }
}

/// The schema of a value of the JSON type `kind`.
pub fn typed(kind: &str) -> (r: Json)
    ensures
        r@ == typed_v(kind@),
{
    let mut fields: Vec<(String, Json)> = Vec::new();
    put(&mut fields, "type", json_str(kind));
    assert(fields_view(fields@) =~= seq![("type"@, JsonV::Text(kind@))]);
    object(fields)
}

/// The schema of a boolean that is `value` where it is left out.
pub fn flag(value: bool) -> (r: Json)
    ensures
        r@ == flag_v(value),
{
    let mut fields: Vec<(String, Json)> = Vec::new();
    put(&mut fields, "type", json_str("boolean"));
    put(&mut fields, "default", Json::Bool(value));
    assert(fields_view(fields@) =~= seq![
        ("type"@, JsonV::Text("boolean"@)),
        ("default"@, JsonV::Bool(value)),
    ]);
    object(fields)
}

/// The schema of an object with these properties, of which `required` must be there.
pub fn schema(properties: Vec<(String, Json)>, required: Vec<Json>) -> (r: Json)
    ensures
        r@ == schema_v(fields_view(properties@), list_view(required@)),
{
    let ghost props = fields_view(properties@);
    let ghost req = list_view(required@);
    let mut fields: Vec<(String, Json)> = Vec::new();
    put(&mut fields, "type", json_str("object"));
    put(&mut fields, "properties", Json::Object(properties));
    put(&mut fields, "required", Json::Array(required));
    assert(fields_view(fields@) =~= seq![
        ("type"@, JsonV::Text("object"@)),
        ("properties"@, JsonV::Object(props)),
        ("required"@, JsonV::Array(req)),
    ]);
    object(fields)
}

} // verus!
