//! JSON values as plain data, and the calls into `serde_json` that read and write their text.

use vstd::prelude::*;

use crate::text::str_eq;

verus! {

/// A JSON value. A number is kept by the integer it is, or by its text where it is no integer
/// that 64 bits hold. In a value that was read, that text is the one `serde_json` prints for the
/// number, and is read back as that number: the crate is built with the feature `float_roundtrip`,
/// which reads exactly. In a value that was put together by hand it may be any text: it is then written as the
/// JSON value that it reads as, and as `null` where it reads as none.
#[derive(Debug, PartialEq)]
pub enum Json {
    Null,
    Bool(bool),
    Int(i64),
    UInt(u64),
    Real(String),
    Text(String),
    Array(Vec<Json>),
    Object(Vec<(String, Json)>),
}

/// The mathematical value of a [`Json`].
#[verifier::ext_equal]
pub enum JsonV {
    Null,
    Bool(bool),
    Int(i64),
    UInt(u64),
    Real(Seq<char>),
    Text(Seq<char>),
    Array(Seq<JsonV>),
    Object(Seq<(Seq<char>, JsonV)>),
}

/// The values of a list.
pub open spec fn list_view(s: Seq<Json>) -> Seq<JsonV>
    decreases s,
{
    if s.len() == 0 {
        Seq::empty()
    } else {
        list_view(s.drop_last()).push(json_view(s.last()))
    }
}

/// The fields of an object.
pub open spec fn fields_view(s: Seq<(String, Json)>) -> Seq<(Seq<char>, JsonV)>
    decreases s,
{
    if s.len() == 0 {
        Seq::empty()
    } else {
        fields_view(s.drop_last()).push((s.last().0@, json_view(s.last().1)))
    }
}

/// The mathematical value.
pub open spec fn json_view(j: Json) -> JsonV
    decreases j,
{
    match j {
        Json::Null => JsonV::Null,
        Json::Bool(b) => JsonV::Bool(b),
        Json::Int(n) => JsonV::Int(n),
        Json::UInt(n) => JsonV::UInt(n),
        Json::Real(t) => JsonV::Real(t@),
        Json::Text(t) => JsonV::Text(t@),
        Json::Array(v) => JsonV::Array(list_view(v@)),
        Json::Object(v) => JsonV::Object(fields_view(v@)),
    }
}

impl View for Json {
    type V = JsonV;

    open spec fn view(&self) -> JsonV {
        json_view(*self)
    }
}

impl DeepView for Json {
    type V = JsonV;

    open spec fn deep_view(&self) -> JsonV {
        json_view(*self)
    }
}

/// A list's values stand where its elements stand.
pub proof fn lemma_list_view(s: Seq<Json>)
    ensures
        list_view(s).len() == s.len(),
        forall|i: int| 0 <= i < s.len() ==> (#[trigger] list_view(s)[i]) == s[i]@,
    decreases s.len(),
{
    if s.len() > 0 {
        lemma_list_view(s.drop_last());
        assert forall|i: int| 0 <= i < s.len() implies (#[trigger] list_view(s)[i]) == s[i]@ by {
            if i < s.len() - 1 {
                assert(s.drop_last()[i] == s[i]);
            }
        }
    }
}

/// An object's field values stand where its fields stand.
pub proof fn lemma_fields_view(s: Seq<(String, Json)>)
    ensures
        fields_view(s).len() == s.len(),
        forall|i: int|
            0 <= i < s.len() ==> (#[trigger] fields_view(s)[i]) == (s[i].0@, s[i].1@),
    decreases s.len(),
{
    if s.len() > 0 {
        lemma_fields_view(s.drop_last());
        assert forall|i: int| 0 <= i < s.len() implies (#[trigger] fields_view(s)[i]) == (
            s[i].0@,
            s[i].1@,
        ) by {
            if i < s.len() - 1 {
                assert(s.drop_last()[i] == s[i]);
            }
        }
    }
}

// ---- reading values ----

/// The index of the first field named `key`, or the number of fields where there is none.
pub open spec fn field_index(fields: Seq<(Seq<char>, JsonV)>, key: Seq<char>) -> int
    decreases fields.len(),
{
    if fields.len() == 0 {
        0
    } else if fields[0].0 == key {
        0
    } else {
        1 + field_index(fields.skip(1), key)
    }
}

/// The value of the field `key`, where `v` is an object that has it.
pub open spec fn field(v: JsonV, key: Seq<char>) -> Option<JsonV> {
    match v {
        JsonV::Object(fields) => if field_index(fields, key) < fields.len() {
            Some(fields[field_index(fields, key)].1)
        } else {
            None
        },
        _ => None,
    }
}

/// The text, where `v` is one.
pub open spec fn text_of(v: JsonV) -> Option<Seq<char>> {
    match v {
        JsonV::Text(t) => Some(t),
        _ => None,
    }
}

/// The boolean, where `v` is one.
pub open spec fn bool_of(v: JsonV) -> Option<bool> {
    match v {
        JsonV::Bool(b) => Some(b),
        _ => None,
    }
}

/// The integer, where `v` is one that fits in 64 bits with a sign.
pub open spec fn int_of(v: JsonV) -> Option<i64> {
    match v {
        JsonV::Int(n) => Some(n),
        JsonV::UInt(n) => if n <= i64::MAX {
            Some(n as i64)
        } else {
            None
        },
        _ => None,
    }
}

/// The elements, where `v` is an array.
pub open spec fn array_of(v: JsonV) -> Option<Seq<JsonV>> {
    match v {
        JsonV::Array(items) => Some(items),
        _ => None,
    }
}

/// The text of the field `key`, where there is one.
pub open spec fn text_field(v: JsonV, key: Seq<char>) -> Option<Seq<char>> {
    match field(v, key) {
        Some(f) => text_of(f),
        None => None,
    }
}

impl Json {
    /// The value of the field `key`, where this is an object that has it.
    pub fn get(&self, key: &str) -> (r: Option<&Json>)
        ensures
            match r {
                Some(f) => field(self@, key@) == Some(f@),
                None => field(self@, key@) is None,
            },
    {
        match self {
            Json::Object(fields) => {
                proof {
                    lemma_fields_view(fields@);
                }
                let ghost all = fields_view(fields@);
                let mut i: usize = 0;
                assert(all.skip(0) =~= all);
                while i < fields.len()
                    invariant
                        i <= fields@.len(),
                        self@ == JsonV::Object(all),
                        all == fields_view(fields@),
                        all.len() == fields@.len(),
                        forall|k: int|
                            0 <= k < fields@.len() ==> (#[trigger] all[k]) == (
                                fields@[k].0@,
                                fields@[k].1@,
                            ),
                        field_index(all, key@) == i + field_index(all.skip(i as int), key@),
                    decreases fields@.len() - i,
                {
                    assert(all.skip(i as int)[0] == all[i as int]);
                    assert(all.skip(i as int).skip(1) =~= all.skip(i + 1));
                    if str_eq(fields[i].0.as_str(), key) {
                        return Some(&fields[i].1);
                    }
                    i = i + 1;
                }
                None
            },
            _ => None,
        }
    }

    /// The text, where this is one.
    pub fn as_str(&self) -> (r: Option<&str>)
        ensures
            match r {
                Some(t) => text_of(self@) == Some(t@),
                None => text_of(self@) is None,
            },
    {
        match self {
            Json::Text(t) => Some(t.as_str()),
            _ => None,
        }
    }

    /// The boolean, where this is one.
    pub fn as_bool(&self) -> (r: Option<bool>)
        ensures
            r == bool_of(self@),
    {
        match self {
            Json::Bool(b) => Some(*b),
            _ => None,
        }
    }

    /// The integer, where this is one that fits.
    pub fn as_i64(&self) -> (r: Option<i64>)
        ensures
            r == int_of(self@),
    {
        match self {
            Json::Int(n) => Some(*n),
            Json::UInt(n) => if *n <= i64::MAX as u64 {
                Some(*n as i64)
            } else {
                None
            },
            _ => None,
        }
    }

    /// The text of the field `key`, where there is one.
    pub fn str_field(&self, key: &str) -> (r: Option<&str>)
        ensures
            match r {
                Some(t) => text_field(self@, key@) == Some(t@),
                None => text_field(self@, key@) is None,
            },
    {
        match self.get(key) {
            Some(f) => f.as_str(),
            None => None,
        }
    }

    /// A copy of the value.
    pub fn dup(&self) -> (r: Json)
        ensures
            r@ == self@,
        decreases self,
    {
        match self {
            Json::Null => Json::Null,
            Json::Bool(b) => Json::Bool(*b),
            Json::Int(n) => Json::Int(*n),
            Json::UInt(n) => Json::UInt(*n),
            Json::Real(t) => Json::Real(t.clone()),
            Json::Text(t) => Json::Text(t.clone()),
            Json::Array(v) => {
                let mut out: Vec<Json> = Vec::new();
                let mut i: usize = 0;
                while i < v.len()
                    invariant
                        self == Json::Array(*v),
                        i <= v@.len(),
                        list_view(out@) == list_view(v@.take(i as int)),
                    decreases v@.len() - i,
                {
                    proof {
                        assert(decreases_to!(self => self->Array_0));
                        assert(decreases_to!(v => v@));
                        assert(decreases_to!(v@ => v@[i as int]));
                    }
                    let x = v[i].dup();
                    assert(out@.push(x).drop_last() =~= out@);
                    assert(v@.take(i + 1).drop_last() =~= v@.take(i as int));
                    out.push(x);
                    i = i + 1;
                }
                assert(v@.take(v@.len() as int) =~= v@);
                Json::Array(out)
            },
            Json::Object(v) => {
                let mut out: Vec<(String, Json)> = Vec::new();
                let mut i: usize = 0;
                while i < v.len()
                    invariant
                        self == Json::Object(*v),
                        i <= v@.len(),
                        fields_view(out@) == fields_view(v@.take(i as int)),
                    decreases v@.len() - i,
                {
                    proof {
                        assert(decreases_to!(self => self->Object_0));
                        assert(decreases_to!(v => v@));
                        assert(decreases_to!(v@ => v@[i as int]));
                        assert(decreases_to!(v@[i as int] => v@[i as int].1));
                    }
                    let x = v[i].1.dup();
                    let k = v[i].0.clone();
                    assert(out@.push((k, x)).drop_last() =~= out@);
                    assert(v@.take(i + 1).drop_last() =~= v@.take(i as int));
                    out.push((k, x));
                    i = i + 1;
                }
                assert(v@.take(v@.len() as int) =~= v@);
                Json::Object(out)
            },
        }
    }
}

impl Clone for Json {
    fn clone(&self) -> (r: Self)
        ensures
            r@ == self@,
    {
        self.dup()
    }
}

/// The text value of `s`.
pub fn json_str(s: &str) -> (r: Json)
    ensures
        r@ == JsonV::Text(s@),
{
    Json::Text(crate::text::owned(s))
}

// ---- serde_json ----

#[verifier::external_type_specification]
#[verifier::external_body]
pub struct ExValue(serde_json::Value);

/// Converts a `serde_json::Value` field by field into a [`Json`].
#[verifier::external_body]
fn from_value(v: serde_json::Value) -> Json {
    match v {
        serde_json::Value::Null => Json::Null,
        serde_json::Value::Bool(b) => Json::Bool(b),
        serde_json::Value::Number(n) => match (n.as_i64(), n.as_u64()) {
            (Some(i), _) => Json::Int(i),
            (None, Some(u)) => Json::UInt(u),
            (None, None) => Json::Real(n.to_string()),
        },
        serde_json::Value::String(s) => Json::Text(s),
        serde_json::Value::Array(a) => Json::Array(a.into_iter().map(from_value).collect()),
        serde_json::Value::Object(m) => {
            Json::Object(m.into_iter().map(|(k, v)| (k, from_value(v))).collect())
        },
    }
}

/// Converts a [`Json`] field by field into a `serde_json::Value`. The text of a number that is no
/// 64-bit integer is read by `serde_json::from_str`; a text that it cannot read becomes `null`.
#[verifier::external_body]
fn to_value(v: &Json) -> serde_json::Value {
    match v {
        Json::Null => serde_json::Value::Null,
        Json::Bool(b) => serde_json::Value::Bool(*b),
        Json::Int(n) => serde_json::Value::from(*n),
        Json::UInt(n) => serde_json::Value::from(*n),
        Json::Real(t) => serde_json::from_str(t).unwrap_or(serde_json::Value::Null),
        Json::Text(t) => serde_json::Value::String(t.clone()),
        Json::Array(a) => serde_json::Value::Array(a.iter().map(to_value).collect()),
        Json::Object(m) => {
            serde_json::Value::Object(m.iter().map(|f| (f.0.clone(), to_value(&f.1))).collect())
        },
    }
}

/// The value that `serde_json::from_str` reads from the whole of a text, if it reads one.
pub uninterp spec fn json_parse(s: Seq<char>) -> Option<JsonV>;

/// `serde_json::from_str::<Value>`: the value that the text as a whole denotes; `None` where it
/// is not JSON. The reading is a function of the text alone.
#[verifier::external_body]
pub(crate) fn parse_json(s: &str) -> (r: Option<Json>)
    ensures
        r.deep_view() == json_parse(s@),
{
    serde_json::from_str::<serde_json::Value>(s).ok().map(from_value)
}

/// The first value that a `serde_json` stream reads from the start of a text, if it reads one.
pub uninterp spec fn json_prefix(s: Seq<char>) -> Option<JsonV>;

/// `serde_json::Deserializer::from_str(..).into_iter::<Value>().next()`: the first value of the
/// text, whatever follows it; `None` where the text does not begin with a value. The reading is a
/// function of the text alone.
#[verifier::external_body]
pub(crate) fn parse_json_prefix(s: &str) -> (r: Option<Json>)
    ensures
        r.deep_view() == json_prefix(s@),
{
    let mut values = serde_json::Deserializer::from_str(s).into_iter::<serde_json::Value>();
    values.next().and_then(|v| v.ok()).map(from_value)
}

/// The compact text that `serde_json` writes for a value.
pub uninterp spec fn json_compact(v: JsonV) -> Seq<char>;

/// `serde_json::Value::to_string`: the compact text of the value, a function of the value alone.
#[verifier::external_body]
pub(crate) fn json_text(v: &Json) -> (r: String)
    ensures
        r@ == json_compact(v@),
{
    to_value(v).to_string()
}

/// The indented text that `serde_json` writes for a value.
pub uninterp spec fn json_pretty(v: JsonV) -> Seq<char>;

/// `serde_json::to_string_pretty`: the indented text of the value, a function of the value alone.
#[verifier::external_body]
pub(crate) fn json_pretty_text(v: &Json) -> (r: String)
    ensures
        r@ == json_pretty(v@),
{
    serde_json::to_string_pretty(&to_value(v)).unwrap_or_default()
}

} // verus!
