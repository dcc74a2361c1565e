//! JSON values as far as the library reads them, and the JSON text of a flat object.
use vstd::prelude::*;

use crate::text_map;
use crate::text_map::TextMap;

verus! {

/// A JSON value. Of a number the library holds the text, of a nested value only that it is one.
#[derive(Debug, Clone, PartialEq, Eq)]
pub enum JsonValue {
    Null,
    Bool(bool),
    Number(String),
    Text(String),
    Array,
    Object,
}

/// What a JSON value is, without its representation.
pub enum JsonModel {
    Null,
    Bool(bool),
    Number(Seq<char>),
    Text(Seq<char>),
    Array,
    Object,
}

impl View for JsonValue {
    type V = JsonModel;

    open spec fn view(&self) -> JsonModel {
        match self {
            JsonValue::Null => JsonModel::Null,
            JsonValue::Bool(b) => JsonModel::Bool(*b),
            JsonValue::Number(s) => JsonModel::Number(s@),
            JsonValue::Text(s) => JsonModel::Text(s@),
            JsonValue::Array => JsonModel::Array,
            JsonValue::Object => JsonModel::Object,
        }
    }
}

impl JsonModel {
    /// Whether the value is an array or an object.
    pub open spec fn is_nested(self) -> bool {
        self is Array || self is Object
    }

    /// The text of a scalar; none for an array or an object.
    pub open spec fn scalar_text(self) -> Option<Seq<char>> {
        match self {
            JsonModel::Text(s) => Some(s),
            JsonModel::Number(s) => Some(s),
            JsonModel::Bool(b) => Some(
                if b {
                    "true"@
                } else {
                    "false"@
                },
            ),
            JsonModel::Null => Some(Seq::empty()),
            JsonModel::Array => None,
            JsonModel::Object => None,
        }
    }
}

impl JsonValue {
    /// Whether the value is an array or an object.
    pub fn is_nested(&self) -> (r: bool)
        ensures
            r == self@.is_nested(),
    {
        matches!(self, JsonValue::Array | JsonValue::Object)
    }

    /// The text of a scalar; none for an array or an object.
    pub fn scalar_to_string(&self) -> (r: Option<String>)
        ensures
            match self@.scalar_text() {
                Some(t) => r is Some && r->0@ == t,
                None => r is None,
            },
    {
        match self {
            JsonValue::Text(s) => Some(s.clone()),
            JsonValue::Number(s) => Some(s.clone()),
            JsonValue::Bool(b) => Some(
                if *b {
                    "true".to_string()
                } else {
                    "false".to_string()
                },
            ),
            JsonValue::Null => Some(String::new()),
            JsonValue::Array => None,
            JsonValue::Object => None,
        }
    }

    /// A value equal to this one.
    pub fn copy(&self) -> (r: JsonValue)
        ensures
            r == *self,
    {
        match self {
            JsonValue::Null => JsonValue::Null,
            JsonValue::Bool(b) => JsonValue::Bool(*b),
            JsonValue::Number(s) => JsonValue::Number(s.clone()),
            JsonValue::Text(s) => JsonValue::Text(s.clone()),
            JsonValue::Array => JsonValue::Array,
            JsonValue::Object => JsonValue::Object,
        }
    }
}

/// The names and values of a list of fields.
pub open spec fn field_models(v: Seq<(String, JsonValue)>) -> Seq<(Seq<char>, JsonModel)> {
    Seq::new(v.len(), |i: int| (v[i].0@, v[i].1@))
}

/// What `serde_json::from_slice` makes of a JSON text: what it says is wrong where the text is
/// no JSON, else the fields of the value where that is an object.
pub uninterp spec fn json_outcome(
    json: Seq<u8>,
) -> Result<Option<Seq<(Seq<char>, JsonModel)>>, Seq<char>>;

/// `serde_json::from_slice` into a `serde_json::Value`, of which the fields are handed out
/// where it is an object, and the text of whose error is handed out where there is one. The
/// outcome is a function of the text alone; the fields come in the order of their names, none of
/// them twice.
#[verifier::external_body]
fn read_document(json: &[u8]) -> (r: Result<Option<Vec<(String, JsonValue)>>, String>)
    ensures
        match r {
            Err(message) => json_outcome(json@) == Err::<
                Option<Seq<(Seq<char>, JsonModel)>>,
                Seq<char>,
            >(message@),
            Ok(None) => json_outcome(json@) == Ok::<
                Option<Seq<(Seq<char>, JsonModel)>>,
                Seq<char>,
            >(None),
            Ok(Some(v)) => json_outcome(json@) == Ok::<
                Option<Seq<(Seq<char>, JsonModel)>>,
                Seq<char>,
            >(Some(field_models(v@))) && text_map::is_ordered(field_models(v@)),
        },
{
    let value: serde_json::Value = serde_json::from_slice(json).map_err(|e| e.to_string())?;
    let serde_json::Value::Object(map) = value else {
        return Ok(None);
    };
    let convert = |value: serde_json::Value| match value {
        serde_json::Value::Null => JsonValue::Null,
        serde_json::Value::Bool(b) => JsonValue::Bool(b),
        serde_json::Value::Number(n) => JsonValue::Number(n.to_string()),
        serde_json::Value::String(s) => JsonValue::Text(s),
        serde_json::Value::Array(_) => JsonValue::Array,
        serde_json::Value::Object(_) => JsonValue::Object,
    };
    Ok(Some(map.into_iter().map(|(name, value)| (name, convert(value))).collect()))
}

/// What is read of a JSON text: nothing where the text is no JSON, else the fields of the value
/// where that is an object.
pub open spec fn json_document(json: Seq<u8>) -> Option<Option<Seq<(Seq<char>, JsonModel)>>> {
    match json_outcome(json) {
        Ok(doc) => Some(doc),
        Err(_) => None,
    }
}

/// Whether a text is JSON.
pub open spec fn is_json(s: Seq<char>) -> bool {
    json_document(vstd::utf8::encode_utf8(s)) is Some
}

/// Whether the field with the given number in the object that a JSON text holds is the number
/// that is written `t`.
pub open spec fn is_number_at(json: Seq<u8>, i: int, t: Seq<char>) -> bool {
    match json_document(json) {
        Some(Some(fields)) => 0 <= i < fields.len() && fields[i].1 == JsonModel::Number(t),
        _ => false,
    }
}

/// Whether `t` is how some number that was read from JSON is written.
pub open spec fn is_number(t: Seq<char>) -> bool {
    exists|json: Seq<u8>, i: int| is_number_at(json, i, t)
}

/// Whether the numbers among the given fields are written like numbers that were read.
pub open spec fn has_read_numbers(fields: Seq<(Seq<char>, JsonModel)>) -> bool {
    forall|i: int|
        0 <= i < fields.len() ==> ((#[trigger] fields[i]).1 matches JsonModel::Number(t)
            ==> is_number(t))
}

/// Whether none of the given fields has a nested value.
pub open spec fn is_flat(fields: Seq<(Seq<char>, JsonModel)>) -> bool {
    forall|i: int| 0 <= i < fields.len() ==> !(#[trigger] fields[i]).1.is_nested()
}

/// Numbers that were read are written as such.
pub proof fn lemma_read_numbers(json: Seq<u8>)
    ensures
        json_document(json) matches Some(Some(fields)) ==> has_read_numbers(fields),
{
    if let Some(Some(fields)) = json_document(json) {
        assert forall|i: int| 0 <= i < fields.len() implies (
        (#[trigger] fields[i]).1 matches JsonModel::Number(t) ==> is_number(t)) by {
            if let JsonModel::Number(t) = fields[i].1 {
                assert(is_number_at(json, i, t));
            }
        }
    }
}

/// The name that `serde_json` keeps for itself: an object whose first name it is stands for the
/// JSON that its value is the text of.
pub open spec fn raw_name() -> Seq<char> {
    "$serde_json::private::RawValue"@
}

/// Whether an object with the given entries, which are written in the order of their names,
/// does not start with the name that `serde_json` keeps for itself.
pub open spec fn is_plain<V>(fields: Seq<(Seq<char>, V)>) -> bool {
    let written = text_map::put_all(fields);
    written.len() > 0 ==> written[0].0 != raw_name()
}

/// The JSON text that `serde_json::to_string` writes of an object with the given fields.
pub uninterp spec fn json_object_text(fields: Seq<(Seq<char>, JsonModel)>) -> Seq<char>;

/// `serde_json::to_string` of an object with the given fields: a function of their names and
/// values alone. Unless the object starts with the name that `serde_json` keeps for itself,
/// `serde_json::from_slice` reads the text; and where also no value is nested and the numbers
/// are written as `serde_json` writes them, it reads the same fields from it, each with the
/// last value that was given for it.
#[verifier::external_body]
fn write_object(fields: &Vec<(String, JsonValue)>) -> (r: String)
    ensures
        r@ == json_object_text(field_models(fields@)),
        is_plain(field_models(fields@)) ==> is_json(r@),
        is_plain(field_models(fields@)) && is_flat(field_models(fields@)) && has_read_numbers(
            field_models(fields@),
        ) ==> json_document(vstd::utf8::encode_utf8(r@)) == Some(
            Some(text_map::put_all(field_models(fields@))),
        ),
{
    let convert = |value: &JsonValue| match value {
        JsonValue::Null => serde_json::Value::Null,
        JsonValue::Bool(b) => serde_json::Value::Bool(*b),
        JsonValue::Number(text) => text.parse().map_or(serde_json::Value::Null, serde_json::Value::Number),
        JsonValue::Text(s) => serde_json::Value::String(s.clone()),
        JsonValue::Array => serde_json::Value::Array(Vec::new()),
        JsonValue::Object => serde_json::Value::Object(serde_json::Map::new()),
    };
    let map: serde_json::Map<String, serde_json::Value> =
        fields.iter().map(|(name, value)| (name.clone(), convert(value))).collect();
    serde_json::to_string(&map).unwrap_or_default()
}

/// The names and values of the entries of a map.
pub open spec fn json_fields(s: Seq<(Seq<char>, JsonValue)>) -> Seq<(Seq<char>, JsonModel)> {
    Seq::new(s.len(), |i: int| (s[i].0, s[i].1@))
}

/// Fields stand in the order in which the entries of the map stand.
pub proof fn lemma_json_fields(s: Seq<(Seq<char>, JsonValue)>, name: Seq<char>)
    requires
        text_map::is_ordered(s),
    ensures
        text_map::is_ordered(json_fields(s)),
        text_map::value_of(json_fields(s), name) == (match text_map::value_of(s, name) {
            Some(v) => Some(v@),
            None => None,
        }),
{
    let m = json_fields(s);
    assert forall|i: int, j: int| 0 <= i < j < m.len() implies crate::text::text_lt(
        (#[trigger] m[i]).0,
        (#[trigger] m[j]).0,
    ) by {
        assert(crate::text::text_lt(s[i].0, s[j].0));
    }
    if text_map::has_key(s, name) {
        let i = choose|i: int| text_map::is_key_at(s, name, i);
        assert(text_map::is_key_at(m, name, i));
        text_map::lemma_value_of(m, i);
    } else if text_map::has_key(m, name) {
        let i = choose|i: int| text_map::is_key_at(m, name, i);
        assert(text_map::is_key_at(s, name, i));
    }
}

/// The value of the field `name`, where there is one.
pub fn field_value<'a>(fields: &'a TextMap<JsonValue>, name: &str) -> (r: Option<&'a JsonValue>)
    requires
        fields.wf(),
    ensures
        match text_map::value_of(json_fields(fields@), name@) {
            Some(m) => r is Some && r->0@ == m,
            None => r is None,
        },
{
    proof {
        lemma_json_fields(fields@, name@);
    }
    fields.get(name)
}

/// A JSON text that was read: the fields of an object, or any other value.
#[derive(Debug, Clone)]
pub enum JsonDocument {
    Object(TextMap<JsonValue>),
    Other,
}

impl JsonDocument {
    /// The fields stand in the order of their names, none of them twice.
    pub open spec fn wf(&self) -> bool {
        match self {
            JsonDocument::Object(fields) => fields.wf(),
            JsonDocument::Other => true,
        }
    }
}

impl View for JsonDocument {
    type V = Option<Seq<(Seq<char>, JsonModel)>>;

    open spec fn view(&self) -> Option<Seq<(Seq<char>, JsonModel)>> {
        match self {
            JsonDocument::Object(fields) => Some(json_fields(fields@)),
            JsonDocument::Other => None,
        }
    }
}

/// Reads a JSON text, or says what is wrong with it.
pub fn parse_json(json: &[u8]) -> (r: Result<JsonDocument, String>)
    ensures
        match json_outcome(json@) {
            Ok(doc) => r is Ok && r->Ok_0.wf() && r->Ok_0@ == doc,
            Err(message) => r is Err && r->Err_0@ == message,
        },
{
    match read_document(json) {
        Err(message) => Err(message),
        Ok(None) => Ok(JsonDocument::Other),
        Ok(Some(v)) => {
            proof {
                let e = text_map::entry_views(v@);
                let m = field_models(v@);
                assert forall|i: int, j: int| 0 <= i < j < e.len() implies crate::text::text_lt(
                    (#[trigger] e[i]).0,
                    (#[trigger] e[j]).0,
                ) by {
                    assert(crate::text::text_lt(m[i].0, m[j].0));
                }
                assert(json_fields(e) =~= m);
            }
            Ok(JsonDocument::Object(TextMap::from_ordered(v)))
        },
    }
}

/// The JSON text of an object with the given fields.
pub fn object_json(fields: &Vec<(String, JsonValue)>) -> (r: String)
    ensures
        r@ == json_object_text(field_models(fields@)),
        is_plain(field_models(fields@)) ==> is_json(r@),
        is_plain(field_models(fields@)) && is_flat(field_models(fields@)) && has_read_numbers(
            field_models(fields@),
        ) ==> json_document(vstd::utf8::encode_utf8(r@)) == Some(
            Some(text_map::put_all(field_models(fields@))),
        ),
{
    write_object(fields)
}

/// The JSON text of an object with the given fields.
pub fn document_json(fields: &TextMap<JsonValue>) -> (r: String)
    ensures
        r@ == json_object_text(json_fields(fields@)),
        is_plain(json_fields(fields@)) ==> is_json(r@),
        is_plain(json_fields(fields@)) && is_flat(json_fields(fields@)) && has_read_numbers(
            json_fields(fields@),
        ) ==> json_document(vstd::utf8::encode_utf8(r@)) == Some(
            Some(text_map::put_all(json_fields(fields@))),
        ),
{
    let mut list: Vec<(String, JsonValue)> = Vec::new();
    let mut i: usize = 0;
    while i < fields.len()
        invariant
            i <= fields@.len(),
            field_models(list@) == json_fields(fields@).take(i as int),
        decreases fields@.len() - i,
    {
        let ghost before = list@;
        list.push((fields.key_at(i).clone(), fields.value_at(i).copy()));
        proof {
            let all = json_fields(fields@);
            assert(field_models(before).len() == i);
            assert forall|k: int| 0 <= k < i implies field_models(list@)[k] == all[k] by {
                assert(field_models(before)[k] == all.take(i as int)[k]);
                assert(list@[k] == before[k]);
            }
            assert(field_models(list@) =~= all.take(i + 1));
        }
        i = i + 1;
    }
    assert(json_fields(fields@).take(i as int) =~= json_fields(fields@));
    write_object(&list)
}

/// The names and texts of a list of fields.
pub open spec fn text_pairs(v: Seq<(String, String)>) -> Seq<(Seq<char>, Seq<char>)> {
    Seq::new(v.len(), |i: int| (v[i].0@, v[i].1@))
}

/// Fields whose values are texts.
pub open spec fn text_values(
    s: Seq<(Seq<char>, Seq<char>)>,
) -> Seq<(Seq<char>, JsonModel)> {
    Seq::new(s.len(), |i: int| (s[i].0, JsonModel::Text(s[i].1)))
}

/// The JSON text that `serde_json::to_vec_pretty` writes of an object with the given texts.
pub uninterp spec fn json_pretty_text(fields: Seq<(Seq<char>, Seq<char>)>) -> Seq<u8>;

/// `serde_json::to_vec_pretty` of an object with the given texts: a function of their names and
/// of the texts alone. Where the names stand in order, none of them twice, and the first is not
/// the one that `serde_json` keeps for itself, `serde_json::from_slice` reads the same fields
/// from it.
#[verifier::external_body]
fn write_pretty(fields: &Vec<(String, String)>) -> (r: Vec<u8>)
    ensures
        r@ == json_pretty_text(text_pairs(fields@)),
        text_map::is_ordered(text_pairs(fields@)) && is_plain(text_pairs(fields@))
            ==> json_document(r@) == Some(Some(text_values(text_pairs(fields@)))),
{
    let map: serde_json::Map<String, serde_json::Value> = fields.iter().map(
        |(name, value)| (name.clone(), serde_json::Value::String(value.clone())),
    ).collect();
    serde_json::to_vec_pretty(&map).unwrap_or_default()
}

/// The JSON text of an object with the given texts, laid out for readers.
pub fn pretty_json(fields: &Vec<(String, String)>) -> (r: Vec<u8>)
    ensures
        r@ == json_pretty_text(text_pairs(fields@)),
        text_map::is_ordered(text_pairs(fields@)) && is_plain(text_pairs(fields@))
            ==> json_document(r@) == Some(Some(text_values(text_pairs(fields@)))),
{
    write_pretty(fields)
}

/// A scalar is found by its text: a text by itself, a number by its digits, a truth value by its
/// name, and nothing by the empty text. Two scalars of the same sort have the same text only where
/// they are the same. What is nested has none.
pub proof fn law_scalar_text(a: JsonModel, b: JsonModel)
    ensures
        a matches JsonModel::Text(s) ==> a.scalar_text() == Some(s),
        a matches JsonModel::Number(s) ==> a.scalar_text() == Some(s),
        a matches JsonModel::Bool(x) ==> a.scalar_text() == Some(
            if x {
                "true"@
            } else {
                "false"@
            },
        ),
        a is Null ==> a.scalar_text() == Some(Seq::<char>::empty()),
        a is Array || a is Object <==> a.scalar_text() is None,
        a is Bool && b is Bool && a.scalar_text() == b.scalar_text() ==> a == b,
        a is Text && b is Text && a.scalar_text() == b.scalar_text() ==> a == b,
        a is Number && b is Number && a.scalar_text() == b.scalar_text() ==> a == b,
{
    reveal_strlit("true");
    reveal_strlit("false");
    assert("true"@[0] != "false"@[0]);
}

} // verus!
