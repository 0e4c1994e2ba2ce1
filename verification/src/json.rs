//! JSON documents as plain values.
use crate::text::{first_bound, lemma_first_bound_at, position_of_key};
use vstd::prelude::*;

verus! {

/// Mathematical model of a JSON document.
pub enum JsonModel {
    Null,
    Bool(bool),
    Number(Option<int>),
    Text(Seq<char>),
    Array(Seq<JsonModel>),
    Object(Seq<(Seq<char>, JsonModel)>),
}

/// A JSON document held as plain values.
#[derive(Debug)]
pub enum Json {
    Null,
    Bool(bool),
    Number(Option<i64>),
    Text(String),
    Array(Vec<Json>),
    Object(Vec<(String, Json)>),
}

/// The document that `j` holds.
pub open spec fn json_model(j: Json) -> JsonModel
    decreases j,
{
    match j {
        Json::Null => JsonModel::Null,
        Json::Bool(b) => JsonModel::Bool(b),
        Json::Number(n) => JsonModel::Number(
            match n {
                Some(i) => Some(i as int),
                None => None,
            },
        ),
        Json::Text(s) => JsonModel::Text(s@),
        Json::Array(items) => JsonModel::Array(
            Seq::new(
                items@.len(),
                |i: int| if 0 <= i < items@.len() { json_model(items@[i]) } else { JsonModel::Null },
            ),
        ),
        Json::Object(members) => JsonModel::Object(
            Seq::new(
                members@.len(),
                |i: int|
                    if 0 <= i < members@.len() {
                        (members@[i].0@, json_model(members@[i].1))
                    } else {
                        (Seq::empty(), JsonModel::Null)
                    },
            ),
        ),
    }
}

impl View for Json {
    type V = JsonModel;

    open spec fn view(&self) -> JsonModel {
        json_model(*self)
    }
}

/// `serde_json::Value`, carried through as an opaque value.
#[verifier::external_type_specification]
#[verifier::external_body]
pub struct ExJsonValue(serde_json::Value);

/// `serde_json::Error`, carried through as an opaque value.
#[verifier::external_type_specification]
#[verifier::external_body]
pub struct ExJsonError(serde_json::Error);

/// The document that `serde_json::from_slice` reads from `text`, or `None`
/// where it rejects the text.
pub uninterp spec fn json_document(text: Seq<u8>) -> Option<JsonModel>;

/// What a `serde_json::Value` holds.
pub uninterp spec fn json_content(value: serde_json::Value) -> JsonModel;

/// `serde_json::from_slice::<serde_json::Value>`: parses `text` as one JSON
/// document. The contract only names the outcome: success is tied to
/// `json_document(text)` being `Some`, and the value read to its content.
#[verifier::external_body]
fn json_from_slice(text: &[u8]) -> (r: Result<serde_json::Value, serde_json::Error>)
    ensures
        match r {
            Ok(v) => json_document(text@) == Some(json_content(v)),
            Err(_) => json_document(text@) is None,
        },
{
    serde_json::from_slice::<serde_json::Value>(text)
}

/// Moves a `serde_json::Value` into a [`Json`], variant by variant; a number
/// goes through `serde_json::Number::as_i64`, so one that is no 64-bit signed
/// integer is held as `None`. The contract states that the result models what
/// the value holds.
#[verifier::external_body]
fn json_from_value(value: serde_json::Value) -> (r: Json)
    ensures
        r@ == json_content(value),
{
    match value {
        serde_json::Value::Null => Json::Null,
        serde_json::Value::Bool(b) => Json::Bool(b),
        serde_json::Value::Number(n) => Json::Number(n.as_i64()),
        serde_json::Value::String(s) => Json::Text(s),
        serde_json::Value::Array(a) => Json::Array(a.into_iter().map(json_from_value).collect()),
        serde_json::Value::Object(o) => Json::Object(
            o.into_iter().map(|(k, v)| (k, json_from_value(v))).collect(),
        ),
    }
}

/// Parses `text` as one JSON document.
pub fn parse_json(text: &[u8]) -> (r: Option<Json>)
    ensures
        r.is_some() == json_document(text@).is_some(),
        r matches Some(j) ==> Some(j@) == json_document(text@),
{
    match json_from_slice(text) {
        Ok(v) => Some(json_from_value(v)),
        Err(_) => None,
    }
}

/// The value of the first member of `members` named `key`.
pub open spec fn find_member(members: Seq<(Seq<char>, JsonModel)>, key: Seq<char>) -> Option<JsonModel> {
    first_bound(members, key)
}

impl JsonModel {
    /// The member named `key`, where this is an object that has one.
    pub open spec fn member(self, key: Seq<char>) -> Option<JsonModel> {
        match self {
            JsonModel::Object(members) => find_member(members, key),
            _ => None,
        }
    }

    pub open spec fn as_object(self) -> Option<Seq<(Seq<char>, JsonModel)>> {
        match self {
            JsonModel::Object(members) => Some(members),
            _ => None,
        }
    }

    pub open spec fn as_text(self) -> Option<Seq<char>> {
        match self {
            JsonModel::Text(s) => Some(s),
            _ => None,
        }
    }

    /// The number, where this is one that fits a 64-bit signed integer.
    pub open spec fn as_int(self) -> Option<int> {
        match self {
            JsonModel::Number(n) => n,
            _ => None,
        }
    }
}

/// The models of the members of an object.
pub open spec fn members_model(members: Seq<(String, Json)>) -> Seq<(Seq<char>, JsonModel)> {
    Seq::new(
        members.len(),
        |i: int| if 0 <= i < members.len() { (members[i].0@, members[i].1@) } else { (Seq::empty(), JsonModel::Null) },
    )
}

/// The model of an object lists the models of its members.
pub proof fn lemma_object_view(j: Json)
    requires
        j is Object,
    ensures
        j@ == JsonModel::Object(members_model(j->Object_0@)),
{
    let members = j->Object_0;
    let a = Seq::new(
        members@.len(),
        |i: int|
            if 0 <= i < members@.len() {
                (members@[i].0@, members@[i].1@)
            } else {
                (Seq::empty(), JsonModel::Null)
            },
    );
    assert(a =~= members_model(members@));
    assert(j@->Object_0 =~= a);
}

/// The value of the first member of `members` named `key`.
pub fn lookup_member<'a>(members: &'a Vec<(String, Json)>, key: &str) -> (r: Option<&'a Json>)
    ensures
        match r {
            Some(j) => find_member(members_model(members@), key@) == Some(j@),
            None => find_member(members_model(members@), key@) is None,
        },
{
    let ghost m = members_model(members@);
    match position_of_key(members, key) {
        Some(i) => {
            proof {
                assert forall|j: int| 0 <= j < i implies (#[trigger] m[j]).0 != key@ by {
                    assert(m[j].0 == members@[j].0@);
                }
                lemma_first_bound_at(m, key@, i as int);
            }
            Some(&members[i].1)
        },
        None => {
            proof {
                assert forall|j: int| 0 <= j < m.len() implies (#[trigger] m[j]).0 != key@ by {
                    assert(m[j].0 == members@[j].0@);
                }
                lemma_first_bound_at(m, key@, m.len() as int);
            }
            None
        },
    }
}

impl Json {
    /// The member named `key`, where this is an object that has one.
    pub fn member(&self, key: &str) -> (r: Option<&Json>)
        ensures
            match r {
                Some(j) => self@.member(key@) == Some(j@),
                None => self@.member(key@) is None,
            },
    {
        match self {
            Json::Object(members) => {
                proof {
                    lemma_object_view(*self);
                }
                lookup_member(members, key)
            },
            _ => None,
        }
    }

    pub fn as_object(&self) -> (r: Option<&Vec<(String, Json)>>)
        ensures
            match r {
                Some(members) => self@.as_object() == Some(members_model(members@)),
                None => self@.as_object() is None,
            },
    {
        match self {
            Json::Object(members) => {
                proof {
                    lemma_object_view(*self);
                }
                Some(members)
            },
            _ => None,
        }
    }

    pub fn as_text(&self) -> (r: Option<&String>)
        ensures
            match r {
                Some(s) => self@.as_text() == Some(s@),
                None => self@.as_text() is None,
            },
    {
        match self {
            Json::Text(s) => Some(s),
            _ => None,
        }
    }

    /// The number, where this is one that fits a 64-bit signed integer.
    pub fn as_int(&self) -> (r: Option<i64>)
        ensures
            match r {
                Some(n) => self@.as_int() == Some(n as int),
                None => self@.as_int() is None,
            },
    {
        match self {
            Json::Number(Some(n)) => Some(*n),
            _ => None,
        }
    }
}

} // verus!
