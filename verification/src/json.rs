//! JSON documents as far as the library reads them.

use vstd::prelude::*;
use crate::error::ServiceError;

verus! {

/// A JSON value as the contracts see it.
///
/// An object is the sequence of its members, each a name and a value. Of a
/// number only its presence is kept: no number is ever read.
pub enum JsonValue {
    Null,
    Bool(bool),
    Number,
    Text(Seq<char>),
    Array(Seq<JsonValue>),
    Object(Seq<(Seq<char>, JsonValue)>),
}

/// A member of a JSON object.
#[derive(Debug, PartialEq, Eq)]
pub struct Member {
    pub name: String,
    pub value: Json,
}

/// A JSON value.
#[derive(Debug, PartialEq, Eq)]
pub enum Json {
    Null,
    Bool(bool),
    Number,
    Text(String),
    Array(Vec<Json>),
    Object(Vec<Member>),
}

/// What a JSON value holds, as the contracts see it.
pub open spec fn value_of(json: &Json) -> JsonValue
    decreases json,
{
    match json {
        Json::Null => JsonValue::Null,
        Json::Bool(b) => JsonValue::Bool(*b),
        Json::Number => JsonValue::Number,
        Json::Text(text) => JsonValue::Text(text@),
        Json::Array(items) => JsonValue::Array(
            Seq::new(
                items@.len(),
                |i: int|
                    if 0 <= i < items@.len() {
                        value_of(&items@[i])
                    } else {
                        JsonValue::Null
                    },
            ),
        ),
        Json::Object(members) => JsonValue::Object(
            Seq::new(
                members@.len(),
                |i: int|
                    if 0 <= i < members@.len() {
                        (members@[i].name@, value_of(&members@[i].value))
                    } else {
                        (Seq::empty(), JsonValue::Null)
                    },
            ),
        ),
    }
}

impl View for Json {
    type V = JsonValue;

    open spec fn view(&self) -> JsonValue {
        value_of(self)
    }
}

/// The value that `members` give to `name`: that of the last member of
/// that name, `None` where there is no such member.
pub open spec fn member_value(members: Seq<(Seq<char>, JsonValue)>, name: Seq<char>) -> Option<
    JsonValue,
>
    decreases members.len(),
{
    if members.len() == 0 {
        None
    } else if members.last().0 == name {
        Some(members.last().1)
    } else {
        member_value(members.drop_last(), name)
    }
}

impl JsonValue {
    /// The value of the member `name` of an object; `None` for an object
    /// without such a member and for a value that is no object.
    pub open spec fn field(self, name: Seq<char>) -> Option<JsonValue> {
        match self {
            JsonValue::Object(members) => member_value(members, name),
            _ => None,
        }
    }
}

impl Json {
    /// The value of the member `name` of an object; `None` for an object
    /// without such a member and for a value that is no object.
    pub fn field(&self, name: &str) -> (found: Option<&Json>)
        ensures
            match found {
                Some(value) => self@.field(name@) == Some(value@),
                None => self@.field(name@) is None,
            },
    {
        match self {
            Json::Object(members) => {
                let wanted = name.to_owned();
                let ghost all = self@->Object_0;
                let mut i: usize = members.len();
                assert(all.take(i as int) =~= all);
                while i > 0
                    invariant
                        i <= members@.len(),
                        self@ == JsonValue::Object(all),
                        all.len() == members@.len(),
                        forall|k: int|
                            0 <= k < all.len() ==> #[trigger] all[k] == (
                                members@[k].name@,
                                members@[k].value@,
                            ),
                        wanted@ == name@,
                        member_value(all, name@) == member_value(all.take(i as int), name@),
                    decreases i,
                {
                    i -= 1;
                    assert(all.take(i + 1).last() == all[i as int]);
                    assert(all.take(i + 1).drop_last() =~= all.take(i as int));
                    if members[i].name == wanted {
                        return Some(&members[i].value);
                    }
                }
                assert(all.take(0).len() == 0);
                None
            },
            _ => None,
        }
    }
}

/// `serde_json::Value`, of which nothing is seen but through `split`.
#[verifier::external_type_specification]
#[verifier::external_body]
pub struct ExSerdeJsonValue(serde_json::Value);

/// `serde_json::Error`, of which nothing is read.
#[verifier::external_type_specification]
#[verifier::external_body]
pub struct ExSerdeJsonError(serde_json::Error);

/// The deepest that a document may nest arrays and objects. `serde_json`
/// reads no document that nests as deep as this.
pub const MAX_DEPTH: usize = 128;

/// `value` nests arrays and objects no deeper than `levels`: a value that
/// is neither nests within no level, an array or an object within one level
/// more than the values in it.
pub open spec fn nests_within(value: JsonValue, levels: nat) -> bool
    decreases levels,
{
    match value {
        JsonValue::Array(items) => levels > 0 && forall|i: int|
            0 <= i < items.len() ==> nests_within(#[trigger] items[i], (levels - 1) as nat),
        JsonValue::Object(members) => levels > 0 && forall|i: int|
            0 <= i < members.len() ==> nests_within((#[trigger] members[i]).1, (levels - 1) as nat),
        _ => true,
    }
}

/// The value that `serde_json::from_str` reads from `text` as a
/// `serde_json::Value`; `None` where it reports an error.
pub uninterp spec fn json_document(text: Seq<char>) -> Option<JsonValue>;

/// What a `serde_json::Value` holds.
pub uninterp spec fn json_content(value: serde_json::Value) -> JsonValue;

/// The document that is read from `text`: what `serde_json` reads from it,
/// unless that nests deeper than `MAX_DEPTH`.
pub open spec fn document_of(text: Seq<char>) -> Option<JsonValue> {
    match json_document(text) {
        Some(document) => if nests_within(document, MAX_DEPTH as nat) {
            Some(document)
        } else {
            None
        },
        None => None,
    }
}

/// One level of a `serde_json::Value`: which of the six it is, and what it
/// holds. The values in an array or an object are left as they are.
enum Node {
    Null,
    Bool(bool),
    Number,
    Text(String),
    Array(Vec<serde_json::Value>),
    Object(Vec<(String, serde_json::Value)>),
}

/// What a value holds whose one level is `node`.
spec fn node_content(node: Node) -> JsonValue {
    match node {
        Node::Null => JsonValue::Null,
        Node::Bool(b) => JsonValue::Bool(b),
        Node::Number => JsonValue::Number,
        Node::Text(text) => JsonValue::Text(text@),
        Node::Array(items) => JsonValue::Array(
            Seq::new(items@.len(), |i: int| json_content(items@[i])),
        ),
        Node::Object(members) => JsonValue::Object(
            Seq::new(members@.len(), |i: int| (members@[i].0@, json_content(members@[i].1))),
        ),
    }
}

/// `serde_json::from_str`, reading a `serde_json::Value`. The contract
/// gives what was read a name, `json_document`, and claims no more than
/// that the same text is always read as a value that holds the same.
#[verifier::external_body]
fn read_value(text: &str) -> (read: Result<serde_json::Value, serde_json::Error>)
    ensures
        match read {
            Ok(value) => json_document(text@) == Some(json_content(value)),
            Err(_) => json_document(text@) is None,
        },
{
    serde_json::from_str::<serde_json::Value>(text)
}

/// Takes a `serde_json::Value` apart, one arm for each of its variants. The
/// contract says what `json_content` is: a null, a boolean, a number and a
/// string hold themselves, the number without its value; an array holds
/// what its items hold, in their order; an object holds its members, each
/// the name with what the value holds, in the order in which
/// `serde_json::Map` hands them out.
#[verifier::external_body]
fn split(value: serde_json::Value) -> (node: Node)
    ensures
        json_content(value) == node_content(node),
{
    match value {
        serde_json::Value::Null => Node::Null,
        serde_json::Value::Bool(b) => Node::Bool(b),
        serde_json::Value::Number(_) => Node::Number,
        serde_json::Value::String(text) => Node::Text(text),
        serde_json::Value::Array(items) => Node::Array(items),
        serde_json::Value::Object(map) => Node::Object(map.into_iter().collect()),
    }
}

/// An array nests deeper than each of its items.
proof fn lemma_array_as_deep_as_item(items: Seq<JsonValue>, levels: nat, i: int)
    requires
        0 <= i < items.len(),
        levels > 0 ==> !nests_within(items[i], (levels - 1) as nat),
    ensures
        !nests_within(JsonValue::Array(items), levels),
{
    let array = JsonValue::Array(items);
    if nests_within(array, levels) {
        assert(array->Array_0 == items);
        assert(forall|k: int|
            0 <= k < items.len() ==> nests_within(#[trigger] items[k], (levels - 1) as nat));
        assert(nests_within(items[i], (levels - 1) as nat));
    }
}

/// An object nests deeper than the value of each of its members.
proof fn lemma_object_as_deep_as_member(
    members: Seq<(Seq<char>, JsonValue)>,
    levels: nat,
    i: int,
)
    requires
        0 <= i < members.len(),
        levels > 0 ==> !nests_within(members[i].1, (levels - 1) as nat),
    ensures
        !nests_within(JsonValue::Object(members), levels),
{
    let object = JsonValue::Object(members);
    if nests_within(object, levels) {
        assert(object->Object_0 == members);
        assert(forall|k: int|
            0 <= k < members.len() ==> nests_within(
                (#[trigger] members[k]).1,
                (levels - 1) as nat,
            ));
        assert(nests_within(members[i].1, (levels - 1) as nat));
    }
}

/// Moves what a `serde_json::Value` holds into a `Json`, unless it nests
/// deeper than `levels`.
fn lift(value: serde_json::Value, levels: usize) -> (lifted: Option<Json>)
    ensures
        match lifted {
            Some(json) => json@ == json_content(value) && nests_within(json@, levels as nat),
            None => !nests_within(json_content(value), levels as nat),
        },
    decreases levels,
{
    let ghost content = json_content(value);
    match split(value) {
        Node::Null => Some(Json::Null),
        Node::Bool(b) => Some(Json::Bool(b)),
        Node::Number => Some(Json::Number),
        Node::Text(text) => Some(Json::Text(text)),
        Node::Array(items) => {
            if levels == 0 {
                return None;
            }
            let ghost inside = content->Array_0;
            let mut rest = items;
            let mut lifted: Vec<Json> = Vec::new();
            while rest.len() > 0
                invariant
                    levels > 0,
                    content == json_content(value),
                    content == JsonValue::Array(inside),
                    rest@.len() + lifted@.len() == inside.len(),
                    forall|k: int|
                        0 <= k < rest@.len() ==> json_content(#[trigger] rest@[k]) == inside[k],
                    forall|k: int|
                        0 <= k < lifted@.len() ==> (#[trigger] lifted@[k])@ == inside[inside.len()
                            - 1 - k] && nests_within(lifted@[k]@, (levels - 1) as nat),
                decreases rest@.len(),
            {
                let item = rest.pop().unwrap();
                match lift(item, levels - 1) {
                    Some(json) => {
                        lifted.push(json);
                    },
                    None => {
                        proof {
                            lemma_array_as_deep_as_item(inside, levels as nat, rest@.len() as int);
                        }
                        return None;
                    },
                }
            }
            let items = reversed(lifted);
            let json = Json::Array(items);
            proof {
                assert(json@->Array_0 =~= inside);
            }
            Some(json)
        },
        Node::Object(members) => {
            if levels == 0 {
                return None;
            }
            let ghost inside = content->Object_0;
            let mut rest = members;
            let mut lifted: Vec<Member> = Vec::new();
            while rest.len() > 0
                invariant
                    levels > 0,
                    content == json_content(value),
                    content == JsonValue::Object(inside),
                    rest@.len() + lifted@.len() == inside.len(),
                    forall|k: int|
                        0 <= k < rest@.len() ==> ((#[trigger] rest@[k]).0@, json_content(rest@[k].1))
                            == inside[k],
                    forall|k: int|
                        0 <= k < lifted@.len() ==> ((#[trigger] lifted@[k]).name@, lifted@[k].value@)
                            == inside[inside.len() - 1 - k] && nests_within(
                            lifted@[k].value@,
                            (levels - 1) as nat,
                        ),
                decreases rest@.len(),
            {
                let (name, value) = rest.pop().unwrap();
                match lift(value, levels - 1) {
                    Some(json) => {
                        lifted.push(Member { name, value: json });
                    },
                    None => {
                        proof {
                            lemma_object_as_deep_as_member(
                                inside,
                                levels as nat,
                                rest@.len() as int,
                            );
                        }
                        return None;
                    },
                }
            }
            let members = reversed(lifted);
            let json = Json::Object(members);
            proof {
                assert(json@->Object_0 =~= inside);
            }
            Some(json)
        },
    }
}

/// The items of `items`, the last first.
fn reversed<T>(items: Vec<T>) -> (turned: Vec<T>)
    ensures
        turned@ == items@.reverse(),
{
    let ghost all = items@;
    let mut rest = items;
    let mut turned: Vec<T> = Vec::new();
    while rest.len() > 0
        invariant
            rest@.len() + turned@.len() == all.len(),
            forall|k: int| 0 <= k < rest@.len() ==> #[trigger] rest@[k] == all[k],
            forall|k: int| 0 <= k < turned@.len() ==> #[trigger] turned@[k] == all[all.len() - 1 - k],
        decreases rest@.len(),
    {
        let item = rest.pop().unwrap();
        turned.push(item);
    }
    assert(turned@ =~= all.reverse());
    turned
}

/// Reads a JSON document.
///
/// Fails with `ParseFailure` where `text` is no JSON, or nests arrays and
/// objects deeper than `MAX_DEPTH`.
pub fn parse_json(text: &str) -> (parsed: Result<Json, ServiceError>)
    ensures
        match parsed {
            Ok(json) => document_of(text@) == Some(json@),
            Err(error) => error == ServiceError::ParseFailure && document_of(text@) is None,
        },
{
    match read_value(text) {
        Ok(value) => match lift(value, MAX_DEPTH) {
            Some(json) => Ok(json),
            None => Err(ServiceError::ParseFailure),
        },
        Err(_) => Err(ServiceError::ParseFailure),
    }
}

} // verus!
