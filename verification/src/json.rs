//! JSON values.
use vstd::prelude::*;

use crate::text;

verus! {

/// A JSON value. The members of an object stand in ascending order of their names, each name once.
#[derive(Debug, PartialEq, Eq)]
pub enum Json {
    Null,
    Bool(bool),
    /// A number, by its text.
    Number(String),
    Text(String),
    Array(Vec<Json>),
    Object(Vec<Member>),
}

/// A member of a JSON object.
#[derive(Debug, PartialEq, Eq)]
pub struct Member {
    pub name: String,
    pub value: Json,
}

/// The value that a JSON value stands for.
pub enum JsonView {
    Null,
    Bool(bool),
    Number(Seq<char>),
    Text(Seq<char>),
    Array(Seq<JsonView>),
    Object(Seq<(Seq<char>, JsonView)>),
}

/// The value of a JSON value.
pub open spec fn value_of(j: Json) -> JsonView
    decreases j,
{
    match j {
        Json::Null => JsonView::Null,
        Json::Bool(b) => JsonView::Bool(b),
        Json::Number(n) => JsonView::Number(n@),
        Json::Text(s) => JsonView::Text(s@),
        Json::Array(items) => JsonView::Array(
            Seq::new(
                items@.len(),
                |i: int|
                    if 0 <= i < items@.len() {
                        value_of(items@[i])
                    } else {
                        JsonView::Null
                    },
            ),
        ),
        Json::Object(members) => JsonView::Object(
            Seq::new(
                members@.len(),
                |i: int|
                    if 0 <= i < members@.len() {
                        (members@[i].name@, value_of(members@[i].value))
                    } else {
                        (Seq::empty(), JsonView::Null)
                    },
            ),
        ),
    }
}

/// The value that a text encodes, if it is a JSON text.
pub uninterp spec fn json_value(text: Seq<char>) -> Option<JsonView>;

/// `serde_json::Value`, the tree that a JSON text is read into.
#[verifier::external_type_specification]
#[verifier::external_body]
pub struct ExValue(serde_json::Value);

/// `serde_json::Value` as a [`Json`]: each variant becomes the one of the same meaning, with its
/// members in the order of the tree.
#[verifier::external_body]
fn from_tree(tree: serde_json::Value) -> Json {
    match tree {
        serde_json::Value::Null => Json::Null,
        serde_json::Value::Bool(b) => Json::Bool(b),
        serde_json::Value::Number(n) => Json::Number(n.to_string()),
        serde_json::Value::String(s) => Json::Text(s),
        serde_json::Value::Array(items) => Json::Array(items.into_iter().map(from_tree).collect()),
        serde_json::Value::Object(map) => Json::Object(
            map.into_iter().map(|(name, value)| Member { name, value: from_tree(value) }).collect(),
        ),
    }
}

/// `serde_json::from_str` into a `serde_json::Value`: the value that the text encodes, or nothing
/// where it is no JSON text. Which texts those are, and what they encode, is left to the format.
#[verifier::external_body]
pub(crate) fn parse_json(text: &str) -> (r: Option<Json>)
    ensures
        match r {
            Some(j) => json_value(text@) == Some(value_of(j)),
            None => json_value(text@) is None,
        },
{
    serde_json::from_str::<serde_json::Value>(text).ok().map(from_tree)
}

/// The value of the first member at or after `from` with this name.
pub open spec fn member_from(members: Seq<(Seq<char>, JsonView)>, name: Seq<char>, from: int) -> Option<JsonView>
    decreases members.len() - from,
{
    if from >= members.len() {
        None
    } else if members[from].0 == name {
        Some(members[from].1)
    } else {
        member_from(members, name, from + 1)
    }
}

/// The member of an object with this name: none of a value that is no object.
pub open spec fn member(j: JsonView, name: Seq<char>) -> Option<JsonView> {
    match j {
        JsonView::Object(members) => member_from(members, name, 0),
        _ => None,
    }
}

impl Json {
    /// The member of an object with this name.
    pub fn get(&self, name: &str) -> (r: Option<&Json>)
        ensures
            match r {
                Some(j) => member(value_of(*self), name@) == Some(value_of(*j)),
                None => member(value_of(*self), name@) is None,
            },
    {
        match self {
            Json::Object(members) => {
                let ghost mv = match value_of(*self) {
                    JsonView::Object(m) => m,
                    _ => Seq::empty(),
                };
                let mut i: usize = 0;
                while i < members.len()
                    invariant
                        i <= members@.len(),
                        mv.len() == members@.len(),
                        forall|k: int|
                            0 <= k < mv.len() ==> (#[trigger] mv[k]) == (
                                members@[k].name@,
                                value_of(members@[k].value),
                            ),
                        member(value_of(*self), name@) == member_from(mv, name@, i as int),
                    decreases members@.len() - i,
                {
                    assert(mv[i as int].0 == members@[i as int].name@);
                    if text::same(members[i].name.as_str(), name) {
                        return Some(&members[i].value);
                    }
                    i = i + 1;
                }
                None
            },
            _ => None,
        }
    }
}

} // verus!
