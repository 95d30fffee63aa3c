//! Node keys.
use std::any::TypeId;
use vstd::prelude::*;
use vstd::string::*;

verus! {

/// `std`'s identifier of a type.
#[verifier::external_type_specification]
#[verifier::external_body]
pub struct ExTypeId(std::any::TypeId);

/// What `{:?}` prints of a type identifier.
pub uninterp spec fn type_id_text(id: TypeId) -> Seq<char>;

/// What `{:?}` prints of a text: the text in double quotes, with escapes.
pub uninterp spec fn quoted(text: Seq<char>) -> Seq<char>;

/// `std::any::TypeId`'s `==`: whether both identify the same type.
#[verifier::external_body]
fn same_type(a: &TypeId, b: &TypeId) -> (r: bool)
    ensures
        r == (*a == *b),
{
    a == b
}

/// `format!` of a `std::any::TypeId` with `{:?}`: the text that the identifier prints as.
#[verifier::external_body]
fn print_type_id(id: &TypeId) -> (r: String)
    ensures
        r@ == type_id_text(*id),
{
    format!("{:?}", id)
}

/// `format!` of a `str` with `{:?}`: the text quoted and escaped.
#[verifier::external_body]
fn print_quoted(text: &str) -> (r: String)
    ensures
        r@ == quoted(text@),
{
    format!("{:?}", text)
}

/// What tells nodes apart: the type of a node and its serialized payload.
#[derive(Debug, PartialEq, Eq, Hash)]
pub struct NodeKey {
    pub kind: TypeId,
    pub data: String,
}

/// The value of a node key.
pub struct KeyView {
    pub kind: TypeId,
    pub data: Seq<char>,
}

impl View for NodeKey {
    type V = KeyView;

    open spec fn view(&self) -> KeyView {
        KeyView { kind: self.kind, data: self.data@ }
    }
}

impl Clone for NodeKey {
    fn clone(&self) -> (r: Self)
        ensures
            r == *self,
    {
        NodeKey { kind: self.kind, data: self.data.clone() }
    }
}

impl KeyView {
    /// How a key is written in messages and in a status.
    pub open spec fn text(self) -> Seq<char> {
        "NodeKey { kind: "@ + type_id_text(self.kind) + ", data: "@ + quoted(self.data) + " }"@
    }
}

impl NodeKey {
    /// The key of a node of the given type whose payload serializes to `data`.
    pub fn from_value(kind: TypeId, data: String) -> (key: Self)
        ensures
            key@ == (KeyView { kind, data: data@ }),
    {
        NodeKey { kind, data }
    }

    /// Whether two keys are the same.
    pub fn same(&self, other: &NodeKey) -> (r: bool)
        ensures
            r == (self@ == other@),
    {
        same_type(&self.kind, &other.kind) && self.data == other.data
    }

    /// The key as messages and a status show it.
    pub fn text(&self) -> (r: String)
        ensures
            r@ == self@.text(),
    {
        let mut text = "NodeKey { kind: ".to_string();
        text.append(print_type_id(&self.kind).as_str());
        text.append(", data: ");
        text.append(print_quoted(self.data.as_str()).as_str());
        text.append(" }");
        text
    }
}

/// A key is its kind and its data, and is written with both.
pub proof fn keys_are_written_with_kind_and_data(key: NodeKey)
    ensures
        key@.kind == key.kind,
        key@.data == key.data@,
        key@.text() == "NodeKey { kind: "@ + type_id_text(key.kind) + ", data: "@ + quoted(
            key.data@,
        ) + " }"@,
{
}

}
