//! JSON values out of text, by way of serde_json.

use crate::json;
use crate::json::{Json, Numeral};
use vstd::prelude::*;

verus! {

/// A value of serde_json, carried from where it was parsed to where it is opened.
#[verifier::external_type_specification]
#[verifier::external_body]
pub struct ExValue(serde_json::Value);

/// A number of serde_json.
#[verifier::external_type_specification]
#[verifier::external_body]
pub struct ExNumber(serde_json::Number);

/// Why serde_json refused a text.
#[verifier::external_type_specification]
#[verifier::external_body]
pub struct ExError(serde_json::Error);

/// What a value of serde_json holds: the values in it, each under its key or at its place.
/// The entries of an object stand in the order in which serde_json walks them.
pub uninterp spec fn value_tree(v: serde_json::Value) -> json::Tree;

/// What a number of serde_json holds: its answers to `as_i64`, `as_f64` (by its bits) and
/// `to_string`.
pub uninterp spec fn number_held(n: serde_json::Number) -> json::Num;

/// What serde_json makes of a text: its value, or nothing where it refuses the text.
pub uninterp spec fn json_of(text: Seq<char>) -> Option<json::Tree>;

/// A value of serde_json, opened by one level.
enum Node<'a> {
    Null,
    Bool(bool),
    Number(&'a serde_json::Number),
    Text(&'a String),
    Array(&'a Vec<serde_json::Value>),
    Object(Vec<(&'a String, &'a serde_json::Value)>),
}

/// The value that an opened one is.
spec fn node_tree(n: Node<'_>) -> json::Tree {
    match n {
        Node::Null => json::Tree::Null,
        Node::Bool(b) => json::Tree::Bool(b),
        Node::Number(n) => json::Tree::Number(number_held(*n)),
        Node::Text(s) => json::Tree::Text(s@),
        Node::Array(items) => json::Tree::Array(
            Seq::new(items@.len(), |i: int| value_tree(items@[i])),
        ),
        Node::Object(entries) => json::Tree::Object(
            Seq::new(entries@.len(), |i: int| (entries@[i].0@, value_tree(*entries@[i].1))),
        ),
    }
}

/// A value that is opened is told as what it is: with what it holds, each value in its place and
/// under its key.
proof fn law_told_as_it_is(
    b: bool,
    n: &serde_json::Number,
    s: &String,
    items: &Vec<serde_json::Value>,
    entries: Vec<(&String, &serde_json::Value)>,
    i: int,
)
    ensures
        node_tree(Node::Null) is Null,
        node_tree(Node::Bool(b)) == json::Tree::Bool(b),
        node_tree(Node::Number(n)) == json::Tree::Number(number_held(*n)),
        node_tree(Node::Text(s)) == json::Tree::Text(s@),
        node_tree(Node::Array(items)) matches json::Tree::Array(t) && t.len() == items@.len() && (0
            <= i < t.len() ==> t[i] == value_tree(items@[i])),
        node_tree(Node::Object(entries)) matches json::Tree::Object(t) && t.len() == entries@.len()
            && (0 <= i < t.len() ==> t[i] == (entries@[i].0@, value_tree(*entries@[i].1))),
{
}

/// The variants of `serde_json::Value`, told apart: each field is handed on as it is, and
/// the entries of an object in the order of `serde_json::Map::iter`. Claimed is that these
/// are what the value holds.
#[verifier::external_body]
fn open_value<'a>(v: &'a serde_json::Value) -> (r: Node<'a>)
    ensures
        node_tree(r) == value_tree(*v),
{
    match v {
        serde_json::Value::Null => Node::Null,
        serde_json::Value::Bool(b) => Node::Bool(*b),
        serde_json::Value::Number(n) => Node::Number(n),
        serde_json::Value::String(s) => Node::Text(s),
        serde_json::Value::Array(items) => Node::Array(items),
        serde_json::Value::Object(entries) => Node::Object(entries.iter().collect()),
    }
}

/// `serde_json::Number::as_i64`: the number, where it was read as an integer and an `i64`
/// holds it.
#[verifier::external_body]
fn number_int(n: &serde_json::Number) -> (r: Option<i64>)
    ensures
        r == number_held(*n).int,
{
    n.as_i64()
}

/// `serde_json::Number::as_f64`: the floating-point number that was read, or that an integer is
/// rounded to, handed on by its bits. (What was read need not be the one nearest to the text.)
#[verifier::external_body]
fn number_float(n: &serde_json::Number) -> (r: Option<u64>)
    ensures
        r == number_held(*n).float,
{
    n.as_f64().map(|x| x.to_bits())
}

/// `to_string` of `serde_json::Number`: the number as serde_json prints it.
#[verifier::external_body]
fn number_text(n: &serde_json::Number) -> (r: String)
    ensures
        r@ == number_held(*n).text,
{
    n.to_string()
}

/// `serde_json::from_str` into a `serde_json::Value`. Claimed is that whether it succeeds,
/// and what the value then holds, depends on the text alone.
#[verifier::external_body]
fn read_value(text: &str) -> (r: Result<serde_json::Value, serde_json::Error>)
    ensures
        match r {
            Ok(v) => json_of(text@) == Some(value_tree(v)),
            Err(_) => json_of(text@) is None,
        },
{
    serde_json::from_str(text)
}

impl Json {
    /// The value that a value of serde_json holds.
    pub fn from_value(v: &serde_json::Value) -> (r: Json)
        ensures
            r@ == value_tree(*v),
        decreases value_tree(*v),
    {
        match open_value(v) {
            Node::Null => Json::Null,
            Node::Bool(b) => Json::Bool(b),
            Node::Number(n) => Json::Number(
                Numeral { int: number_int(n), float: number_float(n), text: number_text(n) },
            ),
            Node::Text(s) => Json::Text(s.clone()),
            Node::Array(items) => {
                let ghost tree = value_tree(*v);
                let mut out: Vec<Json> = Vec::new();
                let mut i: usize = 0;
                while i < items.len()
                    invariant
                        tree == value_tree(*v),
                        tree == node_tree(Node::Array(items)),
                        i <= items@.len(),
                        out@.len() == i,
                        forall|j: int|
                            0 <= j < i ==> (#[trigger] out@[j])@ == value_tree(items@[j]),
                    decreases items@.len() - i,
                {
                    assert(tree->Array_0[i as int] == value_tree(items@[i as int]));
                    assert(decreases_to!(tree => tree->Array_0[i as int]));
                    out.push(Json::from_value(&items[i]));
                    i = i + 1;
                }
                let r = Json::Array(out);
                assert(r@->Array_0 =~= tree->Array_0);
                r
            },
            Node::Object(entries) => {
                let ghost tree = value_tree(*v);
                let mut out: Vec<(String, Json)> = Vec::new();
                let mut i: usize = 0;
                while i < entries.len()
                    invariant
                        tree == value_tree(*v),
                        tree == node_tree(Node::Object(entries)),
                        i <= entries@.len(),
                        out@.len() == i,
                        forall|j: int|
                            0 <= j < i ==> (#[trigger] out@[j]).0@ == entries@[j].0@ && out@[j].1@
                                == value_tree(*entries@[j].1),
                    decreases entries@.len() - i,
                {
                    assert(tree->Object_0[i as int].1 == value_tree(*entries@[i as int].1));
                    assert(decreases_to!(tree => tree->Object_0[i as int].1));
                    out.push((entries[i].0.clone(), Json::from_value(entries[i].1)));
                    i = i + 1;
                }
                let r = Json::Object(out);
                assert(r@->Object_0 =~= tree->Object_0);
                r
            },
        }
    }

    /// The value that a text of JSON writes down; nothing where serde_json refuses it.
    pub fn parse(text: &str) -> (r: Option<Json>)
        ensures
            match r {
                Some(j) => json_of(text@) == Some(j@),
                None => json_of(text@) is None,
            },
    {
        match read_value(text) {
            Ok(v) => Some(Json::from_value(&v)),
            Err(_) => None,
        }
    }
}

}
