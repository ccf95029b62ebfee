//! JSON values.
use serde_json::Value;
use vstd::prelude::*;
use crate::num::{decimal, signed_decimal};

verus! {

/// `serde_json::Value`: a JSON value.
#[verifier::external_type_specification]
#[verifier::external_body]
pub struct ExValue(serde_json::Value);

/// What a JSON value holds. A number is its decimal text.
pub enum Tree {
    Null,
    Bool(bool),
    Number(Seq<char>),
    Text(Seq<char>),
    List(Seq<Tree>),
    Object(Map<Seq<char>, Tree>),
}

/// What a JSON value holds.
pub uninterp spec fn tree_of(v: serde_json::Value) -> Tree;

/// What a row of JSON values holds.
pub open spec fn trees(vs: Seq<Value>) -> Seq<Tree> {
    vs.map_values(|v: Value| tree_of(v))
}

/// The fields that a row of pairs gives: of two pairs with one name the later counts.
pub open spec fn fields(ps: Seq<(String, Value)>) -> Map<Seq<char>, Tree>
    decreases ps.len(),
{
    if ps.len() == 0 {
        Map::empty()
    } else {
        fields(ps.drop_last()).insert(ps.last().0@, tree_of(ps.last().1))
    }
}

/// A JSON value, opened.
pub enum Shape {
    Null,
    Bool(bool),
    Number(String),
    Text(String),
    List(Vec<Value>),
    Object(Vec<(String, Value)>),
}

impl Shape {
    /// What the value holds.
    pub open spec fn tree(self) -> Tree {
        match self {
            Shape::Null => Tree::Null,
            Shape::Bool(b) => Tree::Bool(b),
            Shape::Number(n) => Tree::Number(n@),
            Shape::Text(s) => Tree::Text(s@),
            Shape::List(vs) => Tree::List(trees(vs@)),
            Shape::Object(ps) => Tree::Object(fields(ps@)),
        }
    }
}

/// Opens a `serde_json::Value`: one arm for each of its variants. A number gives its
/// `Display` text.
#[verifier::external_body]
pub(crate) fn open(v: Value) -> (r: Shape)
    ensures
        r.tree() == tree_of(v),
{
    match v {
        Value::Null => Shape::Null,
        Value::Bool(b) => Shape::Bool(b),
        Value::Number(n) => Shape::Number(n.to_string()),
        Value::String(s) => Shape::Text(s),
        Value::Array(vs) => Shape::List(vs),
        Value::Object(fs) => Shape::Object(fs.into_iter().collect()),
    }
}

/// `serde_json::Value::Null`.
#[verifier::external_body]
pub(crate) fn null_json() -> (r: Value)
    ensures
        tree_of(r) == Tree::Null,
{
    Value::Null
}

/// `serde_json::Value::Bool`.
#[verifier::external_body]
pub(crate) fn bool_json(b: bool) -> (r: Value)
    ensures
        tree_of(r) == Tree::Bool(b),
{
    Value::Bool(b)
}

/// `serde_json::Value::from` on an integer: the number with the integer's decimal text.
#[verifier::external_body]
pub(crate) fn int_json(n: i64) -> (r: Value)
    ensures
        tree_of(r) == Tree::Number(signed_decimal(n as int)),
{
    Value::from(n)
}

/// `serde_json::Value::from` on an unsigned integer: the number with the integer's
/// decimal text.
#[verifier::external_body]
pub(crate) fn uint_json(n: u64) -> (r: Value)
    ensures
        tree_of(r) == Tree::Number(decimal(n as nat)),
{
    Value::from(n)
}

/// `serde_json::Value::String`.
#[verifier::external_body]
pub(crate) fn text_json(s: String) -> (r: Value)
    ensures
        tree_of(r) == Tree::Text(s@),
{
    Value::String(s)
}

/// `serde_json::Value::Array`.
#[verifier::external_body]
pub(crate) fn list_json(vs: Vec<Value>) -> (r: Value)
    ensures
        tree_of(r) == Tree::List(trees(vs@)),
{
    Value::Array(vs)
}

/// `serde_json::Value::Object` on the map that `serde_json::Map::from_iter` makes of
/// the pairs: of two pairs with one name the later counts.
#[verifier::external_body]
pub(crate) fn object_json(ps: Vec<(String, Value)>) -> (r: Value)
    ensures
        tree_of(r) == Tree::Object(fields(ps@)),
{
    Value::Object(ps.into_iter().collect())
}

/// What a text holds when it is read as JSON, or the message where it is none.
pub uninterp spec fn parsed(text: Seq<char>) -> Result<Tree, Seq<char>>;

/// `serde_json::from_str`: the result depends on the text alone. Which texts are JSON
/// and what the messages say is not stated.
#[verifier::external_body]
pub(crate) fn parse_json(text: &str) -> (r: Result<Value, String>)
    ensures
        match r {
            Ok(v) => parsed(text@) == Ok::<Tree, Seq<char>>(tree_of(v)),
            Err(e) => parsed(text@) == Err::<Tree, Seq<char>>(e@),
        },
{
    serde_json::from_str(text).map_err(|e| e.to_string())
}

/// What a text holds when it is read as JSON values behind one another, or the message
/// where it is none.
pub uninterp spec fn parsed_all(text: Seq<char>) -> Result<Seq<Tree>, Seq<char>>;

/// `serde_json::Deserializer::into_iter` on a text, to its end or its first error: the
/// values depend on the text alone. Which texts are JSON and what the messages say is
/// not stated.
#[verifier::external_body]
pub(crate) fn parse_all_json(text: &str) -> (r: Result<Vec<Value>, String>)
    ensures
        match r {
            Ok(vs) => parsed_all(text@) == Ok::<Seq<Tree>, Seq<char>>(trees(vs@)),
            Err(e) => parsed_all(text@) == Err::<Seq<Tree>, Seq<char>>(e@),
        },
{
    let values = serde_json::Deserializer::from_str(text).into_iter::<Value>();
    values.collect::<Result<Vec<Value>, serde_json::Error>>().map_err(|e| e.to_string())
}

/// What bytes hold when they are read as JSON, or the message where they are none.
pub uninterp spec fn parsed_bytes(bytes: Seq<u8>) -> Result<Tree, Seq<char>>;

/// `serde_json::from_slice`: the result depends on the bytes alone. Which bytes are
/// JSON and what the messages say is not stated.
#[verifier::external_body]
pub(crate) fn parse_json_bytes(bytes: &[u8]) -> (r: Result<Value, String>)
    ensures
        match r {
            Ok(v) => parsed_bytes(bytes@) == Ok::<Tree, Seq<char>>(tree_of(v)),
            Err(e) => parsed_bytes(bytes@) == Err::<Tree, Seq<char>>(e@),
        },
{
    serde_json::from_slice(bytes).map_err(|e| e.to_string())
}

/// The JSON text of a value, on one line; nothing where it has none.
pub uninterp spec fn compact(t: Tree) -> Option<Seq<char>>;

/// `serde_json::to_string`: the result depends on what the value holds alone. How a
/// value is written is not stated.
#[verifier::external_body]
pub(crate) fn write_compact(v: &Value) -> (r: Option<String>)
    ensures
        match r {
            Some(s) => compact(tree_of(*v)) == Some(s@),
            None => compact(tree_of(*v)) is None,
        },
{
    serde_json::to_string(v).ok()
}

/// The JSON text of a value, on indented lines; nothing where it has none.
pub uninterp spec fn pretty(t: Tree) -> Option<Seq<char>>;

/// `serde_json::to_string_pretty`: the result depends on what the value holds alone.
/// How a value is written is not stated.
#[verifier::external_body]
pub(crate) fn write_pretty(v: &Value) -> (r: Option<String>)
    ensures
        match r {
            Some(s) => pretty(tree_of(*v)) == Some(s@),
            None => pretty(tree_of(*v)) is None,
        },
{
    serde_json::to_string_pretty(v).ok()
}

/// The bytes of the JSON text of a value; nothing where it has none.
pub uninterp spec fn json_bytes(t: Tree) -> Option<Seq<u8>>;

/// `serde_json::to_vec`: the result depends on what the value holds alone. How a
/// value is written is not stated.
#[verifier::external_body]
pub(crate) fn write_bytes(v: &Value) -> (r: Option<Vec<u8>>)
    ensures
        match r {
            Some(b) => json_bytes(tree_of(*v)) == Some(b@),
            None => json_bytes(tree_of(*v)) is None,
        },
{
    serde_json::to_vec(v).ok()
}

/// A pair behind a row of pairs sets its field.
pub proof fn lemma_fields_push(ps: Seq<(String, Value)>, p: (String, Value))
    ensures
        fields(ps.push(p)) == fields(ps).insert(p.0@, tree_of(p.1)),
{
    assert(ps.push(p).drop_last() =~= ps);
}

} // verus!
