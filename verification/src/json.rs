//! JSON values of `serde_json`, seen as trees.

use vstd::prelude::*;

verus! {

/// What a JSON value holds.
pub ghost enum Tree {
    Null,
    Bool(bool),
    /// A whole number that a `u64` holds.
    Unsigned(u64),
    /// A whole number below zero that an `i64` holds.
    Negative(i64),
    /// Any other number, by the bits of its double-precision form.
    Number(u64),
    Text(Seq<char>),
    List(Seq<Tree>),
    Object(Map<Seq<char>, Tree>),
}

#[verifier::external_type_specification]
#[verifier::external_body]
pub struct ExValue(serde_json::Value);

/// The contents of a JSON value.
pub uninterp spec fn tree(v: serde_json::Value) -> Tree;

/// What `serde_json::from_str` reads in a text: a value, or why there is none.
pub uninterp spec fn parsed(text: Seq<char>) -> Result<Tree, Seq<char>>;

/// What the display of a JSON value writes.
pub uninterp spec fn written(t: Tree) -> Seq<char>;

/// The member `key` of an object; null if there is none, and of anything else.
pub open spec fn member(t: Tree, key: Seq<char>) -> Tree {
    match t {
        Tree::Object(m) => if m.dom().contains(key) {
            m[key]
        } else {
            Tree::Null
        },
        _ => Tree::Null,
    }
}

/// The text of a JSON string.
pub open spec fn text_in(t: Tree) -> Option<Seq<char>> {
    match t {
        Tree::Text(s) => Some(s),
        _ => None,
    }
}

/// A whole number that a `u64` holds.
pub open spec fn unsigned_in(t: Tree) -> Option<u64> {
    match t {
        Tree::Unsigned(n) => Some(n),
        _ => None,
    }
}

/// The elements of a JSON array; none of anything else.
pub open spec fn items_in(t: Tree) -> Seq<Tree> {
    match t {
        Tree::List(s) => s,
        _ => Seq::empty(),
    }
}

/// `serde_json::from_str`, into a `serde_json::Value`. The result depends on
/// the text alone; an error is given by its message.
#[verifier::external_body]
pub(crate) fn parse(text: &str) -> (r: Result<serde_json::Value, String>)
    ensures
        match r {
            Ok(v) => parsed(text@) == Ok::<Tree, Seq<char>>(tree(v)),
            Err(e) => parsed(text@) == Err::<Tree, Seq<char>>(e@),
        },
{
    serde_json::from_str(text).map_err(|e: serde_json::Error| e.to_string())
}

/// Reading the text gives `t`.
pub open spec fn reads_as(text: Seq<char>, t: Tree) -> bool {
    parsed(text) == Ok::<Tree, Seq<char>>(t)
}

/// A value without parts, or an array of such values, and no number that a
/// `u64` does not hold.
pub open spec fn is_flat(t: Tree) -> bool {
    match t {
        Tree::List(s) => forall|i: int| 0 <= i < s.len() ==> is_plain(#[trigger] s[i]),
        _ => is_plain(t),
    }
}

/// A value without parts, and no number that a `u64` does not hold.
pub open spec fn is_plain(t: Tree) -> bool {
    t is Null || t is Bool || t is Unsigned || t is Text
}

/// The display of a `serde_json::Value`, which depends on its contents alone.
/// Reading what it writes gives the value back; that is stated for values
/// without nesting.
#[verifier::external_body]
pub(crate) fn render(v: &serde_json::Value) -> (r: String)
    ensures
        r@ == written(tree(*v)),
        is_flat(tree(*v)) ==> reads_as(r@, tree(*v)),
{
    v.to_string()
}

/// Indexing a `serde_json::Value` by a key: the member of an object, null if
/// the value has none.
#[verifier::external_body]
pub(crate) fn get<'a>(v: &'a serde_json::Value, key: &str) -> (r: &'a serde_json::Value)
    ensures
        tree(*r) == member(tree(*v), key@),
{
    &v[key]
}

/// `serde_json::Value::as_u64`.
#[verifier::external_body]
pub(crate) fn as_u64(v: &serde_json::Value) -> (r: Option<u64>)
    ensures
        r == unsigned_in(tree(*v)),
{
    v.as_u64()
}

/// The bits that a number may have: those of its double-precision form, where
/// it is no whole number; below zero, with the sign set.
pub open spec fn may_have_bits(t: Tree, bits: Option<u64>) -> bool {
    match t {
        Tree::Number(b) => bits == Some(b),
        Tree::Negative(_) => bits matches Some(b) && b >= 0x8000_0000_0000_0000,
        Tree::Unsigned(_) => bits is Some,
        _ => bits is None,
    }
}

/// `serde_json::Value::as_f64`, by the bits of the number: those that a number
/// with a point or an exponent has, and the sign of a whole number below zero.
/// The bits of whole numbers are not stated.
#[verifier::external_body]
pub(crate) fn as_number_bits(v: &serde_json::Value) -> (r: Option<u64>)
    ensures
        may_have_bits(tree(*v), r),
{
    v.as_f64().map(|n| n.to_bits())
}

/// `serde_json::Value::as_str`.
#[verifier::external_body]
pub(crate) fn as_str<'a>(v: &'a serde_json::Value) -> (r: Option<&'a str>)
    ensures
        match r {
            Some(s) => text_in(tree(*v)) == Some(s@),
            None => text_in(tree(*v)) is None,
        },
{
    v.as_str()
}

/// `serde_json::Value::as_array`.
#[verifier::external_body]
pub(crate) fn as_array<'a>(v: &'a serde_json::Value) -> (r: Option<&'a Vec<serde_json::Value>>)
    ensures
        match r {
            Some(a) => tree(*v) == Tree::List(trees(a@)),
            None => !(tree(*v) is List),
        },
{
    v.as_array()
}

/// The contents of each of `s`.
pub open spec fn trees(s: Seq<serde_json::Value>) -> Seq<Tree> {
    s.map_values(|v: serde_json::Value| tree(v))
}

/// The contents of an object with these members; of members with the same
/// name the last counts.
pub open spec fn members(s: Seq<(Seq<char>, Tree)>) -> Map<Seq<char>, Tree>
    decreases s.len(),
{
    if s.len() == 0 {
        Map::empty()
    } else {
        members(s.drop_last()).insert(s.last().0, s.last().1)
    }
}

/// `serde_json::Value::String`.
#[verifier::external_body]
pub(crate) fn text(s: &str) -> (r: serde_json::Value)
    ensures
        tree(r) == Tree::Text(s@),
{
    serde_json::Value::String(s.to_string())
}

/// `serde_json::Value::from` of an integer.
#[verifier::external_body]
pub(crate) fn unsigned(n: u64) -> (r: serde_json::Value)
    ensures
        tree(r) == Tree::Unsigned(n),
{
    serde_json::Value::from(n)
}

/// `serde_json::Value::Bool`.
#[verifier::external_body]
pub(crate) fn boolean(b: bool) -> (r: serde_json::Value)
    ensures
        tree(r) == Tree::Bool(b),
{
    serde_json::Value::Bool(b)
}

/// `serde_json::Value::Array`.
#[verifier::external_body]
pub(crate) fn array(items: Vec<serde_json::Value>) -> (r: serde_json::Value)
    ensures
        tree(r) == Tree::List(trees(items@)),
{
    serde_json::Value::Array(items)
}

/// `serde_json::Value::Object` of a `serde_json::Map` collected from its
/// members.
#[verifier::external_body]
pub(crate) fn object(fields: Vec<(String, serde_json::Value)>) -> (r: serde_json::Value)
    ensures
        tree(r) == Tree::Object(
            members(
                fields@.map_values(|f: (String, serde_json::Value)| (f.0@, tree(f.1))),
            ),
        ),
{
    serde_json::Value::Object(fields.into_iter().collect())
}

/// A text that is a JSON string.
pub(crate) fn text_of(v: &serde_json::Value) -> (r: Option<String>)
    ensures
        r.deep_view() == text_in(tree(*v)),
{
    match as_str(v) {
        Some(s) => Some(s.to_owned()),
        None => None,
    }
}

} // verus!
