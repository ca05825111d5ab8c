//! JSON trees, and their rendering as text.

use crate::assoc::{last_index, lemma_last_index, lookup};
use crate::value::{Numeric, NumericView};
use serde_json::{Number, Value};
use vstd::prelude::*;

verus! {

/// A JSON value.
///
/// An object lists its members in the order in which they were added. Where a
/// key occurs more than once, the last member with that key is the one that
/// counts.
#[derive(Debug, PartialEq, Eq)]
pub enum Json {
    Null,
    Bool(bool),
    Number(Numeric),
    Text(String),
    Array(Vec<Json>),
    Object(Vec<(String, Json)>),
}

/// What a [`Json`] stands for in contracts.
#[verifier::ext_equal]
pub enum JsonView {
    Null,
    Bool(bool),
    Number(NumericView),
    Text(Seq<char>),
    Array(Seq<JsonView>),
    Object(Seq<(Seq<char>, JsonView)>),
}

impl View for Json {
    type V = JsonView;

    open spec fn view(&self) -> JsonView
        decreases self,
    {
        match self {
            Json::Null => JsonView::Null,
            Json::Bool(b) => JsonView::Bool(*b),
            Json::Number(n) => JsonView::Number(n@),
            Json::Text(s) => JsonView::Text(s@),
            Json::Array(items) => JsonView::Array(items_view(items@)),
            Json::Object(members) => JsonView::Object(members_view(members@)),
        }
    }
}

/// The items of an array, each by its view.
pub open spec fn items_view(items: Seq<Json>) -> Seq<JsonView>
    decreases items,
{
    Seq::new(
        items.len(),
        |i: int|
            if 0 <= i < items.len() {
                items[i]@
            } else {
                JsonView::Null
            },
    )
}

/// The members of an object, each by its view.
pub open spec fn members_view(members: Seq<(String, Json)>) -> Seq<(Seq<char>, JsonView)>
    decreases members,
{
    Seq::new(
        members.len(),
        |i: int|
            if 0 <= i < members.len() {
                (members[i].0@, members[i].1@)
            } else {
                (Seq::empty(), JsonView::Null)
            },
    )
}

/// Looks a key up among the members of an object.
pub fn find_member<'a>(members: &'a Vec<(String, Json)>, key: &str) -> (found: Option<&'a Json>)
    ensures
        match found {
            Some(value) => lookup(members_view(members@), key@) == Some(value@),
            None => lookup(members_view(members@), key@).is_none(),
        },
{
    let wanted = String::from_str(key);
    let ghost all = members_view(members@);
    let mut i: usize = members.len();
    proof {
        lemma_last_index(all, key@);
    }
    while i > 0
        invariant
            i <= members.len(),
            all == members_view(members@),
            wanted@ == key@,
            last_index(all, key@) < i,
        decreases i,
    {
        i -= 1;
        if members[i].0 == wanted {
            proof {
                lemma_last_index(all, key@);
                assert(all[i as int].0 == key@);
            }
            return Some(&members[i].1);
        }
        proof {
            lemma_last_index(all, key@);
            assert(all[i as int].0 != key@);
        }
    }
    None
}

/// The text of a JSON tree, as `serde_json` writes it.
pub uninterp spec fn json_text(tree: JsonView) -> Seq<char>;

#[verifier::external_type_specification]
#[verifier::external_body]
pub struct ExValue(Value);

/// Builds the `serde_json::Value` with the same shape, variant by variant: a
/// whole number by `Value::from`, any other number by parsing its literal
/// with `Number::from_str` (`null` where that fails), an array and an object
/// by collecting their parts with `Value::from_iter`. Nothing is claimed of
/// the result.
#[verifier::external_body]
fn to_value(tree: &Json) -> Value {
    match tree {
        Json::Null => Value::Null,
        Json::Bool(b) => Value::Bool(*b),
        Json::Number(Numeric::Unsigned(n)) => Value::from(*n),
        Json::Number(Numeric::Signed(n)) => Value::from(*n),
        Json::Number(Numeric::Real(s)) => s.parse::<Number>().map_or(Value::Null, Value::Number),
        Json::Text(s) => Value::String(s.clone()),
        Json::Array(items) => Value::Array(items.iter().map(to_value).collect()),
        Json::Object(members) => Value::Object(
            members.iter().map(|m| (m.0.clone(), to_value(&m.1))).collect(),
        ),
    }
}

/// Renders a tree as text by `serde_json::Value::to_string`, on the value that
/// `to_value` builds. The text depends on the tree alone, which is all that
/// the contract says: it gives the text a name.
#[verifier::external_body]
pub(crate) fn to_text(tree: &Json) -> (text: String)
    ensures
        text@ == json_text(tree@),
{
    to_value(tree).to_string()
}

} // verus!
