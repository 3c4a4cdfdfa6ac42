//! JSON text, read and written with `serde_json`.
use vstd::prelude::*;

use crate::text;

verus! {

/// The value of a field of a flat JSON object.
pub enum JsonField {
    /// A string.
    Text(String),
    /// A number.
    Count(u64),
    /// `null`.
    Absent,
}

/// The value of a field, as a model.
pub enum FieldView {
    /// A string.
    Text(Seq<char>),
    /// A number.
    Count(u64),
    /// `null`.
    Absent,
}

impl View for JsonField {
    type V = FieldView;

    open spec fn view(&self) -> FieldView {
        match self {
            JsonField::Text(s) => FieldView::Text(s@),
            JsonField::Count(n) => FieldView::Count(*n),
            JsonField::Absent => FieldView::Absent,
        }
    }
}

/// The keys and values of a list of fields.
pub open spec fn field_views(v: Seq<(String, JsonField)>) -> Seq<(Seq<char>, FieldView)> {
    Seq::new(v.len(), |i: int| (v[i].0@, v[i].1@))
}

/// No key occurs twice.
pub open spec fn distinct_keys(fields: Seq<(Seq<char>, FieldView)>) -> bool {
    forall|i: int, j: int|
        0 <= i < j < fields.len() ==> (#[trigger] fields[i]).0 != (#[trigger] fields[j]).0
}

/// The compact JSON text of an object with the given fields.
pub uninterp spec fn object_json(fields: Seq<(Seq<char>, FieldView)>) -> Seq<char>;

/// The string under a key of the object that a JSON text spells; `None` where
/// the text is no JSON, no object, or has no string there.
pub uninterp spec fn json_text(line: Seq<char>, key: Seq<char>) -> Option<Seq<char>>;

/// `serde_json::Value::to_string` on an object with the given fields: the
/// compact text depends on the fields alone. It is one line, it ends with the
/// closing brace, and reading a key of it back gives the string that stands
/// under the key, or nothing where the value is a number or `null`.
#[verifier::external_body]
pub(crate) fn write_object(fields: Vec<(String, JsonField)>) -> (r: String)
    requires
        distinct_keys(field_views(fields@)),
    ensures
        r@ == object_json(field_views(fields@)),
        !r@.contains('\n'),
        r@.len() > 0,
        r@.last() == '}',
        forall|i: int|
            0 <= i < fields@.len() ==> json_text(r@, (#[trigger] fields@[i]).0@) == (
            match fields@[i].1@ {
                FieldView::Text(s) => Some(s),
                _ => None,
            }),
{
    let object: serde_json::Map<String, serde_json::Value> = fields.into_iter().map(
        |field| match field.1 {
            JsonField::Text(s) => (field.0, serde_json::Value::String(s)),
            JsonField::Count(n) => (field.0, serde_json::Value::from(n)),
            JsonField::Absent => (field.0, serde_json::Value::Null),
        },
    ).collect();
    serde_json::Value::Object(object).to_string()
}

/// `serde_json::from_str` to a `serde_json::Value`, then the string under a
/// key: the outcome depends on the text and the key alone.
#[verifier::external_body]
pub(crate) fn read_text(line: &str, key: &str) -> (r: Option<String>)
    ensures
        match r {
            Some(s) => json_text(line@, key@) == Some(s@),
            None => json_text(line@, key@) is None,
        },
{
    let value: serde_json::Value = serde_json::from_str(line).ok()?;
    value[key].as_str().map(|s| s.to_string())
}

/// The JSON text of a list of strings.
pub uninterp spec fn list_json(items: Seq<Seq<char>>) -> Seq<char>;

/// The list of strings that a JSON text spells; `None` where it spells none.
pub uninterp spec fn json_list(line: Seq<char>) -> Option<Seq<Seq<char>>>;

/// `serde_json::to_string` on a list of strings, which does not fail: the text
/// depends on the list alone, and reading it back gives the list.
#[verifier::external_body]
pub(crate) fn write_list(items: &Vec<String>) -> (r: String)
    ensures
        r@ == list_json(text::views(items@)),
        json_list(r@) == Some(text::views(items@)),
{
    serde_json::to_string(items).unwrap_or_default()
}

/// `serde_json::from_str` to a list of strings: the outcome depends on the
/// text alone.
#[verifier::external_body]
pub(crate) fn read_list(line: &str) -> (r: Option<Vec<String>>)
    ensures
        match r {
            Some(v) => json_list(line@) == Some(text::views(v@)),
            None => json_list(line@) is None,
        },
{
    serde_json::from_str(line).ok()
}

} // verus!
