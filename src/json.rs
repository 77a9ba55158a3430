//! A JSON document as plain values, and the wire shapes read from it.
use vstd::prelude::*;

verus! {

/// A JSON value. A number keeps the exact text it had on the wire.
#[derive(Debug)]
pub enum Json {
    Null,
    Bool(bool),
    Number(String),
    Text(String),
    Array(Vec<Json>),
    Object(Vec<(String, Json)>),
}

/// `serde_json::Value`, which the library only converts into [`Json`].
#[verifier::external_type_specification]
#[verifier::external_body]
pub struct ExJsonValue(serde_json::Value);

/// The document that a JSON text holds, if it is well-formed JSON.
pub uninterp spec fn json_document(text: Seq<char>) -> Option<Json>;

/// Relies on `serde_json::from_str` into a `serde_json::Value`: it parses the
/// text as JSON, and the same text always gives the same document.
#[verifier::external_body]
pub(crate) fn parse_json(text: &str) -> (r: Option<Json>)
    ensures
        r == json_document(text@),
{
    serde_json::from_str::<serde_json::Value>(text).ok().map(json_tree)
}

/// Relies on the variants of `serde_json::Value` and, with the crate's
/// `arbitrary_precision` feature, on `serde_json::Number::as_str` giving the
/// number's text as it was parsed. Only `parse_json` converts through it.
#[verifier::external_body]
fn json_tree(v: serde_json::Value) -> Json {
    match v {
        serde_json::Value::Null => Json::Null,
        serde_json::Value::Bool(b) => Json::Bool(b),
        serde_json::Value::Number(n) => Json::Number(n.as_str().to_string()),
        serde_json::Value::String(s) => Json::Text(s),
        serde_json::Value::Array(a) => Json::Array(a.into_iter().map(json_tree).collect()),
        serde_json::Value::Object(o) => Json::Object(o.into_iter().map(|(k, x)| (k, json_tree(x))).collect()),
    }
}

/// The value of the first entry named `key`.
pub open spec fn field(entries: Seq<(String, Json)>, key: Seq<char>) -> Option<Json>
    decreases entries.len(),
{
    if entries.len() == 0 {
        None
    } else if entries[0].0@ == key {
        Some(entries[0].1)
    } else {
        field(entries.skip(1), key)
    }
}

/// The text of a wire number, given as a JSON string or a JSON number.
pub open spec fn wire_text(j: Json) -> Option<Seq<char>> {
    match j {
        Json::Number(s) => Some(s@),
        Json::Text(s) => Some(s@),
        _ => None,
    }
}

/// A wire pair: an array whose first two items are wire numbers. Items after
/// those two belong to other concerns and are not read.
pub open spec fn pair_of(j: Json) -> Option<(Seq<char>, Seq<char>)> {
    match j {
        Json::Array(items) => if items@.len() >= 2 && wire_text(items@[0]) is Some && wire_text(
            items@[1],
        ) is Some {
            Some((wire_text(items@[0])->Some_0, wire_text(items@[1])->Some_0))
        } else {
            None
        },
        _ => None,
    }
}

/// An array of wire pairs.
pub open spec fn pairs_of(j: Json) -> Option<Seq<(Seq<char>, Seq<char>)>> {
    match j {
        Json::Array(items) => if forall|i: int| 0 <= i < items@.len() ==> (#[trigger] pair_of(items@[i])) is Some {
            Some(Seq::new(items@.len(), |i: int| pair_of(items@[i])->Some_0))
        } else {
            None
        },
        _ => None,
    }
}

/// Whether two texts are the same.
pub fn text_eq(a: &str, b: &str) -> (r: bool)
    ensures
        r == (a@ == b@),
{
    let n = a.unicode_len();
    if n != b.unicode_len() {
        return false;
    }
    let mut i: usize = 0;
    while i < n
        invariant
            n == a@.len() == b@.len(),
            i <= n,
            forall|j: int| 0 <= j < i ==> a@[j] == b@[j],
        decreases n - i,
    {
        if a.get_char(i) != b.get_char(i) {
            return false;
        }
        i = i + 1;
    }
    assert(a@ =~= b@);
    true
}

/// The value of the first entry named `key`.
pub fn get_field<'a>(entries: &'a Vec<(String, Json)>, key: &str) -> (r: Option<&'a Json>)
    ensures
        r is None <==> field(entries@, key@) is None,
        r matches Some(j) ==> field(entries@, key@) == Some(*j),
{
    let mut i: usize = 0;
    assert(entries@.skip(0) =~= entries@);
    while i < entries.len()
        invariant
            i <= entries.len(),
            field(entries@, key@) == field(entries@.skip(i as int), key@),
        decreases entries.len() - i,
    {
        assert(entries@.skip(i as int).skip(1) =~= entries@.skip(i + 1));
        if text_eq(entries[i].0.as_str(), key) {
            return Some(&entries[i].1);
        }
        i = i + 1;
    }
    None
}

/// The text of a wire number.
pub fn get_wire_text(j: &Json) -> (r: Option<String>)
    ensures
        r is None <==> wire_text(*j) is None,
        r matches Some(s) ==> wire_text(*j) == Some(s@),
{
    match j {
        Json::Number(s) => Some(s.clone()),
        Json::Text(s) => Some(s.clone()),
        _ => None,
    }
}

/// The two wire numbers of a pair.
pub fn get_pair(j: &Json) -> (r: Option<(String, String)>)
    ensures
        r is None <==> pair_of(*j) is None,
        r matches Some(p) ==> pair_of(*j) == Some((p.0@, p.1@)),
{
    match j {
        Json::Array(items) => {
            if items.len() < 2 {
                return None;
            }
            let price = get_wire_text(&items[0]);
            let size = get_wire_text(&items[1]);
            match (price, size) {
                (Some(p), Some(q)) => Some((p, q)),
                _ => None,
            }
        },
        _ => None,
    }
}

/// The wire pairs of an array of them.
pub fn get_pairs(j: &Json) -> (r: Option<Vec<(String, String)>>)
    ensures
        r is None <==> pairs_of(*j) is None,
        r matches Some(v) ==> pairs_of(*j) == Some(crate::codec::pair_texts(v@)),
{
    match j {
        Json::Array(items) => {
            let mut out: Vec<(String, String)> = Vec::new();
            let mut i: usize = 0;
            while i < items.len()
                invariant
                    *j == Json::Array(*items),
                    i <= items.len(),
                    out.len() == i,
                    forall|k: int| 0 <= k < i ==> (#[trigger] pair_of(items@[k])) == Some((out@[k].0@, out@[k].1@)),
                decreases items.len() - i,
            {
                match get_pair(&items[i]) {
                    Some(p) => out.push(p),
                    None => {
                        assert(pair_of(items@[i as int]) is None);
                        return None;
                    },
                }
                i = i + 1;
            }
            assert(crate::codec::pair_texts(out@) =~= Seq::new(items@.len(), |k: int| pair_of(items@[k])->Some_0));
            Some(out)
        },
        _ => None,
    }
}

} // verus!
