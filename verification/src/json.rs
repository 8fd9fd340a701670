//! JSON values, as tools and editors send them.

use vstd::prelude::*;
use crate::text::str_eq;

verus! {

/// A JSON value. What nothing is read from is not told apart.
#[derive(Debug)]
pub enum Json {
    Text(String),
    /// A whole number that is not negative.
    Number(u64),
    List(Vec<Json>),
    /// The fields of an object.
    Table(Vec<(String, Json)>),
    Other,
}

/// What a [`Json`] says.
pub ghost enum JsonView {
    Text(Seq<char>),
    Number(u64),
    List(Seq<JsonView>),
    Table(Seq<(Seq<char>, JsonView)>),
    Other,
}

impl View for Json {
    type V = JsonView;

    open spec fn view(&self) -> JsonView
        decreases self,
    {
        match self {
            Json::Text(s) => JsonView::Text(s@),
            Json::Number(n) => JsonView::Number(*n),
            Json::List(items) => JsonView::List(
                Seq::new(
                    items@.len(),
                    |i: int|
                        if 0 <= i < items@.len() {
                            items@[i].view()
                        } else {
                            arbitrary()
                        },
                ),
            ),
            Json::Table(fields) => JsonView::Table(
                Seq::new(
                    fields@.len(),
                    |i: int|
                        if 0 <= i < fields@.len() {
                            (fields@[i].0@, fields@[i].1.view())
                        } else {
                            arbitrary()
                        },
                ),
            ),
            Json::Other => JsonView::Other,
        }
    }
}

/// What the items of a list say.
pub open spec fn item_views(items: Seq<Json>) -> Seq<JsonView> {
    items.map_values(|x: Json| x@)
}

/// What the fields of an object say.
pub open spec fn field_views(fields: Seq<(String, Json)>) -> Seq<(Seq<char>, JsonView)> {
    fields.map_values(|f: (String, Json)| (f.0@, f.1@))
}

/// A list says what its items say, and an object what its fields do.
pub proof fn lemma_json(v: Json)
    ensures
        v@ == (match v {
            Json::Text(s) => JsonView::Text(s@),
            Json::Number(n) => JsonView::Number(n),
            Json::List(items) => JsonView::List(item_views(items@)),
            Json::Table(fields) => JsonView::Table(field_views(fields@)),
            Json::Other => JsonView::Other,
        }),
{
    reveal_with_fuel(<Json as View>::view, 2);
    match v {
        Json::List(items) => {
            assert(v@->List_0 =~= item_views(items@));
        },
        Json::Table(fields) => {
            assert(v@->Table_0 =~= field_views(fields@));
        },
        _ => {},
    }
}

/// `serde_json::Value`, a parsed value.
#[verifier::external_type_specification]
#[verifier::external_body]
pub struct ExJson(serde_json::Value);

/// What `serde_json::from_str` makes of a text; `None` where it is an error.
pub uninterp spec fn parsed_json(text: Seq<char>) -> Option<JsonView>;

/// The value that a `serde_json::Value` holds, with those inside it.
pub uninterp spec fn json_of(v: serde_json::Value) -> JsonView;

/// `serde_json::from_str`, to a `serde_json::Value`: a function of the text alone.
#[verifier::external_body]
fn json_parse(text: &str) -> (r: Option<serde_json::Value>)
    ensures
        match r {
            Some(v) => parsed_json(text@) == Some(json_of(v)),
            None => parsed_json(text@) is None,
        },
{
    serde_json::from_str(text).ok()
}

/// `serde_json::Value::as_str`: the string that the value is.
#[verifier::external_body]
fn json_text(v: &serde_json::Value) -> (r: Option<String>)
    ensures
        match r {
            Some(s) => json_of(*v) == JsonView::Text(s@),
            None => !(json_of(*v) is Text),
        },
{
    v.as_str().map(str::to_string)
}

/// `serde_json::Value::as_u64`: the number that the value is, where it is whole and not
/// negative.
#[verifier::external_body]
fn json_number(v: &serde_json::Value) -> (r: Option<u64>)
    ensures
        match r {
            Some(n) => json_of(*v) == JsonView::Number(n),
            None => !(json_of(*v) is Number),
        },
{
    v.as_u64()
}

/// `serde_json::Value::as_array`: the items of the list that the value is.
#[verifier::external_body]
fn json_items(v: &serde_json::Value) -> (r: Option<&Vec<serde_json::Value>>)
    ensures
        match r {
            Some(items) => json_of(*v) == JsonView::List(
                items@.map_values(|x: serde_json::Value| json_of(x)),
            ),
            None => !(json_of(*v) is List),
        },
{
    v.as_array()
}

/// `serde_json::Value::as_object`: the fields of the object that the value is, in the
/// order in which its map lists them.
#[verifier::external_body]
fn json_fields(v: &serde_json::Value) -> (r: Option<Vec<(&String, &serde_json::Value)>>)
    ensures
        match r {
            Some(fields) => json_of(*v) == JsonView::Table(
                fields@.map_values(|f: (&String, &serde_json::Value)| (f.0@, json_of(*f.1))),
            ),
            None => !(json_of(*v) is Table),
        },
{
    v.as_object().map(|m| m.iter().collect())
}

/// The value as the library reads it.
pub fn convert(v: &serde_json::Value) -> (r: Json)
    ensures
        r@ == json_of(*v),
    decreases json_of(*v),
{
    if let Some(s) = json_text(v) {
        return Json::Text(s);
    }
    if let Some(n) = json_number(v) {
        return Json::Number(n);
    }
    if let Some(items) = json_items(v) {
        let ghost all = items@.map_values(|x: serde_json::Value| json_of(x));
        let mut out: Vec<Json> = Vec::new();
        let mut i: usize = 0;
        while i < items.len()
            invariant
                i <= items@.len(),
                all == items@.map_values(|x: serde_json::Value| json_of(x)),
                json_of(*v) == JsonView::List(all),
                out@.len() == i,
                forall|k: int| 0 <= k < i ==> (#[trigger] out@[k])@ == all[k],
            decreases items@.len() - i,
        {
            assert(decreases_to!(json_of(*v) => json_of(*v)->List_0[i as int]));
            assert(all[i as int] == json_of(items@[i as int]));
            out.push(convert(&items[i]));
            i += 1;
        }
        let r = Json::List(out);
        proof {
            lemma_json(r);
            assert(item_views(out@) =~= all);
        }
        return r;
    }
    if let Some(fields) = json_fields(v) {
        let ghost all = fields@.map_values(
            |f: (&String, &serde_json::Value)| (f.0@, json_of(*f.1)),
        );
        let mut out: Vec<(String, Json)> = Vec::new();
        let mut i: usize = 0;
        while i < fields.len()
            invariant
                i <= fields@.len(),
                all == fields@.map_values(
                    |f: (&String, &serde_json::Value)| (f.0@, json_of(*f.1)),
                ),
                json_of(*v) == JsonView::Table(all),
                out@.len() == i,
                forall|k: int| 0 <= k < i ==> ((#[trigger] out@[k]).0@, out@[k].1@) == all[k],
            decreases fields@.len() - i,
        {
            assert(decreases_to!(json_of(*v) => json_of(*v)->Table_0[i as int].1));
            assert(all[i as int].1 == json_of(*fields@[i as int].1));
            let value = convert(fields[i].1);
            out.push((fields[i].0.clone(), value));
            i += 1;
        }
        let r = Json::Table(out);
        proof {
            lemma_json(r);
            assert(field_views(out@) =~= all);
        }
        return r;
    }
    Json::Other
}

/// The value of a text; `None` where it is no JSON.
pub fn parse(text: &str) -> (r: Option<Json>)
    ensures
        match r {
            Some(v) => parsed_json(text@) == Some(v@),
            None => parsed_json(text@) is None,
        },
{
    match json_parse(text) {
        Some(v) => Some(convert(&v)),
        None => None,
    }
}

/// The first field from `i` on of that name.
pub open spec fn field_named(fields: Seq<(Seq<char>, JsonView)>, name: Seq<char>, i: nat) -> Option<
    JsonView,
>
    decreases fields.len() - i,
{
    if i >= fields.len() {
        None
    } else if fields[i as int].0 == name {
        Some(fields[i as int].1)
    } else {
        field_named(fields, name, i + 1)
    }
}

/// The field of an object; what is no object has none.
pub open spec fn field_of(v: JsonView, name: Seq<char>) -> Option<JsonView> {
    match v {
        JsonView::Table(fields) => field_named(fields, name, 0),
        _ => None,
    }
}

/// The field of an object.
pub fn field<'a>(v: &'a Json, name: &str) -> (r: Option<&'a Json>)
    ensures
        match r {
            Some(x) => field_of(v@, name@) == Some(x@),
            None => field_of(v@, name@) is None,
        },
{
    proof {
        lemma_json(*v);
    }
    match v {
        Json::Table(fields) => {
            let ghost all = field_views(fields@);
            let mut i: usize = 0;
            while i < fields.len()
                invariant
                    i <= fields@.len(),
                    all == field_views(fields@),
                    v@ == JsonView::Table(all),
                    field_named(all, name@, 0) == field_named(all, name@, i as nat),
                decreases fields@.len() - i,
            {
                assert(all[i as int] == (fields@[i as int].0@, fields@[i as int].1@));
                if str_eq(fields[i].0.as_str(), name) {
                    return Some(&fields[i].1);
                }
                i += 1;
            }
            None
        },
        _ => None,
    }
}

/// The string in a field.
pub open spec fn text_in(v: JsonView, name: Seq<char>) -> Option<Seq<char>> {
    match field_of(v, name) {
        Some(JsonView::Text(s)) => Some(s),
        _ => None,
    }
}

/// The string in a field.
pub fn text_field(v: &Json, name: &str) -> (r: Option<String>)
    ensures
        r.deep_view() == text_in(v@, name@),
{
    match field(v, name) {
        Some(x) => {
            proof {
                lemma_json(*x);
            }
            match x {
                Json::Text(s) => Some(s.clone()),
                _ => None,
            }
        },
        None => None,
    }
}

/// The number in a field.
pub open spec fn number_in(v: JsonView, name: Seq<char>) -> Option<u64> {
    match field_of(v, name) {
        Some(JsonView::Number(n)) => Some(n),
        _ => None,
    }
}

/// The number in a field.
pub fn number_field(v: &Json, name: &str) -> (r: Option<u64>)
    ensures
        r == number_in(v@, name@),
{
    match field(v, name) {
        Some(x) => {
            proof {
                lemma_json(*x);
            }
            match x {
                Json::Number(n) => Some(*n),
                _ => None,
            }
        },
        None => None,
    }
}

}
