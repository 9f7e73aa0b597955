//! JSON values: what the log and the bulk files carry.
//!
//! `serde_json` reads and writes the texts. Its values are opaque here; a
//! [`Json`] holds the same tree in plain form, for the code that looks into it.
use serde_json::Value;
use vstd::prelude::*;

use crate::text;

verus! {

/// The value type of `serde_json`.
#[verifier::external_type_specification]
#[verifier::external_body]
pub struct ExValue(Value);

/// The error type of `serde_json`.
#[verifier::external_type_specification]
#[verifier::external_body]
pub struct ExJsonError(serde_json::Error);

/// A JSON number.
#[derive(Debug, Clone, Copy, PartialEq, Eq, Structural)]
pub enum JsonNumber {
    /// An integer that is not negative.
    Pos(u64),
    /// A negative integer.
    Neg(i64),
    /// Any other number, as the bits of an IEEE 754 number of 64 bits.
    Other(u64),
}

/// A JSON value.
#[derive(Debug)]
pub enum Json {
    Null,
    Bool(bool),
    Number(JsonNumber),
    Text(String),
    Array(Vec<Json>),
    /// The fields in the order of their keys.
    Object(Vec<(String, Json)>),
}

/// What a JSON value holds.
pub ghost enum JsonView {
    Null,
    Bool(bool),
    Number(JsonNumber),
    Text(Seq<char>),
    Array(Seq<JsonView>),
    Object(Seq<(Seq<char>, JsonView)>),
}

/// What a JSON value holds.
pub open spec fn json_view(j: Json) -> JsonView
    decreases j,
{
    match j {
        Json::Null => JsonView::Null,
        Json::Bool(b) => JsonView::Bool(b),
        Json::Number(n) => JsonView::Number(n),
        Json::Text(s) => JsonView::Text(s@),
        Json::Array(items) => JsonView::Array(
            Seq::new(
                items@.len(),
                |i: int|
                    if 0 <= i < items@.len() {
                        json_view(items@[i])
                    } else {
                        JsonView::Null
                    },
            ),
        ),
        Json::Object(fields) => JsonView::Object(
            Seq::new(
                fields@.len(),
                |i: int|
                    if 0 <= i < fields@.len() {
                        (fields@[i].0@, json_view(fields@[i].1))
                    } else {
                        (seq![], JsonView::Null)
                    },
            ),
        ),
    }
}

impl View for Json {
    type V = JsonView;

    open spec fn view(&self) -> JsonView {
        json_view(*self)
    }
}

impl JsonView {
    /// The value of the first field with this key; nothing where there is none
    /// or the value is no object.
    pub open spec fn get(self, key: Seq<char>) -> Option<JsonView> {
        match self {
            JsonView::Object(fields) => field_of(fields, key),
            _ => None,
        }
    }

    pub open spec fn text(self) -> Option<Seq<char>> {
        match self {
            JsonView::Text(s) => Some(s),
            _ => None,
        }
    }

    pub open spec fn natural(self) -> Option<u64> {
        match self {
            JsonView::Number(JsonNumber::Pos(n)) => Some(n),
            _ => None,
        }
    }

    /// The number, where it is an integer that 64 bits with a sign hold.
    pub open spec fn integer(self) -> Option<i64> {
        match self {
            JsonView::Number(JsonNumber::Pos(n)) if n <= i64::MAX => Some(n as i64),
            JsonView::Number(JsonNumber::Neg(n)) => Some(n),
            _ => None,
        }
    }

    pub open spec fn items(self) -> Option<Seq<JsonView>> {
        match self {
            JsonView::Array(items) => Some(items),
            _ => None,
        }
    }

    pub open spec fn fields(self) -> Option<Seq<(Seq<char>, JsonView)>> {
        match self {
            JsonView::Object(fields) => Some(fields),
            _ => None,
        }
    }
}

/// The value of the first field with this key.
pub open spec fn field_of(fields: Seq<(Seq<char>, JsonView)>, key: Seq<char>) -> Option<JsonView>
    decreases fields.len(),
{
    if fields.len() == 0 {
        None
    } else if fields[0].0 == key {
        Some(fields[0].1)
    } else {
        field_of(fields.skip(1), key)
    }
}

/// What a `serde_json` value holds: the same tree, the fields of an object in
/// the order in which its map is walked, which is that of their keys.
pub uninterp spec fn value_view(v: Value) -> JsonView;

/// What `serde_json::from_str` makes of a text as a value; nothing where it
/// reports an error.
pub uninterp spec fn parsed(text: Seq<char>) -> Option<JsonView>;

/// What `serde_json::to_string` makes of a value; nothing where it reports an
/// error.
pub uninterp spec fn rendered(v: JsonView) -> Option<Seq<char>>;

/// `serde_json::from_str` for a value of any kind: what it returns depends on
/// the text alone.
#[verifier::external_body]
pub(crate) fn parse(text: &str) -> (r: Result<Value, serde_json::Error>)
    ensures
        match r {
            Ok(v) => parsed(text@) == Some(value_view(v)),
            Err(_) => parsed(text@) is None,
        },
{
    serde_json::from_str::<Value>(text)
}

/// All numbers in the value are integers.
pub open spec fn integers_only(v: JsonView) -> bool
    decreases v,
{
    match v {
        JsonView::Number(n) => !(n is Other),
        JsonView::Array(items) => forall|i: int|
            0 <= i < items.len() ==> integers_only(#[trigger] items[i]),
        JsonView::Object(fields) => forall|i: int|
            0 <= i < fields.len() ==> integers_only((#[trigger] fields[i]).1),
        _ => true,
    }
}

/// The key by which `serde_json` marks a value that it keeps as raw text: an
/// object that begins with it is read as what that text holds.
pub const RAW_VALUE_KEY: &'static str = "$serde_json::private::RawValue";

/// No object in the value has the key that marks raw text.
pub open spec fn plain_keys(v: JsonView) -> bool
    decreases v,
{
    match v {
        JsonView::Array(items) => forall|i: int|
            0 <= i < items.len() ==> plain_keys(#[trigger] items[i]),
        JsonView::Object(fields) => forall|i: int|
            0 <= i < fields.len() ==> (#[trigger] fields[i]).0 != RAW_VALUE_KEY@ && plain_keys(
                fields[i].1,
            ),
        _ => true,
    }
}

/// How deep `serde_json::from_str` lets arrays and objects be nested.
pub const MAX_DEPTH: i32 = 127;

/// Arrays and objects are nested at most so deep.
pub open spec fn no_deeper(v: JsonView, n: int) -> bool
    decreases v,
{
    match v {
        JsonView::Array(items) => n > 0 && forall|i: int|
            0 <= i < items.len() ==> no_deeper(#[trigger] items[i], n - 1),
        JsonView::Object(fields) => n > 0 && forall|i: int|
            0 <= i < fields.len() ==> no_deeper((#[trigger] fields[i]).1, n - 1),
        _ => true,
    }
}

/// All numbers are integers, no object has the key that marks raw text, and the
/// nesting is one that is read.
pub open spec fn reads_back(v: JsonView) -> bool {
    &&& integers_only(v)
    &&& plain_keys(v)
    &&& no_deeper(v, MAX_DEPTH as int)
}

/// `serde_json::to_string` of a value: what it returns depends on what the
/// value holds alone. `serde_json::from_str` reads the value back from it as it
/// was, where all its numbers are integers, no object has the key that marks
/// raw text, and it is nested no deeper than is read. Of other values this is
/// not said: fractions may be read back rounded otherwise, and an object that
/// begins with that key is read as something else.
#[verifier::external_body]
pub(crate) fn render(v: &Value) -> (r: Result<String, serde_json::Error>)
    ensures
        match r {
            Ok(s) => {
                &&& rendered(value_view(*v)) == Some(s@)
                &&& reads_back(value_view(*v)) ==> parsed(s@) == Some(value_view(*v))
            },
            Err(_) => rendered(value_view(*v)) is None,
        },
{
    serde_json::to_string(v)
}

/// `Value::get` with a key: the value of the field with this key; nothing
/// where there is none or the value is no object.
#[verifier::external_body]
pub(crate) fn field<'a>(v: &'a Value, key: &str) -> (r: Option<&'a Value>)
    ensures
        match r {
            Some(x) => value_view(*v).get(key@) == Some(value_view(*x)),
            None => value_view(*v).get(key@) is None,
        },
{
    v.get(key)
}

/// One level of a `serde_json` value.
pub(crate) enum JsonNode<'a> {
    Null,
    Bool(bool),
    Number(JsonNumber),
    Text(&'a String),
    Array(&'a Vec<Value>),
    Object(Vec<(&'a String, &'a Value)>),
}

/// The node is the topmost level of a value that holds `v`.
pub(crate) open spec fn node_of(v: JsonView, node: JsonNode<'_>) -> bool {
    match node {
        JsonNode::Null => v == JsonView::Null,
        JsonNode::Bool(b) => v == JsonView::Bool(b),
        JsonNode::Number(n) => v == JsonView::Number(n),
        JsonNode::Text(s) => v == JsonView::Text(s@),
        JsonNode::Array(items) => v == JsonView::Array(
            Seq::new(items@.len(), |i: int| value_view(items@[i])),
        ),
        JsonNode::Object(fields) => v == JsonView::Object(
            Seq::new(fields@.len(), |i: int| (fields@[i].0@, value_view(*fields@[i].1))),
        ),
    }
}

/// The variants of `serde_json::Value`, each with what it holds. A number is
/// an integer where `as_u64` or `as_i64` gives one, and else what `as_f64`
/// gives.
#[verifier::external_body]
fn open<'a>(v: &'a Value) -> (r: JsonNode<'a>)
    ensures
        node_of(value_view(*v), r),
{
    match v {
        Value::Null => JsonNode::Null,
        Value::Bool(b) => JsonNode::Bool(*b),
        Value::Number(n) => JsonNode::Number(match (n.as_u64(), n.as_i64()) {
            (Some(u), _) => JsonNumber::Pos(u),
            (None, Some(i)) => JsonNumber::Neg(i),
            (None, None) => JsonNumber::Other(n.as_f64().unwrap_or_default().to_bits()),
        }),
        Value::String(s) => JsonNode::Text(s),
        Value::Array(a) => JsonNode::Array(a),
        Value::Object(m) => JsonNode::Object(m.iter().collect()),
    }
}

impl Json {
    /// The value in plain form.
    pub fn from_value(v: &Value) -> (r: Json)
        ensures
            r@ == value_view(*v),
        decreases value_view(*v),
    {
        match open(v) {
            JsonNode::Null => Json::Null,
            JsonNode::Bool(b) => Json::Bool(b),
            JsonNode::Number(n) => Json::Number(n),
            JsonNode::Text(s) => Json::Text(s.clone()),
            JsonNode::Array(items) => {
                let ghost inner = value_view(*v)->Array_0;
                let mut out: Vec<Json> = Vec::new();
                let mut i: usize = 0;
                while i < items.len()
                    invariant
                        i <= items@.len(),
                        value_view(*v) == JsonView::Array(inner),
                        inner == Seq::new(items@.len(), |k: int| value_view(items@[k])),
                        out@.len() == i,
                        forall|k: int| 0 <= k < i ==> (#[trigger] out@[k])@ == inner[k],
                    decreases items@.len() - i,
                {
                    assert(inner[i as int] == value_view(items@[i as int]));
                    assert(decreases_to!(value_view(*v) => value_view(*v)->Array_0));
                    assert(decreases_to!(inner => inner[i as int]));
                    out.push(Json::from_value(&items[i]));
                    i += 1;
                }
                let r = Json::Array(out);
                assert(r@->Array_0 =~= inner);
                r
            },
            JsonNode::Object(fields) => {
                let ghost inner = value_view(*v)->Object_0;
                let mut out: Vec<(String, Json)> = Vec::new();
                let mut i: usize = 0;
                while i < fields.len()
                    invariant
                        i <= fields@.len(),
                        value_view(*v) == JsonView::Object(inner),
                        inner == Seq::new(
                            fields@.len(),
                            |k: int| (fields@[k].0@, value_view(*fields@[k].1)),
                        ),
                        out@.len() == i,
                        forall|k: int|
                            0 <= k < i ==> (#[trigger] out@[k]).0@ == inner[k].0 && out@[k].1@
                                == inner[k].1,
                    decreases fields@.len() - i,
                {
                    assert(inner[i as int].1 == value_view(*fields@[i as int].1));
                    assert(decreases_to!(value_view(*v) => value_view(*v)->Object_0));
                    assert(decreases_to!(inner => inner[i as int]));
                    assert(decreases_to!(inner[i as int] => inner[i as int].1));
                    out.push((fields[i].0.clone(), Json::from_value(fields[i].1)));
                    i += 1;
                }
                let r = Json::Object(out);
                assert(r@->Object_0 =~= inner);
                r
            },
        }
    }
}

/// What the items of an array hold.
pub open spec fn item_views(items: Seq<Json>) -> Seq<JsonView> {
    items.map_values(|j: Json| j@)
}

/// What a list of borrowed values holds.
pub open spec fn ref_views(items: Seq<&Json>) -> Seq<JsonView> {
    items.map_values(|j: &Json| j@)
}

/// What the fields of an object hold.
pub open spec fn field_views(fields: Seq<(String, Json)>) -> Seq<(Seq<char>, JsonView)> {
    fields.map_values(|f: (String, Json)| (f.0@, f.1@))
}

/// An array holds what its items hold.
pub proof fn lemma_array_view(items: Vec<Json>)
    ensures
        Json::Array(items)@ == JsonView::Array(item_views(items@)),
{
    let a = Json::Array(items)@->Array_0;
    assert forall|i: int| 0 <= i < a.len() implies #[trigger] a[i] == item_views(items@)[i] by {
        assert(item_views(items@)[i] == items@[i]@);
    }
    assert(a =~= item_views(items@));
}

/// An object holds what its fields hold.
pub proof fn lemma_object_view(fields: Vec<(String, Json)>)
    ensures
        Json::Object(fields)@ == JsonView::Object(field_views(fields@)),
{
    let a = Json::Object(fields)@->Object_0;
    assert forall|i: int| 0 <= i < a.len() implies #[trigger] a[i] == field_views(fields@)[i] by {
        assert(field_views(fields@)[i] == (fields@[i].0@, fields@[i].1@));
    }
    assert(a =~= field_views(fields@));
}

impl Json {
    /// Reads a JSON text.
    pub fn read(text: &str) -> (r: Option<Json>)
        ensures
            match r {
                Some(j) => parsed(text@) == Some(j@),
                None => parsed(text@) is None,
            },
    {
        match parse(text) {
            Ok(v) => Some(Json::from_value(&v)),
            Err(_) => None,
        }
    }

    /// The value of the field with this key.
    pub fn get(&self, key: &str) -> (r: Option<&Json>)
        ensures
            match r {
                Some(j) => self@.get(key@) == Some(j@),
                None => self@.get(key@) is None,
            },
    {
        if let Json::Object(fields) = self {
            let ghost all = self@->Object_0;
            proof {
                lemma_object_view(*fields);
            }
            let mut i: usize = 0;
            assert(all.skip(0) =~= all);
            while i < fields.len()
                invariant
                    i <= fields@.len(),
                    self@ == JsonView::Object(all),
                    all == field_views(fields@),
                    field_of(all, key@) == field_of(all.skip(i as int), key@),
                decreases fields@.len() - i,
            {
                assert(all[i as int] == (fields@[i as int].0@, fields@[i as int].1@));
                if text::same(fields[i].0.as_str(), key) {
                    return Some(&fields[i].1);
                }
                assert(all.skip(i as int).skip(1) =~= all.skip(i + 1));
                i += 1;
            }
            assert(all.skip(i as int) =~= Seq::<(Seq<char>, JsonView)>::empty());
        }
        None
    }

    /// Whether the value is an object with this key.
    pub fn has(&self, key: &str) -> (r: bool)
        ensures
            r == (self@.get(key@) is Some),
    {
        self.get(key).is_some()
    }

    pub fn as_str(&self) -> (r: Option<&String>)
        ensures
            match r {
                Some(s) => self@.text() == Some(s@),
                None => self@.text() is None,
            },
    {
        match self {
            Json::Text(s) => Some(s),
            _ => None,
        }
    }

    pub fn as_u64(&self) -> (r: Option<u64>)
        ensures
            r == self@.natural(),
    {
        match self {
            Json::Number(JsonNumber::Pos(n)) => Some(*n),
            _ => None,
        }
    }

    pub fn as_i64(&self) -> (r: Option<i64>)
        ensures
            r == self@.integer(),
    {
        match self {
            Json::Number(JsonNumber::Pos(n)) => if *n <= i64::MAX as u64 {
                Some(*n as i64)
            } else {
                None
            },
            Json::Number(JsonNumber::Neg(n)) => Some(*n),
            _ => None,
        }
    }

    pub fn as_array(&self) -> (r: Option<&Vec<Json>>)
        ensures
            match r {
                Some(items) => self@.items() == Some(item_views(items@)),
                None => self@.items() is None,
            },
    {
        match self {
            Json::Array(items) => {
                proof {
                    lemma_array_view(*items);
                }
                Some(items)
            },
            _ => None,
        }
    }

    pub fn as_object(&self) -> (r: Option<&Vec<(String, Json)>>)
        ensures
            match r {
                Some(fields) => self@.fields() == Some(field_views(fields@)),
                None => self@.fields() is None,
            },
    {
        match self {
            Json::Object(fields) => {
                proof {
                    lemma_object_view(*fields);
                }
                Some(fields)
            },
            _ => None,
        }
    }

    pub fn is_number(&self) -> (r: bool)
        ensures
            r == (self@ is Number),
    {
        match self {
            Json::Number(_) => true,
            _ => false,
        }
    }
}

impl Json {
    /// A copy of the value.
    pub fn copy(&self) -> (r: Json)
        ensures
            r@ == self@,
        decreases self,
    {
        match self {
            Json::Null => Json::Null,
            Json::Bool(b) => Json::Bool(*b),
            Json::Number(n) => Json::Number(*n),
            Json::Text(s) => Json::Text(s.clone()),
            Json::Array(items) => {
                let mut out: Vec<Json> = Vec::new();
                let mut i: usize = 0;
                while i < items.len()
                    invariant
                        i <= items@.len(),
                        *self == Json::Array(*items),
                        out@.len() == i,
                        forall|k: int| 0 <= k < i ==> (#[trigger] out@[k])@ == items@[k]@,
                    decreases items@.len() - i,
                {
                    assert(decreases_to!(*self => (*self)->Array_0));
                    assert(decreases_to!(*items => items@));
                    assert(decreases_to!(items@ => items@[i as int]));
                    out.push(items[i].copy());
                    i += 1;
                }
                proof {
                    lemma_array_view(*items);
                    lemma_array_view(out);
                    assert(item_views(out@) =~= item_views(items@));
                }
                Json::Array(out)
            },
            Json::Object(fields) => {
                let mut out: Vec<(String, Json)> = Vec::new();
                let mut i: usize = 0;
                while i < fields.len()
                    invariant
                        i <= fields@.len(),
                        *self == Json::Object(*fields),
                        out@.len() == i,
                        forall|k: int|
                            0 <= k < i ==> (#[trigger] out@[k]).0@ == fields@[k].0@ && out@[k].1@
                                == fields@[k].1@,
                    decreases fields@.len() - i,
                {
                    assert(decreases_to!(*self => (*self)->Object_0));
                    assert(decreases_to!(*fields => fields@));
                    assert(decreases_to!(fields@ => fields@[i as int]));
                    assert(decreases_to!(fields@[i as int] => fields@[i as int].1));
                    out.push((fields[i].0.clone(), fields[i].1.copy()));
                    i += 1;
                }
                proof {
                    lemma_object_view(*fields);
                    lemma_object_view(out);
                    assert(field_views(out@) =~= field_views(fields@));
                }
                Json::Object(out)
            },
        }
    }
}

/// The texts of a list of keys.
pub open spec fn key_texts(keys: Seq<&str>) -> Seq<Seq<char>> {
    keys.map_values(|k: &str| k@)
}

/// The value of the first of the keys that the object has.
pub open spec fn first_field(v: JsonView, keys: Seq<Seq<char>>) -> Option<JsonView>
    decreases keys.len(),
{
    if keys.len() == 0 {
        None
    } else if v.get(keys[0]) is Some {
        v.get(keys[0])
    } else {
        first_field(v, keys.skip(1))
    }
}

/// The text under the first of the keys that has a text.
pub open spec fn first_text(v: JsonView, keys: Seq<Seq<char>>) -> Option<Seq<char>>
    decreases keys.len(),
{
    if keys.len() == 0 {
        None
    } else {
        match v.get(keys[0]) {
            Some(x) if x.text() is Some => x.text(),
            _ => first_text(v, keys.skip(1)),
        }
    }
}

/// The array under the first of the keys that has an array.
pub open spec fn first_items(v: JsonView, keys: Seq<Seq<char>>) -> Option<Seq<JsonView>>
    decreases keys.len(),
{
    if keys.len() == 0 {
        None
    } else {
        match v.get(keys[0]) {
            Some(x) if x.items() is Some => x.items(),
            _ => first_items(v, keys.skip(1)),
        }
    }
}

/// The value of the first of the keys that the object has.
pub fn get_first<'a>(v: &'a Json, keys: &[&str]) -> (r: Option<&'a Json>)
    ensures
        match r {
            Some(x) => first_field(v@, key_texts(keys@)) == Some(x@),
            None => first_field(v@, key_texts(keys@)) is None,
        },
{
    let ghost all = key_texts(keys@);
    let mut i: usize = 0;
    assert(all.skip(0) =~= all);
    while i < keys.len()
        invariant
            i <= keys@.len(),
            all == key_texts(keys@),
            first_field(v@, all) == first_field(v@, all.skip(i as int)),
        decreases keys@.len() - i,
    {
        assert(all.skip(i as int).skip(1) =~= all.skip(i + 1));
        assert(all.skip(i as int)[0] == keys@[i as int]@);
        if let Some(x) = v.get(keys[i]) {
            return Some(x);
        }
        i += 1;
    }
    None
}

/// The text under the first of the keys that has a text.
pub fn get_first_text(v: &Json, keys: &[&str]) -> (r: Option<String>)
    ensures
        match r {
            Some(s) => first_text(v@, key_texts(keys@)) == Some(s@),
            None => first_text(v@, key_texts(keys@)) is None,
        },
{
    let ghost all = key_texts(keys@);
    let mut i: usize = 0;
    assert(all.skip(0) =~= all);
    while i < keys.len()
        invariant
            i <= keys@.len(),
            all == key_texts(keys@),
            first_text(v@, all) == first_text(v@, all.skip(i as int)),
        decreases keys@.len() - i,
    {
        assert(all.skip(i as int).skip(1) =~= all.skip(i + 1));
        assert(all.skip(i as int)[0] == keys@[i as int]@);
        if let Some(x) = v.get(keys[i]) {
            if let Some(s) = x.as_str() {
                return Some(s.clone());
            }
        }
        i += 1;
    }
    None
}

/// The array under the first of the keys that has an array.
pub fn get_first_items<'a>(v: &'a Json, keys: &[&str]) -> (r: Option<&'a Vec<Json>>)
    ensures
        match r {
            Some(items) => first_items(v@, key_texts(keys@)) == Some(item_views(items@)),
            None => first_items(v@, key_texts(keys@)) is None,
        },
{
    let ghost all = key_texts(keys@);
    let mut i: usize = 0;
    assert(all.skip(0) =~= all);
    while i < keys.len()
        invariant
            i <= keys@.len(),
            all == key_texts(keys@),
            first_items(v@, all) == first_items(v@, all.skip(i as int)),
        decreases keys@.len() - i,
    {
        assert(all.skip(i as int).skip(1) =~= all.skip(i + 1));
        assert(all.skip(i as int)[0] == keys@[i as int]@);
        if let Some(x) = v.get(keys[i]) {
            if let Some(items) = x.as_array() {
                return Some(items);
            }
        }
        i += 1;
    }
    None
}

/// The JSON text of a list of integers.
pub open spec fn number_list(list: Seq<u32>) -> Seq<char> {
    "["@ + text::joined(list.map_values(|n: u32| text::decimal(n as nat)), ","@) + "]"@
}

/// `serde_json::to_string` of a list of integers, which neither a map with odd
/// keys nor a failing implementation can make fail: the numbers in decimal
/// notation, with commas between them, in brackets.
#[verifier::external_body]
pub(crate) fn render_numbers(list: &Vec<u32>) -> (r: Result<String, serde_json::Error>)
    ensures
        r is Ok,
        r.unwrap()@ == number_list(list@),
{
    serde_json::to_string(list)
}

/// What `serde_json::from_str` reads as a list of integers of 32 bits: nothing
/// where the text is no such list.
pub uninterp spec fn parsed_numbers(text: Seq<char>) -> Option<Seq<u32>>;

/// `serde_json::from_str` for a list of integers of 32 bits: what it reads
/// depends on the text alone, and a list that `serde_json::to_string` wrote is
/// read back as it was.
#[verifier::external_body]
pub(crate) fn parse_numbers(text: &str) -> (r: Result<Vec<u32>, serde_json::Error>)
    ensures
        match r {
            Ok(l) => parsed_numbers(text@) == Some(l@),
            Err(_) => parsed_numbers(text@) is None,
        },
        forall|list: Seq<u32>| text@ == #[trigger] number_list(list) ==> r is Ok && r.unwrap()@
            == list,
{
    serde_json::from_str(text)
}

/// An object has under a key the value of its first field with that key, and
/// nothing where it has no such field; what is no object has nothing.
pub proof fn law_get(v: JsonView, key: Seq<char>)
    ensures
        match v {
            JsonView::Object(fields) => {
                &&& forall|i: int|
                    0 <= i < fields.len() && (#[trigger] fields[i]).0 == key && (forall|j: int|
                        0 <= j < i ==> (#[trigger] fields[j]).0 != key) ==> v.get(key) == Some(
                        fields[i].1,
                    )
                &&& (forall|i: int| 0 <= i < fields.len() ==> (#[trigger] fields[i]).0 != key) ==> v.get(
                    key,
                ) is None
            },
            _ => v.get(key) is None,
        },
{
    if let JsonView::Object(fields) = v {
        lemma_field_of(fields, key);
    }
}

proof fn lemma_field_of(fields: Seq<(Seq<char>, JsonView)>, key: Seq<char>)
    ensures
        forall|i: int|
            0 <= i < fields.len() && (#[trigger] fields[i]).0 == key && (forall|j: int|
                0 <= j < i ==> (#[trigger] fields[j]).0 != key) ==> field_of(fields, key) == Some(
                fields[i].1,
            ),
        (forall|i: int| 0 <= i < fields.len() ==> (#[trigger] fields[i]).0 != key) ==> field_of(
            fields,
            key,
        ) is None,
    decreases fields.len(),
{
    if fields.len() > 0 {
        let rest = fields.skip(1);
        lemma_field_of(rest, key);
        assert(forall|i: int| 0 <= i < rest.len() ==> #[trigger] rest[i] == fields[i + 1]);
        assert forall|i: int|
            0 <= i < fields.len() && (#[trigger] fields[i]).0 == key && (forall|j: int|
                0 <= j < i ==> (#[trigger] fields[j]).0 != key) implies field_of(fields, key)
            == Some(fields[i].1) by {
            if i > 0 {
                assert(fields[0].0 != key);
                assert(rest[i - 1] == fields[i]);
                assert forall|j: int| 0 <= j < i - 1 implies (#[trigger] rest[j]).0 != key by {
                    assert(fields[j + 1].0 != key);
                }
            }
        }
        if forall|i: int| 0 <= i < fields.len() ==> (#[trigger] fields[i]).0 != key {
            assert(fields[0].0 != key);
            assert forall|i: int| 0 <= i < rest.len() implies (#[trigger] rest[i]).0 != key by {
                assert(fields[i + 1].0 != key);
            }
        }
    }
}

/// What a value is read as: a text only where it is one, a natural number only
/// where it is one, an integer where it is one that fits, and a list or an object
/// only where it is one.
pub proof fn law_kinds(s: Seq<char>, n: u64, k: i64, v: JsonView)
    ensures
        JsonView::Text(s).text() == Some(s),
        !(v is Text) ==> v.text() is None,
        JsonView::Number(JsonNumber::Pos(n)).natural() == Some(n),
        !(v is Number) ==> v.natural() is None && v.integer() is None,
        n <= i64::MAX ==> JsonView::Number(JsonNumber::Pos(n)).integer() == Some(n as i64),
        n > i64::MAX ==> JsonView::Number(JsonNumber::Pos(n)).integer() is None,
        JsonView::Number(JsonNumber::Neg(k)).integer() == Some(k),
        JsonView::Number(JsonNumber::Neg(k)).natural() is None,
        !(v is Array) ==> v.items() is None,
        !(v is Object) ==> v.fields() is None,
{
}

/// Of several keys the first that leads to something counts: a value of any
/// kind, a text, or an array.
pub proof fn law_first_of(v: JsonView, keys: Seq<Seq<char>>, k: int)
    requires
        0 <= k < keys.len(),
    ensures
        v.get(keys[k]) is Some && (forall|j: int| 0 <= j < k ==> v.get(#[trigger] keys[j]) is None)
            ==> first_field(v, keys) == v.get(keys[k]),
        (v.get(keys[k]) matches Some(JsonView::Text(_))) && (forall|j: int|
            0 <= j < k ==> !(v.get(#[trigger] keys[j]) matches Some(JsonView::Text(_))))
            ==> v.get(keys[k]) == Some(JsonView::Text(first_text(v, keys).unwrap())) && first_text(
            v,
            keys,
        ) is Some,
        (v.get(keys[k]) matches Some(JsonView::Array(_))) && (forall|j: int|
            0 <= j < k ==> !(v.get(#[trigger] keys[j]) matches Some(JsonView::Array(_))))
            ==> v.get(keys[k]) == Some(JsonView::Array(first_items(v, keys).unwrap()))
            && first_items(v, keys) is Some,
    decreases k,
{
    if k > 0 {
        let rest = keys.skip(1);
        law_first_of(v, rest, k - 1);
        assert(rest[k - 1] == keys[k]);
        assert(forall|j: int| 0 <= j < rest.len() ==> #[trigger] rest[j] == keys[j + 1]);
        if v.get(keys[k]) is Some && (forall|j: int|
            0 <= j < k ==> v.get(#[trigger] keys[j]) is None) {
            assert(v.get(keys[0]) is None);
            assert forall|j: int| 0 <= j < k - 1 implies v.get(#[trigger] rest[j]) is None by {
                assert(v.get(keys[j + 1]) is None);
            }
        }
        if (v.get(keys[k]) matches Some(JsonView::Text(_))) && (forall|j: int|
            0 <= j < k ==> !(v.get(#[trigger] keys[j]) matches Some(JsonView::Text(_)))) {
            assert(!(v.get(keys[0]) matches Some(JsonView::Text(_))));
            assert forall|j: int| 0 <= j < k - 1 implies !(v.get(#[trigger] rest[j]) matches Some(
                JsonView::Text(_),
            )) by {
                assert(!(v.get(keys[j + 1]) matches Some(JsonView::Text(_))));
            }
        }
        if (v.get(keys[k]) matches Some(JsonView::Array(_))) && (forall|j: int|
            0 <= j < k ==> !(v.get(#[trigger] keys[j]) matches Some(JsonView::Array(_)))) {
            assert(!(v.get(keys[0]) matches Some(JsonView::Array(_))));
            assert forall|j: int| 0 <= j < k - 1 implies !(v.get(#[trigger] rest[j]) matches Some(
                JsonView::Array(_),
            )) by {
                assert(!(v.get(keys[j + 1]) matches Some(JsonView::Array(_))));
            }
        }
    }
}

/// Where none of the keys leads to anything, nothing is found.
pub proof fn law_none_of(v: JsonView, keys: Seq<Seq<char>>)
    ensures
        (forall|j: int| 0 <= j < keys.len() ==> v.get(#[trigger] keys[j]) is None) ==> first_field(
            v,
            keys,
        ) is None,
        (forall|j: int|
            0 <= j < keys.len() ==> !(v.get(#[trigger] keys[j]) matches Some(JsonView::Text(_))))
            ==> first_text(v, keys) is None,
        (forall|j: int|
            0 <= j < keys.len() ==> !(v.get(#[trigger] keys[j]) matches Some(JsonView::Array(_))))
            ==> first_items(v, keys) is None,
    decreases keys.len(),
{
    if keys.len() > 0 {
        let rest = keys.skip(1);
        law_none_of(v, rest);
        assert(keys[0] == keys[0]);
        assert(forall|j: int| 0 <= j < rest.len() ==> #[trigger] rest[j] == keys[j + 1]);
    }
}

} // verus!
