//! JSON values as a tree.
use vstd::prelude::*;

use crate::text::{copy, same_text};

verus! {

/// The mathematical model of a JSON value. A number is kept as the integer it
/// is, or by its text where it is no integer of 64 bits; an object as its
/// fields in order.
pub enum JsonV {
    Null,
    Bool(bool),
    Uint(u64),
    Int(i64),
    Float(Seq<char>),
    Str(Seq<char>),
    Arr(Seq<JsonV>),
    Obj(Seq<(Seq<char>, JsonV)>),
}

/// The value of the first field named `key`.
pub open spec fn field_of(fields: Seq<(Seq<char>, JsonV)>, key: Seq<char>) -> Option<JsonV>
    decreases fields.len(),
{
    if fields.len() == 0 {
        None
    } else if fields[0].0 == key {
        Some(fields[0].1)
    } else {
        field_of(fields.skip(1), key)
    }
}

impl JsonV {
    /// An object without fields.
    pub open spec fn object() -> JsonV {
        JsonV::Obj(Seq::empty())
    }

    /// The object with one more field at its end.
    pub open spec fn with(self, key: Seq<char>, value: JsonV) -> JsonV {
        match self {
            JsonV::Obj(fields) => JsonV::Obj(fields.push((key, value))),
            _ => self,
        }
    }

    /// The field named `key`, where this is an object that has one.
    pub open spec fn get(self, key: Seq<char>) -> Option<JsonV> {
        match self {
            JsonV::Obj(fields) => field_of(fields, key),
            _ => None,
        }
    }

    /// The element at `i`, where this is an array that has one.
    pub open spec fn at(self, i: int) -> Option<JsonV> {
        match self {
            JsonV::Arr(items) => if 0 <= i < items.len() {
                Some(items[i])
            } else {
                None
            },
            _ => None,
        }
    }

    /// The text, where this is a string.
    pub open spec fn text(self) -> Option<Seq<char>> {
        match self {
            JsonV::Str(s) => Some(s),
            _ => None,
        }
    }
}

/// A field at the end is found where no field before it has its name.
pub proof fn lemma_field_with(v: JsonV, name: Seq<char>, value: JsonV, key: Seq<char>)
    requires
        v is Obj,
    ensures
        v.with(name, value).get(key) == (match v.get(key) {
            Some(x) => Some(x),
            None => if name == key {
                Some(value)
            } else {
                None
            },
        }),
    decreases v->Obj_0.len(),
{
    let fields = v->Obj_0;
    let more = fields.push((name, value));
    if fields.len() > 0 {
        assert(more[0] == fields[0]);
        assert(more.skip(1) =~= fields.skip(1).push((name, value)));
        lemma_field_with(JsonV::Obj(fields.skip(1)), name, value, key);
    } else {
        assert(more.skip(1) =~= Seq::empty());
        assert(field_of(more.skip(1), key) is None);
        assert(field_of(fields, key) is None);
    }
}

/// The field named `key` of a value that may be missing.
pub open spec fn get_in(v: Option<JsonV>, key: Seq<char>) -> Option<JsonV> {
    match v {
        Some(x) => x.get(key),
        None => None,
    }
}

/// The text of a value that may be missing.
pub open spec fn text_in(v: Option<JsonV>) -> Option<Seq<char>> {
    match v {
        Some(x) => x.text(),
        None => None,
    }
}

/// A JSON value.
pub enum Json {
    Null,
    Bool(bool),
    /// an integer of at least zero
    Uint(u64),
    /// an integer below zero
    Int(i64),
    /// a number that is no integer of 64 bits, by its text
    Float(String),
    Str(String),
    Arr(Vec<Json>),
    Obj(Vec<(String, Json)>),
}

impl View for Json {
    type V = JsonV;

    open spec fn view(&self) -> JsonV {
        self.tree()
    }
}

impl Json {
    /// The model of the value.
    pub open spec fn tree(self) -> JsonV
        decreases self,
    {
        match self {
            Json::Null => JsonV::Null,
            Json::Bool(b) => JsonV::Bool(b),
            Json::Uint(n) => JsonV::Uint(n),
            Json::Int(n) => JsonV::Int(n),
            Json::Float(s) => JsonV::Float(s@),
            Json::Str(s) => JsonV::Str(s@),
            Json::Arr(a) => JsonV::Arr(
                Seq::new(
                    a@.len(),
                    |i: int|
                        if 0 <= i < a@.len() {
                            a@[i].tree()
                        } else {
                            JsonV::Null
                        },
                ),
            ),
            Json::Obj(m) => JsonV::Obj(
                Seq::new(
                    m@.len(),
                    |i: int|
                        if 0 <= i < m@.len() {
                            (m@[i].0@, m@[i].1.tree())
                        } else {
                            (Seq::empty(), JsonV::Null)
                        },
                ),
            ),
        }
    }
}

/// The models of a list of values.
pub open spec fn jsons(v: Seq<Json>) -> Seq<JsonV> {
    Seq::new(v.len(), |i: int| v[i]@)
}

/// The models of a list of fields.
pub open spec fn fields_view(v: Seq<(String, Json)>) -> Seq<(Seq<char>, JsonV)> {
    Seq::new(v.len(), |i: int| (v[i].0@, v[i].1@))
}

/// One value more is one model more.
pub broadcast proof fn lemma_jsons_push(v: Seq<Json>, x: Json)
    ensures
        #[trigger] jsons(v.push(x)) == jsons(v).push(x@),
{
    assert(jsons(v.push(x)) =~= jsons(v).push(x@));
}

/// The models of two lists, one after the other.
pub broadcast proof fn lemma_jsons_add(v: Seq<Json>, w: Seq<Json>)
    ensures
        #[trigger] jsons(v + w) == jsons(v) + jsons(w),
{
    assert(jsons(v + w) =~= jsons(v) + jsons(w));
}

/// One field more is one model more.
pub broadcast proof fn lemma_fields_push(v: Seq<(String, Json)>, x: (String, Json))
    ensures
        #[trigger] fields_view(v.push(x)) == fields_view(v).push((x.0@, x.1@)),
{
    assert(fields_view(v.push(x)) =~= fields_view(v).push((x.0@, x.1@)));
}

/// The model of a value that may be missing.
pub open spec fn json_opt(v: Option<Json>) -> Option<JsonV> {
    match v {
        Some(x) => Some(x@),
        None => None,
    }
}

/// What `serde_json::from_str` reads from a text into a `serde_json::Value`:
/// the value, or nothing where the text is not one JSON value.
pub uninterp spec fn json_value(text: Seq<char>) -> Option<JsonV>;

/// The value type of `serde_json`, carried without a look inside it.
#[verifier::external_type_specification]
#[verifier::external_body]
pub struct ExValue(serde_json::Value);

/// The tree that a `serde_json::Value` is.
pub uninterp spec fn value_tree(v: serde_json::Value) -> JsonV;

/// The trees of a list of values.
pub open spec fn value_trees(v: Seq<serde_json::Value>) -> Seq<JsonV> {
    Seq::new(v.len(), |i: int| value_tree(v[i]))
}

/// The trees of a list of fields.
pub open spec fn field_trees(v: Seq<(String, serde_json::Value)>) -> Seq<(Seq<char>, JsonV)> {
    Seq::new(v.len(), |i: int| (v[i].0@, value_tree(v[i].1)))
}

/// A `serde_json::Value`, opened: what is inside it is as it was.
pub enum Opened {
    Null,
    Bool(bool),
    Uint(u64),
    Int(i64),
    Float(String),
    Str(String),
    Arr(Vec<serde_json::Value>),
    Obj(Vec<(String, serde_json::Value)>),
}

impl Opened {
    /// The tree that the value is.
    pub open spec fn tree(self) -> JsonV {
        match self {
            Opened::Null => JsonV::Null,
            Opened::Bool(b) => JsonV::Bool(b),
            Opened::Uint(n) => JsonV::Uint(n),
            Opened::Int(n) => JsonV::Int(n),
            Opened::Float(s) => JsonV::Float(s@),
            Opened::Str(s) => JsonV::Str(s@),
            Opened::Arr(items) => JsonV::Arr(value_trees(items@)),
            Opened::Obj(fields) => JsonV::Obj(field_trees(fields@)),
        }
    }
}

/// The variants of `serde_json::Value`, told apart: its own variants, with a number by
/// the first of `as_u64` and `as_i64` that gives one, or else by its text, and the
/// fields of an object in the order of its map.
#[verifier::external_body]
fn open_value(v: serde_json::Value) -> (r: Opened)
    ensures
        r.tree() == value_tree(v),
{
    match v {
        serde_json::Value::Null => Opened::Null,
        serde_json::Value::Bool(b) => Opened::Bool(b),
        serde_json::Value::Number(n) => match (n.as_u64(), n.as_i64()) {
            (Some(u), _) => Opened::Uint(u),
            (None, Some(i)) => Opened::Int(i),
            (None, None) => Opened::Float(n.to_string()),
        },
        serde_json::Value::String(s) => Opened::Str(s),
        serde_json::Value::Array(a) => Opened::Arr(a),
        serde_json::Value::Object(m) => Opened::Obj(m.into_iter().collect()),
    }
}

/// `serde_json::from_str` for a `serde_json::Value`: the JSON value that a text holds.
/// What it is depends on the text alone.
#[verifier::external_body]
fn parse_value(text: &str) -> (r: Option<serde_json::Value>)
    ensures
        match r {
            Some(v) => json_value(text@) == Some(value_tree(v)),
            None => json_value(text@) is None,
        },
{
    serde_json::from_str(text).ok()
}

/// The value as a tree of our own.
fn json_of_value(v: serde_json::Value) -> (r: Json)
    ensures
        r@ == value_tree(v),
    decreases value_tree(v),
{
    broadcast use {lemma_jsons_push, lemma_fields_push};

    match open_value(v) {
        Opened::Null => Json::Null,
        Opened::Bool(b) => Json::Bool(b),
        Opened::Uint(n) => Json::Uint(n),
        Opened::Int(n) => Json::Int(n),
        Opened::Float(s) => Json::Float(s),
        Opened::Str(s) => Json::Str(s),
        Opened::Arr(items) => {
            let ghost all = value_trees(items@);
            let mut out: Vec<Json> = Vec::new();
            assert(jsons(out@) =~= all.take(0));
            for x in it: items
                invariant
                    all == value_trees(it.seq()),
                    value_tree(v) == JsonV::Arr(all),
                    jsons(out@) == all.take(it.index() as int),
            {
                let ghost i = it.index() as int;
                assert(all[i] == value_tree(x));
                assert(decreases_to!(value_tree(v) => value_tree(v)->Arr_0[i]));
                out.push(json_of_value(x));
                assert(all.take(i + 1) =~= all.take(i).push(all[i]));
            }
            assert(all.take(all.len() as int) =~= all);
            let r = Json::Arr(out);
            assert(r@->Arr_0 =~= jsons(out@));
            r
        },
        Opened::Obj(fields) => {
            let ghost all = field_trees(fields@);
            let mut out: Vec<(String, Json)> = Vec::new();
            assert(fields_view(out@) =~= all.take(0));
            for f in it: fields
                invariant
                    all == field_trees(it.seq()),
                    value_tree(v) == JsonV::Obj(all),
                    fields_view(out@) == all.take(it.index() as int),
            {
                let ghost i = it.index() as int;
                assert(all[i] == (f.0@, value_tree(f.1)));
                assert(decreases_to!(value_tree(v) => value_tree(v)->Obj_0[i].1));
                out.push((f.0, json_of_value(f.1)));
                assert(all.take(i + 1) =~= all.take(i).push(all[i]));
            }
            assert(all.take(all.len() as int) =~= all);
            let r = Json::Obj(out);
            assert(r@->Obj_0 =~= fields_view(out@));
            r
        },
    }
}

/// The JSON value that a text holds, if it holds one.
pub fn parse_json(text: &str) -> (r: Option<Json>)
    ensures
        json_opt(r) == json_value(text@),
{
    match parse_value(text) {
        Some(v) => Some(json_of_value(v)),
        None => None,
    }
}

impl Json {
    /// A string value.
    pub fn text(s: &str) -> (r: Json)
        ensures
            r@ == JsonV::Str(s@),
    {
        Json::Str(copy(s))
    }

    /// An array of the given values.
    pub fn array(items: Vec<Json>) -> (r: Json)
        ensures
            r@ == JsonV::Arr(jsons(items@)),
    {
        let r = Json::Arr(items);
        assert(r@->Arr_0 =~= jsons(items@));
        r
    }

    /// An object without fields.
    pub fn object() -> (r: Json)
        ensures
            r@ == JsonV::object(),
    {
        let r = Json::Obj(Vec::new());
        assert(r@->Obj_0 =~= Seq::empty());
        r
    }

    /// The object with one more field at its end.
    pub fn with(self, key: &str, value: Json) -> (r: Json)
        ensures
            r@ == self@.with(key@, value@),
    {
        match self {
            Json::Obj(fields) => {
                let mut out = fields;
                out.push((copy(key), value));
                let r = Json::Obj(out);
                assert(r@->Obj_0 =~= self@->Obj_0.push((key@, value@)));
                r
            },
            other => other,
        }
    }

    /// The field named `key`, where this is an object that has one.
    pub fn get(&self, key: &str) -> (r: Option<&Json>)
        ensures
            match r {
                Some(v) => self@.get(key@) == Some(v@),
                None => self@.get(key@) is None,
            },
    {
        match self {
            Json::Obj(fields) => {
                let ghost all = self@->Obj_0;
                assert(all.skip(0) =~= all);
                for i in 0..fields.len()
                    invariant
                        all.len() == fields@.len(),
                        forall|j: int|
                            0 <= j < all.len() ==> #[trigger] all[j] == (
                                fields@[j].0@,
                                fields@[j].1@,
                            ),
                        field_of(all, key@) == field_of(all.skip(i as int), key@),
                        self@.get(key@) == field_of(all, key@),
                {
                    assert(all.skip(i as int)[0] == all[i as int]);
                    assert(all.skip(i as int).skip(1) =~= all.skip(i + 1));
                    if same_text(&fields[i].0, key) {
                        return Some(&fields[i].1);
                    }
                }
                assert(all.skip(all.len() as int) =~= Seq::empty());
                None
            },
            _ => None,
        }
    }

    /// The element at `i`, where this is an array that has one.
    pub fn at(&self, i: usize) -> (r: Option<&Json>)
        ensures
            match r {
                Some(v) => self@.at(i as int) == Some(v@),
                None => self@.at(i as int) is None,
            },
    {
        match self {
            Json::Arr(items) => if i < items.len() {
                Some(&items[i])
            } else {
                None
            },
            _ => None,
        }
    }

    /// The elements, where this is an array.
    pub fn items(&self) -> (r: Option<&Vec<Json>>)
        ensures
            match r {
                Some(v) => self@ == JsonV::Arr(jsons(v@)),
                None => !(self@ is Arr),
            },
    {
        match self {
            Json::Arr(items) => {
                assert(self@->Arr_0 =~= jsons(items@));
                Some(items)
            },
            _ => None,
        }
    }

    /// The text, where this is a string.
    pub fn as_str(&self) -> (r: Option<&String>)
        ensures
            match r {
                Some(s) => self@ == JsonV::Str(s@),
                None => !(self@ is Str),
            },
    {
        match self {
            Json::Str(s) => Some(s),
            _ => None,
        }
    }

    /// The number, where this is an integer of at least zero.
    pub fn as_u64(&self) -> (r: Option<u64>)
        ensures
            match r {
                Some(n) => self@ == JsonV::Uint(n),
                None => !(self@ is Uint),
            },
    {
        match self {
            Json::Uint(n) => Some(*n),
            _ => None,
        }
    }

    /// A copy of the value.
    pub fn copy(&self) -> (r: Json)
        ensures
            r@ == self@,
        decreases self,
    {
        broadcast use {lemma_jsons_push, lemma_fields_push};

        match self {
            Json::Null => Json::Null,
            Json::Bool(b) => Json::Bool(*b),
            Json::Uint(n) => Json::Uint(*n),
            Json::Int(n) => Json::Int(*n),
            Json::Float(s) => Json::Float(s.clone()),
            Json::Str(s) => Json::Str(s.clone()),
            Json::Arr(items) => {
                let mut out: Vec<Json> = Vec::new();
                for i in 0..items.len()
                    invariant
                        *self == Json::Arr(*items),
                        jsons(out@) == jsons(items@).take(i as int),
                {
                    assert(decreases_to!(*self => self->Arr_0@[i as int]));
                    out.push(items[i].copy());
                    assert(jsons(items@).take(i + 1) =~= jsons(items@).take(i as int).push(
                        items@[i as int]@,
                    ));
                }
                assert(jsons(items@).take(items@.len() as int) =~= jsons(items@));
                let r = Json::Arr(out);
                assert(r@->Arr_0 =~= jsons(out@));
                assert(self@->Arr_0 =~= jsons(items@));
                r
            },
            Json::Obj(fields) => {
                let mut out: Vec<(String, Json)> = Vec::new();
                for i in 0..fields.len()
                    invariant
                        *self == Json::Obj(*fields),
                        fields_view(out@) == fields_view(fields@).take(i as int),
                {
                    assert(decreases_to!(*self => self->Obj_0@[i as int].1));
                    let x = fields[i].1.copy();
                    out.push((fields[i].0.clone(), x));
                    assert(fields_view(fields@).take(i + 1) =~= fields_view(fields@).take(
                        i as int,
                    ).push((fields@[i as int].0@, fields@[i as int].1@)));
                }
                assert(fields_view(fields@).take(fields@.len() as int) =~= fields_view(fields@));
                let r = Json::Obj(out);
                assert(r@->Obj_0 =~= fields_view(out@));
                assert(self@->Obj_0 =~= fields_view(fields@));
                r
            },
        }
    }
}

/// Copies of the values of a list.
pub fn copy_all(v: &[Json]) -> (r: Vec<Json>)
    ensures
        jsons(r@) == jsons(v@),
{
    broadcast use lemma_jsons_push;

    let mut out: Vec<Json> = Vec::new();
    for i in 0..v.len()
        invariant
            jsons(out@) == jsons(v@).take(i as int),
    {
        out.push(v[i].copy());
        assert(jsons(v@).take(i + 1) =~= jsons(v@).take(i as int).push(v@[i as int]@));
    }
    assert(jsons(v@).take(v@.len() as int) =~= jsons(v@));
    out
}

/// An object gives back under each name what was put under it, the names being two.
pub proof fn law_two_fields(a: Seq<char>, x: JsonV, b: Seq<char>, y: JsonV)
    requires
        a != b,
    ensures
        JsonV::object().with(a, x).with(b, y).get(a) == Some(x),
        JsonV::object().with(a, x).with(b, y).get(b) == Some(y),
        forall|k: Seq<char>|
            k != a && k != b ==> #[trigger] JsonV::object().with(a, x).with(b, y).get(k) is None,
{
    let o = JsonV::object();
    let p = o.with(a, x);
    assert forall|k: Seq<char>| #[trigger] p.with(b, y).get(k) == (if k == a {
        Some(x)
    } else if k == b {
        Some(y)
    } else {
        None
    }) by {
        lemma_field_with(o, a, x, k);
        lemma_field_with(p, b, y, k);
    }
}

/// An object gives back under each name what was put under it, the names being three.
pub proof fn law_three_fields(
    a: Seq<char>,
    x: JsonV,
    b: Seq<char>,
    y: JsonV,
    c: Seq<char>,
    z: JsonV,
)
    requires
        a != b,
        a != c,
        b != c,
    ensures
        JsonV::object().with(a, x).with(b, y).with(c, z).get(a) == Some(x),
        JsonV::object().with(a, x).with(b, y).with(c, z).get(b) == Some(y),
        JsonV::object().with(a, x).with(b, y).with(c, z).get(c) == Some(z),
        forall|k: Seq<char>|
            k != a && k != b && k != c ==> #[trigger] JsonV::object().with(a, x).with(b, y).with(
                c,
                z,
            ).get(k) is None,
{
    let p = JsonV::object().with(a, x).with(b, y);
    law_two_fields(a, x, b, y);
    assert forall|k: Seq<char>| #[trigger] p.with(c, z).get(k) == (match p.get(k) {
        Some(v) => Some(v),
        None => if k == c {
            Some(z)
        } else {
            None
        },
    }) by {
        lemma_field_with(p, c, z, k);
    }
}

/// Only an object has fields, the first of a name counting; only an array has elements, each
/// at its place; only a text is one.
pub proof fn law_what_a_value_holds(
    fields: Seq<(Seq<char>, JsonV)>,
    items: Seq<JsonV>,
    s: Seq<char>,
    v: JsonV,
    key: Seq<char>,
    i: int,
)
    ensures
        v !is Obj ==> v.get(key) is None,
        0 <= i < fields.len() && fields[i].0 == key && (forall|j: int|
            0 <= j < i ==> (#[trigger] fields[j]).0 != key) ==> JsonV::Obj(fields).get(key) == Some(
            fields[i].1,
        ),
        (forall|j: int| 0 <= j < fields.len() ==> (#[trigger] fields[j]).0 != key) ==> JsonV::Obj(
            fields,
        ).get(key) is None,
        v !is Arr ==> v.at(i) is None,
        0 <= i < items.len() ==> JsonV::Arr(items).at(i) == Some(items[i]),
        i < 0 || i >= items.len() ==> JsonV::Arr(items).at(i) is None,
        v !is Str ==> v.text() is None,
        JsonV::Str(s).text() == Some(s),
{
    lemma_first_field(fields, key, i);
}

proof fn lemma_first_field(fields: Seq<(Seq<char>, JsonV)>, key: Seq<char>, i: int)
    ensures
        0 <= i < fields.len() && fields[i].0 == key && (forall|j: int|
            0 <= j < i ==> (#[trigger] fields[j]).0 != key) ==> field_of(fields, key) == Some(
            fields[i].1,
        ),
        (forall|j: int| 0 <= j < fields.len() ==> (#[trigger] fields[j]).0 != key) ==> field_of(
            fields,
            key,
        ) is None,
    decreases fields.len(),
{
    if fields.len() > 0 {
        let rest = fields.skip(1);
        lemma_first_field(rest, key, i - 1);
        assert(forall|j: int| 0 <= j < rest.len() ==> #[trigger] rest[j] == fields[j + 1]);
        if 0 < i < fields.len() && fields[i].0 == key && (forall|j: int|
            0 <= j < i ==> (#[trigger] fields[j]).0 != key) {
            assert(rest[i - 1] == fields[i]);
            assert forall|j: int| 0 <= j < i - 1 implies (#[trigger] rest[j]).0 != key by {
                assert(rest[j] == fields[j + 1]);
            }
        }
    }
}

} // verus!
