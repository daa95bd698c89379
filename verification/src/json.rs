//! JSON values, and what `serde_json` does with them.
//!
//! [`JsonValue`] holds a JSON value in plain data. Reading and printing JSON text
//! is left to `serde_json`; the conversion between its values and these is one
//! level deep in each trusted function and verified above that.

use vstd::prelude::*;
use crate::decimal::all_digits;
use crate::decimal::digits_value;
use crate::decimal::signed_decimal;
use crate::map::Copied;
use crate::map::Modelled;
use crate::map::TextMap;
use crate::map::entry_models;
use crate::map::lemma_map_view;
use crate::map::map_is_sorted;
use crate::map::sorted;
use crate::text::same;

verus! {

// ---------------------------------------------------------------------------
// The model
// ---------------------------------------------------------------------------

/// A JSON number: an integer, or a fraction by its shortest decimal text.
pub ghost enum Num {
    Int(int),
    Float(Seq<char>),
}

/// A JSON value. The entries of an object are in the order of their keys.
pub ghost enum Json {
    Null,
    Bool(bool),
    Number(Num),
    Text(Seq<char>),
    Array(Seq<Json>),
    Object(Seq<(Seq<char>, Json)>),
}

/// Whether a fraction is zero, of either sign.
pub open spec fn is_zero_text(s: Seq<char>) -> bool {
    s == "0.0"@ || s == "-0.0"@
}

/// Equality of numbers. An integer and a fraction are never equal; the two
/// zeros are.
pub open spec fn num_eq(a: Num, b: Num) -> bool {
    match (a, b) {
        (Num::Int(x), Num::Int(y)) => x == y,
        (Num::Float(x), Num::Float(y)) => x == y || (is_zero_text(x) && is_zero_text(y)),
        _ => false,
    }
}

/// Equality of JSON values.
pub open spec fn json_eq(a: Json, b: Json) -> bool
    decreases a,
{
    match (a, b) {
        (Json::Null, Json::Null) => true,
        (Json::Bool(x), Json::Bool(y)) => x == y,
        (Json::Number(x), Json::Number(y)) => num_eq(x, y),
        (Json::Text(x), Json::Text(y)) => x == y,
        (Json::Array(x), Json::Array(y)) => {
            &&& x.len() == y.len()
            &&& forall|i: int| 0 <= i < x.len() ==> json_eq(#[trigger] x[i], y[i])
        },
        (Json::Object(x), Json::Object(y)) => {
            &&& x.len() == y.len()
            &&& forall|i: int|
                0 <= i < x.len() ==> (#[trigger] x[i]).0 == y[i].0 && json_eq(x[i].1, y[i].1)
        },
        _ => false,
    }
}

// ---------------------------------------------------------------------------
// The values
// ---------------------------------------------------------------------------

/// A fraction, held as the shortest decimal text that reads back as it.
#[derive(Debug)]
pub struct Float {
    text: String,
}

/// A JSON number.
#[derive(Debug)]
pub enum Number {
    PosInt(u64),
    NegInt(i64),
    Float(Float),
}

/// A JSON value.
#[derive(Debug)]
pub enum JsonValue {
    Null,
    Bool(bool),
    Number(Number),
    String(String),
    Array(Vec<JsonValue>),
    Object(TextMap<JsonValue>),
}

impl Float {
    pub closed spec fn view(&self) -> Seq<char> {
        self.text@
    }

    #[verifier::type_invariant]
    spec fn is_printed(self) -> bool {
        is_fraction_text(self.text@)
    }

    /// The decimal text.
    pub fn text(&self) -> (r: &str)
        ensures
            r@ == self@,
    {
        self.text.as_str()
    }
}

impl Number {
    pub open spec fn view(&self) -> Num {
        match self {
            Number::PosInt(n) => Num::Int(*n as int),
            Number::NegInt(n) => Num::Int(*n as int),
            Number::Float(f) => Num::Float(f@),
        }
    }
}

impl JsonValue {
    /// The JSON value that this holds.
    pub closed spec fn json(&self) -> Json
        decreases self,
    {
        match self {
            JsonValue::Null => Json::Null,
            JsonValue::Bool(b) => Json::Bool(*b),
            JsonValue::Number(n) => Json::Number(n@),
            JsonValue::String(s) => Json::Text(s@),
            JsonValue::Array(items) => Json::Array(
                Seq::new(
                    items@.len(),
                    |i: int|
                        if 0 <= i < items@.len() {
                            items@[i].json()
                        } else {
                            Json::Null
                        },
                ),
            ),
            JsonValue::Object(map) => Json::Object(
                Seq::new(
                    map.entries@.len(),
                    |i: int|
                        if 0 <= i < map.entries@.len() {
                            (map.entries@[i].0@, map.entries@[i].1.json())
                        } else {
                            (Seq::empty(), Json::Null)
                        },
                ),
            ),
        }
    }
}


/// The JSON values that a list of values holds.
pub open spec fn jsons(items: Seq<JsonValue>) -> Seq<Json> {
    Seq::new(items.len(), |i: int| items[i].json())
}

/// The JSON value that `v` holds, in terms of its parts.
pub open spec fn json_of(v: JsonValue) -> Json {
    match v {
        JsonValue::Null => Json::Null,
        JsonValue::Bool(b) => Json::Bool(b),
        JsonValue::Number(n) => Json::Number(n@),
        JsonValue::String(s) => Json::Text(s@),
        JsonValue::Array(items) => Json::Array(jsons(items@)),
        JsonValue::Object(map) => Json::Object(map@),
    }
}

pub broadcast proof fn lemma_json_of(v: JsonValue)
    ensures
        #[trigger] v.json() == json_of(v),
{
    match v {
        JsonValue::Array(items) => {
            assert(v.json()->Array_0 =~= jsons(items@));
        },
        JsonValue::Object(map) => {
            lemma_map_view(map);
            assert(v.json()->Object_0 =~= map@);
        },
        _ => {},
    }
}

impl Modelled for JsonValue {
    type Model = Json;

    open spec fn model(&self) -> Json {
        self.json()
    }
}

impl Copied for JsonValue {
    fn copied(&self) -> (r: Self) {
        self.copy()
    }
}

impl JsonValue {
    /// A copy.
    pub fn copy(&self) -> (r: JsonValue)
        ensures
            r.json() == self.json(),
        decreases self,
    {
        broadcast use lemma_json_of;

        match self {
            JsonValue::Null => JsonValue::Null,
            JsonValue::Bool(b) => JsonValue::Bool(*b),
            JsonValue::Number(n) => JsonValue::Number(n.copy()),
            JsonValue::String(s) => JsonValue::String(s.clone()),
            JsonValue::Array(items) => {
                let mut out: Vec<JsonValue> = Vec::new();
                let mut i: usize = 0;
                while i < items.len()
                    invariant
                        *self == JsonValue::Array(*items),
                        i <= items@.len(),
                        jsons(out@) == jsons(items@).take(i as int),
                    decreases items@.len() - i,
                {
                    let ghost before = out@;
                    assert(decreases_to!(*self => self->Array_0));
                    assert(decreases_to!(*items => items@));
                    assert(decreases_to!(items@ => items@[i as int]));
                    let item = items[i].copy();
                    out.push(item);
                    i += 1;
                    assert(jsons(out@) =~= jsons(before).push(item.json()));
                    assert(jsons(out@) =~= jsons(items@).take(i as int));
                }
                assert(jsons(items@).take(i as int) =~= jsons(items@));
                JsonValue::Array(out)
            },
            JsonValue::Object(map) => {
                proof {
                    use_type_invariant(map);
                    map_is_sorted(*map);
                    lemma_map_view(*map);
                }
                let mut out: Vec<(String, JsonValue)> = Vec::new();
                let mut i: usize = 0;
                while i < map.entries.len()
                    invariant
                        *self == JsonValue::Object(*map),
                        map@ == entry_models(map.entries@),
                        i <= map.entries@.len(),
                        entry_models(out@) == map@.take(i as int),
                    decreases map.entries@.len() - i,
                {
                    let key = map.entries[i].0.clone();
                    let ghost before = out@;
                    assert(decreases_to!(*self => self->Object_0));
                    assert(decreases_to!(*map => map.entries));
                    assert(decreases_to!(map.entries => map.entries@));
                    assert(decreases_to!(map.entries@ => map.entries@[i as int]));
                    let value = map.entries[i].1.copy();
                    out.push((key, value));
                    i += 1;
                    assert(entry_models(out@) =~= entry_models(before).push((key@, value.json())));
                    assert(entry_models(out@) =~= map@.take(i as int));
                }
                assert(map@.take(i as int) =~= map@);
                JsonValue::Object(TextMap::from_sorted(out))
            },
        }
    }
}

impl Number {
    /// A copy.
    pub fn copy(&self) -> (r: Number)
        ensures
            r@ == self@,
    {
        match self {
            Number::PosInt(n) => Number::PosInt(*n),
            Number::NegInt(n) => Number::NegInt(*n),
            Number::Float(f) => Number::Float(f.clone()),
        }
    }

    /// Whether two numbers are equal.
    pub fn equals(&self, other: &Number) -> (r: bool)
        ensures
            r == num_eq(self@, other@),
    {
        match (self, other) {
            (Number::PosInt(a), Number::PosInt(b)) => *a == *b,
            (Number::NegInt(a), Number::NegInt(b)) => *a == *b,
            (Number::PosInt(a), Number::NegInt(b)) => *b >= 0 && *a == *b as u64,
            (Number::NegInt(a), Number::PosInt(b)) => *a >= 0 && *b == *a as u64,
            (Number::Float(a), Number::Float(b)) => {
                let x = a.text();
                let y = b.text();
                same(x, y) || ((same(x, "0.0") || same(x, "-0.0")) && (same(y, "0.0") || same(
                    y,
                    "-0.0",
                )))
            },
            _ => false,
        }
    }
}

impl JsonValue {
    /// Whether two values are equal.
    pub fn equals(&self, other: &JsonValue) -> (r: bool)
        ensures
            r == json_eq(self.json(), other.json()),
        decreases self,
    {
        broadcast use lemma_json_of;

        match (self, other) {
            (JsonValue::Null, JsonValue::Null) => true,
            (JsonValue::Bool(a), JsonValue::Bool(b)) => *a == *b,
            (JsonValue::Number(a), JsonValue::Number(b)) => a.equals(b),
            (JsonValue::String(a), JsonValue::String(b)) => same(a.as_str(), b.as_str()),
            (JsonValue::Array(a), JsonValue::Array(b)) => {
                if a.len() != b.len() {
                    return false;
                }
                let ghost x = jsons(a@);
                let ghost y = jsons(b@);
                let mut i: usize = 0;
                while i < a.len()
                    invariant
                        *self == JsonValue::Array(*a),
                        a@.len() == b@.len(),
                        x == jsons(a@),
                        y == jsons(b@),
                        i <= a@.len(),
                        forall|k: int| 0 <= k < i ==> json_eq(#[trigger] x[k], y[k]),
                        self.json() == Json::Array(x),
                        other.json() == Json::Array(y),
                    decreases a@.len() - i,
                {
                    if !a[i].equals(&b[i]) {
                        assert(!json_eq(x[i as int], y[i as int]));
                        return false;
                    }
                    i += 1;
                }
                true
            },
            (JsonValue::Object(a), JsonValue::Object(b)) => {
                proof {
                    lemma_map_view(*a);
                    lemma_map_view(*b);
                }
                if a.entries.len() != b.entries.len() {
                    return false;
                }
                let ghost x = a@;
                let ghost y = b@;
                let mut i: usize = 0;
                while i < a.entries.len()
                    invariant
                        *self == JsonValue::Object(*a),
                        a.entries@.len() == b.entries@.len(),
                        x == entry_models(a.entries@),
                        y == entry_models(b.entries@),
                        i <= a.entries@.len(),
                        forall|k: int|
                            0 <= k < i ==> (#[trigger] x[k]).0 == y[k].0 && json_eq(
                                x[k].1,
                                y[k].1,
                            ),
                        self.json() == Json::Object(x),
                        other.json() == Json::Object(y),
                    decreases a.entries@.len() - i,
                {
                    assert(x[i as int].0 == a.entries@[i as int].0@);
                    assert(y[i as int].0 == b.entries@[i as int].0@);
                    if !same(a.entries[i].0.as_str(), b.entries[i].0.as_str()) {
                        return false;
                    }
                    if !a.entries[i].1.equals(&b.entries[i].1) {
                        assert(!json_eq(x[i as int].1, y[i as int].1));
                        return false;
                    }
                    i += 1;
                }
                true
            },
            _ => false,
        }
    }
}

impl Clone for Float {
    fn clone(&self) -> (r: Float)
        ensures
            r@ == self@,
    {
        proof {
            use_type_invariant(self);
        }
        Float { text: self.text.clone() }
    }
}

impl Clone for Number {
    fn clone(&self) -> (r: Number)
        ensures
            r@ == self@,
    {
        self.copy()
    }
}

impl Clone for JsonValue {
    fn clone(&self) -> (r: JsonValue)
        ensures
            r.json() == self.json(),
    {
        self.copy()
    }
}

impl PartialEq for Number {
    fn eq(&self, other: &Number) -> (r: bool) {
        self.equals(other)
    }
}

impl vstd::std_specs::cmp::PartialEqSpecImpl for Number {
    open spec fn obeys_eq_spec() -> bool {
        true
    }

    open spec fn eq_spec(&self, other: &Number) -> bool {
        num_eq(self@, other@)
    }
}

impl PartialEq for JsonValue {
    fn eq(&self, other: &JsonValue) -> (r: bool) {
        self.equals(other)
    }
}

impl vstd::std_specs::cmp::PartialEqSpecImpl for JsonValue {
    open spec fn obeys_eq_spec() -> bool {
        true
    }

    open spec fn eq_spec(&self, other: &JsonValue) -> bool {
        json_eq(self.json(), other.json())
    }
}


// ---------------------------------------------------------------------------
// What serde_json does
// ---------------------------------------------------------------------------

/// `serde_json::Value`, opaque here.
#[verifier::external_type_specification]
#[verifier::external_body]
pub struct ExJsonValue(serde_json::Value);

/// What a `serde_json::Value` holds.
pub uninterp spec fn outside_json(v: serde_json::Value) -> Json;

/// What `serde_json::from_str` reads out of a text as a value, where it succeeds.
pub uninterp spec fn json_parse(text: Seq<char>) -> Option<Json>;

/// What `serde_json::from_slice` reads out of bytes as a value, where it
/// succeeds.
pub uninterp spec fn json_parse_bytes(bytes: Seq<u8>) -> Option<Json>;

/// What `serde_json::from_str` reads out of a text as a number, where it
/// succeeds.
pub uninterp spec fn number_parse(text: Seq<char>) -> Option<Num>;

/// Whether a text is one that a `serde_json::Number` prints of a number that is
/// no 64-bit integer.
pub uninterp spec fn is_fraction_text(text: Seq<char>) -> bool;

/// The compact text that `serde_json::Value` prints for a value.
pub uninterp spec fn json_text(v: Json) -> Seq<char>;

/// The indented text that `serde_json::to_string_pretty` makes of a value, where
/// it succeeds.
pub uninterp spec fn json_pretty(v: Json) -> Option<Seq<char>>;

/// The top level of a `serde_json::Value`.
pub enum Shape {
    Null,
    Bool(bool),
    Number(Number),
    String(String),
    Array(Vec<serde_json::Value>),
    Object(Vec<(String, serde_json::Value)>),
}

/// What a list of `serde_json` values holds.
pub open spec fn outside_jsons(items: Seq<serde_json::Value>) -> Seq<Json> {
    Seq::new(items.len(), |i: int| outside_json(items[i]))
}

/// What a list of keys with `serde_json` values holds.
pub open spec fn outside_entries(entries: Seq<(String, serde_json::Value)>) -> Seq<
    (Seq<char>, Json),
> {
    Seq::new(entries.len(), |i: int| (entries[i].0@, outside_json(entries[i].1)))
}

/// What a shape holds.
pub open spec fn shape_json(s: Shape) -> Json {
    match s {
        Shape::Null => Json::Null,
        Shape::Bool(b) => Json::Bool(b),
        Shape::Number(n) => Json::Number(n@),
        Shape::String(t) => Json::Text(t@),
        Shape::Array(items) => Json::Array(outside_jsons(items@)),
        Shape::Object(entries) => Json::Object(outside_entries(entries@)),
    }
}

/// A number that is written in digits alone, without a superfluous zero, and
/// fits in 64 bits.
pub open spec fn is_plain_integer(s: Seq<char>) -> bool {
    &&& s.len() > 0
    &&& all_digits(s)
    &&& s[0] == '0' ==> s.len() == 1
    &&& digits_value(s) <= u64::MAX
}

/// Whether a value holds no fraction and is nested at most `depth` deep.
pub open spec fn is_plain(v: Json, depth: nat) -> bool
    decreases v,
{
    match v {
        Json::Number(Num::Int(n)) => i64::MIN <= n <= u64::MAX,
        Json::Number(Num::Float(_)) => false,
        Json::Array(items) => depth > 0 && forall|i: int|
            0 <= i < items.len() ==> is_plain(#[trigger] items[i], (depth - 1) as nat),
        Json::Object(entries) => depth > 0 && forall|i: int|
            0 <= i < entries.len() ==> is_plain((#[trigger] entries[i]).1, (depth - 1) as nat),
        _ => true,
    }
}

/// `serde_json::from_str` for a value: the value read, or `None` where it
/// reports an error. What it accepts is only named.
#[verifier::external_body]
fn outside_from_str(text: &str) -> (r: Option<serde_json::Value>)
    ensures
        r matches Some(v) ==> json_parse(text@) == Some(outside_json(v)),
        r is None ==> json_parse(text@) is None,
{
    serde_json::from_str::<serde_json::Value>(text).ok()
}

/// `serde_json::from_slice` for a value: the value read, or `None` where it
/// reports an error. What it accepts is only named.
#[verifier::external_body]
fn outside_from_slice(bytes: &[u8]) -> (r: Option<serde_json::Value>)
    ensures
        r matches Some(v) ==> json_parse_bytes(bytes@) == Some(outside_json(v)),
        r is None ==> json_parse_bytes(bytes@) is None,
{
    serde_json::from_slice::<serde_json::Value>(bytes).ok()
}

/// `serde_json::from_str` for a number: the number read, or `None` where it
/// reports an error. Digits alone are read as the integer that they denote;
/// what else it accepts is only named.
#[verifier::external_body]
fn outside_number(text: &str) -> (r: Option<Number>)
    ensures
        r matches Some(n) ==> number_parse(text@) == Some(n@),
        r is None ==> number_parse(text@) is None,
        r matches Some(Number::Float(f)) ==> is_fraction_text(f@),
        is_plain_integer(text@) ==> r is Some && r->0@ == Num::Int(digits_value(text@) as int),
{
    let n = serde_json::from_str::<serde_json::Number>(text).ok()?;
    Some(
        match (n.as_u64(), n.as_i64()) {
            (Some(u), _) => Number::PosInt(u),
            (None, Some(i)) => Number::NegInt(i),
            (None, None) => Number::Float(Float { text: n.to_string() }),
        },
    )
}

/// The variants of `serde_json::Value`, with `Number::as_u64`, `Number::as_i64`
/// and the number's text. The entries of an object come in the order of their
/// keys: its map is a `BTreeMap`.
#[verifier::external_body]
fn outside_open(v: serde_json::Value) -> (r: Shape)
    ensures
        shape_json(r) == outside_json(v),
        r matches Shape::Number(Number::Float(f)) ==> is_fraction_text(f@),
        r matches Shape::Object(entries) ==> sorted(outside_entries(entries@)),
{
    match v {
        serde_json::Value::Null => Shape::Null,
        serde_json::Value::Bool(b) => Shape::Bool(b),
        serde_json::Value::Number(n) => match (n.as_u64(), n.as_i64()) {
            (Some(u), _) => Shape::Number(Number::PosInt(u)),
            (None, Some(i)) => Shape::Number(Number::NegInt(i)),
            (None, None) => Shape::Number(Number::Float(Float { text: n.to_string() })),
        },
        serde_json::Value::String(s) => Shape::String(s),
        serde_json::Value::Array(items) => Shape::Array(items),
        serde_json::Value::Object(map) => Shape::Object(map.into_iter().collect()),
    }
}

/// The variants of `serde_json::Value`, built from plain data. A fraction is
/// read back from its text, which gives the fraction that the text was made of.
#[verifier::external_body]
fn outside_close(s: Shape) -> (r: serde_json::Value)
    requires
        s matches Shape::Number(Number::Float(f)) ==> is_fraction_text(f@),
        s matches Shape::Object(entries) ==> sorted(outside_entries(entries@)),
    ensures
        outside_json(r) == shape_json(s),
{
    match s {
        Shape::Null => serde_json::Value::Null,
        Shape::Bool(b) => serde_json::Value::Bool(b),
        Shape::Number(Number::PosInt(n)) => n.into(),
        Shape::Number(Number::NegInt(n)) => n.into(),
        Shape::Number(Number::Float(f)) => {
            serde_json::Number::from_f64(f.text.parse().unwrap_or_default()).into()
        },
        Shape::String(t) => serde_json::Value::String(t),
        Shape::Array(items) => serde_json::Value::Array(items),
        Shape::Object(entries) => serde_json::Value::Object(entries.into_iter().collect()),
    }
}

/// `to_string` of a `serde_json::Value`. The words, the integers and the
/// fractions are printed as they are; what is printed for text, arrays and
/// objects is only named.
#[verifier::external_body]
fn outside_text(v: &serde_json::Value) -> (r: String)
    ensures
        r@ == json_text(outside_json(*v)),
        outside_json(*v) == Json::Null ==> r@ == "null"@,
        outside_json(*v) == Json::Bool(true) ==> r@ == "true"@,
        outside_json(*v) == Json::Bool(false) ==> r@ == "false"@,
        outside_json(*v) matches Json::Number(Num::Int(n)) ==> r@ == signed_decimal(n),
        outside_json(*v) matches Json::Number(Num::Float(t)) ==> r@ == t,
{
    v.to_string()
}

/// `serde_json::to_string_pretty`, or `None` where it reports an error. The
/// text is only named. It reads back as the value where that holds no fraction,
/// which may be read with the last bit off, and is nested no deeper than the
/// reader goes.
#[verifier::external_body]
fn outside_pretty(v: &serde_json::Value) -> (r: Option<String>)
    ensures
        r matches Some(t) ==> json_pretty(outside_json(*v)) == Some(t@),
        r is None ==> json_pretty(outside_json(*v)) is None,
        is_plain(outside_json(*v), 127) ==> r is Some && json_parse(r->0@) == Some(
            outside_json(*v),
        ),
{
    serde_json::to_string_pretty(v).ok()
}

// ---------------------------------------------------------------------------
// Reading and printing
// ---------------------------------------------------------------------------

/// The value that a `serde_json` value holds.
fn from_outside(v: serde_json::Value) -> (r: JsonValue)
    ensures
        r.json() == outside_json(v),
    decreases outside_json(v),
{
    broadcast use lemma_json_of;

    let ghost j = outside_json(v);
    match outside_open(v) {
        Shape::Null => JsonValue::Null,
        Shape::Bool(b) => JsonValue::Bool(b),
        Shape::Number(n) => JsonValue::Number(n),
        Shape::String(s) => JsonValue::String(s),
        Shape::Array(items) => {
            let ghost all = outside_jsons(items@);
            let mut out: Vec<JsonValue> = Vec::new();
            for item in it: items
                invariant
                    outside_jsons(it.seq()) == all,
                    j == Json::Array(all),
                    j == outside_json(v),
                    jsons(out@) == all.take(it.index()),
            {
                let ghost before = out@;
                let ghost i = it.index();
                assert(outside_json(item) == all[i]);
                assert(decreases_to!(j => j->Array_0));
                assert(decreases_to!(all => all[i]));
                let value = from_outside(item);
                out.push(value);
                assert(jsons(out@) =~= jsons(before).push(value.json()));
                assert(jsons(out@) =~= all.take(i + 1));
            }
            assert(all.take(all.len() as int) =~= all);
            JsonValue::Array(out)
        },
        Shape::Object(entries) => {
            let ghost all = outside_entries(entries@);
            let mut out: Vec<(String, JsonValue)> = Vec::new();
            for entry in it: entries
                invariant
                    outside_entries(it.seq()) == all,
                    j == Json::Object(all),
                    j == outside_json(v),
                    entry_models(out@) == all.take(it.index()),
            {
                let ghost before = out@;
                let ghost i = it.index();
                assert((entry.0@, outside_json(entry.1)) == all[i]);
                assert(decreases_to!(j => j->Object_0));
                assert(decreases_to!(all => all[i]));
                assert(decreases_to!(all[i] => all[i].1));
                let (key, member) = entry;
                let value = from_outside(member);
                out.push((key, value));
                assert(entry_models(out@) =~= entry_models(before).push((key@, value.json())));
                assert(entry_models(out@) =~= all.take(i + 1));
            }
            assert(all.take(all.len() as int) =~= all);
            JsonValue::Object(TextMap::from_sorted(out))
        },
    }
}

/// The `serde_json` value for a value.
fn to_outside(v: &JsonValue) -> (r: serde_json::Value)
    ensures
        outside_json(r) == v.json(),
    decreases v,
{
    broadcast use lemma_json_of;

    match v {
        JsonValue::Null => outside_close(Shape::Null),
        JsonValue::Bool(b) => outside_close(Shape::Bool(*b)),
        JsonValue::Number(n) => {
            let n = n.copy();
            proof {
                if let Number::Float(f) = &n {
                    use_type_invariant(f);
                }
            }
            outside_close(Shape::Number(n))
        },
        JsonValue::String(s) => outside_close(Shape::String(s.clone())),
        JsonValue::Array(items) => {
            let mut out: Vec<serde_json::Value> = Vec::new();
            let mut i: usize = 0;
            while i < items.len()
                invariant
                    *v == JsonValue::Array(*items),
                    i <= items@.len(),
                    outside_jsons(out@) == jsons(items@).take(i as int),
                decreases items@.len() - i,
            {
                let ghost before = out@;
                assert(decreases_to!(*v => v->Array_0));
                assert(decreases_to!(*items => items@));
                assert(decreases_to!(items@ => items@[i as int]));
                let item = to_outside(&items[i]);
                out.push(item);
                i += 1;
                assert(outside_jsons(out@) =~= outside_jsons(before).push(outside_json(item)));
                assert(outside_jsons(out@) =~= jsons(items@).take(i as int));
            }
            assert(jsons(items@).take(i as int) =~= jsons(items@));
            outside_close(Shape::Array(out))
        },
        JsonValue::Object(map) => {
            proof {
                use_type_invariant(map);
                map_is_sorted(*map);
                lemma_map_view(*map);
            }
            let mut out: Vec<(String, serde_json::Value)> = Vec::new();
            let mut i: usize = 0;
            while i < map.entries.len()
                invariant
                    *v == JsonValue::Object(*map),
                    map@ == entry_models(map.entries@),
                    i <= map.entries@.len(),
                    outside_entries(out@) == map@.take(i as int),
                decreases map.entries@.len() - i,
            {
                let ghost before = out@;
                assert(decreases_to!(*v => v->Object_0));
                assert(decreases_to!(*map => map.entries));
                assert(decreases_to!(map.entries => map.entries@));
                assert(decreases_to!(map.entries@ => map.entries@[i as int]));
                let key = map.entries[i].0.clone();
                let item = to_outside(&map.entries[i].1);
                out.push((key, item));
                i += 1;
                assert(outside_entries(out@) =~= outside_entries(before).push(
                    (key@, outside_json(item)),
                ));
                assert(outside_entries(out@) =~= map@.take(i as int));
            }
            assert(map@.take(i as int) =~= map@);
            outside_close(Shape::Object(out))
        },
    }
}

/// Reads a JSON value out of a text.
pub fn parse_json(text: &str) -> (r: Option<JsonValue>)
    ensures
        r matches Some(v) ==> json_parse(text@) == Some(v.json()),
        r is None ==> json_parse(text@) is None,
{
    match outside_from_str(text) {
        Some(v) => Some(from_outside(v)),
        None => None,
    }
}

/// Reads a JSON value out of bytes.
pub fn parse_json_bytes(bytes: &[u8]) -> (r: Option<JsonValue>)
    ensures
        r matches Some(v) ==> json_parse_bytes(bytes@) == Some(v.json()),
        r is None ==> json_parse_bytes(bytes@) is None,
{
    match outside_from_slice(bytes) {
        Some(v) => Some(from_outside(v)),
        None => None,
    }
}

/// Reads a JSON number out of a text.
pub fn parse_number(text: &str) -> (r: Option<Number>)
    ensures
        r matches Some(n) ==> number_parse(text@) == Some(n@),
        r is None ==> number_parse(text@) is None,
        is_plain_integer(text@) ==> r is Some && r->0@ == Num::Int(digits_value(text@) as int),
{
    outside_number(text)
}

/// The compact JSON text of a value.
pub fn print_json(v: &JsonValue) -> (r: String)
    ensures
        r@ == json_text(v.json()),
        v.json() == Json::Null ==> r@ == "null"@,
        v.json() == Json::Bool(true) ==> r@ == "true"@,
        v.json() == Json::Bool(false) ==> r@ == "false"@,
        v.json() matches Json::Number(Num::Int(n)) ==> r@ == signed_decimal(n),
        v.json() matches Json::Number(Num::Float(t)) ==> r@ == t,
{
    let outside = to_outside(v);
    outside_text(&outside)
}

/// The indented JSON text of a value.
pub fn print_json_pretty(v: &JsonValue) -> (r: Option<String>)
    ensures
        r matches Some(t) ==> json_pretty(v.json()) == Some(t@),
        r is None ==> json_pretty(v.json()) is None,
        is_plain(v.json(), 127) ==> r is Some && json_parse(r->0@) == Some(v.json()),
{
    let outside = to_outside(v);
    outside_pretty(&outside)
}

/// Whether a value holds no fraction.
pub open spec fn has_no_fraction(v: Json) -> bool
    decreases v,
{
    match v {
        Json::Number(Num::Float(_)) => false,
        Json::Array(items) => forall|i: int|
            0 <= i < items.len() ==> has_no_fraction(#[trigger] items[i]),
        Json::Object(entries) => forall|i: int|
            0 <= i < entries.len() ==> has_no_fraction((#[trigger] entries[i]).1),
        _ => true,
    }
}

/// Values compare as equal exactly if they are the same value. Only among fractions
/// are there two that are equal without being the same: the two zeros.
pub proof fn equal_values_are_the_same(a: Json, b: Json)
    ensures
        has_no_fraction(a) ==> json_eq(a, b) == (a == b),
        a == b ==> json_eq(a, b),
        a is Text && json_eq(a, b) ==> a == b,
        (match (a, b) {
            (Json::Number(Num::Float(x)), Json::Number(Num::Float(y))) => json_eq(a, b) == (x == y
                || ((x == "0.0"@ || x == "-0.0"@) && (y == "0.0"@ || y == "-0.0"@))),
            _ => true,
        }),
    decreases a,
{
    if let (Json::Array(x), Json::Array(y)) = (a, b) {
        if x.len() == y.len() {
            assert forall|i: int| 0 <= i < x.len() implies {
                &&& has_no_fraction(x[i]) ==> json_eq(x[i], y[i]) == (x[i] == y[i])
                &&& x[i] == y[i] ==> json_eq(#[trigger] x[i], y[i])
            } by {
                equal_values_are_the_same(x[i], y[i]);
            }
            if has_no_fraction(a) && json_eq(a, b) {
                assert(x =~= y);
            }
        }
    }
    if let (Json::Object(x), Json::Object(y)) = (a, b) {
        if x.len() == y.len() {
            assert forall|i: int| 0 <= i < x.len() implies {
                &&& has_no_fraction(x[i].1) ==> json_eq(x[i].1, y[i].1) == (x[i].1 == y[i].1)
                &&& x[i].1 == y[i].1 ==> json_eq((#[trigger] x[i]).1, y[i].1)
            } by {
                equal_values_are_the_same(x[i].1, y[i].1);
            }
            if has_no_fraction(a) && json_eq(a, b) {
                assert(x =~= y);
            }
        }
    }
}

/// It makes no difference which of two values is compared with the other.
pub proof fn json_eq_is_symmetric(a: Json, b: Json)
    ensures
        json_eq(a, b) == json_eq(b, a),
    decreases a,
{
    if let (Json::Array(x), Json::Array(y)) = (a, b) {
        if x.len() == y.len() {
            assert forall|i: int| 0 <= i < x.len() implies json_eq(#[trigger] x[i], y[i])
                == json_eq(y[i], x[i]) by {
                json_eq_is_symmetric(x[i], y[i]);
            }
            assert(json_eq(b, a) == forall|i: int|
                0 <= i < y.len() ==> json_eq(#[trigger] y[i], x[i]));
        }
    }
    if let (Json::Object(x), Json::Object(y)) = (a, b) {
        if x.len() == y.len() {
            assert forall|i: int| 0 <= i < x.len() implies json_eq((#[trigger] x[i]).1, y[i].1)
                == json_eq(y[i].1, x[i].1) by {
                json_eq_is_symmetric(x[i].1, y[i].1);
            }
            assert(json_eq(b, a) == forall|i: int|
                0 <= i < y.len() ==> (#[trigger] y[i]).0 == x[i].0 && json_eq(y[i].1, x[i].1));
        }
    }
}

} // verus!
