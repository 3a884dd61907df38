//! JSON values as the library reads and builds them.
//!
//! Parsing and printing are `serde_json`'s; a value in between is an ordinary
//! tree that the rest of the library takes apart.

use serde_json::Value;
use vstd::prelude::*;

use crate::text::{before, same};

verus! {

/// A JSON value. An object keeps its members in a sequence; where a key occurs
/// more than once, the first occurrence counts.
pub enum Json {
    Null,
    Bool(bool),
    /// An integer in the range of `i64`.
    Int(i64),
    /// An integer above the range of `i64`.
    UInt(u64),
    /// Any other number, in its shortest decimal form.
    Float(String),
    Str(String),
    Array(Vec<Json>),
    Object(Vec<(String, Json)>),
}

/// What a JSON value is, texts and sequences taken by their contents.
pub enum JsonV {
    Null,
    Bool(bool),
    Int(i64),
    UInt(u64),
    Float(Seq<char>),
    Str(Seq<char>),
    Array(Seq<JsonV>),
    Object(Seq<(Seq<char>, JsonV)>),
}

impl Json {
    /// What the value is.
    pub open spec fn val(self) -> JsonV
        decreases self,
    {
        match self {
            Json::Null => JsonV::Null,
            Json::Bool(b) => JsonV::Bool(b),
            Json::Int(n) => JsonV::Int(n),
            Json::UInt(n) => JsonV::UInt(n),
            Json::Float(s) => JsonV::Float(s@),
            Json::Str(s) => JsonV::Str(s@),
            Json::Array(v) => JsonV::Array(
                Seq::new(v@.len(), |i: int| if 0 <= i < v@.len() { v@[i].val() } else { JsonV::Null }),
            ),
            Json::Object(v) => JsonV::Object(
                Seq::new(
                    v@.len(),
                    |i: int| if 0 <= i < v@.len() { (v@[i].0@, v@[i].1.val()) } else { (Seq::empty(), JsonV::Null) },
                ),
            ),
        }
    }
}

impl View for Json {
    type V = JsonV;

    open spec fn view(&self) -> JsonV {
        self.val()
    }
}


// ---------------------------------------------------------------------------
// Reading
// ---------------------------------------------------------------------------

/// The value of the first member named `key`.
pub open spec fn member(o: Seq<(Seq<char>, JsonV)>, key: Seq<char>) -> Option<JsonV>
    decreases o.len(),
{
    if o.len() == 0 {
        None
    } else if o[0].0 == key {
        Some(o[0].1)
    } else {
        member(o.skip(1), key)
    }
}

/// The member `key` of an object; nothing where there is none or `j` is no object.
pub open spec fn field(j: JsonV, key: Seq<char>) -> Option<JsonV> {
    match j {
        JsonV::Object(o) => member(o, key),
        _ => None,
    }
}

/// The member `key` of an object, and null where there is none.
pub open spec fn at(j: JsonV, key: Seq<char>) -> JsonV {
    match field(j, key) {
        Some(v) => v,
        None => JsonV::Null,
    }
}

/// The text of a string value.
pub open spec fn as_str(j: JsonV) -> Option<Seq<char>> {
    match j {
        JsonV::Str(s) => Some(s),
        _ => None,
    }
}

/// The text of a string value, and the empty text of any other.
pub open spec fn str_or_empty(j: JsonV) -> Seq<char> {
    match j {
        JsonV::Str(s) => s,
        _ => Seq::empty(),
    }
}

/// The elements of an array value.
pub open spec fn as_array(j: JsonV) -> Option<Seq<JsonV>> {
    match j {
        JsonV::Array(a) => Some(a),
        _ => None,
    }
}

/// The truth of a boolean value.
pub open spec fn as_bool(j: JsonV) -> Option<bool> {
    match j {
        JsonV::Bool(b) => Some(b),
        _ => None,
    }
}

/// The integer in a number value, where it lies in the range of `i64`.
pub open spec fn as_i64(j: JsonV) -> Option<i64> {
    match j {
        JsonV::Int(n) => Some(n),
        _ => None,
    }
}

/// The members of an object value.
pub open spec fn members(v: Seq<(String, Json)>) -> Seq<(Seq<char>, JsonV)> {
    Seq::new(v.len(), |i: int| (v[i].0@, v[i].1@))
}

/// The values of an array.
pub open spec fn elems(v: Seq<Json>) -> Seq<JsonV> {
    Seq::new(v.len(), |i: int| v[i]@)
}

impl Json {
    /// An object's value, by its members.
    pub proof fn lemma_object(v: Vec<(String, Json)>)
        ensures
            Json::Object(v)@ == JsonV::Object(members(v@)),
    {
        assert(Json::Object(v)@->Object_0 =~= members(v@));
    }

    /// An array's value, by its elements.
    pub proof fn lemma_array(v: Vec<Json>)
        ensures
            Json::Array(v)@ == JsonV::Array(elems(v@)),
    {
        assert(Json::Array(v)@->Array_0 =~= elems(v@));
    }

    /// The member `key` of an object, if there is one.
    pub fn get(&self, key: &str) -> (r: Option<&Json>)
        ensures
            match r {
                Some(j) => field(self@, key@) == Some(j@),
                None => field(self@, key@) is None,
            },
    {
        match self {
            Json::Object(v) => {
                proof {
                    Json::lemma_object(*v);
                }
                let ghost all = members(v@);
                let mut i: usize = 0;
                assert(all.skip(0) =~= all);
                while i < v.len()
                    invariant
                        i <= v@.len(),
                        all == members(v@),
                        field(self@, key@) == member(all, key@),
                        member(all, key@) == member(all.skip(i as int), key@),
                    decreases v@.len() - i,
                {
                    assert(all.skip(i as int)[0] == all[i as int]);
                    assert(all.skip(i as int).skip(1) =~= all.skip(i as int + 1));
                    if same(v[i].0.as_str(), key) {
                        return Some(&v[i].1);
                    }
                    i = i + 1;
                }
                None
            },
            _ => None,
        }
    }

    /// The text of the member `key`, if it is a string.
    pub fn str_at(&self, key: &str) -> (r: Option<&str>)
        ensures
            match r {
                Some(s) => as_str(at(self@, key@)) == Some(s@),
                None => as_str(at(self@, key@)) is None,
            },
    {
        match self.get(key) {
            Some(Json::Str(s)) => Some(s.as_str()),
            _ => None,
        }
    }

    /// The text of the member `key`, and the empty text where it is no string.
    pub fn text_at(&self, key: &str) -> (r: String)
        ensures
            r@ == str_or_empty(at(self@, key@)),
    {
        match self.str_at(key) {
            Some(s) => s.to_owned(),
            None => String::new(),
        }
    }

    /// Whether the member `key` is the string `text`.
    pub fn is_at(&self, key: &str, text: &str) -> (r: bool)
        ensures
            r == (as_str(at(self@, key@)) == Some(text@)),
    {
        match self.str_at(key) {
            Some(s) => same(s, text),
            None => false,
        }
    }

    /// The member `key`, copied, and null where there is none.
    pub fn copy_at(&self, key: &str) -> (r: Json)
        ensures
            r@ == at(self@, key@),
    {
        match self.get(key) {
            Some(j) => j.copy(),
            None => Json::Null,
        }
    }

    /// The elements of an array value.
    pub fn array(&self) -> (r: Option<&Vec<Json>>)
        ensures
            match r {
                Some(v) => as_array(self@) == Some(elems(v@)),
                None => as_array(self@) is None,
            },
    {
        match self {
            Json::Array(v) => {
                proof {
                    Json::lemma_array(*v);
                }
                Some(v)
            },
            _ => None,
        }
    }

    /// The integer of a number value, where it lies in the range of `i64`.
    pub fn integer(&self) -> (r: Option<i64>)
        ensures
            r == as_i64(self@),
    {
        match self {
            Json::Int(n) => Some(*n),
            _ => None,
        }
    }

    /// The same value once more.
    pub fn copy(&self) -> (r: Json)
        ensures
            r@ == self@,
        decreases self,
    {
        match self {
            Json::Null => Json::Null,
            Json::Bool(b) => Json::Bool(*b),
            Json::Int(n) => Json::Int(*n),
            Json::UInt(n) => Json::UInt(*n),
            Json::Float(s) => Json::Float(s.clone()),
            Json::Str(s) => Json::Str(s.clone()),
            Json::Array(v) => {
                let mut out: Vec<Json> = Vec::new();
                let mut i: usize = 0;
                while i < v.len()
                    invariant
                        i <= v@.len(),
                        *self == Json::Array(*v),
                        out@.len() == i,
                        forall|k: int| 0 <= k < i ==> #[trigger] out@[k]@ == v@[k]@,
                    decreases v@.len() - i,
                {
                    proof {
                        assert(decreases_to!(*self => (*self)->Array_0));
                        assert(decreases_to!(*v => v@));
                        assert(decreases_to!(v@ => v@[i as int]));
                    }
                    let c = v[i].copy();
                    out.push(c);
                    i = i + 1;
                }
                proof {
                    Json::lemma_array(*v);
                    Json::lemma_array(out);
                    assert(elems(v@) =~= elems(out@));
                }
                Json::Array(out)
            },
            Json::Object(v) => {
                let mut out: Vec<(String, Json)> = Vec::new();
                let mut i: usize = 0;
                while i < v.len()
                    invariant
                        i <= v@.len(),
                        *self == Json::Object(*v),
                        out@.len() == i,
                        forall|k: int| 0 <= k < i ==> #[trigger] out@[k].1@ == v@[k].1@ && out@[k].0@ == v@[k].0@,
                    decreases v@.len() - i,
                {
                    proof {
                        assert(decreases_to!(*self => (*self)->Object_0));
                        assert(decreases_to!(*v => v@));
                        assert(decreases_to!(v@ => v@[i as int]));
                        assert(decreases_to!(v@[i as int] => v@[i as int].1));
                    }
                    let c = v[i].1.copy();
                    out.push((v[i].0.clone(), c));
                    i = i + 1;
                }
                proof {
                    Json::lemma_object(*v);
                    Json::lemma_object(out);
                    assert(members(v@) =~= members(out@));
                }
                Json::Object(out)
            },
        }
    }
}

// ---------------------------------------------------------------------------
// Building
// ---------------------------------------------------------------------------

/// A string value.
pub fn text(s: &str) -> (r: Json)
    ensures
        r@ == JsonV::Str(s@),
{
    Json::Str(s.to_owned())
}

/// The object without members.
pub fn obj0() -> (r: Json)
    ensures
        r@ == JsonV::Object(Seq::empty()),
{
    let v: Vec<(String, Json)> = Vec::new();
    proof {
        Json::lemma_object(v);
        assert(members(v@) =~= Seq::empty());
    }
    Json::Object(v)
}

/// An object with one member.
pub fn obj1(k: &str, a: Json) -> (r: Json)
    ensures
        r@ == JsonV::Object(seq![(k@, a@)]),
{
    let mut v: Vec<(String, Json)> = Vec::new();
    v.push((k.to_owned(), a));
    proof {
        Json::lemma_object(v);
        assert(members(v@) =~= seq![(k@, a@)]);
    }
    Json::Object(v)
}

/// An object with two members.
pub fn obj2(k: &str, a: Json, l: &str, b: Json) -> (r: Json)
    ensures
        r@ == JsonV::Object(seq![(k@, a@), (l@, b@)]),
{
    let mut v: Vec<(String, Json)> = Vec::new();
    v.push((k.to_owned(), a));
    v.push((l.to_owned(), b));
    proof {
        Json::lemma_object(v);
        assert(members(v@) =~= seq![(k@, a@), (l@, b@)]);
    }
    Json::Object(v)
}

/// An object with three members.
pub fn obj3(k: &str, a: Json, l: &str, b: Json, m: &str, c: Json) -> (r: Json)
    ensures
        r@ == JsonV::Object(seq![(k@, a@), (l@, b@), (m@, c@)]),
{
    let mut v: Vec<(String, Json)> = Vec::new();
    v.push((k.to_owned(), a));
    v.push((l.to_owned(), b));
    v.push((m.to_owned(), c));
    proof {
        Json::lemma_object(v);
        assert(members(v@) =~= seq![(k@, a@), (l@, b@), (m@, c@)]);
    }
    Json::Object(v)
}

/// An object with four members.
pub fn obj4(k: &str, a: Json, l: &str, b: Json, m: &str, c: Json, n: &str, d: Json) -> (r: Json)
    ensures
        r@ == JsonV::Object(seq![(k@, a@), (l@, b@), (m@, c@), (n@, d@)]),
{
    let mut v: Vec<(String, Json)> = Vec::new();
    v.push((k.to_owned(), a));
    v.push((l.to_owned(), b));
    v.push((m.to_owned(), c));
    v.push((n.to_owned(), d));
    proof {
        Json::lemma_object(v);
        assert(members(v@) =~= seq![(k@, a@), (l@, b@), (m@, c@), (n@, d@)]);
    }
    Json::Object(v)
}

/// An array of one element.
pub fn arr1(a: Json) -> (r: Json)
    ensures
        r@ == JsonV::Array(seq![a@]),
{
    let mut v: Vec<Json> = Vec::new();
    v.push(a);
    proof {
        Json::lemma_array(v);
        assert(elems(v@) =~= seq![a@]);
    }
    Json::Array(v)
}

// ---------------------------------------------------------------------------
// Text
// ---------------------------------------------------------------------------

/// `serde_json`'s value type, which stays closed.
#[verifier::external_type_specification]
#[verifier::external_body]
pub struct ExValue(serde_json::Value);

/// Takes a `serde_json::Value` apart, variant by variant. A number is an `Int`
/// where `Number::as_i64` has it, a `UInt` where `Number::as_u64` has it, and
/// keeps its printed form otherwise.
#[verifier::external_body]
fn from_value(v: Value) -> Json {
    match v {
        Value::Null => Json::Null,
        Value::Bool(b) => Json::Bool(b),
        Value::Number(n) => match (n.as_i64(), n.as_u64()) {
            (Some(i), _) => Json::Int(i),
            (None, Some(u)) => Json::UInt(u),
            (None, None) => Json::Float(n.to_string()),
        },
        Value::String(s) => Json::Str(s),
        Value::Array(a) => Json::Array(a.into_iter().map(from_value).collect()),
        Value::Object(o) => Json::Object(o.into_iter().map(|(k, x)| (k, from_value(x))).collect()),
    }
}

/// Makes a `Value`, variant by variant; the printed form of a number
/// gives the number back.
#[verifier::external_body]
fn to_value(j: &Json) -> Value {
    match j {
        Json::Null => Value::Null,
        Json::Bool(b) => Value::Bool(*b),
        Json::Int(n) => Value::from(*n),
        Json::UInt(n) => Value::from(*n),
        Json::Float(t) => {
            t.parse().ok().and_then(serde_json::Number::from_f64).map_or(Value::Null, Value::Number)
        }
        Json::Str(s) => Value::String(s.clone()),
        Json::Array(v) => Value::Array(v.iter().map(to_value).collect()),
        Json::Object(v) => Value::Object(v.iter().map(|(k, x)| (k.clone(), to_value(x))).collect()),
    }
}

/// Whether a value is written in the one way that reading gives: the members of every
/// object in ascending order of their names, integers as [`Json::Int`] where that can
/// hold them, and no fractions.
pub open spec fn tidy(j: JsonV) -> bool
    decreases j,
{
    match j {
        JsonV::UInt(n) => n > i64::MAX,
        JsonV::Float(_) => false,
        JsonV::Array(v) => forall|i: int| 0 <= i < v.len() ==> tidy(#[trigger] v[i]),
        JsonV::Object(v) => {
            &&& forall|i: int| 0 <= i < v.len() ==> tidy((#[trigger] v[i]).1)
            &&& forall|i: int, k: int| 0 <= i < k < v.len() ==> before((#[trigger] v[i]).0, (#[trigger] v[k]).0)
        },
        _ => true,
    }
}

/// Whether arrays and objects are nested at most `n` deep.
pub open spec fn nested(j: JsonV, n: int) -> bool
    decreases j,
{
    match j {
        JsonV::Array(v) => n > 0 && forall|i: int| 0 <= i < v.len() ==> nested(#[trigger] v[i], n - 1),
        JsonV::Object(v) => n > 0 && forall|i: int| 0 <= i < v.len() ==> nested((#[trigger] v[i]).1, n - 1),
        _ => true,
    }
}

/// How deep a text may nest arrays and objects for `serde_json` to read it.
pub const DEEPEST: u8 = 127;

/// The value that `serde_json` reads from a text, if the text is one JSON value.
pub uninterp spec fn read(text: Seq<char>) -> Option<JsonV>;

/// Reads one JSON value with `serde_json::from_str`, which answers by the text alone.
#[verifier::external_body]
pub(crate) fn parse(text: &str) -> (r: Option<Json>)
    ensures
        match r {
            Some(j) => read(text@) == Some(j@),
            None => read(text@) is None,
        },
{
    serde_json::from_str::<Value>(text).ok().map(from_value)
}

/// The compact text that `serde_json` prints of a value.
pub uninterp spec fn printed(j: JsonV) -> Seq<char>;

/// Prints a value with the `Display` of `Value`, which answers by the
/// value alone. What is printed of a tidy value that is not nested too deep is read
/// back by `from_str` as that value; of other values nothing is said.
#[verifier::external_body]
pub(crate) fn print(j: &Json) -> (r: String)
    ensures
        r@ == printed(j@),
        tidy(j@) && nested(j@, DEEPEST as int) ==> read(r@) == Some(j@),
{
    to_value(j).to_string()
}

/// A member is found by its name: the first of that name counts, and nothing is found
/// where there is none.
pub proof fn law_first_member_of_a_name_counts(o: Seq<(Seq<char>, JsonV)>, key: Seq<char>, i: int)
    requires
        0 <= i <= o.len(),
        forall|k: int| 0 <= k < i ==> (#[trigger] o[k]).0 != key,
    ensures
        i < o.len() && o[i].0 == key ==> field(JsonV::Object(o), key) == Some(o[i].1) && at(JsonV::Object(o), key)
            == o[i].1,
        i == o.len() ==> field(JsonV::Object(o), key) is None && at(JsonV::Object(o), key) == JsonV::Null,
    decreases o.len(),
{
    if i > 0 {
        assert(o[0].0 != key);
        assert forall|k: int| 0 <= k < i - 1 implies (#[trigger] o.skip(1)[k]).0 != key by {
            assert(o.skip(1)[k] == o[k + 1]);
        }
        law_first_member_of_a_name_counts(o.skip(1), key, i - 1);
        if i < o.len() {
            assert(o.skip(1)[i - 1] == o[i]);
        }
    }
}

/// Only objects have members.
pub proof fn law_only_objects_have_members(j: JsonV, key: Seq<char>)
    requires
        !(j is Object),
    ensures
        field(j, key) is None,
        at(j, key) == JsonV::Null,
{
}

/// A value is taken for what it is alone: text for a text, truth for a boolean, an integer
/// for an integer, elements for an array.
pub proof fn law_values_are_taken_for_what_they_are(j: JsonV)
    ensures
        as_str(j) is Some <==> j is Str,
        as_bool(j) is Some <==> j is Bool,
        as_i64(j) is Some <==> j is Int,
        as_array(j) is Some <==> j is Array,
        j is Str ==> str_or_empty(j) == j->Str_0 && as_str(j) == Some(j->Str_0),
        !(j is Str) ==> str_or_empty(j).len() == 0,
        j is Bool ==> as_bool(j) == Some(j->Bool_0),
        j is Int ==> as_i64(j) == Some(j->Int_0),
        j is Array ==> as_array(j) == Some(j->Array_0),
{
}

} // verus!
