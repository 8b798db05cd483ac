//! JSON values, as far as the protocol reads them.
use vstd::prelude::*;
use crate::text::{same, texts};

verus! {

/// A JSON value. Numbers other than the unsigned integers keep their literal text.
#[derive(Debug, PartialEq)]
pub enum Json {
    Null,
    Bool(bool),
    Number(u64),
    OtherNumber(String),
    Str(String),
    Array(Vec<Json>),
    Object(Vec<(String, Json)>),
}

/// The mathematical value of a [`Json`].
#[verifier::ext_equal]
pub enum JsonV {
    Null,
    Bool(bool),
    Number(u64),
    OtherNumber(Seq<char>),
    Str(Seq<char>),
    Array(Seq<JsonV>),
    Object(Map<Seq<char>, JsonV>),
}

/// The last position at which `key` names a member.
pub open spec fn last_member(o: Seq<(String, Json)>, key: Seq<char>) -> Option<nat>
    decreases o.len(),
{
    if o.len() == 0 {
        None
    } else if o.last().0@ == key {
        Some((o.len() - 1) as nat)
    } else {
        last_member(o.drop_last(), key)
    }
}

/// The mathematical value of a JSON value. Of members that share a name the last counts.
pub open spec fn json_view(j: Json) -> JsonV
    decreases j,
{
    match j {
        Json::Null => JsonV::Null,
        Json::Bool(b) => JsonV::Bool(b),
        Json::Number(n) => JsonV::Number(n),
        Json::OtherNumber(t) => JsonV::OtherNumber(t@),
        Json::Str(s) => JsonV::Str(s@),
        Json::Array(a) => JsonV::Array(
            Seq::new(
                a@.len(),
                |i: int|
                    if 0 <= i < a@.len() {
                        json_view(a@[i])
                    } else {
                        JsonV::Null
                    },
            ),
        ),
        Json::Object(o) => JsonV::Object(
            Map::new(
                |k: Seq<char>| last_member(o@, k) is Some,
                |k: Seq<char>|
                    match last_member(o@, k) {
                        Some(i) => if i < o@.len() {
                            json_view(o@[i as int].1)
                        } else {
                            JsonV::Null
                        },
                        None => JsonV::Null,
                    },
            ),
        ),
    }
}

impl View for Json {
    type V = JsonV;

    open spec fn view(&self) -> JsonV {
        json_view(*self)
    }
}

/// The values of a list.
pub open spec fn items(v: Seq<Json>) -> Seq<JsonV> {
    Seq::new(v.len(), |i: int| v[i]@)
}

/// The members of an object.
pub open spec fn members(o: Seq<(String, Json)>) -> Map<Seq<char>, JsonV> {
    Map::new(
        |k: Seq<char>| last_member(o, k) is Some,
        |k: Seq<char>| o[last_member(o, k)->0 as int].1@,
    )
}

pub proof fn lemma_last_member(o: Seq<(String, Json)>, key: Seq<char>)
    ensures
        match last_member(o, key) {
            Some(i) => i < o.len() && o[i as int].0@ == key && (forall|k: int|
                i < k < o.len() ==> o[k].0@ != key),
            None => forall|k: int| 0 <= k < o.len() ==> o[k].0@ != key,
        },
    decreases o.len(),
{
    if o.len() > 0 && o.last().0@ != key {
        let p = o.drop_last();
        lemma_last_member(p, key);
        assert forall|k: int| 0 <= k < p.len() implies p[k] == o[k] by {}
        match last_member(p, key) {
            Some(i) => {
                assert forall|k: int| i < k < o.len() implies o[k].0@ != key by {
                    if k < p.len() {
                        assert(p[k].0@ != key);
                    }
                }
            },
            None => {
                assert forall|k: int| 0 <= k < o.len() implies o[k].0@ != key by {
                    if k < p.len() {
                        assert(p[k].0@ != key);
                    }
                }
            },
        }
    }
}

proof fn lemma_object_view(o: Vec<(String, Json)>)
    ensures
        json_view(Json::Object(o)) == JsonV::Object(members(o@)),
{
    assert forall|k: Seq<char>| last_member(o@, k) is Some implies last_member(o@, k)->0 < o@.len() by {
        lemma_last_member(o@, k);
    }
    assert(json_view(Json::Object(o))->Object_0 =~= members(o@));
}

/// The value under `key`.
pub open spec fn member(o: Map<Seq<char>, JsonV>, key: Seq<char>) -> Option<JsonV> {
    if o.contains_key(key) {
        Some(o[key])
    } else {
        None
    }
}

impl JsonV {
    /// The member `key` of an object; other values have none.
    pub open spec fn get(self, key: Seq<char>) -> Option<JsonV> {
        match self {
            JsonV::Object(o) => member(o, key),
            _ => None,
        }
    }

    pub open spec fn as_str(self) -> Option<Seq<char>> {
        match self {
            JsonV::Str(s) => Some(s),
            _ => None,
        }
    }

    pub open spec fn as_u64(self) -> Option<u64> {
        match self {
            JsonV::Number(n) => Some(n),
            _ => None,
        }
    }

    pub open spec fn as_array(self) -> Option<Seq<JsonV>> {
        match self {
            JsonV::Array(a) => Some(a),
            _ => None,
        }
    }
}

/// The unsigned integer under `key`, if there is one.
pub open spec fn number_at(v: JsonV, key: Seq<char>) -> Option<u64> {
    match v.get(key) {
        Some(m) => m.as_u64(),
        None => None,
    }
}

/// The string under `key`, if there is one.
pub open spec fn text_at(v: JsonV, key: Seq<char>) -> Option<Seq<char>> {
    match v.get(key) {
        Some(m) => m.as_str(),
        None => None,
    }
}

/// The array under `key`, if there is one.
pub open spec fn array_at(v: JsonV, key: Seq<char>) -> Option<Seq<JsonV>> {
    match v.get(key) {
        Some(m) => m.as_array(),
        None => None,
    }
}

/// The value of an optional number.
pub open spec fn number_or_null(n: Option<u64>) -> JsonV {
    match n {
        Some(x) => JsonV::Number(x),
        None => JsonV::Null,
    }
}

/// The array of the given texts.
pub open spec fn text_array(s: Seq<Seq<char>>) -> JsonV {
    JsonV::Array(Seq::new(s.len(), |i: int| JsonV::Str(s[i])))
}

/// The object that maps each text to its label.
pub open spec fn label_object(m: Map<Seq<char>, Seq<char>>) -> JsonV {
    JsonV::Object(Map::new(|k: Seq<char>| m.contains_key(k), |k: Seq<char>| JsonV::Str(m[k])))
}

/// Finds the member `key` among the members of an object.
pub fn find_member<'a>(o: &'a Vec<(String, Json)>, key: &str) -> (r: Option<&'a Json>)
    ensures
        match (r, member(members(o@), key@)) {
            (Some(a), Some(b)) => a@ == b,
            (None, None) => true,
            _ => false,
        },
{
    let mut i: usize = o.len();
    proof {
        lemma_last_member(o@, key@);
    }
    while i > 0
        invariant
            i <= o.len(),
            forall|k: int| i <= k < o.len() ==> o@[k].0@ != key@,
            match last_member(o@, key@) {
                Some(i) => i < o@.len() && o@[i as int].0@ == key@ && (forall|k: int|
                    i < k < o@.len() ==> o@[k].0@ != key@),
                None => forall|k: int| 0 <= k < o@.len() ==> o@[k].0@ != key@,
            },
        decreases i,
    {
        i = i - 1;
        if same(&o[i].0, key) {
            return Some(&o[i].1);
        }
    }
    None
}

impl Json {
    /// The member `key` of an object; other values have none.
    pub fn get(&self, key: &str) -> (r: Option<&Json>)
        ensures
            match (r, self@.get(key@)) {
                (Some(a), Some(b)) => a@ == b,
                (None, None) => true,
                _ => false,
            },
    {
        match self {
            Json::Object(o) => {
                proof {
                    lemma_object_view(*o);
                }
                find_member(o, key)
            },
            _ => None,
        }
    }

    pub fn as_str(&self) -> (r: Option<&String>)
        ensures
            match (r, self@.as_str()) {
                (Some(a), Some(b)) => a@ == b,
                (None, None) => true,
                _ => false,
            },
    {
        match self {
            Json::Str(s) => Some(s),
            _ => None,
        }
    }

    pub fn as_u64(&self) -> (r: Option<u64>)
        ensures
            r == self@.as_u64(),
    {
        match self {
            Json::Number(n) => Some(*n),
            _ => None,
        }
    }

    pub fn as_array(&self) -> (r: Option<&Vec<Json>>)
        ensures
            match (r, self@.as_array()) {
                (Some(a), Some(b)) => items(a@) == b,
                (None, None) => true,
                _ => false,
            },
    {
        match self {
            Json::Array(a) => {
                assert(items(a@) =~= self@->Array_0);
                Some(a)
            },
            _ => None,
        }
    }

    pub fn as_object(&self) -> (r: Option<&Vec<(String, Json)>>)
        ensures
            match r {
                Some(a) => self@ == JsonV::Object(members(a@)),
                None => !(self@ is Object),
            },
    {
        match self {
            Json::Object(o) => {
                proof {
                    lemma_object_view(*o);
                }
                Some(o)
            },
            _ => None,
        }
    }

    /// A copy of the value.
    pub fn copy(&self) -> (r: Json)
        ensures
            r@ == self@,
        decreases self,
    {
        match self {
            Json::Null => Json::Null,
            Json::Bool(b) => Json::Bool(*b),
            Json::Number(n) => Json::Number(*n),
            Json::OtherNumber(t) => Json::OtherNumber(t.clone()),
            Json::Str(t) => Json::Str(t.clone()),
            Json::Array(a) => {
                let mut out: Vec<Json> = Vec::new();
                let mut i: usize = 0;
                while i < a.len()
                    invariant
                        i <= a.len(),
                        *self == Json::Array(*a),
                        items(out@) =~= items(a@).take(i as int),
                        out.len() == i,
                    decreases a.len() - i,
                {
                    assert(decreases_to!(a@ => a@[i as int]));
                    assert(decreases_to!(*a => a@));
                    assert(decreases_to!(*self => self->Array_0));
                    out.push(a[i].copy());
                    i = i + 1;
                }
                assert(items(out@) =~= items(a@));
                assert(items(a@) =~= self@->Array_0);
                json_array(out)
            },
            Json::Object(o) => {
                let mut out: Vec<(String, Json)> = Vec::new();
                assert(out@ =~= o@.take(0));
                let mut i: usize = 0;
                while i < o.len()
                    invariant
                        i <= o.len(),
                        *self == Json::Object(*o),
                        members(out@) == members(o@.take(i as int)),
                        out.len() == i,
                    decreases o.len() - i,
                {
                    assert(decreases_to!(o@[i as int] => o@[i as int].1));
                    assert(decreases_to!(o@ => o@[i as int]));
                    assert(decreases_to!(*o => o@));
                    assert(decreases_to!(*self => self->Object_0));
                    put(&mut out, o[i].0.as_str(), o[i].1.copy());
                    proof {
                        lemma_members_push(o@.take(i as int), o@[i as int]);
                        assert(o@.take(i + 1) =~= o@.take(i as int).push(o@[i as int]));
                    }
                    i = i + 1;
                }
                proof {
                    assert(o@.take(o@.len() as int) =~= o@);
                    lemma_object_view(*o);
                }
                json_object(out)
            },
        }
    }

    pub fn is_null(&self) -> (r: bool)
        ensures
            r == (self@ is Null),
    {
        match self {
            Json::Null => true,
            _ => false,
        }
    }
}

impl Clone for Json {
    fn clone(&self) -> (r: Json)
        ensures
            r@ == self@,
    {
        self.copy()
    }
}

/// The unsigned integer under `key`, if there is one.
pub fn number_of(v: &Json, key: &str) -> (r: Option<u64>)
    ensures
        r == number_at(v@, key@),
{
    match v.get(key) {
        Some(m) => m.as_u64(),
        None => None,
    }
}

/// The string under `key`, if there is one.
pub fn text_of<'a>(v: &'a Json, key: &str) -> (r: Option<&'a String>)
    ensures
        match (r, text_at(v@, key@)) {
            (Some(a), Some(b)) => a@ == b,
            (None, None) => true,
            _ => false,
        },
{
    match v.get(key) {
        Some(m) => m.as_str(),
        None => None,
    }
}

/// The array under `key`, if there is one.
pub fn array_of<'a>(v: &'a Json, key: &str) -> (r: Option<&'a Vec<Json>>)
    ensures
        match (r, array_at(v@, key@)) {
            (Some(a), Some(b)) => items(a@) == b,
            (None, None) => true,
            _ => false,
        },
{
    match v.get(key) {
        Some(m) => m.as_array(),
        None => None,
    }
}

/// A string value.
pub fn json_text(t: &str) -> (r: Json)
    ensures
        r@ == JsonV::Str(t@),
{
    Json::Str(t.to_string())
}

/// A number value.
pub fn json_number(n: u64) -> (r: Json)
    ensures
        r@ == JsonV::Number(n),
{
    Json::Number(n)
}

/// An optional number value.
pub fn json_number_or_null(n: Option<u64>) -> (r: Json)
    ensures
        r@ == number_or_null(n),
{
    match n {
        Some(x) => Json::Number(x),
        None => Json::Null,
    }
}

/// An array value.
pub fn json_array(v: Vec<Json>) -> (r: Json)
    ensures
        r@ == JsonV::Array(items(v@)),
{
    let r = Json::Array(v);
    assert(r@->Array_0 =~= items(v@));
    r
}

/// An array of strings.
pub fn json_texts(v: &Vec<String>) -> (r: Json)
    ensures
        r@ == text_array(texts(v@)),
{
    let mut out: Vec<Json> = Vec::new();
    let mut i: usize = 0;
    while i < v.len()
        invariant
            i <= v.len(),
            items(out@) =~= (text_array(texts(v@))->Array_0).take(i as int),
            out.len() == i,
        decreases v.len() - i,
    {
        out.push(Json::Str(v[i].clone()));
        i = i + 1;
    }
    assert(items(out@) =~= text_array(texts(v@))->Array_0);
    json_array(out)
}

/// An object value.
pub fn json_object(v: Vec<(String, Json)>) -> (r: Json)
    ensures
        r@ == JsonV::Object(members(v@)),
{
    proof {
        lemma_object_view(v);
    }
    Json::Object(v)
}

/// A member appended to an object sets its name.
pub proof fn lemma_members_push(o: Seq<(String, Json)>, m: (String, Json))
    ensures
        members(o.push(m)) == members(o).insert(m.0@, m.1@),
{
    let q = o.push(m);
    assert(q.drop_last() =~= o);
    assert forall|k: Seq<char>| last_member(o, k) is Some implies last_member(o, k)->0 < o.len() by {
        lemma_last_member(o, k);
    }
    assert(members(q) =~= members(o).insert(m.0@, m.1@));
}

/// Sets a member of an object.
pub fn put(v: &mut Vec<(String, Json)>, key: &str, value: Json)
    ensures
        members(final(v)@) == members(old(v)@).insert(key@, value@),
        final(v)@.len() == old(v)@.len() + 1,
{
    let m = (key.to_string(), value);
    proof {
        lemma_members_push(v@, m);
    }
    v.push(m);
}

/// The members of an object to be filled.
pub fn no_members() -> (r: Vec<(String, Json)>)
    ensures
        members(r@) == Map::<Seq<char>, JsonV>::empty(),
        r@.len() == 0,
{
    let r: Vec<(String, Json)> = Vec::new();
    assert(members(r@) =~= Map::<Seq<char>, JsonV>::empty());
    r
}

} // verus!
