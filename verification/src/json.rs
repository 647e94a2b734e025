//! JSON values as the filter reads and rewrites them, and their mathematical view.
use vstd::prelude::*;
use crate::text::str_eq;

verus! {

/// A JSON number, kept without floating point, in the three forms serde_json distinguishes.
pub enum JsonNumber {
    /// A non-negative integer.
    PosInt(u64),
    /// A negative integer.
    NegInt(i64),
    /// Any other number, by the text serde_json writes for it.
    Float(String),
}

/// A JSON value. Object entries keep their order.
pub enum JsonValue {
    Null,
    Bool(bool),
    Number(JsonNumber),
    String(String),
    Array(Vec<JsonValue>),
    Object(Vec<(String, JsonValue)>),
}

/// The view of a `JsonNumber`.
pub enum Num {
    PosInt(u64),
    NegInt(i64),
    Float(Seq<char>),
}

/// The view of a `JsonValue`: text as character sequences, arrays and objects as sequences.
#[verifier::ext_equal]
pub enum Json {
    Null,
    Bool(bool),
    Number(Num),
    Str(Seq<char>),
    Array(Seq<Json>),
    Object(Seq<(Seq<char>, Json)>),
}

impl JsonNumber {
    pub open spec fn view(&self) -> Num {
        match self {
            JsonNumber::PosInt(u) => Num::PosInt(*u),
            JsonNumber::NegInt(i) => Num::NegInt(*i),
            JsonNumber::Float(s) => Num::Float(s@),
        }
    }
}

impl JsonValue {
    pub open spec fn view(&self) -> Json
        decreases self,
    {
        match self {
            JsonValue::Null => Json::Null,
            JsonValue::Bool(b) => Json::Bool(*b),
            JsonValue::Number(n) => Json::Number(n.view()),
            JsonValue::String(s) => Json::Str(s@),
            JsonValue::Array(items) => Json::Array(
                Seq::new(
                    items.len() as nat,
                    |i: int|
                        if 0 <= i < items.len() {
                            items[i].view()
                        } else {
                            Json::Null
                        },
                ),
            ),
            JsonValue::Object(entries) => Json::Object(
                Seq::new(
                    entries.len() as nat,
                    |i: int|
                        if 0 <= i < entries.len() {
                            (entries[i].0@, entries[i].1.view())
                        } else {
                            (Seq::empty(), Json::Null)
                        },
                ),
            ),
        }
    }

    /// A deep copy.
    #[verifier::loop_isolation(false)]
    pub fn copy(&self) -> (r: JsonValue)
        ensures
            r.view() == self.view(),
        decreases self,
    {
        match self {
            JsonValue::Null => JsonValue::Null,
            JsonValue::Bool(b) => JsonValue::Bool(*b),
            JsonValue::Number(n) => JsonValue::Number(match n {
                JsonNumber::PosInt(u) => JsonNumber::PosInt(*u),
                JsonNumber::NegInt(i) => JsonNumber::NegInt(*i),
                JsonNumber::Float(s) => JsonNumber::Float(s.clone()),
            }),
            JsonValue::String(s) => JsonValue::String(s.clone()),
            JsonValue::Array(items) => {
                let mut out: Vec<JsonValue> = Vec::new();
                let mut i: usize = 0;
                while i < items.len()
                    invariant
                        i <= items.len(),
                        out.len() == i,
                        forall|j: int| 0 <= j < i ==> #[trigger] out[j].view() == items[j].view(),
                    decreases items.len() - i,
                {
                    proof {
                        assert(decreases_to!(items => items[i as int]));
                    }
                    let c = items[i].copy();
                    out.push(c);
                    i = i + 1;
                }
                let r = JsonValue::Array(out);
                assert(forall|k: int| 0 <= k < out.len() ==> r.view()->Array_0[k] == (#[trigger] out[k]).view());
                assert(forall|k: int| 0 <= k < items.len() ==> self.view()->Array_0[k] == (#[trigger] items[k]).view());
                assert(r.view()->Array_0 =~= self.view()->Array_0);
                r
            },
            JsonValue::Object(entries) => {
                let mut out: Vec<(String, JsonValue)> = Vec::new();
                let mut i: usize = 0;
                while i < entries.len()
                    invariant
                        i <= entries.len(),
                        out.len() == i,
                        forall|j: int| 0 <= j < i ==> (#[trigger] out[j]).0@ == entries[j].0@ && out[j].1.view() == entries[j].1.view(),
                    decreases entries.len() - i,
                {
                    proof {
                        assert(decreases_to!(entries => entries[i as int]));
                        assert(decreases_to!(entries[i as int] => entries[i as int].1));
                    }
                    let k = entries[i].0.clone();
                    let c = entries[i].1.copy();
                    out.push((k, c));
                    i = i + 1;
                }
                let r = JsonValue::Object(out);
                assert(forall|k: int| 0 <= k < out.len() ==> r.view()->Object_0[k] == ((#[trigger] out[k]).0@, out[k].1.view()));
                assert(forall|k: int| 0 <= k < entries.len() ==> self.view()->Object_0[k] == ((#[trigger] entries[k]).0@, entries[k].1.view()));
                assert(r.view()->Object_0 =~= self.view()->Object_0);
                r
            },
        }
    }
}


/// Position of the first entry whose key is `key`.
pub open spec fn key_index(entries: Seq<(Seq<char>, Json)>, key: Seq<char>) -> Option<int>
    decreases entries.len(),
{
    if entries.len() == 0 {
        None
    } else {
        match key_index(entries.drop_last(), key) {
            Some(i) => Some(i),
            None => if entries.last().0 == key {
                Some(entries.len() - 1)
            } else {
                None
            },
        }
    }
}

pub proof fn lemma_key_index_bounds(entries: Seq<(Seq<char>, Json)>, key: Seq<char>)
    ensures
        key_index(entries, key) matches Some(i) ==> 0 <= i < entries.len() && entries[i].0 == key
            && forall|j: int| 0 <= j < i ==> entries[j].0 != key,
        key_index(entries, key) is None ==> forall|j: int|
            0 <= j < entries.len() ==> entries[j].0 != key,
    decreases entries.len(),
{
    if entries.len() > 0 {
        let d = entries.drop_last();
        lemma_key_index_bounds(d, key);
        assert(forall|j: int| 0 <= j < d.len() ==> d[j] == entries[j]);
    }
}

impl Json {
    /// `Value::get` with a string index: the entry of an object, nothing otherwise.
    pub open spec fn get(self, key: Seq<char>) -> Option<Json> {
        match self {
            Json::Object(entries) => match key_index(entries, key) {
                Some(i) => Some(entries[i].1),
                None => None,
            },
            _ => None,
        }
    }

    pub open spec fn as_str(self) -> Option<Seq<char>> {
        match self {
            Json::Str(s) => Some(s),
            _ => None,
        }
    }

    /// `Value::as_i64`: an integer that fits in `i64`.
    pub open spec fn as_i64(self) -> Option<i64> {
        match self {
            Json::Number(Num::PosInt(u)) => if u <= i64::MAX {
                Some(u as i64)
            } else {
                None
            },
            Json::Number(Num::NegInt(i)) => Some(i),
            _ => None,
        }
    }

    /// `Value::as_u64`: a non-negative integer.
    pub open spec fn as_u64(self) -> Option<u64> {
        match self {
            Json::Number(Num::PosInt(u)) => Some(u),
            _ => None,
        }
    }
}

/// `get` on an optional value, as `Option::and_then(|v| v.get(key))` does.
pub open spec fn opt_get(v: Option<Json>, key: Seq<char>) -> Option<Json> {
    match v {
        Some(j) => j.get(key),
        None => None,
    }
}

pub open spec fn opt_as_str(v: Option<Json>) -> Option<Seq<char>> {
    match v {
        Some(j) => j.as_str(),
        None => None,
    }
}

pub open spec fn opt_as_i64(v: Option<Json>) -> Option<i64> {
    match v {
        Some(j) => j.as_i64(),
        None => None,
    }
}

pub open spec fn opt_as_u64(v: Option<Json>) -> Option<u64> {
    match v {
        Some(j) => j.as_u64(),
        None => None,
    }
}

/// Position of the first entry of `entries` whose key is `key`.
pub fn find_key(entries: &Vec<(String, JsonValue)>, key: &str) -> (r: Option<usize>)
    ensures
        match r {
            Some(i) => key_index(entries_view(entries@), key@) == Some(i as int),
            None => key_index(entries_view(entries@), key@) is None,
        },
        r matches Some(i) ==> i < entries.len(),
{
    let mut i: usize = 0;
    while i < entries.len()
        invariant
            i <= entries.len(),
            key_index(entries_view(entries@).take(i as int), key@) is None,
        decreases entries.len() - i,
    {
        let ghost ev = entries_view(entries@);
        assert(ev.take(i + 1).drop_last() =~= ev.take(i as int));
        if str_eq(entries[i].0.as_str(), key) {
            assert(key_index(ev.take(i + 1), key@) == Some(i as int));
            proof {
                lemma_key_index_prefix(ev, i + 1, key@);
            }
            return Some(i);
        }
        assert(key_index(ev.take(i + 1), key@) is None);
        i = i + 1;
    }
    assert(entries_view(entries@).take(entries.len() as int) =~= entries_view(entries@));
    None
}

/// The keys and viewed values of an object's entries.
pub open spec fn entries_view(entries: Seq<(String, JsonValue)>) -> Seq<(Seq<char>, Json)> {
    Seq::new(entries.len(), |i: int| (entries[i].0@, entries[i].1.view()))
}

proof fn lemma_key_index_prefix(entries: Seq<(Seq<char>, Json)>, k: int, key: Seq<char>)
    requires
        0 <= k <= entries.len(),
        key_index(entries.take(k), key) is Some,
    ensures
        key_index(entries, key) == key_index(entries.take(k), key),
    decreases entries.len(),
{
    if k < entries.len() {
        assert(entries.drop_last().take(k) =~= entries.take(k));
        lemma_key_index_prefix(entries.drop_last(), k, key);
    } else {
        assert(entries.take(k) =~= entries);
    }
}


/// The viewed items of an array.
pub open spec fn items_view(items: Seq<JsonValue>) -> Seq<Json> {
    Seq::new(items.len(), |i: int| items[i].view())
}

pub proof fn lemma_view_unfold(v: &JsonValue)
    ensures
        v matches JsonValue::Object(es) ==> v.view() == Json::Object(entries_view(es@)),
        v matches JsonValue::Array(items) ==> v.view() == Json::Array(items_view(items@)),
{
    match v {
        JsonValue::Object(es) => {
            assert(v.view()->Object_0 =~= entries_view(es@));
        },
        JsonValue::Array(items) => {
            assert(v.view()->Array_0 =~= items_view(items@));
        },
        _ => {},
    }
}

impl JsonValue {
    /// The entry `key` of an object; `None` for any other value.
    pub fn get(&self, key: &str) -> (r: Option<&JsonValue>)
        ensures
            match r {
                Some(x) => self.view().get(key@) == Some(x.view()),
                None => self.view().get(key@) is None,
            },
    {
        proof {
            lemma_view_unfold(self);
        }
        match self {
            JsonValue::Object(entries) => match find_key(entries, key) {
                Some(i) => Some(&entries[i].1),
                None => None,
            },
            _ => None,
        }
    }

    pub fn as_str(&self) -> (r: Option<&str>)
        ensures
            match r {
                Some(s) => self.view().as_str() == Some(s@),
                None => self.view().as_str() is None,
            },
    {
        match self {
            JsonValue::String(s) => Some(s.as_str()),
            _ => None,
        }
    }

    pub fn as_i64(&self) -> (r: Option<i64>)
        ensures
            r == self.view().as_i64(),
    {
        match self {
            JsonValue::Number(JsonNumber::PosInt(u)) => if *u <= i64::MAX as u64 {
                Some(*u as i64)
            } else {
                None
            },
            JsonValue::Number(JsonNumber::NegInt(i)) => Some(*i),
            _ => None,
        }
    }

    pub fn as_u64(&self) -> (r: Option<u64>)
        ensures
            r == self.view().as_u64(),
    {
        match self {
            JsonValue::Number(JsonNumber::PosInt(u)) => Some(*u),
            _ => None,
        }
    }
}


/// Replacing the value of an entry, under the same key, moves no key.
pub proof fn lemma_key_index_update(entries: Seq<(Seq<char>, Json)>, i: int, v: Json, key: Seq<char>)
    requires
        0 <= i < entries.len(),
    ensures
        key_index(entries.update(i, (entries[i].0, v)), key) == key_index(entries, key),
    decreases entries.len(),
{
    let u = entries.update(i, (entries[i].0, v));
    if i < entries.len() - 1 {
        assert(u.drop_last() =~= entries.drop_last().update(i, (entries[i].0, v)));
        lemma_key_index_update(entries.drop_last(), i, v, key);
    } else {
        assert(u.drop_last() =~= entries.drop_last());
    }
}

}
