//! JSON documents as the library holds them, and their mathematical model.
//!
//! Objects keep their members in document order, as the exports are read and
//! written with member order preserved.
use vstd::prelude::*;

use crate::text::str_is;

verus! {

/// A JSON number: a non-negative integer, a negative integer, or a finite
/// floating-point number given by its IEEE-754 bit pattern and its shortest
/// decimal rendering.
#[derive(Debug, Clone)]
pub enum JsonNumber {
    PosInt(u64),
    NegInt(i64),
    Float(u64, String),
}

/// A JSON value.
#[derive(Debug)]
pub enum JsonValue {
    Null,
    Bool(bool),
    Number(JsonNumber),
    String(String),
    Array(Vec<JsonValue>),
    Object(Vec<(String, JsonValue)>),
}

/// Model of a JSON number.
pub enum Num {
    PosInt(u64),
    NegInt(i64),
    Float(u64, Seq<char>),
}

/// Model of a JSON value: strings are character sequences.
pub enum Json {
    Null,
    Bool(bool),
    Number(Num),
    Str(Seq<char>),
    Array(Seq<Json>),
    Object(Seq<(Seq<char>, Json)>),
}

impl JsonNumber {
    pub open spec fn model(&self) -> Num {
        match self {
            JsonNumber::PosInt(n) => Num::PosInt(*n),
            JsonNumber::NegInt(n) => Num::NegInt(*n),
            JsonNumber::Float(bits, text) => Num::Float(*bits, text@),
        }
    }
}

impl JsonValue {
    pub open spec fn model(&self) -> Json
        decreases self,
    {
        match self {
            JsonValue::Null => Json::Null,
            JsonValue::Bool(b) => Json::Bool(*b),
            JsonValue::Number(n) => Json::Number(n.model()),
            JsonValue::String(s) => Json::Str(s@),
            JsonValue::Array(items) => Json::Array(
                Seq::new(
                    items.len() as nat,
                    |i: int|
                        if 0 <= i < items.len() {
                            proof {
                                assert(decreases_to!(items => items@));
                                assert(decreases_to!(items@ => items@[i]));
                            }
                            items@[i].model()
                        } else {
                            Json::Null
                        },
                ),
            ),
            JsonValue::Object(members) => Json::Object(
                Seq::new(
                    members.len() as nat,
                    |i: int|
                        if 0 <= i < members.len() {
                            proof {
                                assert(decreases_to!(members => members@));
                                assert(decreases_to!(members@ => members@[i]));
                                assert(decreases_to!(members@[i] => members@[i].1));
                            }
                            (members@[i].0@, members@[i].1.model())
                        } else {
                            (Seq::empty(), Json::Null)
                        },
                ),
            ),
        }
    }
}

/// Model of a list of JSON values.
pub open spec fn models(items: Seq<JsonValue>) -> Seq<Json> {
    Seq::new(items.len(), |i: int| items[i].model())
}

/// Model of a list of object members.
pub open spec fn member_models(members: Seq<(String, JsonValue)>) -> Seq<(Seq<char>, Json)> {
    Seq::new(members.len(), |i: int| (members[i].0@, members[i].1.model()))
}

pub proof fn lemma_model_array(items: Vec<JsonValue>)
    ensures
        JsonValue::Array(items).model() == Json::Array(models(items@)),
{
    match JsonValue::Array(items).model() {
        Json::Array(s) => {
            assert(s.len() == items@.len());
            assert forall|i: int| 0 <= i < s.len() implies s[i] == models(items@)[i] by {}
            assert(s =~= models(items@));
        },
        _ => {},
    }
}

pub proof fn lemma_model_object(members: Vec<(String, JsonValue)>)
    ensures
        JsonValue::Object(members).model() == Json::Object(member_models(members@)),
{
    match JsonValue::Object(members).model() {
        Json::Object(s) => {
            assert(s.len() == members@.len());
            assert forall|i: int| 0 <= i < s.len() implies s[i] == member_models(members@)[i] by {}
            assert(s =~= member_models(members@));
        },
        _ => {},
    }
}

/// Index of the first member of `members` named `key`.
pub open spec fn key_index(members: Seq<(Seq<char>, Json)>, key: Seq<char>) -> Option<int>
    decreases members.len(),
{
    if members.len() == 0 {
        None
    } else {
        match key_index(members.drop_last(), key) {
            Some(i) => Some(i),
            None => if members.last().0 == key {
                Some(members.len() - 1)
            } else {
                None
            },
        }
    }
}

pub proof fn lemma_key_index(members: Seq<(Seq<char>, Json)>, key: Seq<char>)
    ensures
        key_index(members, key) matches Some(i) ==> 0 <= i < members.len() && members[i].0
            == key && forall|j: int| 0 <= j < i ==> members[j].0 != key,
        key_index(members, key) is None ==> forall|j: int|
            0 <= j < members.len() ==> members[j].0 != key,
    decreases members.len(),
{
    if members.len() > 0 {
        let init = members.drop_last();
        lemma_key_index(init, key);
        assert(forall|j: int| 0 <= j < init.len() ==> init[j] == members[j]);
    }
}

/// The value of the member named `key` (the first such member).
pub open spec fn member(members: Seq<(Seq<char>, Json)>, key: Seq<char>) -> Option<Json> {
    match key_index(members, key) {
        Some(i) => Some(members[i].1),
        None => None,
    }
}

/// `Value::get(key)`: the member `key` of an object, `None` for a value that
/// is not an object or has no such member.
pub open spec fn get(j: Json, key: Seq<char>) -> Option<Json> {
    match j {
        Json::Object(members) => member(members, key),
        _ => None,
    }
}

/// Index of the member named `key`, if there is one.
pub fn find_member(members: &Vec<(String, JsonValue)>, key: &str) -> (r: Option<usize>)
    ensures
        r matches Some(i) ==> key_index(member_models(members@), key@) == Some(i as int),
        r is None ==> key_index(member_models(members@), key@) is None,
{
    let ghost ms = member_models(members@);
    let mut i: usize = 0;
    while i < members.len()
        invariant
            i <= members@.len(),
            ms == member_models(members@),
            key_index(ms.take(i as int), key@) is None,
        decreases members@.len() - i,
    {
        assert(ms.take(i + 1).drop_last() =~= ms.take(i as int));
        if str_is(members[i].0.as_str(), key) {
            assert(key_index(ms.take(i + 1), key@) == Some(i as int));
            proof {
                lemma_key_index_prefix(ms, key@, i + 1);
            }
            return Some(i);
        }
        i = i + 1;
    }
    assert(ms.take(i as int) =~= ms);
    None
}

/// The first occurrence of a key is found in any prefix that holds it.
pub proof fn lemma_key_index_prefix(ms: Seq<(Seq<char>, Json)>, key: Seq<char>, n: int)
    requires
        0 <= n <= ms.len(),
        key_index(ms.take(n), key) is Some,
    ensures
        key_index(ms, key) == key_index(ms.take(n), key),
    decreases ms.len() - n,
{
    if n < ms.len() {
        assert(ms.take(n + 1).drop_last() =~= ms.take(n));
        lemma_key_index_prefix(ms, key, n + 1);
    } else {
        assert(ms.take(n) =~= ms);
    }
}

/// Exec access to a member's value by name.
pub fn get_member<'a>(value: &'a JsonValue, key: &str) -> (r: Option<&'a JsonValue>)
    ensures
        r matches Some(v) ==> get(value.model(), key@) == Some(v.model()),
        r is None ==> get(value.model(), key@) is None,
{
    match value {
        JsonValue::Object(members) => {
            proof {
                lemma_model_object(*members);
            }
            match find_member(members, key) {
                Some(i) => {
                    proof {
                        lemma_key_index(member_models(members@), key@);
                    }
                    Some(&members[i].1)
                },
                None => None,
            }
        },
        _ => None,
    }
}

// ---------------------------------------------------------------------------
// Equality, as `serde_json::Value`'s `==` decides it.
/// Equality of numbers: integers by value; floats as `f64` equality decides,
/// under which the two zeros are equal.
pub open spec fn num_eq(a: Num, b: Num) -> bool {
    match (a, b) {
        (Num::PosInt(x), Num::PosInt(y)) => x == y,
        (Num::NegInt(x), Num::NegInt(y)) => x == y,
        (Num::Float(x, _), Num::Float(y, _)) => x == y || (is_zero_bits(x) && is_zero_bits(y)),
        _ => false,
    }
}

/// Bit patterns of `0.0` and `-0.0`.
pub open spec fn is_zero_bits(bits: u64) -> bool {
    bits == 0 || bits == 0x8000_0000_0000_0000
}

/// `==` on JSON values: arrays element by element; objects of the same size
/// where each member of the first has an equal member of that name in the
/// second, in any order.
pub open spec fn json_eq(a: Json, b: Json) -> bool
    decreases a, 0nat,
{
    match (a, b) {
        (Json::Null, Json::Null) => true,
        (Json::Bool(x), Json::Bool(y)) => x == y,
        (Json::Number(x), Json::Number(y)) => num_eq(x, y),
        (Json::Str(x), Json::Str(y)) => x == y,
        (Json::Array(xs), Json::Array(ys)) => xs.len() == ys.len() && items_eq(
            xs,
            ys,
            xs.len() as nat,
        ),
        (Json::Object(xs), Json::Object(ys)) => xs.len() == ys.len() && members_eq(
            xs,
            ys,
            xs.len() as nat,
        ),
        _ => false,
    }
}

/// The first `n` elements of `xs` equal those of `ys`.
pub open spec fn items_eq(xs: Seq<Json>, ys: Seq<Json>, n: nat) -> bool
    decreases xs, n,
{
    if n == 0 || n > xs.len() {
        true
    } else {
        items_eq(xs, ys, (n - 1) as nat) && json_eq(xs[n - 1], ys[n - 1])
    }
}

/// Each of the first `n` members of `xs` has an equal member of that name in
/// `ys`.
pub open spec fn members_eq(xs: Seq<(Seq<char>, Json)>, ys: Seq<(Seq<char>, Json)>, n: nat) -> bool
    decreases xs, n,
{
    if n == 0 || n > xs.len() {
        true
    } else {
        members_eq(xs, ys, (n - 1) as nat) && match member(ys, xs[n - 1].0) {
            Some(v) => {
                proof {
                    assert(decreases_to!(xs => xs[n - 1]));
                    assert(decreases_to!(xs[n - 1] => xs[n - 1].1));
                }
                json_eq(xs[n - 1].1, v)
            },
            None => false,
        }
    }
}

pub fn num_equal(a: &JsonNumber, b: &JsonNumber) -> (r: bool)
    ensures
        r == num_eq(a.model(), b.model()),
{
    match (a, b) {
        (JsonNumber::PosInt(x), JsonNumber::PosInt(y)) => *x == *y,
        (JsonNumber::NegInt(x), JsonNumber::NegInt(y)) => *x == *y,
        (JsonNumber::Float(x, _), JsonNumber::Float(y, _)) => *x == *y || ((*x == 0 || *x
            == 0x8000_0000_0000_0000) && (*y == 0 || *y == 0x8000_0000_0000_0000)),
        _ => false,
    }
}

/// Exec `==` on JSON values.
pub fn json_equal(a: &JsonValue, b: &JsonValue) -> (r: bool)
    ensures
        r == json_eq(a.model(), b.model()),
    decreases a,
{
    match (a, b) {
        (JsonValue::Null, JsonValue::Null) => true,
        (JsonValue::Bool(x), JsonValue::Bool(y)) => *x == *y,
        (JsonValue::Number(x), JsonValue::Number(y)) => num_equal(x, y),
        (JsonValue::String(x), JsonValue::String(y)) => *x == *y,
        (JsonValue::Array(xs), JsonValue::Array(ys)) => {
            proof {
                lemma_model_array(*xs);
                lemma_model_array(*ys);
            }
            if xs.len() != ys.len() {
                return false;
            }
            let mut i: usize = 0;
            while i < xs.len()
                invariant
                    xs@.len() == ys@.len(),
                    i <= xs@.len(),
                    items_eq(models(xs@), models(ys@), i as nat),
                    decreases_to!(a => *xs),
                    a.model() == Json::Array(models(xs@)),
                    b.model() == Json::Array(models(ys@)),
                decreases xs@.len() - i,
            {
                proof {
                    assert(decreases_to!(*xs => xs@));
                    assert(decreases_to!(xs@ => xs@[i as int]));
                }
                if !json_equal(&xs[i], &ys[i]) {
                    proof {
                        if items_eq(models(xs@), models(ys@), xs@.len()) {
                            lemma_items_eq_mono(models(xs@), models(ys@), (i + 1) as nat, xs@.len());
                        }
                    }
                    return false;
                }
                i = i + 1;
            }
            true
        },
        (JsonValue::Object(xs), JsonValue::Object(ys)) => {
            proof {
                lemma_model_object(*xs);
                lemma_model_object(*ys);
            }
            if xs.len() != ys.len() {
                return false;
            }
            let ghost ym = member_models(ys@);
            let ghost xm = member_models(xs@);
            let mut i: usize = 0;
            while i < xs.len()
                invariant
                    xs@.len() == ys@.len(),
                    i <= xs@.len(),
                    ym == member_models(ys@),
                    xm == member_models(xs@),
                    members_eq(xm, ym, i as nat),
                    decreases_to!(a => *xs),
                    a.model() == Json::Object(xm),
                    b.model() == Json::Object(ym),
                decreases xs@.len() - i,
            {
                proof {
                    assert(decreases_to!(*xs => xs@));
                    assert(decreases_to!(xs@ => xs@[i as int]));
                    assert(decreases_to!(xs@[i as int] => xs@[i as int].1));
                }
                match find_member(ys, xs[i].0.as_str()) {
                    Some(j) => {
                        proof {
                            lemma_key_index(ym, xm[i as int].0);
                        }
                        if !json_equal(&xs[i].1, &ys[j].1) {
                            assert(member(ym, xm[i as int].0) == Some(ym[j as int].1));
                            proof {
                                if members_eq(xm, ym, xm.len()) {
                                    lemma_members_eq_mono(xm, ym, (i + 1) as nat, xm.len());
                                }
                            }
                            return false;
                        }
                    },
                    None => {
                        assert(member(ym, xm[i as int].0) is None);
                        proof {
                            if members_eq(xm, ym, xm.len()) {
                                lemma_members_eq_mono(xm, ym, (i + 1) as nat, xm.len());
                            }
                        }
                        return false;
                    },
                }
                i = i + 1;
            }
            true
        },
        _ => false,
    }
}

/// Agreement on a prefix follows from agreement on a longer one.
pub proof fn lemma_items_eq_mono(xs: Seq<Json>, ys: Seq<Json>, m: nat, n: nat)
    requires
        m <= n <= xs.len(),
        items_eq(xs, ys, n),
    ensures
        items_eq(xs, ys, m),
    decreases n,
{
    if m < n {
        lemma_items_eq_mono(xs, ys, m, (n - 1) as nat);
    }
}

pub proof fn lemma_members_eq_mono(
    xs: Seq<(Seq<char>, Json)>,
    ys: Seq<(Seq<char>, Json)>,
    m: nat,
    n: nat,
)
    requires
        m <= n <= xs.len(),
        members_eq(xs, ys, n),
    ensures
        members_eq(xs, ys, m),
    decreases n,
{
    if m < n {
        lemma_members_eq_mono(xs, ys, m, (n - 1) as nat);
    }
}

/// `is_empty_value`: null, or an empty string, array or object.
pub open spec fn is_empty(j: Json) -> bool {
    match j {
        Json::Null => true,
        Json::Str(s) => s.len() == 0,
        Json::Array(xs) => xs.len() == 0,
        Json::Object(xs) => xs.len() == 0,
        _ => false,
    }
}

pub fn is_empty_value(v: &JsonValue) -> (r: bool)
    ensures
        r == is_empty(v.model()),
{
    match v {
        JsonValue::Null => true,
        JsonValue::String(s) => s.as_str().unicode_len() == 0,
        JsonValue::Array(xs) => {
            proof {
                lemma_model_array(*xs);
            }
            xs.len() == 0
        },
        JsonValue::Object(xs) => {
            proof {
                lemma_model_object(*xs);
            }
            xs.len() == 0
        },
        _ => false,
    }
}

pub fn clone_number(n: &JsonNumber) -> (r: JsonNumber)
    ensures
        r.model() == n.model(),
{
    match n {
        JsonNumber::PosInt(x) => JsonNumber::PosInt(*x),
        JsonNumber::NegInt(x) => JsonNumber::NegInt(*x),
        JsonNumber::Float(bits, text) => JsonNumber::Float(*bits, text.clone()),
    }
}

/// A copy of a JSON value.
pub fn clone_json(v: &JsonValue) -> (r: JsonValue)
    ensures
        r.model() == v.model(),
    decreases v,
{
    match v {
        JsonValue::Null => JsonValue::Null,
        JsonValue::Bool(b) => JsonValue::Bool(*b),
        JsonValue::Number(n) => JsonValue::Number(clone_number(n)),
        JsonValue::String(s) => JsonValue::String(s.clone()),
        JsonValue::Array(xs) => {
            let mut out: Vec<JsonValue> = Vec::new();
            let mut i: usize = 0;
            while i < xs.len()
                invariant
                    i <= xs@.len(),
                    out@.len() == i,
                    forall|k: int| 0 <= k < i ==> #[trigger] out@[k].model() == xs@[k].model(),
                    decreases_to!(v => *xs),
                decreases xs@.len() - i,
            {
                proof {
                    assert(decreases_to!(*xs => xs@));
                    assert(decreases_to!(xs@ => xs@[i as int]));
                }
                out.push(clone_json(&xs[i]));
                i = i + 1;
            }
            proof {
                lemma_model_array(*xs);
                lemma_model_array(out);
                assert(models(out@) =~= models(xs@));
            }
            JsonValue::Array(out)
        },
        JsonValue::Object(xs) => {
            let mut out: Vec<(String, JsonValue)> = Vec::new();
            let mut i: usize = 0;
            while i < xs.len()
                invariant
                    i <= xs@.len(),
                    out@.len() == i,
                    forall|k: int|
                        0 <= k < i ==> #[trigger] out@[k].0@ == xs@[k].0@ && out@[k].1.model()
                            == xs@[k].1.model(),
                    decreases_to!(v => *xs),
                decreases xs@.len() - i,
            {
                proof {
                    assert(decreases_to!(*xs => xs@));
                    assert(decreases_to!(xs@ => xs@[i as int]));
                    assert(decreases_to!(xs@[i as int] => xs@[i as int].1));
                }
                let value = clone_json(&xs[i].1);
                out.push((xs[i].0.clone(), value));
                i = i + 1;
            }
            proof {
                lemma_model_object(*xs);
                lemma_model_object(out);
                assert(member_models(out@) =~= member_models(xs@));
            }
            JsonValue::Object(out)
        },
    }
}

} // verus!
