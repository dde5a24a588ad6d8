//! JSON values written as compact JSON text.
use vstd::prelude::*;

use crate::json::{lemma_model_array, lemma_model_object, member_models, models, Json, JsonNumber, JsonValue, Num};
use crate::records::hex_char;
use crate::text::{decimal, fmt_decimal, owned, push_char, push_str};

verus! {

/// A character inside a JSON string: `"` and `\` after a backslash, the
/// control characters below U+0020 escaped (the five with short forms by
/// them, the others as `\u00` and two lowercase hex digits), every other
/// character as it is.
pub open spec fn escape_json_char(c: char) -> Seq<char> {
    if c == '"' {
        seq!['\\', '"']
    } else if c == '\\' {
        seq!['\\', '\\']
    } else if c == '\u{8}' {
        seq!['\\', 'b']
    } else if c == '\t' {
        seq!['\\', 't']
    } else if c == '\n' {
        seq!['\\', 'n']
    } else if c == '\u{c}' {
        seq!['\\', 'f']
    } else if c == '\r' {
        seq!['\\', 'r']
    } else if '\u{20}' > c {
        seq!['\\', 'u', '0', '0', hex_char((c as u64) / 16), hex_char((c as u64) % 16)]
    } else {
        seq![c]
    }
}

pub open spec fn escape_json(s: Seq<char>) -> Seq<char>
    decreases s.len(),
{
    if s.len() == 0 {
        Seq::empty()
    } else {
        escape_json(s.drop_last()) + escape_json_char(s.last())
    }
}

/// A JSON string literal.
pub open spec fn quoted(s: Seq<char>) -> Seq<char> {
    seq!['"'] + escape_json(s) + seq!['"']
}

/// A number as JSON writes it: integers in decimal, floats in their shortest
/// rendering.
pub open spec fn num_text(n: Num) -> Seq<char> {
    match n {
        Num::PosInt(x) => decimal(x as nat),
        Num::NegInt(x) => if x < 0 {
            seq!['-'] + decimal((-x) as nat)
        } else {
            decimal(x as nat)
        },
        Num::Float(_, text) => text,
    }
}

/// Compact JSON text of a value: no space between tokens, object members
/// in order.
pub open spec fn json_text(j: Json) -> Seq<char>
    decreases j, 0nat,
{
    match j {
        Json::Null => "null"@,
        Json::Bool(b) => if b {
            "true"@
        } else {
            "false"@
        },
        Json::Number(n) => num_text(n),
        Json::Str(s) => quoted(s),
        Json::Array(xs) => seq!['['] + items_text(xs, xs.len() as nat) + seq![']'],
        Json::Object(ms) => seq!['{'] + members_text(ms, ms.len() as nat) + seq!['}'],
    }
}

/// The first `n` elements, separated by commas.
pub open spec fn items_text(xs: Seq<Json>, n: nat) -> Seq<char>
    decreases xs, n,
{
    if n == 0 || n > xs.len() {
        Seq::empty()
    } else if n == 1 {
        json_text(xs[0])
    } else {
        items_text(xs, (n - 1) as nat) + seq![','] + json_text(xs[n - 1])
    }
}

/// The first `n` members as `"name":value`, separated by commas.
pub open spec fn members_text(ms: Seq<(Seq<char>, Json)>, n: nat) -> Seq<char>
    decreases ms, n,
{
    if n == 0 || n > ms.len() {
        Seq::empty()
    } else {
        let one = {
            proof {
                assert(decreases_to!(ms => ms[n - 1]));
                assert(decreases_to!(ms[n - 1] => ms[n - 1].1));
            }
            quoted(ms[n - 1].0) + seq![':'] + json_text(ms[n - 1].1)
        };
        if n == 1 {
            one
        } else {
            members_text(ms, (n - 1) as nat) + seq![','] + one
        }
    }
}

/// `serde_json::to_string` of a string: the string in double quotes with its
/// characters escaped as `escape_json_char` says. Writing a string into
/// memory does not fail.
#[verifier::external_body]
fn quote_json(s: &str) -> (r: String)
    ensures
        r@ == quoted(s@),
{
    match serde_json::to_string(s) {
        Ok(text) => text,
        Err(_) => String::new(),
    }
}

fn num_text_exec(n: &JsonNumber) -> (r: String)
    ensures
        r@ == num_text(n.model()),
{
    match n {
        JsonNumber::PosInt(x) => fmt_decimal(*x),
        JsonNumber::NegInt(x) => {
            if *x < 0 {
                let magnitude: u64 = ((-(*x + 1)) as u64) + 1;
                let mut r = String::new();
                push_char(&mut r, '-');
                let d = fmt_decimal(magnitude);
                push_str(&mut r, d.as_str());
                assert(r@ =~= seq!['-'] + decimal((-*x) as nat));
                r
            } else {
                fmt_decimal(*x as u64)
            }
        },
        JsonNumber::Float(_, text) => text.clone(),
    }
}

/// `Value::to_string`: the compact JSON text of a value.
pub fn json_text_exec(v: &JsonValue) -> (r: String)
    ensures
        r@ == json_text(v.model()),
    decreases v,
{
    match v {
        JsonValue::Null => owned("null"),
        JsonValue::Bool(b) => if *b {
            owned("true")
        } else {
            owned("false")
        },
        JsonValue::Number(n) => num_text_exec(n),
        JsonValue::String(s) => quote_json(s.as_str()),
        JsonValue::Array(xs) => {
            proof {
                lemma_model_array(*xs);
            }
            let ghost ms = models(xs@);
            let mut out = String::new();
            push_char(&mut out, '[');
            let mut i: usize = 0;
            while i < xs.len()
                invariant
                    i <= xs@.len(),
                    ms == models(xs@),
                    out@ == seq!['['] + items_text(ms, i as nat),
                    decreases_to!(v => *xs),
                decreases xs@.len() - i,
            {
                proof {
                    assert(decreases_to!(*xs => xs@));
                    assert(decreases_to!(xs@ => xs@[i as int]));
                }
                let ghost before = out@;
                if i > 0 {
                    push_char(&mut out, ',');
                }
                let t = json_text_exec(&xs[i]);
                push_str(&mut out, t.as_str());
                proof {
                    if i == 0 {
                        assert(out@ =~= seq!['['] + items_text(ms, 1));
                    } else {
                        assert(out@ =~= seq!['['] + items_text(ms, (i + 1) as nat));
                    }
                }
                i = i + 1;
            }
            push_char(&mut out, ']');
            assert(out@ =~= json_text(v.model()));
            out
        },
        JsonValue::Object(xs) => {
            proof {
                lemma_model_object(*xs);
            }
            let ghost ms = member_models(xs@);
            let mut out = String::new();
            push_char(&mut out, '{');
            let mut i: usize = 0;
            while i < xs.len()
                invariant
                    i <= xs@.len(),
                    ms == member_models(xs@),
                    out@ == seq!['{'] + members_text(ms, i as nat),
                    decreases_to!(v => *xs),
                decreases xs@.len() - i,
            {
                proof {
                    assert(decreases_to!(*xs => xs@));
                    assert(decreases_to!(xs@ => xs@[i as int]));
                    assert(decreases_to!(xs@[i as int] => xs@[i as int].1));
                }
                if i > 0 {
                    push_char(&mut out, ',');
                }
                let k = quote_json(xs[i].0.as_str());
                push_str(&mut out, k.as_str());
                push_char(&mut out, ':');
                let t = json_text_exec(&xs[i].1);
                push_str(&mut out, t.as_str());
                proof {
                    if i == 0 {
                        assert(out@ =~= seq!['{'] + members_text(ms, 1));
                    } else {
                        assert(out@ =~= seq!['{'] + members_text(ms, (i + 1) as nat));
                    }
                }
                i = i + 1;
            }
            push_char(&mut out, '}');
            assert(out@ =~= json_text(v.model()));
            out
        },
    }
}

} // verus!
