//! The JSON document model that the diff engine and the graph builder read.

use vstd::prelude::*;
use crate::text::{chars_of, join, lemma_join_push};

verus! {

/// A JSON value. Numbers are kept in the textual form in which they are
/// printed; object members are kept in key order.
#[derive(Debug)]
pub enum JsonValue {
    Null,
    Bool(bool),
    Number(String),
    Str(String),
    Array(Vec<JsonValue>),
    Object(Vec<(String, JsonValue)>),
}

/// The mathematical model of a JSON value.
pub enum JsonV {
    Null,
    Bool(bool),
    Number(Seq<char>),
    Str(Seq<char>),
    Array(Seq<JsonV>),
    Object(Seq<(Seq<char>, JsonV)>),
}

impl JsonValue {
    pub open spec fn view(&self) -> JsonV
        decreases self,
    {
        match self {
            JsonValue::Null => JsonV::Null,
            JsonValue::Bool(b) => JsonV::Bool(*b),
            JsonValue::Number(n) => JsonV::Number(n@),
            JsonValue::Str(s) => JsonV::Str(s@),
            JsonValue::Array(items) => JsonV::Array(
                Seq::new(
                    items@.len(),
                    |i: int|
                        if 0 <= i < items@.len() {
                            items@[i].view()
                        } else {
                            JsonV::Null
                        },
                ),
            ),
            JsonValue::Object(members) => JsonV::Object(
                Seq::new(
                    members@.len(),
                    |i: int|
                        if 0 <= i < members@.len() {
                            (members@[i].0@, members@[i].1.view())
                        } else {
                            (Seq::empty(), JsonV::Null)
                        },
                ),
            ),
        }
    }
}

/// Whether a number text is one of the two zeros of floating point, which
/// serde_json prints as `0.0` and `-0.0`.
pub open spec fn is_float_zero(a: Seq<char>) -> bool {
    a == seq!['0', '.', '0'] || a == seq!['-', '0', '.', '0']
}

/// Whether two number texts, as serde_json prints them, stand for numbers
/// that serde_json counts as equal: the same text, or the two float zeros.
pub open spec fn same_number(a: Seq<char>, b: Seq<char>) -> bool {
    a == b || (is_float_zero(a) && is_float_zero(b))
}

/// Whether two JSON values are equal as `serde_json::Value`'s `PartialEq`
/// compares them: numbers as above (`N`'s `eq` compares integers of one
/// sign, or floats, by value), arrays element by element, objects as their
/// `BTreeMap`s, member by member in key order (keys equal, values equal),
/// anything else exactly. This is the whole of that comparison, so it is
/// stated here rather than called.
pub open spec fn json_same(a: JsonV, b: JsonV) -> bool
    decreases a,
{
    match a {
        JsonV::Number(x) => match b {
            JsonV::Number(y) => same_number(x, y),
            _ => false,
        },
        JsonV::Array(xs) => match b {
            JsonV::Array(ys) => xs.len() == ys.len() && forall|i: int|
                0 <= i < xs.len() ==> json_same(#[trigger] xs[i], ys[i]),
            _ => false,
        },
        JsonV::Object(xm) => match b {
            JsonV::Object(ym) => xm.len() == ym.len() && forall|i: int|
                0 <= i < xm.len() ==> (#[trigger] xm[i]).0 == ym[i].0 && json_same(xm[i].1, ym[i].1),
            _ => false,
        },
        _ => a == b,
    }
}

/// Equal values are the same value.
pub proof fn lemma_json_same_reflexive(a: JsonV)
    ensures
        json_same(a, a),
    decreases a,
{
    match a {
        JsonV::Array(xs) => {
            assert forall|i: int| 0 <= i < xs.len() implies json_same(#[trigger] xs[i], xs[i]) by {
                lemma_json_same_reflexive(xs[i]);
            }
        },
        JsonV::Object(xm) => {
            assert forall|i: int| 0 <= i < xm.len() implies (#[trigger] xm[i]).0 == xm[i].0 && json_same(
                xm[i].1,
                xm[i].1,
            ) by {
                lemma_json_same_reflexive(xm[i].1);
            }
        },
        _ => {},
    }
}

/// Sameness does not depend on the order of the two values.
pub proof fn lemma_json_same_symmetric(a: JsonV, b: JsonV)
    ensures
        json_same(a, b) == json_same(b, a),
    decreases a,
{
    match (a, b) {
        (JsonV::Array(xs), JsonV::Array(ys)) => {
            if xs.len() == ys.len() {
                assert forall|i: int| 0 <= i < xs.len() implies json_same(#[trigger] xs[i], ys[i]) == json_same(ys[i], xs[i]) by {
                    lemma_json_same_symmetric(xs[i], ys[i]);
                }
                if json_same(b, a) {
                    assert forall|i: int| 0 <= i < xs.len() implies json_same(#[trigger] xs[i], ys[i]) by {
                        assert(json_same(ys[i], xs[i]));
                    }
                }
            }
        },
        (JsonV::Object(xm), JsonV::Object(ym)) => {
            if xm.len() == ym.len() {
                assert forall|i: int| 0 <= i < xm.len() implies json_same((#[trigger] xm[i]).1, ym[i].1) == json_same(ym[i].1, xm[i].1) by {
                    lemma_json_same_symmetric(xm[i].1, ym[i].1);
                }
                if json_same(b, a) {
                    assert forall|i: int| 0 <= i < xm.len() implies (#[trigger] xm[i]).0 == ym[i].0 && json_same(xm[i].1, ym[i].1) by {
                        assert(ym[i].0 == xm[i].0 && json_same(ym[i].1, xm[i].1));
                    }
                }
            }
        },
        _ => {},
    }
}

fn float_zero(x: &str) -> (b: bool)
    ensures
        b == is_float_zero(x@),
{
    let c = chars_of(x);
    if c.len() == 3 {
        let b = c[0] == '0' && c[1] == '.' && c[2] == '0';
        if b {
            assert(c@ =~= seq!['0', '.', '0']);
        }
        b
    } else if c.len() == 4 {
        let b = c[0] == '-' && c[1] == '0' && c[2] == '.' && c[3] == '0';
        if b {
            assert(c@ =~= seq!['-', '0', '.', '0']);
        }
        b
    } else {
        false
    }
}

/// Equality of two JSON values as serde_json compares them.
#[verifier::loop_isolation(false)]
pub fn json_eq(a: &JsonValue, b: &JsonValue) -> (r: bool)
    ensures
        r == json_same(a@, b@),
    decreases a,
{
    match (a, b) {
        (JsonValue::Null, JsonValue::Null) => true,
        (JsonValue::Bool(x), JsonValue::Bool(y)) => *x == *y,
        (JsonValue::Number(x), JsonValue::Number(y)) => {
            let r = crate::text::str_eq(x.as_str(), y.as_str()) || (float_zero(x.as_str()) && float_zero(y.as_str()));
            r
        },
        (JsonValue::Str(x), JsonValue::Str(y)) => {
            let r = crate::text::str_eq(x.as_str(), y.as_str());
            if r {
                assert(a@ =~= b@);
            }
            r
        },
        (JsonValue::Array(xs), JsonValue::Array(ys)) => {
            if xs.len() != ys.len() {
                assert(a@->Array_0.len() != b@->Array_0.len());
                return false;
            }
            let mut i: usize = 0;
            while i < xs.len()
                invariant
                    xs.len() == ys.len(),
                    i <= xs.len(),
                    forall|k: int| 0 <= k < i ==> json_same(xs@[k]@, ys@[k]@),
                decreases xs.len() - i,
            {
                proof {
                    assert(decreases_to!(a => xs@[i as int]));
                }
                if !json_eq(&xs[i], &ys[i]) {
                    assert(a@->Array_0[i as int] == xs@[i as int]@);
                    return false;
                }
                i = i + 1;
            }
            assert forall|k: int| 0 <= k < a@->Array_0.len() implies json_same(#[trigger] a@->Array_0[k], b@->Array_0[k]) by {
                assert(a@->Array_0[k] == xs@[k]@);
                assert(b@->Array_0[k] == ys@[k]@);
            }
            true
        },
        (JsonValue::Object(xs), JsonValue::Object(ys)) => {
            if xs.len() != ys.len() {
                assert(a@->Object_0.len() != b@->Object_0.len());
                return false;
            }
            let mut i: usize = 0;
            while i < xs.len()
                invariant
                    xs.len() == ys.len(),
                    i <= xs.len(),
                    forall|k: int| 0 <= k < i ==> xs@[k].0@ == ys@[k].0@ && json_same(xs@[k].1@, ys@[k].1@),
                decreases xs.len() - i,
            {
                if xs[i].0 != ys[i].0 {
                    assert(a@->Object_0[i as int].0 != b@->Object_0[i as int].0);
                    return false;
                }
                proof {
                    assert(decreases_to!(a => xs@[i as int].1));
                }
                if !json_eq(&xs[i].1, &ys[i].1) {
                    assert(a@->Object_0[i as int] == (xs@[i as int].0@, xs@[i as int].1@));
                    return false;
                }
                i = i + 1;
            }
            assert forall|k: int| 0 <= k < a@->Object_0.len() implies (#[trigger] a@->Object_0[k]).0 == b@->Object_0[k].0
                && json_same(a@->Object_0[k].1, b@->Object_0[k].1) by {
                assert(a@->Object_0[k] == (xs@[k].0@, xs@[k].1@));
                assert(b@->Object_0[k] == (ys@[k].0@, ys@[k].1@));
            }
            true
        },
        _ => false,
    }
}

/// A lowercase hexadecimal digit.
pub open spec fn hex_digit(d: nat) -> char {
    seq!['0', '1', '2', '3', '4', '5', '6', '7', '8', '9', 'a', 'b', 'c', 'd', 'e', 'f'][d as int]
}

/// How serde_json writes one character inside a string literal: a quote
/// and a backslash behind a backslash; backspace, tab, line feed, form feed
/// and carriage return as `\b`, `\t`, `\n`, `\f`, `\r`; any other control
/// character below U+0020 as `\u00` and two lowercase hex digits; any
/// other character as itself.
pub open spec fn escaped_char(c: char) -> Seq<char> {
    let v = c as u32;
    if c == '"' {
        seq!['\\', '"']
    } else if c == '\\' {
        seq!['\\', '\\']
    } else if v == 8 {
        seq!['\\', 'b']
    } else if v == 9 {
        seq!['\\', 't']
    } else if v == 10 {
        seq!['\\', 'n']
    } else if v == 12 {
        seq!['\\', 'f']
    } else if v == 13 {
        seq!['\\', 'r']
    } else if v < 0x20 {
        seq!['\\', 'u', '0', '0', hex_digit((v / 16) as nat), hex_digit((v % 16) as nat)]
    } else {
        seq![c]
    }
}

/// The characters of a string, each written as serde_json writes it.
pub open spec fn escaped(s: Seq<char>) -> Seq<char>
    decreases s.len(),
{
    if s.len() == 0 {
        Seq::empty()
    } else {
        escaped(s.drop_last()) + escaped_char(s.last())
    }
}

/// A string as it appears inside JSON text: between quotes, escaped.
pub open spec fn quoted(s: Seq<char>) -> Seq<char> {
    seq!['"'] + escaped(s) + seq!['"']
}

/// `serde_json::to_string` on a string slice: the JSON literal of `s`,
/// quoted and escaped by serde_json's escape table (ser.rs: `ESCAPE` and
/// `write_char_escape`). Writing a string into memory does not fail.
#[verifier::external_body]
fn serde_string_literal(s: &str) -> (r: Result<String, ()>)
    ensures
        r is Ok,
        r is Ok ==> r->Ok_0@ == quoted(s@),
{
    serde_json::to_string(s).map_err(|_| ())
}

pub open spec fn null_text() -> Seq<char> {
    seq!['n', 'u', 'l', 'l']
}

pub open spec fn bool_text(b: bool) -> Seq<char> {
    if b {
        seq!['t', 'r', 'u', 'e']
    } else {
        seq!['f', 'a', 'l', 's', 'e']
    }
}

/// Compact JSON text of a value, as `serde_json::to_string` prints it with
/// its compact formatter: no whitespace, `,` between items, `:` after keys;
/// numbers in the text serde_json prints for them, strings through
/// `serde_json::to_string` itself.
pub open spec fn compact_text(v: JsonV) -> Seq<char>
    decreases v,
{
    match v {
        JsonV::Null => null_text(),
        JsonV::Bool(b) => bool_text(b),
        JsonV::Number(t) => t,
        JsonV::Str(s) => quoted(s),
        JsonV::Array(items) => seq!['['] + join(array_parts(items), seq![',']) + seq![']'],
        JsonV::Object(members) => seq!['{'] + join(object_parts(members), seq![',']) + seq!['}'],
    }
}

/// The compact texts of array items.
pub open spec fn array_parts(items: Seq<JsonV>) -> Seq<Seq<char>>
    decreases items,
{
    Seq::new(
        items.len(),
        |i: int|
            if 0 <= i < items.len() {
                compact_text(items[i])
            } else {
                Seq::empty()
            },
    )
}

/// The compact `"key":value` texts of object members.
pub open spec fn object_parts(members: Seq<(Seq<char>, JsonV)>) -> Seq<Seq<char>>
    decreases members,
{
    Seq::new(
        members.len(),
        |i: int|
            if 0 <= i < members.len() {
                quoted(members[i].0) + seq![':'] + compact_text(members[i].1)
            } else {
                Seq::empty()
            },
    )
}

/// Appends the quoted form of a string.
fn push_quoted(out: &mut String, s: &str)
    ensures
        final(out)@ == old(out)@ + quoted(s@),
{
    match serde_string_literal(s) {
        Ok(t) => {
            out.append(t.as_str());
        },
        Err(_) => {},
    }
}

fn push_literal(out: &mut String, v: &JsonValue)
    requires
        !(v is Array || v is Object),
    ensures
        final(out)@ == old(out)@ + compact_text(v@),
{
    match v {
        JsonValue::Null => {
            out.append("null");
            proof { reveal_strlit("null"); }
            assert(final(out)@ =~= old(out)@ + compact_text(v@));
        },
        JsonValue::Bool(b) => {
            if *b {
                out.append("true");
                proof { reveal_strlit("true"); }
            } else {
                out.append("false");
                proof { reveal_strlit("false"); }
            }
            assert(final(out)@ =~= old(out)@ + compact_text(v@));
        },
        JsonValue::Number(t) => {
            out.append(t.as_str());
        },
        JsonValue::Str(s) => {
            push_quoted(out, s.as_str());
        },
        _ => {},
    }
}

/// Appends the compact JSON text of a value.
#[verifier::loop_isolation(false)]
#[verifier::spinoff_prover]
#[verifier::rlimit(30)]
pub fn write_compact(out: &mut String, v: &JsonValue)
    ensures
        final(out)@ == old(out)@ + compact_text(v@),
    decreases v,
{
    match v {
        JsonValue::Array(items) => {
            let ghost start = out@;
            let ghost parts = array_parts(v@->Array_0);
            out.push('[');
            let mut i: usize = 0;
            while i < items.len()
                invariant
                    i <= items.len(),
                    parts.len() == items.len(),
                    forall|k: int| 0 <= k < items.len() ==> #[trigger] parts[k] == compact_text(items@[k]@),
                    out@ == start + seq!['['] + join(parts.take(i as int), seq![',']),
                decreases items.len() - i,
            {
                proof {
                    assert(decreases_to!(v => items@[i as int]));
                    assert(parts.take(i + 1) =~= parts.take(i as int).push(parts[i as int]));
                    lemma_join_push(parts.take(i as int), seq![','], parts[i as int]);
                }
                if i > 0 {
                    out.push(',');
                }
                write_compact(out, &items[i]);
                i = i + 1;
            }
            out.push(']');
            assert(parts.take(items.len() as int) =~= parts);
            assert(out@ =~= start + compact_text(v@));
        },
        JsonValue::Object(members) => {
            let ghost start = out@;
            let ghost parts = object_parts(v@->Object_0);
            out.push('{');
            let mut i: usize = 0;
            while i < members.len()
                invariant
                    i <= members.len(),
                    parts.len() == members.len(),
                    forall|k: int|
                        0 <= k < members.len() ==> #[trigger] parts[k] == quoted(members@[k].0@)
                            + seq![':'] + compact_text(members@[k].1@),
                    out@ == start + seq!['{'] + join(parts.take(i as int), seq![',']),
                decreases members.len() - i,
            {
                proof {
                    assert(decreases_to!(v => members@[i as int].1));
                    assert(parts.take(i + 1) =~= parts.take(i as int).push(parts[i as int]));
                    lemma_join_push(parts.take(i as int), seq![','], parts[i as int]);
                }
                if i > 0 {
                    out.push(',');
                }
                push_quoted(out, members[i].0.as_str());
                out.push(':');
                write_compact(out, &members[i].1);
                i = i + 1;
            }
            out.push('}');
            assert(parts.take(members.len() as int) =~= parts);
            assert(out@ =~= start + compact_text(v@));
        },
        _ => {
            push_literal(out, v);
        },
    }
}

/// The compact JSON text of a value.
pub fn compact_string(v: &JsonValue) -> (s: String)
    ensures
        s@ == compact_text(v@),
{
    let mut s = String::new();
    write_compact(&mut s, v);
    assert(s@ =~= compact_text(v@));
    s
}

} // verus!
