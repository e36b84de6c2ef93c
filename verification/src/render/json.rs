//! JSON renderer.
//!
//! Converts a `Value` tree into a JSON document tree:
//!
//! | `Value`       | JSON                                                    |
//! |---------------|---------------------------------------------------------|
//! | UInt(n)       | number                                                  |
//! | SInt(n)       | number                                                  |
//! | Float(f)      | number (NaN and infinities are written as null)         |
//! | Bytes(b)      | `{"$type":"bytes","hex":"deadbeef","len":4}`            |
//! | Str(s)        | string                                                  |
//! | Enum{v,name}  | `{"$type":"enum","value":1,"name":"data"}` (`name` null |
//! |               | when the discriminant has no variant)                   |
//! | Struct{..}    | object with a `"$type"` member plus one per field       |
//! | Array(items)  | array                                                   |
//! | Absent        | `null`                                                  |
//!
//! Serialising the tree as text is done by the program around the library.

use vstd::prelude::*;
use crate::strutil::{push_char, push_str};
use crate::value::{FloatBits, Value};

verus! {

/// A JSON document tree.
#[derive(Debug, PartialEq)]
pub enum Json {
    Null,
    UInt(u64),
    SInt(i64),
    /// A floating-point number as its bit pattern.
    Float(FloatBits),
    Str(String),
    Array(Vec<Json>),
    /// Members in insertion order; when a key occurs twice, the later member
    /// is the one a JSON object keeps.
    Object(Vec<(String, Json)>),
}

/// `j` is a JSON string with the text `s`.
pub open spec fn is_str(j: Json, s: Seq<char>) -> bool {
    j matches Json::Str(t) && t@ == s
}

/// A member with the key `k`.
pub open spec fn has_key(m: (String, Json), k: Seq<char>) -> bool {
    m.0@ == k
}

/// The hexadecimal digit for `d` (below sixteen), lower case.
pub open spec fn hex_digit(d: nat) -> char {
    if d < 10 {
        ((d + '0' as nat) as u32) as char
    } else {
        ((d - 10 + 'a' as nat) as u32) as char
    }
}

/// The lower-case hexadecimal text of a byte string, two digits per byte.
pub open spec fn hex_of(b: Seq<u8>) -> Seq<char>
    decreases b.len(),
{
    if b.len() == 0 {
        Seq::empty()
    } else {
        hex_of(b.drop_last()) + seq![hex_digit(b.last() as nat / 16), hex_digit(b.last() as nat % 16)]
    }
}

/// `j` is the JSON rendering of `v`.
pub open spec fn json_of(j: Json, v: Value) -> bool
    decreases v,
{
    match v {
        Value::UInt(n) => j == Json::UInt(n),
        Value::SInt(n) => j == Json::SInt(n),
        Value::Float(f) => j == Json::Float(f),
        Value::Bytes(b) => j matches Json::Object(e) && e@.len() == 3 && has_key(e@[0], "$type"@)
            && is_str(e@[0].1, "bytes"@) && has_key(e@[1], "hex"@) && is_str(e@[1].1, hex_of(b@))
            && has_key(e@[2], "len"@) && e@[2].1 == Json::UInt(b@.len() as u64),
        Value::Str(s) => is_str(j, s@),
        Value::Enum { value, name } => j matches Json::Object(e) && e@.len() == 3 && has_key(
            e@[0],
            "$type"@,
        ) && is_str(e@[0].1, "enum"@) && has_key(e@[1], "value"@) && e@[1].1 == Json::UInt(value)
            && has_key(e@[2], "name"@) && match name {
            Some(n) => is_str(e@[2].1, n@),
            None => e@[2].1 == Json::Null,
        },
        Value::Struct { ty_name, fields } => j matches Json::Object(e) && e@.len() >= 1 && has_key(
            e@[0],
            "$type"@,
        ) && is_str(e@[0].1, ty_name@) && members_of(e@.drop_first(), fields@),
        Value::Array(items) => j matches Json::Array(js) && elements_of(js@, items@),
        Value::Absent => j == Json::Null,
    }
}

/// The members `e` render the fields `f`, one for one, in order.
pub open spec fn members_of(e: Seq<(String, Json)>, f: Seq<(String, Value)>) -> bool
    decreases f,
{
    e.len() == f.len() && (f.len() == 0 || (members_of(e.drop_last(), f.drop_last()) && e.last().0@
        == f.last().0@ && json_of(e.last().1, f.last().1)))
}

/// The elements `js` render the items, one for one, in order.
pub open spec fn elements_of(js: Seq<Json>, items: Seq<Value>) -> bool
    decreases items,
{
    js.len() == items.len() && (items.len() == 0 || (elements_of(js.drop_last(), items.drop_last())
        && json_of(js.last(), items.last())))
}

/// Convert a `Value` to a JSON tree.
pub fn to_json(value: &Value) -> (res: Json)
    ensures
        json_of(res, *value),
    decreases value,
{
    match value {
        Value::UInt(n) => Json::UInt(*n),
        Value::SInt(n) => Json::SInt(*n),
        Value::Float(f) => Json::Float(*f),
        Value::Bytes(b) => {
            let mut e: Vec<(String, Json)> = Vec::new();
            e.push(("$type".to_owned(), Json::Str("bytes".to_owned())));
            e.push(("hex".to_owned(), Json::Str(hex_encode(b.as_slice()))));
            e.push(("len".to_owned(), Json::UInt(b.len() as u64)));
            Json::Object(e)
        },
        Value::Str(s) => Json::Str(s.clone()),
        Value::Enum { value, name } => {
            let mut e: Vec<(String, Json)> = Vec::new();
            e.push(("$type".to_owned(), Json::Str("enum".to_owned())));
            e.push(("value".to_owned(), Json::UInt(*value)));
            let n = match name {
                Some(n) => Json::Str(n.clone()),
                None => Json::Null,
            };
            e.push(("name".to_owned(), n));
            Json::Object(e)
        },
        Value::Struct { ty_name, fields } => Json::Object(struct_members(ty_name, fields)),
        Value::Array(items) => Json::Array(items_to_json(items)),
        Value::Absent => Json::Null,
    }
}

/// The members of a struct's object: `"$type"`, then one per field.
fn struct_members(ty_name: &String, fields: &Vec<(String, Value)>) -> (res: Vec<(String, Json)>)
    ensures
        res@.len() >= 1,
        has_key(res@[0], "$type"@),
        is_str(res@[0].1, ty_name@),
        members_of(res@.drop_first(), fields@),
    decreases fields,
{
    let mut out: Vec<(String, Json)> = Vec::new();
    out.push(("$type".to_owned(), Json::Str(ty_name.clone())));
    let mut i: usize = 0;
    while i < fields.len()
        invariant
            i <= fields@.len(),
            out@.len() >= 1,
            has_key(out@[0], "$type"@),
            is_str(out@[0].1, ty_name@),
            members_of(out@.drop_first(), fields@.subrange(0, i as int)),
        decreases fields@.len() - i,
    {
        proof {
            assert(decreases_to!(fields => fields@));
            assert(decreases_to!(fields@ => fields@[i as int]));
        }
        let entry = &fields[i];
        let j = to_json(&entry.1);
        let ghost prev = out@;
        out.push((entry.0.clone(), j));
        i = i + 1;
        proof {
            let sub = fields@.subrange(0, i as int);
            assert(sub.drop_last() =~= fields@.subrange(0, i - 1));
            assert(out@.drop_first().drop_last() =~= prev.drop_first());
        }
    }
    assert(fields@.subrange(0, fields@.len() as int) =~= fields@);
    out
}

fn items_to_json(items: &Vec<Value>) -> (res: Vec<Json>)
    ensures
        elements_of(res@, items@),
    decreases items,
{
    let mut out: Vec<Json> = Vec::new();
    let mut i: usize = 0;
    while i < items.len()
        invariant
            i <= items@.len(),
            elements_of(out@, items@.subrange(0, i as int)),
        decreases items@.len() - i,
    {
        proof {
            assert(decreases_to!(items => items@));
            assert(decreases_to!(items@ => items@[i as int]));
        }
        let j = to_json(&items[i]);
        let ghost prev = out@;
        out.push(j);
        i = i + 1;
        proof {
            let sub = items@.subrange(0, i as int);
            assert(sub.drop_last() =~= items@.subrange(0, i - 1));
            assert(out@.drop_last() =~= prev);
        }
    }
    assert(items@.subrange(0, items@.len() as int) =~= items@);
    out
}

fn hex_digit_char(d: u8) -> (c: char)
    requires
        d < 16,
    ensures
        c == hex_digit(d as nat),
{
    if d < 10 {
        ((d as u32 + '0' as u32) as u8) as char
    } else {
        ((d as u32 - 10 + 'a' as u32) as u8) as char
    }
}

/// The lower-case hexadecimal text of a byte string, two digits per byte.
pub fn hex_encode(b: &[u8]) -> (res: String)
    ensures
        res@ == hex_of(b@),
{
    let mut s = String::new();
    let mut i: usize = 0;
    while i < b.len()
        invariant
            i <= b@.len(),
            s@ == hex_of(b@.subrange(0, i as int)),
        decreases b@.len() - i,
    {
        let byte = b[i];
        push_char(&mut s, hex_digit_char(byte / 16));
        push_char(&mut s, hex_digit_char(byte % 16));
        proof {
            let sub = b@.subrange(0, i + 1);
            assert(sub.drop_last() =~= b@.subrange(0, i as int));
        }
        i = i + 1;
        assert(s@ =~= hex_of(b@.subrange(0, i as int)));
    }
    assert(b@.subrange(0, b@.len() as int) =~= b@);
    s
}


// ─────────────────────────────────────────────────────────────────────────────
// Laws
// ─────────────────────────────────────────────────────────────────────────────

/// A struct's members follow its `$type` key one for one with its fields,
/// in order: each under the field's name and holding the field's JSON
/// rendering; an absent field appears as `null`.
pub proof fn law_struct_members(e: Seq<(String, Json)>, f: Seq<(String, Value)>, k: int)
    requires
        members_of(e, f),
        0 <= k < f.len(),
    ensures
        e.len() == f.len(),
        e[k].0@ == f[k].0@,
        json_of(e[k].1, f[k].1),
        f[k].1 is Absent ==> e[k].1 == Json::Null,
    decreases f.len(),
{
    if k < f.len() - 1 {
        law_struct_members(e.drop_last(), f.drop_last(), k);
    }
}

/// The hexadecimal text of a byte string has two lower-case digits per
/// byte, high nibble first.
pub proof fn law_hex_digits(b: Seq<u8>, i: int)
    requires
        0 <= i < b.len(),
    ensures
        hex_of(b).len() == 2 * b.len(),
        hex_of(b)[2 * i] == hex_digit(b[i] as nat / 16),
        hex_of(b)[2 * i + 1] == hex_digit(b[i] as nat % 16),
    decreases b.len(),
{
    lemma_hex_len(b.drop_last());
    if i < b.len() - 1 {
        law_hex_digits(b.drop_last(), i);
    }
}

proof fn lemma_hex_len(b: Seq<u8>)
    ensures
        hex_of(b).len() == 2 * b.len(),
    decreases b.len(),
{
    if b.len() > 0 {
        lemma_hex_len(b.drop_last());
    }
}

} // verus!
