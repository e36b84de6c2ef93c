//! The [`Value`] type: the output tree produced by the binary parser.
//!
//! Struct fields are stored as an ordered list of `(name, value)` pairs so
//! that the declaration order of the schema is preserved: renderers emit
//! fields in schema order, and size expressions may only reference fields
//! that were parsed earlier.

use vstd::prelude::*;

verus! {

/// The raw IEEE 754 bit pattern of a parsed floating-point number, tagged
/// with its width.  Turning the bits into a number, and a number into text,
/// is floating-point work that the program around the library does.
#[derive(Debug, Clone, Copy, PartialEq, Eq, Structural)]
pub enum FloatBits {
    /// A binary32 value.
    F32(u32),
    /// A binary64 value.
    F64(u64),
}

/// A parsed value.
#[derive(Debug, PartialEq)]
pub enum Value {
    /// An unsigned integer (u8 / u16 / u32 / u64, bits).
    UInt(u64),
    /// A signed integer (i8 / i16 / i32 / i64).
    SInt(i64),
    /// An IEEE 754 floating-point value, as its bit pattern.
    Float(FloatBits),
    /// A raw byte sequence.
    Bytes(Vec<u8>),
    /// A decoded string.
    Str(String),
    /// An integer with an optional symbolic name from an enum.
    Enum {
        value: u64,
        /// `None` when the discriminant has no matching variant.
        name: Option<String>,
    },
    /// A struct-like composite type.
    Struct {
        /// The fully-qualified type name (e.g. `"png::chunk"`).
        ty_name: String,
        /// Ordered field name → value pairs.
        fields: Vec<(String, Value)>,
    },
    /// A repeated field (from `repeat: eos` / `expr` / `until`).
    Array(Vec<Value>),
    /// A field whose `if:` expression evaluated to false.
    Absent,
}

/// A parsed value as plain data: what a [`Value`] holds, with its text,
/// bytes and lists as sequences.
pub enum ValueV {
    UInt(u64),
    SInt(i64),
    Float(FloatBits),
    Bytes(Seq<u8>),
    Str(Seq<char>),
    Enum { value: u64, name: Option<Seq<char>> },
    Struct { ty_name: Seq<char>, fields: Seq<(Seq<char>, ValueV)> },
    Array(Seq<ValueV>),
    Absent,
}

/// The plain data a value holds.
pub open spec fn view_value(v: Value) -> ValueV
    decreases v,
{
    match v {
        Value::UInt(n) => ValueV::UInt(n),
        Value::SInt(n) => ValueV::SInt(n),
        Value::Float(f) => ValueV::Float(f),
        Value::Bytes(b) => ValueV::Bytes(b@),
        Value::Str(s) => ValueV::Str(s@),
        Value::Enum { value, name } => ValueV::Enum {
            value,
            name: match name {
                Some(n) => Some(n@),
                None => None,
            },
        },
        Value::Struct { ty_name, fields } => ValueV::Struct { ty_name: ty_name@, fields: view_fields(fields@) },
        Value::Array(items) => ValueV::Array(view_items(items@)),
        Value::Absent => ValueV::Absent,
    }
}

/// The plain data of a list of named values.
pub open spec fn view_fields(f: Seq<(String, Value)>) -> Seq<(Seq<char>, ValueV)>
    decreases f,
{
    if f.len() == 0 {
        Seq::empty()
    } else {
        view_fields(f.drop_last()).push((f.last().0@, view_value(f.last().1)))
    }
}

/// The plain data of a list of values.
pub open spec fn view_items(s: Seq<Value>) -> Seq<ValueV>
    decreases s,
{
    if s.len() == 0 {
        Seq::empty()
    } else {
        view_items(s.drop_last()).push(view_value(s.last()))
    }
}

/// A list of values and its plain data have the same length.
pub proof fn lemma_view_items_len(s: Seq<Value>)
    ensures
        view_items(s).len() == s.len(),
    decreases s.len(),
{
    if s.len() > 0 {
        lemma_view_items_len(s.drop_last());
    }
}

/// The integer a plain value stands for in expressions (see [`int_of`]).
pub open spec fn int_of_v(v: ValueV) -> Option<i64> {
    match v {
        ValueV::UInt(n) => Some(n as i64),
        ValueV::SInt(n) => Some(n),
        ValueV::Enum { value, .. } => Some(value as i64),
        _ => None,
    }
}

/// The integer a value stands for in expressions: unsigned integers and
/// enum discriminants reinterpreted as `i64`, signed integers as they are.
pub open spec fn int_of(v: Value) -> Option<i64> {
    match v {
        Value::UInt(n) => Some(n as i64),
        Value::SInt(n) => Some(n),
        Value::Enum { value, .. } => Some(value as i64),
        _ => None,
    }
}

/// A value's variant as a short name.
pub open spec fn kind_name(v: Value) -> Seq<char> {
    match v {
        Value::UInt(_) => "uint"@,
        Value::SInt(_) => "sint"@,
        Value::Float(_) => "float"@,
        Value::Bytes(_) => "bytes"@,
        Value::Str(_) => "str"@,
        Value::Enum { .. } => "enum"@,
        Value::Struct { .. } => "struct"@,
        Value::Array(_) => "array"@,
        Value::Absent => "absent"@,
    }
}

/// Copies a list of named values one by one.
fn clone_fields(fields: &Vec<(String, Value)>) -> (res: Vec<(String, Value)>)
    ensures
        view_fields(res@) == view_fields(fields@),
    decreases fields,
{
    let mut out: Vec<(String, Value)> = Vec::new();
    let mut i: usize = 0;
    while i < fields.len()
        invariant
            i <= fields@.len(),
            view_fields(out@) == view_fields(fields@.subrange(0, i as int)),
        decreases fields@.len() - i,
    {
        proof {
            assert(decreases_to!(fields => fields@));
            assert(decreases_to!(fields@ => fields@[i as int]));
        }
        let entry = &fields[i];
        let v: Value = entry.1.clone();
        let ghost prev = out@;
        out.push((entry.0.clone(), v));
        proof {
            assert(out@.drop_last() =~= prev);
            assert(fields@.subrange(0, i + 1).drop_last() =~= fields@.subrange(0, i as int));
        }
        i = i + 1;
    }
    assert(fields@.subrange(0, fields@.len() as int) =~= fields@);
    out
}

/// Copies a list of values one by one.
fn clone_items(items: &Vec<Value>) -> (res: Vec<Value>)
    ensures
        view_items(res@) == view_items(items@),
    decreases items,
{
    let mut out: Vec<Value> = Vec::new();
    let mut i: usize = 0;
    while i < items.len()
        invariant
            i <= items@.len(),
            view_items(out@) == view_items(items@.subrange(0, i as int)),
        decreases items@.len() - i,
    {
        proof {
            assert(decreases_to!(items => items@));
            assert(decreases_to!(items@ => items@[i as int]));
        }
        let v: Value = items[i].clone();
        let ghost prev = out@;
        out.push(v);
        proof {
            assert(out@.drop_last() =~= prev);
            assert(items@.subrange(0, i + 1).drop_last() =~= items@.subrange(0, i as int));
        }
        i = i + 1;
    }
    assert(items@.subrange(0, items@.len() as int) =~= items@);
    out
}

impl Clone for Value {
    /// A copy of the value: the same data throughout.
    fn clone(&self) -> (res: Self)
        ensures
            view_value(res) == view_value(*self),
            int_of(res) == int_of(*self),
            kind_name(res) == kind_name(*self),
        decreases self,
    {
        match self {
            Value::UInt(n) => Value::UInt(*n),
            Value::SInt(n) => Value::SInt(*n),
            Value::Float(f) => Value::Float(*f),
            Value::Bytes(b) => Value::Bytes(b.clone()),
            Value::Str(s) => Value::Str(s.clone()),
            Value::Enum { value, name } => {
                let n: Option<String> = match name {
                    Some(t) => Some(t.clone()),
                    None => None,
                };
                Value::Enum { value: *value, name: n }
            },
            Value::Struct { ty_name, fields } => Value::Struct {
                ty_name: ty_name.clone(),
                fields: clone_fields(fields),
            },
            Value::Array(items) => Value::Array(clone_items(items)),
            Value::Absent => Value::Absent,
        }
    }
}

impl Value {
    /// Returns the integer representation of this value, if applicable.
    /// Used when a parsed field is referenced in an expression.
    pub fn as_int(&self) -> (res: Option<i64>)
        ensures
            res == int_of(*self),
    {
        match self {
            Value::UInt(n) => Some(*n as i64),
            Value::SInt(n) => Some(*n),
            Value::Enum { value, .. } => Some(*value as i64),
            _ => None,
        }
    }

    /// Returns the byte length of this value, if applicable: the number of
    /// bytes, or the length of a string's UTF-8 encoding.
    pub fn byte_len(&self) -> (res: Option<usize>)
        ensures
            res == match *self {
                Value::Bytes(b) => Some(b@.len() as usize),
                Value::Str(s) => Some(vstd::utf8::encode_utf8(s@).len() as usize),
                _ => None::<usize>,
            },
    {
        match self {
            Value::Bytes(b) => Some(b.len()),
            Value::Str(s) => Some(s.as_str().len()),
            _ => None,
        }
    }

    /// Returns `true` if this value is a non-zero integer.
    pub fn is_truthy(&self) -> (res: bool)
        ensures
            res == match *self {
                Value::UInt(n) => n != 0,
                Value::SInt(n) => n != 0,
                Value::Enum { value, .. } => value != 0,
                _ => false,
            },
    {
        match self {
            Value::UInt(n) => *n != 0,
            Value::SInt(n) => *n != 0,
            Value::Enum { value, .. } => *value != 0,
            _ => false,
        }
    }

    /// Does this value represent the "no data" sentinel?
    pub fn is_absent(&self) -> (res: bool)
        ensures
            res == (*self is Absent),
    {
        match self {
            Value::Absent => true,
            _ => false,
        }
    }

    /// Returns the variant as a short string, useful for error messages.
    pub fn ty_name(&self) -> (res: &'static str)
        ensures
            res@ == kind_name(*self),
    {
        match self {
            Value::UInt(_) => "uint",
            Value::SInt(_) => "sint",
            Value::Float(_) => "float",
            Value::Bytes(_) => "bytes",
            Value::Str(_) => "str",
            Value::Enum { .. } => "enum",
            Value::Struct { .. } => "struct",
            Value::Array(_) => "array",
            Value::Absent => "absent",
        }
    }
}

} // verus!
