//! What parsing means: the value that a compiled type reads from a byte
//! window, or the error it runs into, stated as spec functions over plain
//! data.
//!
//! A parse state is a position in the window (whose first byte lies at
//! offset `base` of the whole input) and the stack of expression scopes
//! (`Frames`), outermost first.  Each function gives the value read and the
//! position after it (the field-level functions also give the scopes
//! afterwards, since `repeat: until` binds `_` in the current scope), or
//! the error the engine reports.

use vstd::prelude::*;
use crate::parser::cursor::{decode_value, first_index_of, overrun_message, to_signed};
use crate::parser::engine::{
    bits_read, byte_list_text, has_high_byte, is_big, latin1_chars, negative_size_message, resolve_spec,
    utf8_error_text, MAX_NESTING,
};
use crate::error::DoeError;
use crate::parser::context::flat_bind;
use crate::schema::compiler::encoding_of;
use crate::schema::expr::eval_spec;
use crate::schema::raw::RawEncoding;
use crate::schema::ir::{
    enum_entry, CompiledField, CompiledType, Encoding, Endian, FieldKind, FloatWidth, RepeatMode,
    SizeExpr, StrSize, float_width_bytes, int_width_bytes,
};
use crate::strutil::{decimal, signed_decimal};
use crate::value::{int_of_v, FloatBits, ValueV};

verus! {

/// The expression scopes, outermost first.
pub type Frames = Seq<Map<Seq<char>, i64>>;

/// An error of the engine, as plain data.
pub enum ErrV {
    Schema(Seq<char>),
    UnknownType { ty_name: Seq<char>, context: Seq<char> },
    FieldError { field: Seq<char>, context: Seq<char>, message: Seq<char> },
    ExprEval { expr: Seq<char>, message: Seq<char> },
}

/// `e` is the error that `ev` describes.
pub open spec fn is_err(e: DoeError, ev: ErrV) -> bool {
    match ev {
        ErrV::Schema(m) => e matches DoeError::Schema(x) && x@ == m,
        ErrV::UnknownType { ty_name, context } => e matches DoeError::UnknownType { ty_name: t, context: c }
            && t@ == ty_name && c@ == context,
        ErrV::FieldError { field, context, message } => e matches DoeError::FieldError {
            field: f,
            context: c,
            message: m,
        } && f@ == field && c@ == context && m@ == message,
        ErrV::ExprEval { expr, message } => e matches DoeError::ExprEval { expr: x, message: m } && x@
            == expr && m@ == message,
    }
}

/// A read of `n` bytes at `pos` past the end of a window of `len` bytes.
pub open spec fn overrun(base: nat, pos: nat, n: nat, len: nat) -> ErrV {
    ErrV::Schema(overrun_message(base + pos, n, (len - pos) as nat))
}

/// A field whose expression `src` failed to evaluate with message `m`.
pub open spec fn field_eval_error(f: CompiledField, parent: CompiledType, src: Seq<char>, m: Seq<char>) -> ErrV {
    ErrV::FieldError {
        field: f.id@,
        context: parent.name@,
        message: "expression eval error in '"@ + src + "': "@ + m,
    }
}

/// A repetition of `f` in `mode` whose instance read nothing.
pub open spec fn no_progress_error(f: CompiledField, parent: CompiledType, mode: Seq<char>) -> ErrV {
    ErrV::FieldError {
        field: f.id@,
        context: parent.name@,
        message: "repeat: "@ + mode + " read no bytes and would never end"@,
    }
}

/// The message of sub-types nested deeper than the engine goes.
pub open spec fn nesting_message(ty_name: Seq<char>) -> Seq<char> {
    "type nesting deeper than "@ + decimal(MAX_NESTING as nat) + " levels at '"@ + ty_name + "'"@
}

/// The message of `contents:` bytes that do not match at `pos`.
pub open spec fn mismatch_message(pos: nat, expected: Seq<u8>, actual: Seq<u8>) -> Seq<char> {
    "contents mismatch at offset "@ + decimal(pos) + ": expected "@ + "["@ + byte_list_text(expected) + "]"@
        + ", got "@ + "["@ + byte_list_text(actual) + "]"@
}

/// The scopes after binding a parsed value to `id` in the current scope:
/// values with an integer reading, and the fields of structs under dotted
/// names (see [`flat_bind`]).
pub open spec fn bind_value(frames: Frames, id: Seq<char>, v: ValueV) -> Frames {
    frames.update(frames.len() - 1, flat_bind(frames.last(), id, v))
}

/// The byte count of a `bytes` / `str` size: a literal as it is, an
/// expression's value when it is not negative (as the engine converts it
/// to a length).
pub open spec fn size_spec(size: SizeExpr, frames: Frames) -> Result<usize, ErrV> {
    match size {
        SizeExpr::Literal(n) => Ok((n as i64) as usize),
        SizeExpr::Dynamic(e) => match eval_spec(e@, frames) {
            Ok(v) => if v < 0 {
                Err(ErrV::Schema(negative_size_message(v as int)))
            } else {
                Ok(v as usize)
            },
            Err(m) => Err(ErrV::ExprEval { expr: "<size>"@, message: m }),
        },
    }
}

/// `n` bytes at `pos`, and the position after them.
pub open spec fn take_bytes(data: Seq<u8>, base: nat, pos: nat, n: nat) -> Result<(Seq<u8>, nat), ErrV> {
    if pos + n <= data.len() {
        Ok((data.subrange(pos as int, (pos + n) as int), (pos + n) as nat))
    } else {
        Err(overrun(base, pos, n, data.len()))
    }
}

/// The bytes of a string field and the position after them: up to the
/// terminator (which is consumed), or to the end of the window without
/// one; or exactly the given size.
pub open spec fn str_bytes(size: StrSize, data: Seq<u8>, base: nat, pos: nat, frames: Frames) -> Result<
    (Seq<u8>, nat),
    ErrV,
> {
    match size {
        StrSize::Terminator(t) => {
            let rest = data.subrange(pos as int, data.len() as int);
            match first_index_of(rest, t) {
                Some(k) => Ok((rest.subrange(0, k as int), (pos + k + 1) as nat)),
                None => Ok((rest, data.len())),
            }
        },
        StrSize::Fixed(sz) => match size_spec(sz, frames) {
            Ok(n) => take_bytes(data, base, pos, n as nat),
            Err(e) => Err(e),
        },
    }
}

/// The text of string bytes in an encoding, or why they are not valid in it.
pub open spec fn decode_spec(bytes: Seq<u8>, encoding: Encoding) -> Result<Seq<char>, ErrV> {
    match encoding {
        Encoding::Utf8 => if vstd::utf8::valid_utf8(bytes) {
            Ok(vstd::utf8::decode_utf8(bytes))
        } else {
            Err(ErrV::Schema("UTF-8 decode error: "@ + utf8_error_text(bytes)))
        },
        Encoding::Ascii => if has_high_byte(bytes) {
            Err(ErrV::Schema("non-ASCII byte in ASCII string"@))
        } else {
            Ok(latin1_chars(bytes))
        },
        Encoding::Latin1 => Ok(latin1_chars(bytes)),
    }
}

/// The name an enum gives a discriminant: the variant of the enum named
/// `en` among the type's enums, if there is one.
pub open spec fn enum_name(parent: CompiledType, en: Seq<char>, value: u64) -> Option<Seq<char>> {
    match enum_entry(parent.enums@, en) {
        Some(ce) => if ce.variants@.contains_key(value) {
            Some(ce.variants@[value]@)
        } else {
            None
        },
        None => None,
    }
}

/// A struct of type `ty` read at `pos` with the scopes `frames` (the
/// struct's own scope being the last), descending at most `depth` more
/// levels into sub-types.
pub open spec fn parse_struct(
    reg: Map<Seq<char>, CompiledType>,
    data: Seq<u8>,
    base: nat,
    ty: CompiledType,
    pos: nat,
    frames: Frames,
    depth: nat,
) -> Result<(ValueV, nat), ErrV>
    decreases depth, 6nat, 0int,
{
    match parse_fields(reg, data, base, ty, 0, pos, frames, depth) {
        Ok((fields, p)) => Ok((ValueV::Struct { ty_name: ty.name@, fields }, p)),
        Err(e) => Err(e),
    }
}

/// The fields of `ty` from the `i`-th on, each bound in the current scope
/// once it is read.
pub open spec fn parse_fields(
    reg: Map<Seq<char>, CompiledType>,
    data: Seq<u8>,
    base: nat,
    ty: CompiledType,
    i: nat,
    pos: nat,
    frames: Frames,
    depth: nat,
) -> Result<(Seq<(Seq<char>, ValueV)>, nat), ErrV>
    decreases depth, 5nat, ty.fields@.len() - i,
{
    if i >= ty.fields@.len() {
        Ok((Seq::empty(), pos))
    } else {
        let f = ty.fields@[i as int];
        match parse_field(reg, data, base, f, ty, pos, frames, depth) {
            Ok((v, p, fr)) => match parse_fields(reg, data, base, ty, i + 1, p, bind_value(fr, f.id@, v), depth) {
                Ok((rest, q)) => Ok((seq![(f.id@, v)] + rest, q)),
                Err(e) => Err(e),
            },
            Err(e) => Err(e),
        }
    }
}

/// A field: absent when its guard evaluates to zero, otherwise read once
/// or repeatedly as its repeat mode says.
pub open spec fn parse_field(
    reg: Map<Seq<char>, CompiledType>,
    data: Seq<u8>,
    base: nat,
    f: CompiledField,
    parent: CompiledType,
    pos: nat,
    frames: Frames,
    depth: nat,
) -> Result<(ValueV, nat, Frames), ErrV>
    decreases depth, 4nat, 0int,
{
    match f.if_expr {
        Some(g) => match eval_spec(g@, frames) {
            Ok(c) => if c == 0 {
                Ok((ValueV::Absent, pos, frames))
            } else {
                parse_repeated(reg, data, base, f, parent, pos, frames, depth)
            },
            Err(m) => Err(field_eval_error(f, parent, "<if>"@, m)),
        },
        None => parse_repeated(reg, data, base, f, parent, pos, frames, depth),
    }
}

/// A field whose guard passed, read once or repeatedly as its repeat mode
/// says.
pub open spec fn parse_repeated(
    reg: Map<Seq<char>, CompiledType>,
    data: Seq<u8>,
    base: nat,
    f: CompiledField,
    parent: CompiledType,
    pos: nat,
    frames: Frames,
    depth: nat,
) -> Result<(ValueV, nat, Frames), ErrV>
    decreases depth, 3nat, 0int,
{
    match f.repeat {
        RepeatMode::Once => match parse_once(reg, data, base, f, parent, pos, frames, depth) {
            Ok((v, p)) => Ok((v, p, frames)),
            Err(e) => Err(e),
        },
        RepeatMode::Eos => match parse_eos(reg, data, base, f, parent, pos, frames, depth, Seq::empty()) {
            Ok((v, p)) => Ok((v, p, frames)),
            Err(e) => Err(e),
        },
        RepeatMode::Count(c) => match eval_spec(c@, frames) {
            Ok(n) => if n < 0 {
                Err(
                    ErrV::FieldError {
                        field: f.id@,
                        context: parent.name@,
                        message: "repeat count evaluated to negative value: "@ + signed_decimal(n as int),
                    },
                )
            } else {
                match parse_count(reg, data, base, f, parent, pos, frames, depth, n as nat, Seq::empty()) {
                    Ok((v, p)) => Ok((v, p, frames)),
                    Err(e) => Err(e),
                }
            },
            Err(m) => Err(field_eval_error(f, parent, "<repeat-expr>"@, m)),
        },
        RepeatMode::Until(_) => parse_until(reg, data, base, f, parent, pos, frames, depth, Seq::empty()),
    }
}

/// `repeat: eos`: instances until the end of the window, each of which
/// must read something.
pub open spec fn parse_eos(
    reg: Map<Seq<char>, CompiledType>,
    data: Seq<u8>,
    base: nat,
    f: CompiledField,
    parent: CompiledType,
    pos: nat,
    frames: Frames,
    depth: nat,
    items: Seq<ValueV>,
) -> Result<(ValueV, nat), ErrV>
    decreases depth, 2nat, data.len() - pos,
{
    if pos >= data.len() {
        Ok((ValueV::Array(items), pos))
    } else {
        match parse_once(reg, data, base, f, parent, pos, frames, depth) {
            Ok((v, p)) => if p <= pos || p > data.len() {
                Err(no_progress_error(f, parent, "eos"@))
            } else {
                parse_eos(reg, data, base, f, parent, p, frames, depth, items.push(v))
            },
            Err(e) => Err(e),
        }
    }
}

/// `repeat: expr`: `n` instances in all.
pub open spec fn parse_count(
    reg: Map<Seq<char>, CompiledType>,
    data: Seq<u8>,
    base: nat,
    f: CompiledField,
    parent: CompiledType,
    pos: nat,
    frames: Frames,
    depth: nat,
    n: nat,
    items: Seq<ValueV>,
) -> Result<(ValueV, nat), ErrV>
    decreases depth, 2nat, n - items.len(),
{
    if items.len() >= n {
        Ok((ValueV::Array(items), pos))
    } else {
        match parse_once(reg, data, base, f, parent, pos, frames, depth) {
            Ok((v, p)) => parse_count(reg, data, base, f, parent, p, frames, depth, n, items.push(v)),
            Err(e) => Err(e),
        }
    }
}

/// `repeat: until`: instances until the condition holds of the last one
/// (bound as `_` when it has an integer reading) or the window ends; an
/// instance that reads nothing before that is an error.
pub open spec fn parse_until(
    reg: Map<Seq<char>, CompiledType>,
    data: Seq<u8>,
    base: nat,
    f: CompiledField,
    parent: CompiledType,
    pos: nat,
    frames: Frames,
    depth: nat,
    items: Seq<ValueV>,
) -> Result<(ValueV, nat, Frames), ErrV>
    decreases depth, 2nat, data.len() - pos,
{
    match parse_once(reg, data, base, f, parent, pos, frames, depth) {
        Ok((v, p)) => {
            let fr = match int_of_v(v) {
                Some(n) => frames.update(frames.len() - 1, frames.last().insert("_"@, n)),
                None => frames,
            };
            let done: Result<bool, ErrV> = match int_of_v(v) {
                Some(_) => match f.repeat {
                    RepeatMode::Until(u) => match eval_spec(u@, fr) {
                        Ok(r) => Ok(r != 0),
                        Err(m) => Err(field_eval_error(f, parent, "<repeat-until>"@, m)),
                    },
                    _ => Ok(false),
                },
                None => Ok(false),
            };
            match done {
                Err(e) => Err(e),
                Ok(d) => if d || p >= data.len() {
                    Ok((ValueV::Array(items.push(v)), p, fr))
                } else if p <= pos {
                    Err(no_progress_error(f, parent, "until"@))
                } else {
                    parse_until(reg, data, base, f, parent, p, fr, depth, items.push(v))
                },
            }
        },
        Err(e) => Err(e),
    }
}

/// One instance of a field, with its enum applied to an integer reading.
pub open spec fn parse_once(
    reg: Map<Seq<char>, CompiledType>,
    data: Seq<u8>,
    base: nat,
    f: CompiledField,
    parent: CompiledType,
    pos: nat,
    frames: Frames,
    depth: nat,
) -> Result<(ValueV, nat), ErrV>
    decreases depth, 1nat, 0int,
{
    match parse_kind(reg, data, base, f.kind, parent, pos, frames, depth) {
        Ok((raw, p)) => match f.enum_ref {
            Some(en) => match int_of_v(raw) {
                Some(n) => Ok((ValueV::Enum { value: n as u64, name: enum_name(parent, en@, n as u64) }, p)),
                None => Ok((raw, p)),
            },
            None => Ok((raw, p)),
        },
        Err(e) => Err(e),
    }
}

/// What a field kind reads at `pos`.
pub open spec fn parse_kind(
    reg: Map<Seq<char>, CompiledType>,
    data: Seq<u8>,
    base: nat,
    kind: FieldKind,
    parent: CompiledType,
    pos: nat,
    frames: Frames,
    depth: nat,
) -> Result<(ValueV, nat), ErrV>
    decreases depth, 0nat, 0int,
{
    match kind {
        FieldKind::UInt { width, endian } => match take_bytes(data, base, pos, int_width_bytes(width)) {
            Ok((b, p)) => Ok(
                (ValueV::UInt(decode_value(b, is_big(width, resolve_spec(endian, parent.endian))) as u64), p),
            ),
            Err(e) => Err(e),
        },
        FieldKind::SInt { width, endian } => match take_bytes(data, base, pos, int_width_bytes(width)) {
            Ok((b, p)) => Ok(
                (
                    ValueV::SInt(
                        to_signed(
                            decode_value(b, is_big(width, resolve_spec(endian, parent.endian))),
                            8 * int_width_bytes(width),
                        ) as i64,
                    ),
                    p,
                ),
            ),
            Err(e) => Err(e),
        },
        FieldKind::Float { width } => match take_bytes(data, base, pos, float_width_bytes(width)) {
            Ok((b, p)) => {
                let bits = decode_value(b, parent.endian == Endian::Big);
                Ok(
                    (
                        match width {
                            FloatWidth::F32 => ValueV::Float(FloatBits::F32(bits as u32)),
                            FloatWidth::F64 => ValueV::Float(FloatBits::F64(bits as u64)),
                        },
                        p,
                    ),
                )
            },
            Err(e) => Err(e),
        },
        FieldKind::Bytes { size } => match size_spec(size, frames) {
            Ok(n) => match take_bytes(data, base, pos, n as nat) {
                Ok((b, p)) => Ok((ValueV::Bytes(b), p)),
                Err(e) => Err(e),
            },
            Err(e) => Err(e),
        },
        FieldKind::Str { size, encoding } => match str_bytes(size, data, base, pos, frames) {
            Ok((b, p)) => match decode_spec(b, encoding) {
                Ok(s) => Ok((ValueV::Str(s), p)),
                Err(e) => Err(e),
            },
            Err(e) => Err(e),
        },
        FieldKind::Bits { bit_size } => match take_bytes(data, base, pos, ((bit_size + 7) / 8) as nat) {
            Ok((b, p)) => Ok((ValueV::UInt(bits_read(b, bit_size as nat) as u64), p)),
            Err(e) => Err(e),
        },
        FieldKind::TypeRef { ty_name } => if !reg.contains_key(ty_name@) {
            Err(ErrV::UnknownType { ty_name: ty_name@, context: parent.name@ })
        } else if depth == 0 {
            Err(ErrV::Schema(nesting_message(ty_name@)))
        } else {
            parse_struct(reg, data, base, reg[ty_name@], pos, frames.push(Map::empty()), (depth - 1) as nat)
        },
        FieldKind::Contents(expected) => match take_bytes(data, base, pos, expected@.len()) {
            Ok((b, p)) => if b == expected@ {
                Ok((ValueV::Bytes(expected@), p))
            } else {
                Err(ErrV::Schema(mismatch_message(pos, expected@, b)))
            },
            Err(e) => Err(e),
        },
    }
}


/// A string field reads its bytes in the encoding its schema declares:
/// with `utf8` (or no encoding) the bytes must be valid UTF-8 and give the
/// characters they encode; with `latin1` every byte is the character with
/// that code; with `ascii` the bytes must all be below `0x80` and each is
/// the character with that code.
pub proof fn law_declared_encoding(declared: Option<RawEncoding>, bytes: Seq<u8>)
    ensures
        ({
            let r = decode_spec(bytes, encoding_of(declared));
            match declared {
                None | Some(RawEncoding::Utf8) => {
                    &&& r is Ok <==> vstd::utf8::valid_utf8(bytes)
                    &&& r matches Ok(t) ==> t == vstd::utf8::decode_utf8(bytes)
                },
                Some(RawEncoding::Latin1) => r matches Ok(t) && t.len() == bytes.len() && forall|i: int|
                    0 <= i < bytes.len() ==> (#[trigger] t[i]) as u32 == bytes[i] as u32,
                Some(RawEncoding::Ascii) => {
                    &&& r is Ok <==> forall|i: int| 0 <= i < bytes.len() ==> #[trigger] bytes[i] < 0x80
                    &&& r matches Ok(t) ==> t.len() == bytes.len() && forall|i: int|
                        0 <= i < bytes.len() ==> (#[trigger] t[i]) as u32 == bytes[i] as u32
                },
            }
        }),
{
}

} // verus!
