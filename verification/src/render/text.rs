//! Indented text renderer.
//!
//! Each level of nesting adds one copy of the indent string (two spaces by
//! default).  Arrays render their items with a leading index:
//!
//! ```text
//! png
//!   signature  <8 bytes>
//!   chunks  [3 items]
//!     [0]  png::chunk
//!       length  13
//!       type  "IHDR"
//! ```
//!
//! The output is a list of pieces: text, and floating-point values kept as
//! their bit patterns, which the caller writes as decimal numbers.

use vstd::prelude::*;
use crate::strutil::{debug_quoted, decimal, push_debug_str, push_decimal, push_signed_decimal,
    push_str, signed_decimal};
use crate::value::{FloatBits, Value};

verus! {

/// The default indent unit.
pub const DEFAULT_INDENT: &'static str = "  ";

/// One piece of rendered output.
#[derive(Debug, Clone, PartialEq)]
pub enum TextPiece {
    /// Literal text.
    Text(String),
    /// A floating-point number, to be written in its shortest decimal form.
    Float(FloatBits),
}

/// A unit of rendered output: a character (`Ok`), or a floating-point
/// number (`Err`).
pub type Mark = Result<char, FloatBits>;

/// Text as output units.
pub open spec fn marks_of(s: Seq<char>) -> Seq<Mark>
    decreases s.len(),
{
    if s.len() == 0 {
        Seq::empty()
    } else {
        marks_of(s.drop_last()).push(Ok::<char, FloatBits>(s.last()))
    }
}

/// The output units of a list of pieces.
pub open spec fn pieces_view(p: Seq<TextPiece>) -> Seq<Mark>
    decreases p.len(),
{
    if p.len() == 0 {
        Seq::empty()
    } else {
        pieces_view(p.drop_last()) + match p.last() {
            TextPiece::Text(s) => marks_of(s@),
            TextPiece::Float(f) => seq![Err::<char, FloatBits>(f)],
        }
    }
}

/// How a value other than a float is displayed on its line.
pub open spec fn display_text(v: Value) -> Seq<char> {
    match v {
        Value::UInt(n) => decimal(n as nat),
        Value::SInt(n) => signed_decimal(n as int),
        Value::Float(_) => Seq::empty(),
        Value::Bytes(b) => "<"@ + decimal(b@.len()) + " bytes>"@,
        Value::Str(s) => debug_quoted(s@),
        Value::Enum { value, name } => match name {
            Some(n) => n@ + " ("@ + decimal(value as nat) + ")"@,
            None => decimal(value as nat),
        },
        Value::Struct { ty_name, .. } => "<"@ + ty_name@ + ">"@,
        Value::Array(items) => "["@ + decimal(items@.len()) + " items]"@,
        Value::Absent => "<absent>"@,
    }
}

/// How a single value is displayed on its line.
pub open spec fn display(v: Value) -> Seq<Mark> {
    match v {
        Value::Float(f) => seq![Err::<char, FloatBits>(f)],
        _ => marks_of(display_text(v)),
    }
}

/// The start of a line: the indentation, then the label and two spaces.
pub open spec fn line_start(prefix: Seq<char>, label: Option<Seq<char>>) -> Seq<char> {
    prefix + match label {
        Some(l) => l + "  "@,
        None => Seq::empty(),
    }
}

/// A whole line carrying `value`.
pub open spec fn line(prefix: Seq<char>, label: Option<Seq<char>>, value: Seq<Mark>) -> Seq<Mark> {
    marks_of(line_start(prefix, label)) + value + marks_of("\n"@)
}

/// `[n items]`, or `[1 item]`.
pub open spec fn count_text(n: nat) -> Seq<char> {
    "["@ + decimal(n) + (if n == 1 { " item]"@ } else { " items]"@ })
}

/// The label of the array item at index `i`.
pub open spec fn index_label(i: nat) -> Seq<char> {
    "["@ + decimal(i) + "]"@
}

/// The rendering of `v` on lines that start with `prefix`, under `label`
/// (none at the top level, where a struct prints just its type name).
pub open spec fn value_text(v: Value, prefix: Seq<char>, indent: Seq<char>, label: Option<
    Seq<char>,
>) -> Seq<Mark>
    decreases v,
{
    match v {
        Value::Struct { ty_name, fields } => (match label {
            Some(_) => line(prefix, label, marks_of(ty_name@)),
            None => marks_of(ty_name@ + "\n"@),
        }) + fields_text(fields@, prefix + indent, indent),
        Value::Array(items) => line(prefix, label, marks_of(count_text(items@.len())))
            + items_text(items@, prefix + indent, indent),
        _ => line(prefix, label, display(v)),
    }
}

/// The fields of a struct, each under its name; absent fields are left out.
pub open spec fn fields_text(fields: Seq<(String, Value)>, prefix: Seq<char>, indent: Seq<char>) -> Seq<
    Mark,
>
    decreases fields,
{
    if fields.len() == 0 {
        Seq::empty()
    } else {
        fields_text(fields.drop_last(), prefix, indent) + if fields.last().1 is Absent {
            Seq::empty()
        } else {
            value_text(fields.last().1, prefix, indent, Some(fields.last().0@))
        }
    }
}

/// The items of an array, each under its index.
pub open spec fn items_text(items: Seq<Value>, prefix: Seq<char>, indent: Seq<char>) -> Seq<Mark>
    decreases items,
{
    if items.len() == 0 {
        Seq::empty()
    } else {
        items_text(items.drop_last(), prefix, indent) + value_text(
            items.last(),
            prefix,
            indent,
            Some(index_label((items.len() - 1) as nat)),
        )
    }
}

// ─────────────────────────────────────────────────────────────────────────────
// Public API
// ─────────────────────────────────────────────────────────────────────────────

/// Render a value tree with the default indent (`"  "`).
pub fn render(value: &Value) -> (res: Vec<TextPiece>)
    ensures
        pieces_view(res@) == value_text(*value, Seq::empty(), DEFAULT_INDENT@, None),
{
    render_with_indent(value, DEFAULT_INDENT)
}

/// Render a value tree with a custom indent string.
pub fn render_with_indent(value: &Value, indent: &str) -> (res: Vec<TextPiece>)
    ensures
        pieces_view(res@) == value_text(*value, Seq::empty(), indent@, None),
{
    let mut out: Vec<TextPiece> = Vec::new();
    write_value(&mut out, value, "", indent, None);
    proof {
        reveal_strlit("");
    }
    assert(pieces_view(Seq::<TextPiece>::empty()) =~= Seq::<Mark>::empty());
    assert(pieces_view(out@) =~= value_text(*value, Seq::empty(), indent@, None));
    out
}

// ─────────────────────────────────────────────────────────────────────────────
// Internal recursion
// ─────────────────────────────────────────────────────────────────────────────

proof fn lemma_marks_len(a: Seq<char>)
    ensures
        marks_of(a).len() == a.len(),
    decreases a.len(),
{
    if a.len() > 0 {
        lemma_marks_len(a.drop_last());
    }
}

proof fn lemma_chars_add(a: Seq<char>, b: Seq<char>)
    ensures
        marks_of(a + b) == marks_of(a) + marks_of(b),
    decreases b.len(),
{
    if b.len() == 0 {
        assert(a + b =~= a);
        assert(marks_of(a) + marks_of(b) =~= marks_of(a));
    } else {
        lemma_chars_add(a, b.drop_last());
        lemma_marks_len(a);
        lemma_marks_len(b);
        lemma_marks_len(b.drop_last());
        assert((a + b).drop_last() =~= a + b.drop_last());
        assert((a + b).last() == b.last());
        let x = marks_of(a);
        let y = marks_of(b.drop_last());
        let z = Ok::<char, FloatBits>(b.last());
        assert(marks_of(a + b) == (x + y).push(z));
        assert(marks_of(b) == y.push(z));
        assert((x + y).push(z) =~= x + y.push(z));
    }
}

fn emit_text(out: &mut Vec<TextPiece>, s: String)
    ensures
        pieces_view(final(out)@) == pieces_view(old(out)@) + marks_of(s@),
{
    out.push(TextPiece::Text(s));
    assert(final(out)@.drop_last() =~= old(out)@);
}

fn emit(out: &mut Vec<TextPiece>, s: &str)
    ensures
        pieces_view(final(out)@) == pieces_view(old(out)@) + marks_of(s@),
{
    emit_text(out, s.to_owned());
}

/// Write one whole line of text.
fn write_line(out: &mut Vec<TextPiece>, prefix: &str, label: Option<&str>, value: &str)
    ensures
        pieces_view(final(out)@) == pieces_view(old(out)@) + line(
            prefix@,
            match label {
                Some(l) => Some(l@),
                None => None,
            },
            marks_of(value@),
        ),
{
    let mut s = prefix.to_owned();
    match label {
        Some(l) => {
            push_str(&mut s, l);
            push_str(&mut s, "  ");
        },
        None => {},
    }
    push_str(&mut s, value);
    push_str(&mut s, "\n");
    let ghost lv = match label {
        Some(l) => Some(l@),
        None => None::<Seq<char>>,
    };
    proof {
        assert(s@ =~= line_start(prefix@, lv) + value@ + "\n"@);
        lemma_chars_add(line_start(prefix@, lv) + value@, "\n"@);
        lemma_chars_add(line_start(prefix@, lv), value@);
    }
    emit_text(out, s);
    assert(pieces_view(final(out)@) =~= pieces_view(old(out)@) + line(prefix@, lv, marks_of(value@)));
}

/// The display text of a value other than a float.
fn display_string(value: &Value) -> (res: String)
    ensures
        res@ == display_text(*value),
{
    let mut s = String::new();
    match value {
        Value::Float(_) => {},
        Value::UInt(n) => push_decimal(&mut s, *n),
        Value::SInt(n) => push_signed_decimal(&mut s, *n),
        Value::Bytes(b) => {
            push_str(&mut s, "<");
            push_decimal(&mut s, b.len() as u64);
            push_str(&mut s, " bytes>");
        },
        Value::Str(t) => push_debug_str(&mut s, t.as_str()),
        Value::Enum { value: v, name } => match name {
            Some(n) => {
                push_str(&mut s, n.as_str());
                push_str(&mut s, " (");
                push_decimal(&mut s, *v);
                push_str(&mut s, ")");
            },
            None => push_decimal(&mut s, *v),
        },
        Value::Struct { ty_name, .. } => {
            push_str(&mut s, "<");
            push_str(&mut s, ty_name.as_str());
            push_str(&mut s, ">");
        },
        Value::Array(items) => {
            push_str(&mut s, "[");
            push_decimal(&mut s, items.len() as u64);
            push_str(&mut s, " items]");
        },
        Value::Absent => push_str(&mut s, "<absent>"),
    }
    proof {
        reveal_strlit("");
    }
    assert(s@ =~= display_text(*value));
    s
}

/// The single-line display of a value: its number, `<n bytes>`, its quoted
/// text, `name (n)` for a named enum value, `<type>` for a struct,
/// `[n items]` for an array, `<absent>`.
pub fn display_value(value: &Value) -> (res: Vec<TextPiece>)
    ensures
        pieces_view(res@) == display(*value),
{
    let mut out: Vec<TextPiece> = Vec::new();
    assert(pieces_view(Seq::<TextPiece>::empty()) =~= Seq::<Mark>::empty());
    match value {
        Value::Float(f) => {
            out.push(TextPiece::Float(*f));
            assert(out@.drop_last() =~= Seq::<TextPiece>::empty());
        },
        _ => {
            let s = display_string(value);
            emit_text(&mut out, s);
        },
    }
    assert(pieces_view(out@) =~= display(*value));
    out
}

/// Write a leaf value's line: the display of the value after the label.
fn write_leaf(out: &mut Vec<TextPiece>, prefix: &str, label: Option<&str>, value: &Value)
    ensures
        pieces_view(final(out)@) == pieces_view(old(out)@) + line(
            prefix@,
            match label {
                Some(l) => Some(l@),
                None => None,
            },
            display(*value),
        ),
{
    let ghost lv = match label {
        Some(l) => Some(l@),
        None => None::<Seq<char>>,
    };
    match value {
        Value::Float(f) => {
            let ghost start = pieces_view(out@);
            let mut s = prefix.to_owned();
            match label {
                Some(l) => {
                    push_str(&mut s, l);
                    push_str(&mut s, "  ");
                },
                None => {},
            }
            assert(s@ =~= line_start(prefix@, lv));
            emit_text(out, s);
            let ghost prev = out@;
            out.push(TextPiece::Float(*f));
            assert(out@.drop_last() =~= prev);
            emit(out, "\n");
            assert(pieces_view(out@) =~= start + line(prefix@, lv, display(*value)));
        },
        _ => {
            let body = display_string(value);
            write_line(out, prefix, label, body.as_str());
        },
    }
}

/// Write one value, under `label` (`None` at the top level).
fn write_value(out: &mut Vec<TextPiece>, value: &Value, prefix: &str, indent: &str, label: Option<&str>)
    ensures
        pieces_view(final(out)@) == pieces_view(old(out)@) + value_text(
            *value,
            prefix@,
            indent@,
            match label {
                Some(l) => Some(l@),
                None => None,
            },
        ),
    decreases value,
{
    let ghost lv = match label {
        Some(l) => Some(l@),
        None => None::<Seq<char>>,
    };
    let ghost start = pieces_view(out@);
    match value {
        Value::Struct { ty_name, fields } => {
            match label {
                Some(l) => write_line(out, prefix, Some(l), ty_name.as_str()),
                None => {
                    let mut s = ty_name.clone();
                    push_str(&mut s, "\n");
                    emit_text(out, s);
                },
            }
            let ghost mid = pieces_view(out@);
            let mut child = prefix.to_owned();
            push_str(&mut child, indent);
            write_fields(out, fields, child.as_str(), indent);
            assert(pieces_view(out@) =~= start + value_text(*value, prefix@, indent@, lv));
        },
        Value::Array(items) => {
            let mut s = String::new();
            push_str(&mut s, "[");
            push_decimal(&mut s, items.len() as u64);
            if items.len() == 1 {
                push_str(&mut s, " item]");
            } else {
                push_str(&mut s, " items]");
            }
            assert(s@ =~= count_text(items@.len()));
            write_line(out, prefix, label, s.as_str());
            let mut child = prefix.to_owned();
            push_str(&mut child, indent);
            write_items(out, items, child.as_str(), indent);
            assert(pieces_view(out@) =~= start + value_text(*value, prefix@, indent@, lv));
        },
        _ => {
            write_leaf(out, prefix, label, value);
        },
    }
}

fn write_fields(out: &mut Vec<TextPiece>, fields: &Vec<(String, Value)>, prefix: &str, indent: &str)
    ensures
        pieces_view(final(out)@) == pieces_view(old(out)@) + fields_text(fields@, prefix@, indent@),
    decreases fields,
{
    let ghost start = pieces_view(out@);
    let mut i: usize = 0;
    while i < fields.len()
        invariant
            i <= fields@.len(),
            pieces_view(out@) == start + fields_text(fields@.subrange(0, i as int), prefix@, indent@),
        decreases fields@.len() - i,
    {
        proof {
            assert(decreases_to!(fields => fields@));
            assert(decreases_to!(fields@ => fields@[i as int]));
        }
        let entry = &fields[i];
        let ghost sub = fields@.subrange(0, i + 1);
        assert(sub.drop_last() =~= fields@.subrange(0, i as int));
        assert(sub.last() == fields@[i as int]);
        if !entry.1.is_absent() {
            write_value(out, &entry.1, prefix, indent, Some(entry.0.as_str()));
        }
        i = i + 1;
        assert(pieces_view(out@) =~= start + fields_text(fields@.subrange(0, i as int), prefix@, indent@));
    }
    assert(fields@.subrange(0, fields@.len() as int) =~= fields@);
}

fn write_items(out: &mut Vec<TextPiece>, items: &Vec<Value>, prefix: &str, indent: &str)
    ensures
        pieces_view(final(out)@) == pieces_view(old(out)@) + items_text(items@, prefix@, indent@),
    decreases items,
{
    let ghost start = pieces_view(out@);
    let mut i: usize = 0;
    while i < items.len()
        invariant
            i <= items@.len(),
            pieces_view(out@) == start + items_text(items@.subrange(0, i as int), prefix@, indent@),
        decreases items@.len() - i,
    {
        proof {
            assert(decreases_to!(items => items@));
            assert(decreases_to!(items@ => items@[i as int]));
        }
        let mut label = String::new();
        push_str(&mut label, "[");
        push_decimal(&mut label, i as u64);
        push_str(&mut label, "]");
        assert(label@ =~= index_label(i as nat));
        let ghost sub = items@.subrange(0, i + 1);
        assert(sub.drop_last() =~= items@.subrange(0, i as int));
        write_value(out, &items[i], prefix, indent, Some(label.as_str()));
        i = i + 1;
        assert(pieces_view(out@) =~= start + items_text(items@.subrange(0, i as int), prefix@, indent@));
    }
    assert(items@.subrange(0, items@.len() as int) =~= items@);
}


// ─────────────────────────────────────────────────────────────────────────────
// Laws
// ─────────────────────────────────────────────────────────────────────────────

/// Absent fields (those whose `if:` guard was false) are omitted entirely:
/// inserting an absent field anywhere among a struct's fields leaves the
/// rendering of the fields unchanged.
pub proof fn law_absent_field_omitted(
    fields: Seq<(String, Value)>,
    k: int,
    name: String,
    prefix: Seq<char>,
    indent: Seq<char>,
)
    requires
        0 <= k <= fields.len(),
    ensures
        fields_text(fields.insert(k, (name, Value::Absent)), prefix, indent) == fields_text(
            fields,
            prefix,
            indent,
        ),
    decreases fields.len(),
{
    let g = fields.insert(k, (name, Value::Absent));
    if k == fields.len() {
        assert(g.drop_last() =~= fields);
        assert(fields_text(g, prefix, indent) =~= fields_text(fields, prefix, indent));
    } else {
        assert(g.drop_last() =~= fields.drop_last().insert(k, (name, Value::Absent)));
        assert(g.last() == fields.last());
        law_absent_field_omitted(fields.drop_last(), k, name, prefix, indent);
    }
}

/// Each level of nesting is indented by one more indent unit: the line of a
/// struct or array starts with `prefix`, and its fields or items are
/// rendered on lines that start with `prefix + indent`.
pub proof fn law_nesting_indent(v: Value, prefix: Seq<char>, indent: Seq<char>, label: Seq<char>)
    ensures
        v matches Value::Struct { ty_name, fields } ==> value_text(v, prefix, indent, Some(label))
            == line(prefix, Some(label), marks_of(ty_name@)) + fields_text(fields@, prefix + indent, indent),
        v matches Value::Array(items) ==> value_text(v, prefix, indent, Some(label)) == line(
            prefix,
            Some(label),
            marks_of(count_text(items@.len())),
        ) + items_text(items@, prefix + indent, indent),
{
}

} // verus!
