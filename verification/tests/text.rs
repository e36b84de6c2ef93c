//! Tests of the indented text renderer.

use doe::render::text::{render, render_with_indent, TextPiece};
use doe::value::{FloatBits, Value};

/// The rendered text, floating-point numbers written the standard way.
fn join(pieces: Vec<TextPiece>) -> String {
    let mut s = String::new();
    for p in pieces {
        match p {
            TextPiece::Text(t) => s.push_str(&t),
            TextPiece::Float(FloatBits::F64(b)) => s.push_str(&format!("{}", f64::from_bits(b))),
            TextPiece::Float(FloatBits::F32(b)) => s.push_str(&format!("{}", f32::from_bits(b) as f64)),
        }
    }
    s
}

fn join_with(v: &Value, indent: &str) -> String {
    join(render_with_indent(v, indent))
}


fn struct_val(name: &str, fields: Vec<(&str, Value)>) -> Value {
    Value::Struct {
        ty_name: name.into(),
        fields: fields.into_iter().map(|(k, v)| (k.into(), v)).collect(),
    }
}

// ── Leaf values ───────────────────────────────────────────────────────────

#[test]
fn render_single_uint() {
    let v = struct_val("t", vec![("x", Value::UInt(42))]);
    let out = join(render(&v));
    assert_eq!(out, "t\n  x  42\n");
}

#[test]
fn render_sint_negative() {
    let v = struct_val("t", vec![("n", Value::SInt(-7))]);
    let out = join(render(&v));
    assert!(out.contains("n  -7"));
}

#[test]
fn render_float() {
    let v = struct_val("t", vec![("f", Value::Float(FloatBits::F64(3.14f64.to_bits())))]);
    let out = join(render(&v));
    assert!(out.contains("f  3.14"));
}

#[test]
fn render_bytes() {
    let v = struct_val("t", vec![("b", Value::Bytes(vec![0; 8]))]);
    let out = join(render(&v));
    assert!(out.contains("b  <8 bytes>"));
}

#[test]
fn render_str() {
    let v = struct_val("t", vec![("s", Value::Str("hello".into()))]);
    let out = join(render(&v));
    assert!(out.contains(r#"s  "hello""#));
}

#[test]
fn render_enum_named() {
    let v = struct_val("t", vec![
        ("kind", Value::Enum { value: 1, name: Some("data".into()) })
    ]);
    let out = join(render(&v));
    assert!(out.contains("kind  data (1)"));
}

#[test]
fn render_enum_unnamed() {
    let v = struct_val("t", vec![
        ("kind", Value::Enum { value: 99, name: None })
    ]);
    let out = join(render(&v));
    assert!(out.contains("kind  99"));
}

// ── Absent fields are omitted ─────────────────────────────────────────────

#[test]
fn absent_field_not_rendered() {
    let v = struct_val("t", vec![
        ("a", Value::UInt(1)),
        ("b", Value::Absent),
        ("c", Value::UInt(3)),
    ]);
    let out = join(render(&v));
    assert!(out.contains("a  1"));
    assert!(!out.contains("b"));
    assert!(out.contains("c  3"));
}

// ── Arrays ────────────────────────────────────────────────────────────────

#[test]
fn render_array_of_uints() {
    let v = struct_val("t", vec![
        ("items", Value::Array(vec![
            Value::UInt(10),
            Value::UInt(20),
            Value::UInt(30),
        ]))
    ]);
    let out = join(render(&v));
    assert!(out.contains("items  [3 items]"));
    assert!(out.contains("[0]  10"));
    assert!(out.contains("[1]  20"));
    assert!(out.contains("[2]  30"));
}

#[test]
fn render_empty_array() {
    let v = struct_val("t", vec![("items", Value::Array(vec![]))]);
    let out = join(render(&v));
    assert!(out.contains("items  [0 items]"));
}

#[test]
fn render_array_singular_label() {
    let v = struct_val("t", vec![("items", Value::Array(vec![Value::UInt(1)]))]);
    let out = join(render(&v));
    assert!(out.contains("[1 item]")); // singular
}

// ── Nested structs ────────────────────────────────────────────────────────

#[test]
fn render_nested_struct() {
    let inner = Value::Struct {
        ty_name: "header".into(),
        fields: vec![
            ("magic".into(), Value::UInt(0xdeadbeef)),
            ("version".into(), Value::UInt(2)),
        ],
    };
    let v = struct_val("outer", vec![("hdr", inner)]);
    let out = join(render(&v));

    // outer type name at top
    assert!(out.starts_with("outer\n"));
    // hdr is at depth 1
    assert!(out.contains("  hdr  header"));
    // inner fields at depth 2
    assert!(out.contains("    magic  3735928559"));
    assert!(out.contains("    version  2"));
}

#[test]
fn render_deeply_nested() {
    let innermost = Value::Struct {
        ty_name: "leaf".into(),
        fields: vec![("val".into(), Value::UInt(99))],
    };
    let mid = Value::Struct {
        ty_name: "mid".into(),
        fields: vec![("data".into(), innermost)],
    };
    let v = struct_val("root", vec![("child".into(), mid)]);
    let out = join(render(&v));

    assert!(out.contains("root\n"));
    assert!(out.contains("  child  mid\n"));
    assert!(out.contains("    data  leaf\n"));
    assert!(out.contains("      val  99\n"));
}

// ── Indentation depth ─────────────────────────────────────────────────────

#[test]
fn custom_indent_four_spaces() {
    let v = struct_val("t", vec![("x", Value::UInt(1))]);
    let out = join_with(&v, "    ");
    assert!(out.contains("    x  1"));
}

#[test]
fn custom_indent_tab() {
    let v = struct_val("t", vec![("x", Value::UInt(1))]);
    let out = join_with(&v, "\t");
    assert!(out.contains("\tx  1"));
}

// ── Top-level struct header ───────────────────────────────────────────────

#[test]
fn top_level_type_name_is_first_line() {
    let v = struct_val("my_format", vec![("a", Value::UInt(1))]);
    let out = join(render(&v));
    assert!(out.starts_with("my_format\n"));
}

// ── Array of structs ──────────────────────────────────────────────────────

#[test]
fn text_array_of_structs() {
    let make_point = |x: u64, y: u64| Value::Struct {
        ty_name: "point".into(),
        fields: vec![
            ("x".into(), Value::UInt(x)),
            ("y".into(), Value::UInt(y)),
        ],
    };
    let v = struct_val("t", vec![
        ("points", Value::Array(vec![make_point(1, 2), make_point(3, 4)]))
    ]);
    let out = join(render(&v));
    assert!(out.contains("points  [2 items]"));
    assert!(out.contains("[0]  point"));
    assert!(out.contains("[1]  point"));
    // x=1 and x=3 should appear at depth 3
    assert!(out.contains("      x  1"));
    assert!(out.contains("      x  3"));
}

// ── Realistic PNG-like output ─────────────────────────────────────────────

#[test]
fn realistic_output_structure() {
    let chunk = |tag: &str, len: u64| Value::Struct {
        ty_name: "png::chunk".into(),
        fields: vec![
            ("length".into(), Value::UInt(len)),
            ("type".into(),   Value::Str(tag.into())),
            ("body".into(),   Value::Bytes(vec![0u8; len as usize])),
            ("crc".into(),    Value::UInt(0xdeadbeef)),
        ],
    };
    let v = Value::Struct {
        ty_name: "png".into(),
        fields: vec![
            ("signature".into(), Value::Bytes(vec![0u8; 8])),
            ("chunks".into(),    Value::Array(vec![chunk("IHDR", 13), chunk("IEND", 0)])),
        ],
    };
    let out = join(render(&v));
    assert!(out.starts_with("png\n"));
    assert!(out.contains("signature  <8 bytes>"));
    assert!(out.contains("chunks  [2 items]"));
    assert!(out.contains("[0]  png::chunk"));
    assert!(out.contains(r#"type  "IHDR""#));
    assert!(out.contains("[1]  png::chunk"));
}
#[test]
fn absent_fields_leave_no_trace_anywhere() {
    let with = struct_val("t", vec![
        ("gone", Value::Absent),
        ("a", Value::UInt(1)),
        ("inner", struct_val("t::i", vec![("x", Value::Absent), ("y", Value::SInt(-2))])),
        ("late", Value::Absent),
    ]);
    let without = struct_val("t", vec![
        ("a", Value::UInt(1)),
        ("inner", struct_val("t::i", vec![("y", Value::SInt(-2))])),
    ]);
    assert_eq!(join(render(&with)), join(render(&without)));
    assert_eq!(join(render(&with)), "t\n  a  1\n  inner  t::i\n    y  -2\n");
}
