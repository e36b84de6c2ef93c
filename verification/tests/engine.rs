//! Tests of the parse engine, on schemas written as YAML.

use doe::error::DoeError;
use doe::parser::cursor::Cursor;
use doe::parser::engine::{decode_string, resolve_endian, Engine};
use doe::schema::compiler::compile_schema;
use doe::schema::ir::{Encoding, Endian, EndianOverride, TypeRegistry};
use doe::schema::raw::{
    RawContents, RawEncoding, RawEndian, RawEnum, RawField, RawMeta, RawRepeat, RawSchema, RawTypeDecl,
    StringOrInt,
};
use doe::value::{FloatBits, Value};
use serde_yaml::{Mapping, Value as YValue};

/// Remove the indentation common to all non-blank lines.
fn dedent(s: &str) -> String {
    let lines: Vec<&str> = s.lines().collect();
    let indent = lines
        .iter()
        .filter(|l| !l.trim().is_empty())
        .map(|l| l.len() - l.trim_start().len())
        .min()
        .unwrap_or(0);
    let mut out = String::new();
    for l in lines {
        if l.len() >= indent {
            out.push_str(&l[indent..]);
        }
        out.push('\n');
    }
    out
}

fn text(v: &YValue) -> String {
    match v {
        YValue::String(s) => s.clone(),
        YValue::Number(n) => n.to_string(),
        YValue::Bool(b) => b.to_string(),
        other => panic!("expected a scalar, got {:?}", other),
    }
}

fn opt_text(m: &Mapping, key: &str) -> Option<String> {
    m.get(key).filter(|v| !v.is_null()).map(text)
}

fn pairs(v: Option<&YValue>) -> Vec<(String, YValue)> {
    match v {
        Some(YValue::Mapping(m)) => m.iter().map(|(k, v)| (text(k), v.clone())).collect(),
        _ => vec![],
    }
}

fn raw_field(v: &YValue) -> RawField {
    let m = v.as_mapping().expect("field mapping");
    RawField {
        id: opt_text(m, "id").expect("field id"),
        type_ref: opt_text(m, "type"),
        contents: m.get("contents").map(|c| match c {
            YValue::Sequence(items) => {
                RawContents::Bytes(items.iter().map(|b| b.as_u64().unwrap() as u8).collect())
            }
            other => RawContents::Str(text(other)),
        }),
        size: m.get("size").map(|s| match s {
            YValue::Number(n) => StringOrInt::Int(n.as_u64().unwrap()),
            other => StringOrInt::Str(text(other)),
        }),
        terminator: m.get("terminator").map(|t| t.as_u64().unwrap() as u8),
        encoding: opt_text(m, "encoding").map(|e| match e.as_str() {
            "utf8" => RawEncoding::Utf8,
            "ascii" => RawEncoding::Ascii,
            "latin1" => RawEncoding::Latin1,
            other => panic!("encoding {}", other),
        }),
        bit_size: m.get("bit_size").map(|b| b.as_u64().unwrap() as u8),
        repeat: opt_text(m, "repeat").map(|r| match r.as_str() {
            "eos" => RawRepeat::Eos,
            "expr" => RawRepeat::Expr,
            "until" => RawRepeat::Until,
            other => panic!("repeat {}", other),
        }),
        repeat_expr: opt_text(m, "repeat-expr"),
        repeat_until: opt_text(m, "repeat-until"),
        if_expr: opt_text(m, "if"),
        enum_ref: opt_text(m, "enum"),
        doc: opt_text(m, "doc"),
    }
}

fn raw_fields(v: Option<&YValue>) -> Vec<RawField> {
    match v {
        Some(YValue::Sequence(items)) => items.iter().map(raw_field).collect(),
        _ => vec![],
    }
}

fn raw_enums(v: Option<&YValue>) -> Vec<(String, RawEnum)> {
    pairs(v)
        .into_iter()
        .map(|(name, body)| {
            let entries = pairs(Some(&body)).into_iter().map(|(k, v)| (k, text(&v))).collect();
            (name, entries)
        })
        .collect()
}

fn raw_types(v: Option<&YValue>) -> Vec<(String, RawTypeDecl)> {
    pairs(v)
        .into_iter()
        .map(|(name, body)| {
            let m = body.as_mapping().cloned().unwrap_or_default();
            let decl = RawTypeDecl {
                doc: opt_text(&m, "doc"),
                seq: raw_fields(m.get("seq")),
                types: raw_types(m.get("types")),
                enums: raw_enums(m.get("enums")),
            };
            (name, decl)
        })
        .collect()
}

/// The schema a YAML text describes.
fn schema_from_yaml(yaml: &str) -> RawSchema {
    let v: YValue = serde_yaml::from_str(yaml).expect("YAML parse");
    let m = v.as_mapping().expect("schema mapping");
    let endian = m
        .get("meta")
        .and_then(|meta| meta.as_mapping())
        .and_then(|meta| opt_text(meta, "endian"))
        .map(|e| if e == "be" { RawEndian::Be } else { RawEndian::Le });
    RawSchema {
        id: opt_text(m, "id").expect("schema id"),
        doc: opt_text(m, "doc"),
        meta: RawMeta { endian },
        imports: match m.get("imports") {
            Some(YValue::Sequence(items)) => items.iter().map(text).collect(),
            _ => vec![],
        },
        seq: raw_fields(m.get("seq")),
        types: raw_types(m.get("types")),
        enums: raw_enums(m.get("enums")),
        source_path: None,
    }
}


// ── Test helpers ─────────────────────────────────────────────────────────

fn engine_from_yaml(yaml: &str) -> (Engine<'static>, &'static TypeRegistry) {
    // Leak the registry so the engine can borrow it with 'static lifetime
    // in tests.  This is only acceptable in test code.
    let schema = schema_from_yaml(yaml);
    let reg = Box::leak(Box::new(compile_schema(&schema).unwrap()));
    let engine = Engine::new(reg);
    (engine, reg)
}

fn parse(yaml: &str, ty: &str, data: &[u8]) -> Value {
    let (engine, _) = engine_from_yaml(yaml);
    let mut cursor = Cursor::new(data);
    engine.parse_type(ty, &mut cursor).unwrap()
}

fn parse_err(yaml: &str, ty: &str, data: &[u8]) -> DoeError {
    let (engine, _) = engine_from_yaml(yaml);
    let mut cursor = Cursor::new(data);
    engine.parse_type(ty, &mut cursor).unwrap_err()
}

fn get_field<'a>(value: &'a Value, name: &str) -> &'a Value {
    if let Value::Struct { fields, .. } = value {
        fields.iter().find(|(k, _)| k == name).map(|(_, v)| v)
            .unwrap_or_else(|| panic!("field '{}' not found", name))
    } else {
        panic!("expected Struct, got {:?}", value)
    }
}

// ── Unsigned integers ─────────────────────────────────────────────────────

#[test]
fn parse_u8() {
    let v = parse(&dedent(r#"
        id: t
        seq:
          - id: x
            type: u8
    "#), "t", &[0x42]);
    assert_eq!(get_field(&v, "x"), &Value::UInt(0x42));
}

#[test]
fn parse_u16_le() {
    let v = parse(&dedent(r#"
        id: t
        seq:
          - id: x
            type: u16le
    "#), "t", &[0x34, 0x12]);
    assert_eq!(get_field(&v, "x"), &Value::UInt(0x1234));
}

#[test]
fn parse_u16_be() {
    let v = parse(&dedent(r#"
        id: t
        seq:
          - id: x
            type: u16be
    "#), "t", &[0x12, 0x34]);
    assert_eq!(get_field(&v, "x"), &Value::UInt(0x1234));
}

#[test]
fn parse_u32_le() {
    let v = parse(&dedent(r#"
        id: t
        seq:
          - id: x
            type: u32le
    "#), "t", &[0x78, 0x56, 0x34, 0x12]);
    assert_eq!(get_field(&v, "x"), &Value::UInt(0x12345678));
}

#[test]
fn parse_u32_be() {
    let v = parse(&dedent(r#"
        id: t
        seq:
          - id: x
            type: u32be
    "#), "t", &[0x12, 0x34, 0x56, 0x78]);
    assert_eq!(get_field(&v, "x"), &Value::UInt(0x12345678));
}

#[test]
fn parse_u64_le() {
    let n: u64 = 0xdeadbeefcafe0001;
    let v = parse(&dedent(r#"
        id: t
        seq:
          - id: x
            type: u64le
    "#), "t", &n.to_le_bytes());
    assert_eq!(get_field(&v, "x"), &Value::UInt(n));
}

#[test]
fn parse_u8_inherits_meta_endian() {
    // u8 endian doesn't matter, but verify meta: be doesn't break anything
    let v = parse(&dedent(r#"
        id: t
        meta:
          endian: be
        seq:
          - id: x
            type: u8
    "#), "t", &[0xff]);
    assert_eq!(get_field(&v, "x"), &Value::UInt(255));
}

#[test]
fn parse_u16_inherits_be_meta() {
    let v = parse(&dedent(r#"
        id: t
        meta:
          endian: be
        seq:
          - id: x
            type: u16
    "#), "t", &[0x01, 0x00]);
    assert_eq!(get_field(&v, "x"), &Value::UInt(0x0100));
}

// ── Signed integers ───────────────────────────────────────────────────────

#[test]
fn parse_i8_positive() {
    let v = parse(&dedent(r#"
        id: t
        seq:
          - id: x
            type: i8
    "#), "t", &[0x7f]);
    assert_eq!(get_field(&v, "x"), &Value::SInt(127));
}

#[test]
fn parse_i8_negative() {
    let v = parse(&dedent(r#"
        id: t
        seq:
          - id: x
            type: i8
    "#), "t", &[0xff]);
    assert_eq!(get_field(&v, "x"), &Value::SInt(-1));
}

#[test]
fn parse_i32_le_negative() {
    let v = parse(&dedent(r#"
        id: t
        seq:
          - id: x
            type: i32le
    "#), "t", &(-100i32).to_le_bytes());
    assert_eq!(get_field(&v, "x"), &Value::SInt(-100));
}

#[test]
fn parse_i64_be_min() {
    let v = parse(&dedent(r#"
        id: t
        seq:
          - id: x
            type: i64be
    "#), "t", &i64::MIN.to_be_bytes());
    assert_eq!(get_field(&v, "x"), &Value::SInt(i64::MIN));
}

// ── Floats ────────────────────────────────────────────────────────────────

#[test]
fn parse_f32_le() {
    let f: f32 = 1.5;
    let v = parse(&dedent(r#"
        id: t
        seq:
          - id: x
            type: f32
    "#), "t", &f.to_le_bytes());
    if let Value::Float(FloatBits::F32(bits)) = get_field(&v, "x") {
        let got = f32::from_bits(*bits) as f64;
        assert!((got - 1.5).abs() < 1e-6);
    } else { panic!("expected Float"); }
}

#[test]
fn parse_f64_be() {
    let f: f64 = std::f64::consts::E;
    let v = parse(&dedent(r#"
        id: t
        meta:
          endian: be
        seq:
          - id: x
            type: f64
    "#), "t", &f.to_be_bytes());
    if let Value::Float(FloatBits::F64(bits)) = get_field(&v, "x") {
        let got = f64::from_bits(*bits);
        assert!((got - std::f64::consts::E).abs() < 1e-15);
    } else { panic!("expected Float"); }
}

// ── Bytes ─────────────────────────────────────────────────────────────────

#[test]
fn parse_bytes_literal_size() {
    let v = parse(&dedent(r#"
        id: t
        seq:
          - id: buf
            type: bytes
            size: 4
    "#), "t", &[0xde, 0xad, 0xbe, 0xef]);
    assert_eq!(get_field(&v, "buf"), &Value::Bytes(vec![0xde, 0xad, 0xbe, 0xef]));
}

#[test]
fn parse_bytes_dynamic_size() {
    let mut data = vec![0x03u8];     // length = 3
    data.extend_from_slice(&[0xaa, 0xbb, 0xcc]); // 3 bytes of data
    let v = parse(&dedent(r#"
        id: t
        seq:
          - id: length
            type: u8
          - id: buf
            type: bytes
            size: length
    "#), "t", &data);
    assert_eq!(get_field(&v, "buf"), &Value::Bytes(vec![0xaa, 0xbb, 0xcc]));
}

#[test]
fn parse_bytes_zero_length() {
    let v = parse(&dedent(r#"
        id: t
        seq:
          - id: len
            type: u8
          - id: buf
            type: bytes
            size: len
    "#), "t", &[0x00]);
    assert_eq!(get_field(&v, "buf"), &Value::Bytes(vec![]));
}

// ── Strings ───────────────────────────────────────────────────────────────

#[test]
fn parse_str_fixed_size() {
    let v = parse(&dedent(r#"
        id: t
        seq:
          - id: name
            type: str
            size: 5
            encoding: ascii
    "#), "t", b"hello");
    assert_eq!(get_field(&v, "name"), &Value::Str("hello".into()));
}

#[test]
fn parse_strz_null_terminated() {
    let v = parse(&dedent(r#"
        id: t
        seq:
          - id: name
            type: strz
    "#), "t", b"hello\x00world");
    assert_eq!(get_field(&v, "name"), &Value::Str("hello".into()));
}

#[test]
fn parse_str_with_terminator() {
    let v = parse(&dedent(r#"
        id: t
        seq:
          - id: line
            type: str
            terminator: 10
    "#), "t", b"line1\nrest");
    assert_eq!(get_field(&v, "line"), &Value::Str("line1".into()));
}

#[test]
fn parse_str_latin1() {
    // byte 0xe9 is 'é' in latin-1
    let v = parse(&dedent(r#"
        id: t
        seq:
          - id: s
            type: str
            size: 3
            encoding: latin1
    "#), "t", &[0x63, 0x61, 0xe9]); // "café" without the f
    assert_eq!(get_field(&v, "s"), &Value::Str("caé".into()));
}

#[test]
fn parse_str_utf8() {
    let s = "héllo";
    let bytes = s.as_bytes();
    let yaml = format!("id: t\nseq:\n  - id: s\n    type: str\n    size: {}\n", bytes.len());
    let v = parse(&yaml, "t", bytes);
    assert_eq!(get_field(&v, "s"), &Value::Str("héllo".into()));
}

// ── Bits ─────────────────────────────────────────────────────────────────

#[test]
fn parse_bits_4() {
    // 0xab = 0b10101011; top 4 bits = 0b1010 = 10
    let v = parse(&dedent(r#"
        id: t
        seq:
          - id: nibble
            type: bits
            bit_size: 4
    "#), "t", &[0xab]);
    assert_eq!(get_field(&v, "nibble"), &Value::UInt(10));
}

#[test]
fn parse_bits_8() {
    let v = parse(&dedent(r#"
        id: t
        seq:
          - id: byte_val
            type: bits
            bit_size: 8
    "#), "t", &[0xff]);
    assert_eq!(get_field(&v, "byte_val"), &Value::UInt(255));
}

#[test]
fn parse_bits_1() {
    let v = parse(&dedent(r#"
        id: t
        seq:
          - id: flag
            type: bits
            bit_size: 1
    "#), "t", &[0x80]); // top bit set
    assert_eq!(get_field(&v, "flag"), &Value::UInt(1));
}

// ── Contents ─────────────────────────────────────────────────────────────

#[test]
fn parse_contents_match() {
    let v = parse(&dedent(r#"
        id: t
        seq:
          - id: magic
            contents: [0x89, 0x50, 0x4e, 0x47]
    "#), "t", &[0x89, 0x50, 0x4e, 0x47]);
    assert_eq!(get_field(&v, "magic"), &Value::Bytes(vec![0x89, 0x50, 0x4e, 0x47]));
}

#[test]
fn parse_contents_mismatch_is_error() {
    let err = parse_err(&dedent(r#"
        id: t
        seq:
          - id: magic
            contents: [0x89, 0x50, 0x4e, 0x47]
    "#), "t", &[0x00, 0x00, 0x00, 0x00]);
    assert!(matches!(err, DoeError::Schema(_)));
}

// ── Enums ─────────────────────────────────────────────────────────────────

#[test]
fn parse_enum_known_variant() {
    let v = parse(&dedent(r#"
        id: t
        seq:
          - id: kind
            type: u8
            enum: kind_t
        enums:
          kind_t:
            "0": eof
            "1": data
            "2": header
    "#), "t", &[0x01]);
    assert_eq!(get_field(&v, "kind"), &Value::Enum { value: 1, name: Some("data".into()) });
}

#[test]
fn parse_enum_unknown_variant() {
    let v = parse(&dedent(r#"
        id: t
        seq:
          - id: kind
            type: u8
            enum: kind_t
        enums:
          kind_t:
            "0": eof
    "#), "t", &[0x99]);
    assert_eq!(get_field(&v, "kind"), &Value::Enum { value: 0x99, name: None });
}

// ── Conditional fields ────────────────────────────────────────────────────

#[test]
fn conditional_field_present() {
    let v = parse(&dedent(r#"
        id: t
        seq:
          - id: flags
            type: u8
          - id: extra
            type: u32le
            if: flags > 0
    "#), "t", &[0x01, 0x78, 0x56, 0x34, 0x12]);
    assert_eq!(get_field(&v, "extra"), &Value::UInt(0x12345678));
}

#[test]
fn conditional_field_absent() {
    let v = parse(&dedent(r#"
        id: t
        seq:
          - id: flags
            type: u8
          - id: extra
            type: u32le
            if: flags > 0
    "#), "t", &[0x00]); // flags = 0 → extra is absent
    assert_eq!(get_field(&v, "extra"), &Value::Absent);
}

// ── Repeat modes ─────────────────────────────────────────────────────────

#[test]
fn repeat_eos() {
    let v = parse(&dedent(r#"
        id: t
        seq:
          - id: items
            type: u8
            repeat: eos
    "#), "t", &[0x01, 0x02, 0x03]);
    if let Value::Array(items) = get_field(&v, "items") {
        assert_eq!(items.len(), 3);
        assert_eq!(items[0], Value::UInt(1));
        assert_eq!(items[2], Value::UInt(3));
    } else { panic!("expected Array"); }
}

#[test]
fn repeat_eos_empty_input() {
    let v = parse(&dedent(r#"
        id: t
        seq:
          - id: items
            type: u8
            repeat: eos
    "#), "t", &[]);
    if let Value::Array(items) = get_field(&v, "items") {
        assert!(items.is_empty());
    } else { panic!("expected Array"); }
}

#[test]
fn repeat_expr_count() {
    let data = [0x03u8, 0x0a, 0x0b, 0x0c]; // count=3, items=[10,11,12]
    let v = parse(&dedent(r#"
        id: t
        seq:
          - id: count
            type: u8
          - id: items
            type: u8
            repeat: expr
            repeat-expr: count
    "#), "t", &data);
    if let Value::Array(items) = get_field(&v, "items") {
        assert_eq!(items.len(), 3);
        assert_eq!(items[1], Value::UInt(0x0b));
    } else { panic!("expected Array"); }
}

#[test]
fn repeat_expr_zero_count() {
    let data = [0x00u8]; // count=0
    let v = parse(&dedent(r#"
        id: t
        seq:
          - id: count
            type: u8
          - id: items
            type: u8
            repeat: expr
            repeat-expr: count
    "#), "t", &data);
    if let Value::Array(items) = get_field(&v, "items") {
        assert!(items.is_empty());
    } else { panic!("expected Array"); }
}

#[test]
fn repeat_until_null_terminator() {
    // Classic C-string style: read bytes until value == 0x00.
    // The terminator is included as the last item in the array.
    let data = [0x41u8, 0x42, 0x43, 0x00]; // "ABC\0"
    let v = parse(&dedent(r#"
        id: t
        seq:
          - id: chars
            type: u8
            repeat: until
            repeat-until: _ == 0
    "#), "t", &data);
    if let Value::Array(items) = get_field(&v, "chars") {
        assert_eq!(items.len(), 4); // A, B, C, and the terminator
        assert_eq!(items[0], Value::UInt(0x41));
        assert_eq!(items[3], Value::UInt(0x00)); // terminator included
    } else { panic!("expected Array"); }
}

#[test]
fn repeat_until_sentinel_value() {
    // Read u16le values until one equals 0xFFFF.
    let data: Vec<u8> = vec![
        0x01, 0x00,  // 1
        0x02, 0x00,  // 2
        0xFF, 0xFF,  // sentinel
    ];
    let v = parse(&dedent(r#"
        id: t
        seq:
          - id: values
            type: u16le
            repeat: until
            repeat-until: _ == 0xFFFF
    "#), "t", &data);
    if let Value::Array(items) = get_field(&v, "values") {
        assert_eq!(items.len(), 3);
        assert_eq!(items[0], Value::UInt(1));
        assert_eq!(items[1], Value::UInt(2));
        assert_eq!(items[2], Value::UInt(0xFFFF)); // sentinel included
    } else { panic!("expected Array"); }
}

#[test]
fn repeat_until_expression_with_bitwise() {
    // Stop when the high bit of a byte is set.
    let data = [0x01u8, 0x02, 0x83]; // 0x83 has high bit set
    let v = parse(&dedent(r#"
        id: t
        seq:
          - id: bytes
            type: u8
            repeat: until
            repeat-until: _ & 0x80
    "#), "t", &data);
    if let Value::Array(items) = get_field(&v, "bytes") {
        assert_eq!(items.len(), 3);
        assert_eq!(items[2], Value::UInt(0x83));
    } else { panic!("expected Array"); }
}

#[test]
fn repeat_until_stops_at_eof_if_condition_never_met() {
    // If the terminator condition is never true, iteration stops at EOF.
    let data = [0x01u8, 0x02, 0x03]; // no zero byte
    let v = parse(&dedent(r#"
        id: t
        seq:
          - id: items
            type: u8
            repeat: until
            repeat-until: _ == 0
    "#), "t", &data);
    if let Value::Array(items) = get_field(&v, "items") {
        assert_eq!(items.len(), 3);
    } else { panic!("expected Array"); }
}

// ── Sub-types ─────────────────────────────────────────────────────────────

#[test]
fn parse_subtype() {
    let data = [0x01u8, 0x00, 0x02, 0x00]; // two u16le values
    let v = parse(&dedent(r#"
        id: outer
        seq:
          - id: point
            type: point_t
        types:
          point_t:
            seq:
              - id: x
                type: u16le
              - id: y
                type: u16le
    "#), "outer", &data);
    let point = get_field(&v, "point");
    assert_eq!(get_field(point, "x"), &Value::UInt(1));
    assert_eq!(get_field(point, "y"), &Value::UInt(2));
}

#[test]
fn parse_repeated_subtype() {
    // 2 points × 4 bytes = 8 bytes, prefixed with count byte
    let v = parse(&dedent(r#"
        id: outer
        seq:
          - id: count
            type: u8
          - id: points
            type: point_t
            repeat: expr
            repeat-expr: count
        types:
          point_t:
            seq:
              - id: x
                type: u16le
              - id: y
                type: u16le
    "#), "outer", &[2, 0x01, 0x00, 0x02, 0x00, 0x03, 0x00, 0x04, 0x00]);
    if let Value::Array(points) = get_field(&v, "points") {
        assert_eq!(points.len(), 2);
        assert_eq!(get_field(&points[0], "x"), &Value::UInt(1));
        assert_eq!(get_field(&points[1], "y"), &Value::UInt(4));
    } else { panic!("expected Array"); }
}

// ── Multiple fields ───────────────────────────────────────────────────────

#[test]
fn parse_multiple_fields_sequential() {
    let v = parse(&dedent(r#"
        id: t
        seq:
          - id: a
            type: u8
          - id: b
            type: u16le
          - id: c
            type: u32le
    "#), "t", &[0x01, 0x03, 0x00, 0x07, 0x00, 0x00, 0x00]);
    assert_eq!(get_field(&v, "a"), &Value::UInt(1));
    assert_eq!(get_field(&v, "b"), &Value::UInt(3));
    assert_eq!(get_field(&v, "c"), &Value::UInt(7));
}

// ── Realistic: TGA-like header ────────────────────────────────────────────

#[test]
fn parse_tga_like_header() {
    // Minimal TGA header layout
    let data = vec![
        0x00u8,       // id_length
        0x00,         // colormap_type
        0x02,         // image_type (truecolor)
        0x00, 0x00,   // colormap_first_entry
        0x00, 0x00,   // colormap_length
        0x00,         // colormap_entry_size
        0x00, 0x00,   // x_origin
        0x00, 0x00,   // y_origin
        0x80, 0x02,   // width = 640
        0xe0, 0x01,   // height = 480
        0x18,         // pixel_depth = 24
        0x00,         // image_descriptor
    ];
    let v = parse(&dedent(r#"
        id: tga_header
        meta:
          endian: le
        seq:
          - id: id_length
            type: u8
          - id: colormap_type
            type: u8
          - id: image_type
            type: u8
            enum: image_type_t
          - id: colormap_first_entry
            type: u16
          - id: colormap_length
            type: u16
          - id: colormap_entry_size
            type: u8
          - id: x_origin
            type: u16
          - id: y_origin
            type: u16
          - id: width
            type: u16
          - id: height
            type: u16
          - id: pixel_depth
            type: u8
          - id: image_descriptor
            type: u8
        enums:
          image_type_t:
            "0": no_image
            "1": colormap
            "2": truecolor
            "3": grayscale
    "#), "tga_header", &data);

    assert_eq!(get_field(&v, "width"),  &Value::UInt(640));
    assert_eq!(get_field(&v, "height"), &Value::UInt(480));
    assert_eq!(get_field(&v, "pixel_depth"), &Value::UInt(24));
    assert_eq!(get_field(&v, "image_type"),
        &Value::Enum { value: 2, name: Some("truecolor".into()) });
}

// ── Realistic: length-prefixed string list ────────────────────────────────

#[test]
fn parse_length_prefixed_strings() {
    // Format: u8 count, then (u8 len, bytes) for each string
    let data: Vec<u8> = vec![
        0x02,               // count = 2
        0x05,               // str 0: len = 5
        b'h', b'e', b'l', b'l', b'o',
        0x03,               // str 1: len = 3
        b'f', b'o', b'o',
    ];
    let v = parse(&dedent(r#"
        id: string_list
        seq:
          - id: count
            type: u8
          - id: strings
            type: lp_string
            repeat: expr
            repeat-expr: count
        types:
          lp_string:
            seq:
              - id: length
                type: u8
              - id: value
                type: str
                size: length
                encoding: ascii
    "#), "string_list", &data);

    if let Value::Array(strings) = get_field(&v, "strings") {
        assert_eq!(strings.len(), 2);
        assert_eq!(get_field(&strings[0], "value"), &Value::Str("hello".into()));
        assert_eq!(get_field(&strings[1], "value"), &Value::Str("foo".into()));
    } else {
        panic!("expected Array");
    }
}

// ── Error cases ───────────────────────────────────────────────────────────

#[test]
fn unknown_type_name_is_error() {
    let (engine, _reg) = engine_from_yaml(&dedent(r#"
        id: t
        seq: []
    "#));
    let mut cursor = Cursor::new(&[]);
    assert!(engine.parse_type("nonexistent", &mut cursor).is_err());
}

#[test]
fn buffer_underrun_is_error() {
    let err = parse_err(&dedent(r#"
        id: t
        seq:
          - id: x
            type: u32le
    "#), "t", &[0x01, 0x02]); // only 2 bytes, need 4
    assert!(matches!(err, DoeError::Schema(_)));
}

// ── decode_string ─────────────────────────────────────────────────────────

#[test]
fn decode_ascii_valid() {
    assert_eq!(
        decode_string(b"hello", Encoding::Ascii).unwrap(),
        "hello"
    );
}

#[test]
fn decode_ascii_high_byte_is_error() {
    assert!(decode_string(&[0x80], Encoding::Ascii).is_err());
}

#[test]
fn decode_utf8_valid() {
    let s = "héllo";
    assert_eq!(decode_string(s.as_bytes(), Encoding::Utf8).unwrap(), s);
}

#[test]
fn decode_utf8_invalid_is_error() {
    assert!(decode_string(&[0xff, 0xfe], Encoding::Utf8).is_err());
}

#[test]
fn decode_latin1_high_bytes() {
    // 0xe9 = 'é' in latin-1 = U+00E9
    let result = decode_string(&[0xe9], Encoding::Latin1).unwrap();
    assert_eq!(result, "é");
}

// ── resolve_endian ────────────────────────────────────────────────────────

#[test]
fn resolve_endian_inherit_uses_type_default() {
    assert_eq!(resolve_endian(EndianOverride::Inherit, Endian::Big),    Endian::Big);
    assert_eq!(resolve_endian(EndianOverride::Inherit, Endian::Little), Endian::Little);
}

#[test]
fn resolve_endian_override_ignores_type_default() {
    assert_eq!(resolve_endian(EndianOverride::Little, Endian::Big),    Endian::Little);
    assert_eq!(resolve_endian(EndianOverride::Big,    Endian::Little), Endian::Big);
}

#[test]
fn parse_bits_wider_than_64_keeps_low_64_bits() {
    // 72 bits cover 9 bytes; the reading keeps the low 64 bits.
    let v = parse(&dedent(r#"
        id: t
        seq:
          - id: wide
            type: bits
            bit_size: 72
    "#), "t", &[0x01, 0x02, 0x03, 0x04, 0x05, 0x06, 0x07, 0x08, 0x09]);
    assert_eq!(get_field(&v, "wide"), &Value::UInt(0x0203_0405_0607_0809));
}

#[test]
fn parse_bits_70_drops_padding_bits() {
    // 70 bits cover 9 bytes; two padding bits are dropped after keeping 64.
    let v = parse(&dedent(r#"
        id: t
        seq:
          - id: wide
            type: bits
            bit_size: 70
    "#), "t", &[0xff, 0x80, 0, 0, 0, 0, 0, 0, 0x04]);
    assert_eq!(get_field(&v, "wide"), &Value::UInt(0x8000_0000_0000_0004u64 >> 2));
}

#[test]
fn parse_bits_12_spans_two_bytes() {
    let v = parse(&dedent(r#"
        id: t
        seq:
          - id: twelve
            type: bits
            bit_size: 12
    "#), "t", &[0xab, 0xcd]);
    assert_eq!(get_field(&v, "twelve"), &Value::UInt(0xabc));
}

fn schema_message(e: DoeError) -> String {
    match e {
        DoeError::Schema(m) => m,
        other => panic!("expected a schema error, got {:?}", other),
    }
}

fn field_error(e: DoeError) -> (String, String, String) {
    match e {
        DoeError::FieldError { field, context, message } => (field, context, message),
        other => panic!("expected a field error, got {:?}", other),
    }
}

#[test]
fn overrun_error_names_offset_and_sizes() {
    let e = parse_err(&dedent(r#"
        id: t
        seq:
          - id: a
            type: u8
          - id: b
            type: u32le
    "#), "t", &[1, 2, 3]);
    assert_eq!(schema_message(e), "buffer overrun at offset 1: requested 4 bytes, 2 remaining");
}

#[test]
fn contents_mismatch_error_lists_both_byte_strings() {
    let e = parse_err(&dedent(r#"
        id: t
        seq:
          - id: magic
            contents: [0x89, 0x50]
    "#), "t", &[0x89, 0x51]);
    assert_eq!(schema_message(e), "contents mismatch at offset 0: expected [137, 80], got [137, 81]");
}

#[test]
fn repeat_eos_that_reads_nothing_is_an_error() {
    let e = parse_err(&dedent(r#"
        id: t
        seq:
          - id: empties
            type: bytes
            size: 0
            repeat: eos
    "#), "t", &[7]);
    assert_eq!(
        field_error(e),
        ("empties".to_string(), "t".to_string(), "repeat: eos read no bytes and would never end".to_string())
    );
}

#[test]
fn negative_repeat_count_is_an_error() {
    let e = parse_err(&dedent(r#"
        id: t
        seq:
          - id: n
            type: u8
          - id: items
            type: u8
            repeat: expr
            repeat-expr: n - 5
    "#), "t", &[2, 0, 0]);
    assert_eq!(
        field_error(e),
        ("items".to_string(), "t".to_string(), "repeat count evaluated to negative value: -3".to_string())
    );
}

#[test]
fn guard_that_cannot_be_evaluated_is_a_field_error() {
    let e = parse_err(&dedent(r#"
        id: t
        seq:
          - id: x
            type: u8
            if: 1 / 0
    "#), "t", &[1]);
    assert_eq!(
        field_error(e),
        (
            "x".to_string(),
            "t".to_string(),
            "expression eval error in '<if>': division by zero".to_string()
        )
    );
}

#[test]
fn negative_size_is_an_error() {
    let e = parse_err(&dedent(r#"
        id: t
        seq:
          - id: n
            type: u8
          - id: body
            type: bytes
            size: n - 9
    "#), "t", &[1, 0]);
    assert_eq!(schema_message(e), "size expression evaluated to negative value: -8");
}

#[test]
fn self_nesting_type_stops_at_the_nesting_limit() {
    let e = parse_err(&dedent(r#"
        id: t
        seq:
          - id: again
            type: t
    "#), "t", &[]);
    assert_eq!(schema_message(e), "type nesting deeper than 256 levels at 't'");
}

#[test]
fn dotted_path_reads_field_of_earlier_struct() {
    // header: magic-free elf_header with section_count = 2, then two
    // 8-byte section records.
    let mut data = vec![0x02u8, 0x00];
    data.extend_from_slice(&[1, 0, 0, 0, 2, 0, 0, 0]);
    data.extend_from_slice(&[3, 0, 0, 0, 4, 0, 0, 0]);
    let v = parse(&dedent(r#"
        id: elf
        seq:
          - id: header
            type: elf_header
          - id: sections
            type: section_header
            repeat: expr
            repeat-expr: header.section_count
        types:
          elf_header:
            seq:
              - id: section_count
                type: u16le
          section_header:
            seq:
              - id: name_offset
                type: u32le
              - id: section_size
                type: u32le
    "#), "elf", &data);
    if let Value::Array(items) = get_field(&v, "sections") {
        assert_eq!(items.len(), 2);
        assert_eq!(get_field(&items[1], "section_size"), &Value::UInt(4));
    } else {
        panic!("expected Array");
    }
}
