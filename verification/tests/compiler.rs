//! Tests of the schema compiler, on schemas written as YAML.

use doe::error::DoeError;
use doe::schema::compiler::{compile_schema, parse_enum_key, Compiler, LoadStep};
use doe::schema::ir::{EndianOverride, FieldKind, IntWidth, RepeatMode, SizeExpr, StrSize, TypeRegistry, Endian, Encoding, FloatWidth};
use doe::schema::raw::{
    RawContents, RawEncoding, RawEndian, RawEnum, RawField, RawMeta, RawRepeat, RawSchema, RawTypeDecl,
    StringOrInt,
};
use serde_yaml::{Mapping, Value as YValue};

/// Remove the indentation common to all non-blank lines.
fn dedent(s: &str) -> String {
    let lines: Vec<&str> = s.lines().collect();
    let indent = lines
        .iter()
        .filter(|l| !l.trim().is_empty())
        .map(|l| l.len() - l.trim_start().len())
        .min()
        .unwrap_or(0);
    let mut out = String::new();
    for l in lines {
        if l.len() >= indent {
            out.push_str(&l[indent..]);
        }
        out.push('\n');
    }
    out
}

fn text(v: &YValue) -> String {
    match v {
        YValue::String(s) => s.clone(),
        YValue::Number(n) => n.to_string(),
        YValue::Bool(b) => b.to_string(),
        other => panic!("expected a scalar, got {:?}", other),
    }
}

fn opt_text(m: &Mapping, key: &str) -> Option<String> {
    m.get(key).filter(|v| !v.is_null()).map(text)
}

fn pairs(v: Option<&YValue>) -> Vec<(String, YValue)> {
    match v {
        Some(YValue::Mapping(m)) => m.iter().map(|(k, v)| (text(k), v.clone())).collect(),
        _ => vec![],
    }
}

fn raw_field(v: &YValue) -> RawField {
    let m = v.as_mapping().expect("field mapping");
    RawField {
        id: opt_text(m, "id").expect("field id"),
        type_ref: opt_text(m, "type"),
        contents: m.get("contents").map(|c| match c {
            YValue::Sequence(items) => {
                RawContents::Bytes(items.iter().map(|b| b.as_u64().unwrap() as u8).collect())
            }
            other => RawContents::Str(text(other)),
        }),
        size: m.get("size").map(|s| match s {
            YValue::Number(n) => StringOrInt::Int(n.as_u64().unwrap()),
            other => StringOrInt::Str(text(other)),
        }),
        terminator: m.get("terminator").map(|t| t.as_u64().unwrap() as u8),
        encoding: opt_text(m, "encoding").map(|e| match e.as_str() {
            "utf8" => RawEncoding::Utf8,
            "ascii" => RawEncoding::Ascii,
            "latin1" => RawEncoding::Latin1,
            other => panic!("encoding {}", other),
        }),
        bit_size: m.get("bit_size").map(|b| b.as_u64().unwrap() as u8),
        repeat: opt_text(m, "repeat").map(|r| match r.as_str() {
            "eos" => RawRepeat::Eos,
            "expr" => RawRepeat::Expr,
            "until" => RawRepeat::Until,
            other => panic!("repeat {}", other),
        }),
        repeat_expr: opt_text(m, "repeat-expr"),
        repeat_until: opt_text(m, "repeat-until"),
        if_expr: opt_text(m, "if"),
        enum_ref: opt_text(m, "enum"),
        doc: opt_text(m, "doc"),
    }
}

fn raw_fields(v: Option<&YValue>) -> Vec<RawField> {
    match v {
        Some(YValue::Sequence(items)) => items.iter().map(raw_field).collect(),
        _ => vec![],
    }
}

fn raw_enums(v: Option<&YValue>) -> Vec<(String, RawEnum)> {
    pairs(v)
        .into_iter()
        .map(|(name, body)| {
            let entries = pairs(Some(&body)).into_iter().map(|(k, v)| (k, text(&v))).collect();
            (name, entries)
        })
        .collect()
}

fn raw_types(v: Option<&YValue>) -> Vec<(String, RawTypeDecl)> {
    pairs(v)
        .into_iter()
        .map(|(name, body)| {
            let m = body.as_mapping().cloned().unwrap_or_default();
            let decl = RawTypeDecl {
                doc: opt_text(&m, "doc"),
                seq: raw_fields(m.get("seq")),
                types: raw_types(m.get("types")),
                enums: raw_enums(m.get("enums")),
            };
            (name, decl)
        })
        .collect()
}

/// The schema a YAML text describes.
fn schema_from_yaml(yaml: &str) -> RawSchema {
    let v: YValue = serde_yaml::from_str(yaml).expect("YAML parse");
    let m = v.as_mapping().expect("schema mapping");
    let endian = m
        .get("meta")
        .and_then(|meta| meta.as_mapping())
        .and_then(|meta| opt_text(meta, "endian"))
        .map(|e| if e == "be" { RawEndian::Be } else { RawEndian::Le });
    RawSchema {
        id: opt_text(m, "id").expect("schema id"),
        doc: opt_text(m, "doc"),
        meta: RawMeta { endian },
        imports: match m.get("imports") {
            Some(YValue::Sequence(items)) => items.iter().map(text).collect(),
            _ => vec![],
        },
        seq: raw_fields(m.get("seq")),
        types: raw_types(m.get("types")),
        enums: raw_enums(m.get("enums")),
        source_path: None,
    }
}


fn compile(yaml: &str) -> TypeRegistry {
    let schema = schema_from_yaml(yaml);
    compile_schema(&schema).expect("compile")
}

fn compile_err(yaml: &str) -> DoeError {
    let schema = schema_from_yaml(yaml);
    compile_schema(&schema).expect_err("expected compile error")
}

// ── Primitive integer types ───────────────────────────────────────────────

#[test]
fn compile_u8_field() {
    let reg = compile(&dedent(r#"
        id: t
        seq:
          - id: x
            type: u8
    "#));
    let ty = reg.get("t").unwrap();
    assert!(matches!(
        ty.fields[0].kind,
        FieldKind::UInt {
            width: IntWidth::W8,
            endian: EndianOverride::Inherit
        }
    ));
}

#[test]
fn compile_u32be_field() {
    let reg = compile(&dedent(r#"
        id: t
        seq:
          - id: x
            type: u32be
    "#));
    let ty = reg.get("t").unwrap();
    assert!(matches!(
        ty.fields[0].kind,
        FieldKind::UInt {
            width: IntWidth::W32,
            endian: EndianOverride::Big
        }
    ));
}

#[test]
fn compile_u64le_field() {
    let reg = compile(&dedent(r#"
        id: t
        seq:
          - id: x
            type: u64le
    "#));
    let ty = reg.get("t").unwrap();
    assert!(matches!(
        ty.fields[0].kind,
        FieldKind::UInt {
            width: IntWidth::W64,
            endian: EndianOverride::Little
        }
    ));
}

#[test]
fn compile_i32_field() {
    let reg = compile(&dedent(r#"
        id: t
        seq:
          - id: x
            type: i32
    "#));
    let ty = reg.get("t").unwrap();
    assert!(matches!(
        ty.fields[0].kind,
        FieldKind::SInt {
            width: IntWidth::W32,
            endian: EndianOverride::Inherit
        }
    ));
}

#[test]
fn compile_i16be_field() {
    let reg = compile(&dedent(r#"
        id: t
        seq:
          - id: x
            type: i16be
    "#));
    let ty = reg.get("t").unwrap();
    assert!(matches!(
        ty.fields[0].kind,
        FieldKind::SInt {
            width: IntWidth::W16,
            endian: EndianOverride::Big
        }
    ));
}

#[test]
fn compile_all_unsigned_widths() {
    for (type_str, expected_width) in &[
        ("u8", IntWidth::W8),
        ("u16", IntWidth::W16),
        ("u32", IntWidth::W32),
        ("u64", IntWidth::W64),
    ] {
        let yaml = format!("id: t\nseq:\n  - id: x\n    type: {}", type_str);
        let reg = compile(&yaml);
        let ty = reg.get("t").unwrap();
        if let FieldKind::UInt { width, .. } = ty.fields[0].kind {
            assert_eq!(&width, expected_width, "width mismatch for {}", type_str);
        } else {
            panic!("expected UInt for {}", type_str);
        }
    }
}

// ── Float types ───────────────────────────────────────────────────────────

#[test]
fn compile_f32_field() {
    let reg = compile(&dedent(r#"
        id: t
        seq:
          - id: x
            type: f32
    "#));
    let ty = reg.get("t").unwrap();
    assert!(matches!(
        ty.fields[0].kind,
        FieldKind::Float {
            width: FloatWidth::F32
        }
    ));
}

#[test]
fn compile_f64_field() {
    let reg = compile(&dedent(r#"
        id: t
        seq:
          - id: x
            type: f64
    "#));
    let ty = reg.get("t").unwrap();
    assert!(matches!(
        ty.fields[0].kind,
        FieldKind::Float {
            width: FloatWidth::F64
        }
    ));
}

// ── Bytes and strings ─────────────────────────────────────────────────────

#[test]
fn compile_bytes_literal_size() {
    let reg = compile(&dedent(r#"
        id: t
        seq:
          - id: buf
            type: bytes
            size: 16
    "#));
    let ty = reg.get("t").unwrap();
    assert!(matches!(
        ty.fields[0].kind,
        FieldKind::Bytes {
            size: SizeExpr::Literal(16)
        }
    ));
}

#[test]
fn compile_bytes_dynamic_size() {
    let reg = compile(&dedent(r#"
        id: t
        seq:
          - id: len
            type: u32
          - id: buf
            type: bytes
            size: len
    "#));
    let ty = reg.get("t").unwrap();
    assert!(matches!(
        ty.fields[1].kind,
        FieldKind::Bytes {
            size: SizeExpr::Dynamic(_)
        }
    ));
}

#[test]
fn compile_str_with_size() {
    let reg = compile(&dedent(r#"
        id: t
        seq:
          - id: name
            type: str
            size: 8
            encoding: ascii
    "#));
    let ty = reg.get("t").unwrap();
    if let FieldKind::Str {
        size: StrSize::Fixed(SizeExpr::Literal(8)),
        encoding,
    } = &ty.fields[0].kind
    {
        assert_eq!(*encoding, Encoding::Ascii);
    } else {
        panic!("unexpected field kind: {:?}", ty.fields[0].kind);
    }
}

#[test]
fn compile_strz() {
    let reg = compile(&dedent(r#"
        id: t
        seq:
          - id: name
            type: strz
    "#));
    let ty = reg.get("t").unwrap();
    assert!(matches!(
        ty.fields[0].kind,
        FieldKind::Str {
            size: StrSize::Terminator(0),
            ..
        }
    ));
}

#[test]
fn compile_str_with_terminator() {
    let reg = compile(&dedent(r#"
        id: t
        seq:
          - id: name
            type: str
            terminator: 0x0a
    "#));
    let ty = reg.get("t").unwrap();
    assert!(matches!(
        ty.fields[0].kind,
        FieldKind::Str {
            size: StrSize::Terminator(0x0a),
            ..
        }
    ));
}

// ── Bits ─────────────────────────────────────────────────────────────────

#[test]
fn compile_bits_field() {
    let reg = compile(&dedent(r#"
        id: t
        seq:
          - id: flags
            type: bits
            bit_size: 4
    "#));
    let ty = reg.get("t").unwrap();
    assert!(matches!(ty.fields[0].kind, FieldKind::Bits { bit_size: 4 }));
}

#[test]
fn bits_without_bit_size_is_error() {
    let err = compile_err(&dedent(r#"
        id: t
        seq:
          - id: flags
            type: bits
    "#));
    assert!(matches!(err, DoeError::FieldError { .. }));
}

// ── Contents ─────────────────────────────────────────────────────────────

#[test]
fn compile_contents_bytes() {
    let reg = compile(&dedent(r#"
        id: t
        seq:
          - id: magic
            contents: [0x89, 0x50, 0x4e, 0x47]
    "#));
    let ty = reg.get("t").unwrap();
    assert!(
        matches!(&ty.fields[0].kind, FieldKind::Contents(b) if b == &[0x89u8, 0x50, 0x4e, 0x47])
    );
}

#[test]
fn compile_contents_string() {
    let reg = compile(&dedent(r#"
        id: t
        seq:
          - id: magic
            contents: "RIFF"
    "#));
    let ty = reg.get("t").unwrap();
    assert!(matches!(&ty.fields[0].kind, FieldKind::Contents(b) if b == b"RIFF"));
}

// ── Repeat modes ─────────────────────────────────────────────────────────

#[test]
fn compile_repeat_eos() {
    let reg = compile(&dedent(r#"
        id: t
        seq:
          - id: items
            type: u8
            repeat: eos
    "#));
    let ty = reg.get("t").unwrap();
    assert!(matches!(ty.fields[0].repeat, RepeatMode::Eos));
}

#[test]
fn compile_repeat_expr() {
    let reg = compile(&dedent(r#"
        id: t
        seq:
          - id: count
            type: u16
          - id: items
            type: u8
            repeat: expr
            repeat-expr: count
    "#));
    let ty = reg.get("t").unwrap();
    assert!(matches!(ty.fields[1].repeat, RepeatMode::Count(_)));
}

#[test]
fn repeat_expr_without_repeat_expr_is_error() {
    let err = compile_err(&dedent(r#"
        id: t
        seq:
          - id: items
            type: u8
            repeat: expr
    "#));
    assert!(matches!(err, DoeError::FieldError { .. }));
}

#[test]
fn compile_repeat_until() {
    let reg = compile(&dedent(r#"
        id: t
        seq:
          - id: items
            type: u8
            repeat: until
            repeat-until: _ == 0
    "#));
    let ty = reg.get("t").unwrap();
    assert!(matches!(ty.fields[0].repeat, RepeatMode::Until(_)));
}

#[test]
fn repeat_until_without_repeat_until_is_error() {
    let err = compile_err(&dedent(r#"
        id: t
        seq:
          - id: items
            type: u8
            repeat: until
    "#));
    assert!(matches!(err, DoeError::FieldError { .. }));
}

// ── Conditional fields ────────────────────────────────────────────────────

#[test]
fn compile_if_expr() {
    let reg = compile(&dedent(r#"
        id: t
        seq:
          - id: flags
            type: u8
          - id: extra
            type: u32
            if: flags > 0
    "#));
    let ty = reg.get("t").unwrap();
    assert!(ty.fields[1].if_expr.is_some());
}

// ── Enums ─────────────────────────────────────────────────────────────────

#[test]
fn compile_enum_decimal_keys() {
    let reg = compile(&dedent(r#"
        id: t
        seq:
          - id: kind
            type: u8
            enum: kind_t
        enums:
          kind_t:
            "0": eof
            "1": data
            "2": header
    "#));
    let ty = reg.get("t").unwrap();
    let e = ty.enum_named("kind_t").unwrap();
    assert_eq!(e.lookup(0), Some("eof"));
    assert_eq!(e.lookup(1), Some("data"));
    assert_eq!(e.lookup(99), None);
}

#[test]
fn compile_enum_hex_keys() {
    let reg = compile(&dedent(r#"
        id: t
        seq:
          - id: type_field
            type: u8
            enum: types_t
        enums:
          types_t:
            "0x01": text
            "0xff": binary
    "#));
    let ty = reg.get("t").unwrap();
    let e = ty.enum_named("types_t").unwrap();
    assert_eq!(e.lookup(0x01), Some("text"));
    assert_eq!(e.lookup(0xff), Some("binary"));
}

#[test]
fn unknown_enum_ref_is_error() {
    let err = compile_err(&dedent(r#"
        id: t
        seq:
          - id: x
            type: u8
            enum: nonexistent
    "#));
    assert!(matches!(err, DoeError::UnknownEnum { .. }));
}

// ── Sub-types ─────────────────────────────────────────────────────────────

#[test]
fn compile_inline_subtype() {
    let reg = compile(&dedent(r#"
        id: outer
        seq:
          - id: hdr
            type: header
        types:
          header:
            seq:
              - id: magic
                type: u32
              - id: version
                type: u16
    "#));
    assert!(reg.contains("outer"));
    assert!(reg.contains("outer::header"));
    let hdr = reg.get("outer::header").unwrap();
    assert_eq!(hdr.fields.len(), 2);
    assert_eq!(hdr.fields[0].id, "magic");
}

#[test]
fn subtype_ref_resolved_correctly() {
    let reg = compile(&dedent(r#"
        id: outer
        seq:
          - id: hdr
            type: header
        types:
          header:
            seq:
              - id: val
                type: u8
    "#));
    let outer = reg.get("outer").unwrap();
    if let FieldKind::TypeRef { ty_name } = &outer.fields[0].kind {
        assert_eq!(ty_name, "outer::header");
    } else {
        panic!("expected TypeRef");
    }
}

#[test]
fn compile_nested_subtypes() {
    let reg = compile(&dedent(r#"
        id: root
        seq:
          - id: a
            type: level1
        types:
          level1:
            seq:
              - id: b
                type: level2
            types:
              level2:
                seq:
                  - id: val
                    type: u32
    "#));
    assert!(reg.contains("root"));
    assert!(reg.contains("root::level1"));
    assert!(reg.contains("root::level1::level2"));
}

// ── Forward-ref validation ────────────────────────────────────────────────

#[test]
fn size_expr_forward_ref_is_error() {
    // `buf` is defined before `len`, so `size: len` is a forward ref.
    let err = compile_err(&dedent(r#"
        id: t
        seq:
          - id: buf
            type: bytes
            size: len
          - id: len
            type: u32
    "#));
    assert!(
        matches!(err, DoeError::FieldError { .. }),
        "expected FieldError, got {:?}",
        err
    );
}

#[test]
fn size_expr_back_ref_is_ok() {
    let reg = compile(&dedent(r#"
        id: t
        seq:
          - id: len
            type: u32
          - id: buf
            type: bytes
            size: len
    "#));
    assert!(reg.contains("t"));
}

// ── Meta endian propagation ───────────────────────────────────────────────

#[test]
fn big_endian_propagated_to_type() {
    let reg = compile(&dedent(r#"
        id: be_file
        meta:
          endian: be
        seq:
          - id: val
            type: u32
    "#));
    let ty = reg.get("be_file").unwrap();
    assert_eq!(ty.endian, Endian::Big);
}

#[test]
fn little_endian_is_default() {
    let reg = compile(&dedent(r#"
        id: le_file
        seq:
          - id: val
            type: u32
    "#));
    let ty = reg.get("le_file").unwrap();
    assert_eq!(ty.endian, Endian::Little);
}

// ── Error cases ───────────────────────────────────────────────────────────

#[test]
fn unknown_type_ref_is_error() {
    let err = compile_err(&dedent(r#"
        id: t
        seq:
          - id: x
            type: does_not_exist
    "#));
    assert!(matches!(err, DoeError::UnknownType { .. }));
}

#[test]
fn field_without_type_or_contents_is_error() {
    let err = compile_err(&dedent(r#"
        id: t
        seq:
          - id: x
    "#));
    assert!(matches!(err, DoeError::FieldError { .. }));
}

#[test]
fn bytes_without_size_is_error() {
    let err = compile_err(&dedent(r#"
        id: t
        seq:
          - id: buf
            type: bytes
    "#));
    assert!(matches!(err, DoeError::FieldError { .. }));
}

// ── Realistic schemas ─────────────────────────────────────────────────────

#[test]
fn png_like_compiles() {
    let reg = compile(&dedent(r#"
        id: png
        meta:
          endian: be
        seq:
          - id: signature
            contents: [0x89, 0x50, 0x4e, 0x47, 0x0d, 0x0a, 0x1a, 0x0a]
          - id: chunks
            type: chunk
            repeat: eos
        types:
          chunk:
            seq:
              - id: length
                type: u32be
              - id: type
                type: str
                size: 4
                encoding: ascii
              - id: body
                type: bytes
                size: length
              - id: crc
                type: u32be
    "#));
    assert!(reg.contains("png"));
    assert!(reg.contains("png::chunk"));

    let chunk = reg.get("png::chunk").unwrap();
    assert_eq!(chunk.fields.len(), 4);

    // body.size should be dynamic (references `length`)
    assert!(matches!(
        chunk.fields[2].kind,
        FieldKind::Bytes {
            size: SizeExpr::Dynamic(_)
        }
    ));
}

#[test]
fn elf_like_compiles() {
    let reg = compile(&dedent(r#"
        id: elf
        seq:
          - id: header
            type: elf_header
        types:
          elf_header:
            seq:
              - id: magic
                contents: [0x7f, 0x45, 0x4c, 0x46]
              - id: bitness
                type: u8
                enum: bits_t
              - id: endian_byte
                type: u8
                enum: endian_t
              - id: pad
                type: bytes
                size: 9
              - id: e_type
                type: u16le
                enum: obj_type_t
              - id: machine
                type: u16le
            enums:
              bits_t:
                "1": b32
                "2": b64
              endian_t:
                "1": le
                "2": be
              obj_type_t:
                "0": no_file
                "2": exec
    "#));
    assert!(reg.contains("elf"));
    assert!(reg.contains("elf::elf_header"));
    let hdr = reg.get("elf::elf_header").unwrap();
    assert_eq!(hdr.enums.len(), 3);
    assert_eq!(hdr.enum_named("bits_t").unwrap().lookup(2), Some("b64"));
    assert_eq!(hdr.enum_named("obj_type_t").unwrap().lookup(2), Some("exec"));
}

// ── parse_enum_key ────────────────────────────────────────────────────────

#[test]
fn parse_enum_key_decimal() {
    assert_eq!(parse_enum_key("0"), Some(0));
    assert_eq!(parse_enum_key("255"), Some(255));
    assert_eq!(parse_enum_key("1"), Some(1));
}

#[test]
fn parse_enum_key_hex() {
    assert_eq!(parse_enum_key("0x00"), Some(0));
    assert_eq!(parse_enum_key("0xff"), Some(255));
    assert_eq!(parse_enum_key("0xFF"), Some(255));
    assert_eq!(parse_enum_key("0x10"), Some(16));
}

#[test]
fn parse_enum_key_invalid() {
    assert_eq!(parse_enum_key(""), None);
    assert_eq!(parse_enum_key("abc"), None);
    assert_eq!(parse_enum_key("0xgg"), None);
}

// ── Duplicate type detection ──────────────────────────────────────────────

#[test]
fn duplicate_top_level_id_from_different_files_is_error() {
    // Two separately loaded in-memory schemas with the same id but
    // different source_path values should be rejected.
        let mut schema_a = schema_from_yaml(&dedent(r#"
        id: my_type
        seq:
          - id: x
            type: u8
    "#));
    schema_a.source_path = Some("/types/a.yaml".to_string());

    let mut schema_b = schema_from_yaml(&dedent(r#"
        id: my_type
        seq:
          - id: y
            type: u16
    "#));
    schema_b.source_path = Some("/types/b.yaml".to_string());

    let mut compiler = Compiler::new(vec![]);
    compiler.process_schema(schema_a).unwrap();
    let err = compiler.process_schema(schema_b).unwrap_err();
    assert!(
        matches!(err, DoeError::DuplicateType { .. }),
        "expected DuplicateType, got {:?}",
        err
    );
    if let DoeError::DuplicateType {
        name,
        first,
        second,
    } = err
    {
        assert_eq!(name, "my_type");
        assert!(first.contains("a.yaml"), "first={}", first);
        assert!(second.contains("b.yaml"), "second={}", second);
    }
}

#[test]
fn same_schema_loaded_twice_via_import_is_idempotent() {
    // The same schema id from the same source is not a duplicate —
    // this happens when a schema is reachable via multiple import paths.
        let mut schema = schema_from_yaml(&dedent(r#"
        id: shared
        seq:
          - id: val
            type: u8
    "#));
    schema.source_path = Some("/types/shared.yaml".to_string());

    let mut compiler = Compiler::new(vec![]);
    compiler.process_schema(schema.clone()).unwrap();
    // Processing again with the same source path should succeed silently.
    compiler.process_schema(schema).unwrap();
    assert!(compiler.registry.contains("shared"));
}

// ── Loading schemas and their imports ────────────────────────────────────

fn request(step: LoadStep) -> (String, Vec<String>) {
    match step {
        LoadStep::NeedSchema(r) => (r.name, r.candidates),
        LoadStep::Done => panic!("expected a schema request"),
    }
}

#[test]
fn load_bare_name_requests_each_include_path() {
    let mut compiler = Compiler::new(vec!["/a".to_string(), "/b/".to_string()]);
    let (name, candidates) = request(compiler.load("png", None));
    assert_eq!(name, "png");
    assert_eq!(candidates, vec!["/a/png.yaml", "/b/png.yaml"]);
    assert!(compiler.is_awaiting());
}

#[test]
fn load_name_with_extension_keeps_it() {
    let mut compiler = Compiler::new(vec!["/a".to_string()]);
    let (_, candidates) = request(compiler.load("wav.yml", None));
    assert_eq!(candidates, vec!["/a/wav.yml"]);
}

#[test]
fn load_relative_path_requests_one_candidate() {
    let mut compiler = Compiler::new(vec!["/a".to_string()]);
    let (_, candidates) = request(compiler.load("./fmt.yaml", Some("/schemas")));
    assert_eq!(candidates, vec!["/schemas/./fmt.yaml"]);
    let (_, candidates) = request(compiler.load("../fmt.yaml", None));
    assert_eq!(candidates, vec!["./../fmt.yaml"]);
}

#[test]
fn supply_none_is_schema_not_found() {
    let mut compiler = Compiler::new(vec!["/a".to_string(), "/b".to_string()]);
    compiler.load("nothing", None);
    match compiler.supply(None) {
        Err(DoeError::SchemaNotFound { name, searched }) => {
            assert_eq!(name, "nothing");
            assert_eq!(searched, vec!["/a/nothing.yaml", "/b/nothing.yaml"]);
        }
        other => panic!("unexpected: {:?}", other),
    }
    assert!(!compiler.is_awaiting());
}

#[test]
fn supply_compiles_the_schema_read() {
    let mut compiler = Compiler::new(vec!["/a".to_string(), "/b".to_string()]);
    compiler.load("png", None);
    let schema = schema_from_yaml(&dedent(r#"
        id: png
        seq:
          - id: magic
            type: u8
    "#));
    let step = compiler.supply(Some((1, schema))).unwrap();
    assert!(matches!(step, LoadStep::Done));
    assert!(compiler.registry.contains("png"));
    assert!(!compiler.is_awaiting());
}

#[test]
fn imports_are_requested_and_compiled_in_turn() {
    let mut compiler = Compiler::new(vec!["/types".to_string()]);
    compiler.load("outer", None);
    let outer = schema_from_yaml(&dedent(r#"
        id: outer
        imports:
          - inner
        seq:
          - id: body
            type: inner
    "#));
    let (name, candidates) = request(compiler.supply(Some((0, outer))).unwrap());
    assert_eq!(name, "inner");
    assert_eq!(candidates, vec!["/types/inner.yaml"]);
    assert!(!compiler.registry.contains("outer"));
    let inner = schema_from_yaml(&dedent(r#"
        id: inner
        seq:
          - id: x
            type: u16
    "#));
    let step = compiler.supply(Some((0, inner))).unwrap();
    assert!(matches!(step, LoadStep::Done));
    assert!(compiler.registry.contains("inner"));
    let ty = compiler.registry.get("outer").unwrap();
    assert!(matches!(&ty.fields[0].kind, FieldKind::TypeRef { ty_name } if ty_name == "inner"));
}

#[test]
fn failing_import_fails_the_load_of_its_importer() {
    let mut compiler = Compiler::new(vec!["/types".to_string()]);
    compiler.load("outer", None);
    let outer = schema_from_yaml("id: outer\nimports: [inner]\nseq: []\n");
    request(compiler.supply(Some((0, outer))).unwrap());
    let inner = schema_from_yaml("id: inner\nseq:\n  - id: x\n    type: nosuch\n");
    let err = compiler.supply(Some((0, inner))).unwrap_err();
    assert!(matches!(err, DoeError::UnknownType { .. }));
    assert!(!compiler.is_awaiting());
    assert!(!compiler.registry.contains("outer"));
}

#[test]
fn relative_import_is_resolved_next_to_the_schema() {
    let mut compiler = Compiler::new(vec!["/types".to_string()]);
    compiler.load("outer", None);
    let outer = schema_from_yaml(&dedent(r#"
        id: outer
        imports:
          - ./shared.yaml
        seq: []
    "#));
    let (name, candidates) = request(compiler.supply(Some((0, outer))).unwrap());
    assert_eq!(name, "./shared.yaml");
    assert_eq!(candidates, vec!["/types/./shared.yaml"]);
}

#[test]
fn import_cycle_is_reported() {
    let mut compiler = Compiler::new(vec!["/t".to_string()]);
    compiler.load("a", None);
    let a = schema_from_yaml("id: a\nimports: [b]\nseq: []\n");
    request(compiler.supply(Some((0, a.clone()))).unwrap());
    let b = schema_from_yaml("id: b\nimports: [a]\nseq: []\n");
    request(compiler.supply(Some((0, b))).unwrap());
    match compiler.supply(Some((0, a))) {
        Err(DoeError::ImportCycle { cycle }) => assert_eq!(cycle, vec!["a", "b", "a"]),
        other => panic!("unexpected: {:?}", other),
    }
}

#[test]
fn process_schema_with_imports_asks_for_them() {
    let mut compiler = Compiler::new(vec!["/t".to_string()]);
    let mut schema = schema_from_yaml("id: top\nimports: [dep]\nseq: []\n");
    schema.source_path = Some("/work/top.yaml".to_string());
    let (name, candidates) = request(compiler.process_schema(schema).unwrap());
    assert_eq!(name, "dep");
    assert_eq!(candidates, vec!["/t/dep.yaml"]);
    let dep = schema_from_yaml("id: dep\nseq: []\n");
    assert!(matches!(compiler.supply(Some((0, dep))).unwrap(), LoadStep::Done));
    assert!(compiler.registry.contains("top"));
    assert!(compiler.registry.contains("dep"));
}

#[test]
fn bad_enum_key_is_reported_before_bad_fields() {
    let err = compile_err(&dedent(r#"
        id: t
        seq:
          - id: x
            type: nosuch
        enums:
          e:
            "zz": a
    "#));
    match err {
        DoeError::Schema(m) => assert_eq!(m, "enum 'e' in t: invalid key 'zz'"),
        other => panic!("unexpected: {:?}", other),
    }
}

#[test]
fn first_failing_field_is_reported() {
    let err = compile_err(&dedent(r#"
        id: t
        seq:
          - id: ok
            type: u8
          - id: first_bad
            type: nosuch
          - id: second_bad
            type: bytes
    "#));
    match err {
        DoeError::UnknownType { ty_name, context } => {
            assert_eq!(ty_name, "nosuch");
            assert_eq!(context, "t.first_bad");
        }
        other => panic!("unexpected: {:?}", other),
    }
}

#[test]
fn enum_key_reads_back_decimal_text() {
    for n in [0u64, 7, 10, 255, 4096, 1_000_000_007, u64::MAX] {
        assert_eq!(parse_enum_key(&n.to_string()), Some(n));
    }
    assert_eq!(parse_enum_key(" 42\t"), Some(42));
    assert_eq!(parse_enum_key("0x4d"), Some(0x4d));
    assert_eq!(parse_enum_key("18446744073709551616"), None);
}

#[test]
fn import_cycle_reports_only_the_cycle() {
    let mut compiler = Compiler::new(vec!["/t".to_string()]);
    let root = schema_from_yaml("id: root\nimports: [a]\nseq: []\n");
    request(compiler.process_schema(root).unwrap());
    let a = schema_from_yaml("id: a\nimports: [b]\nseq: []\n");
    request(compiler.supply(Some((0, a.clone()))).unwrap());
    let b = schema_from_yaml("id: b\nimports: [a]\nseq: []\n");
    request(compiler.supply(Some((0, b))).unwrap());
    match compiler.supply(Some((0, a))) {
        Err(DoeError::ImportCycle { cycle }) => assert_eq!(cycle, vec!["a", "b", "a"]),
        other => panic!("unexpected: {:?}", other),
    }
}

#[test]
fn relative_import_without_extension_gets_yaml() {
    let mut compiler = Compiler::new(vec!["/types".to_string()]);
    compiler.load("outer", None);
    let outer = schema_from_yaml("id: outer\nimports: [./shared_header]\nseq: []\n");
    let (name, candidates) = request(compiler.supply(Some((0, outer))).unwrap());
    assert_eq!(name, "./shared_header");
    assert_eq!(candidates, vec!["/types/./shared_header.yaml"]);
}

#[test]
fn failed_load_leaves_nothing_loading() {
    let mut compiler = Compiler::new(vec!["/t".to_string()]);
    let root = schema_from_yaml("id: root\nimports: [a]\nseq: []\n");
    request(compiler.process_schema(root.clone()).unwrap());
    assert!(compiler.supply(None).is_err());
    // Trying again starts afresh: no import cycle is reported.
    let (name, _) = request(compiler.process_schema(root).unwrap());
    assert_eq!(name, "a");
}

#[test]
fn importer_is_compiled_once_its_imports_are() {
    let mut compiler = Compiler::new(vec!["/t".to_string()]);
    let root = schema_from_yaml("id: root\nimports: [a]\nseq:\n  - id: x\n    type: a\n");
    request(compiler.process_schema(root).unwrap());
    let a = schema_from_yaml("id: a\nimports: [b]\nseq:\n  - id: y\n    type: b\n");
    request(compiler.supply(Some((0, a))).unwrap());
    let b = schema_from_yaml("id: b\nseq:\n  - id: z\n    type: u8\n");
    assert!(matches!(compiler.supply(Some((0, b))).unwrap(), LoadStep::Done));
    assert!(compiler.registry.contains("root"));
    assert!(compiler.registry.contains("a"));
    assert!(compiler.registry.contains("b"));
    assert!(!compiler.is_awaiting());
}
