//! Tests of the JSON renderer.

use doe::render::json::{hex_encode, to_json, Json};
use doe::value::{FloatBits, Value};
use serde_json::Value as JValue;


fn j(v: &Value) -> JValue {
    to_serde(to_json(v))
}

/// A JSON tree as a `serde_json` value, numbers that are not finite as
/// `null`.
fn to_serde(j: Json) -> JValue {
    match j {
        Json::Null => JValue::Null,
        Json::UInt(n) => JValue::from(n),
        Json::SInt(n) => JValue::from(n),
        Json::Float(FloatBits::F64(b)) => f64_json(f64::from_bits(b)),
        Json::Float(FloatBits::F32(b)) => f64_json(f32::from_bits(b) as f64),
        Json::Str(s) => JValue::String(s),
        Json::Array(items) => JValue::Array(items.into_iter().map(to_serde).collect()),
        Json::Object(members) => {
            let mut map = serde_json::Map::new();
            for (k, v) in members {
                map.insert(k, to_serde(v));
            }
            JValue::Object(map)
        }
    }
}

fn f64_json(f: f64) -> JValue {
    serde_json::Number::from_f64(f).map(JValue::Number).unwrap_or(JValue::Null)
}

fn render(v: &Value) -> String {
    j(v).to_string()
}

fn render_pretty(v: &Value) -> String {
    serde_json::to_string_pretty(&j(v)).unwrap_or_else(|_| "null".into())
}

fn fl(f: f64) -> Value {
    Value::Float(FloatBits::F64(f.to_bits()))
}

fn struct_val(name: &str, fields: Vec<(&str, Value)>) -> Value {
    Value::Struct {
        ty_name: name.into(),
        fields: fields.into_iter().map(|(k, v)| (k.into(), v)).collect(),
    }
}

// ── Scalars ───────────────────────────────────────────────────────────────

#[test]
fn uint_to_json() {
    assert_eq!(j(&Value::UInt(42)), JValue::from(42u64));
}

#[test]
fn uint_max_to_json() {
    let v = j(&Value::UInt(u64::MAX));
    assert_eq!(v, JValue::from(u64::MAX));
}

#[test]
fn sint_negative_to_json() {
    assert_eq!(j(&Value::SInt(-7)), JValue::from(-7i64));
}

#[test]
fn sint_min_to_json() {
    assert_eq!(j(&Value::SInt(i64::MIN)), JValue::from(i64::MIN));
}

#[test]
fn float_to_json() {
    let v = j(&fl(3.14));
    assert!(v.is_number());
    assert!((v.as_f64().unwrap() - 3.14).abs() < 1e-10);
}

#[test]
fn float_nan_becomes_null() {
    assert_eq!(j(&fl(f64::NAN)), JValue::Null);
}

#[test]
fn float_inf_becomes_null() {
    assert_eq!(j(&fl(f64::INFINITY)), JValue::Null);
}

#[test]
fn float_neg_inf_becomes_null() {
    assert_eq!(j(&fl(f64::NEG_INFINITY)), JValue::Null);
}

// ── Bytes ─────────────────────────────────────────────────────────────────

#[test]
fn bytes_has_hex_and_len() {
    let v = j(&Value::Bytes(vec![0xde, 0xad, 0xbe, 0xef]));
    assert_eq!(v["$type"], "bytes");
    assert_eq!(v["hex"], "deadbeef");
    assert_eq!(v["len"], 4);
}

#[test]
fn empty_bytes() {
    let v = j(&Value::Bytes(vec![]));
    assert_eq!(v["hex"], "");
    assert_eq!(v["len"], 0);
}

#[test]
fn bytes_hex_zero_padded() {
    let v = j(&Value::Bytes(vec![0x01, 0x0f]));
    assert_eq!(v["hex"], "010f");
}

// ── Strings ───────────────────────────────────────────────────────────────

#[test]
fn str_to_json_string() {
    assert_eq!(j(&Value::Str("hello".into())), JValue::from("hello"));
}

#[test]
fn empty_str() {
    assert_eq!(j(&Value::Str("".into())), JValue::from(""));
}

#[test]
fn str_with_unicode() {
    assert_eq!(j(&Value::Str("héllo".into())), JValue::from("héllo"));
}

// ── Enums ─────────────────────────────────────────────────────────────────

#[test]
fn enum_with_name() {
    let v = j(&Value::Enum {
        value: 2,
        name: Some("data".into()),
    });
    assert_eq!(v["$type"], "enum");
    assert_eq!(v["value"], 2u64);
    assert_eq!(v["name"], "data");
}

#[test]
fn enum_without_name() {
    let v = j(&Value::Enum {
        value: 99,
        name: None,
    });
    assert_eq!(v["$type"], "enum");
    assert_eq!(v["value"], 99u64);
    assert!(v["name"].is_null());
}

// ── Structs ───────────────────────────────────────────────────────────────

#[test]
fn struct_has_type_key() {
    let v = j(&struct_val("png", vec![]));
    assert_eq!(v["$type"], "png");
}

#[test]
fn struct_fields_present() {
    let v = j(&struct_val(
        "t",
        vec![("x", Value::UInt(1)), ("y", Value::UInt(2))],
    ));
    assert_eq!(v["x"], 1u64);
    assert_eq!(v["y"], 2u64);
}

#[test]
fn nested_struct() {
    let inner = Value::Struct {
        ty_name: "inner_t".into(),
        fields: vec![("val".into(), Value::UInt(7))],
    };
    let v = j(&struct_val("outer_t", vec![("child", inner)]));
    assert_eq!(v["$type"], "outer_t");
    assert_eq!(v["child"]["$type"], "inner_t");
    assert_eq!(v["child"]["val"], 7u64);
}

// ── Arrays ────────────────────────────────────────────────────────────────

#[test]
fn array_of_uints() {
    let v = j(&Value::Array(vec![
        Value::UInt(1),
        Value::UInt(2),
        Value::UInt(3),
    ]));
    assert_eq!(v, JValue::from(vec![1u64, 2u64, 3u64]));
}

#[test]
fn empty_array() {
    let v = j(&Value::Array(vec![]));
    assert_eq!(v, JValue::Array(vec![]));
}

#[test]
fn json_array_of_structs() {
    let v = j(&Value::Array(vec![
        struct_val("pt", vec![("x", Value::UInt(1)), ("y", Value::UInt(2))]),
        struct_val("pt", vec![("x", Value::UInt(3)), ("y", Value::UInt(4))]),
    ]));
    assert!(v.is_array());
    let arr = v.as_array().unwrap();
    assert_eq!(arr.len(), 2);
    assert_eq!(arr[0]["x"], 1u64);
    assert_eq!(arr[1]["y"], 4u64);
}

// ── Absent ────────────────────────────────────────────────────────────────

#[test]
fn absent_is_null() {
    assert_eq!(j(&Value::Absent), JValue::Null);
}

// ── render / render_pretty ────────────────────────────────────────────────

#[test]
fn render_produces_valid_json() {
    let v = struct_val("t", vec![("x", Value::UInt(1))]);
    let s = render(&v);
    let parsed: JValue = serde_json::from_str(&s).unwrap();
    assert_eq!(parsed["x"], 1u64);
}

#[test]
fn render_pretty_is_parseable() {
    let v = struct_val("t", vec![("x", Value::UInt(1))]);
    let s = render_pretty(&v);
    let parsed: JValue = serde_json::from_str(&s).unwrap();
    assert_eq!(parsed["$type"], "t");
}

#[test]
fn render_pretty_has_newlines() {
    let v = struct_val("t", vec![("x", Value::UInt(1))]);
    let s = render_pretty(&v);
    assert!(s.contains('\n'));
}

// ── hex_encode ────────────────────────────────────────────────────────────

#[test]
fn hex_encode_empty() {
    assert_eq!(hex_encode(&[]), "");
}
#[test]
fn hex_encode_single_byte() {
    assert_eq!(hex_encode(&[0xff]), "ff");
}
#[test]
fn hex_encode_zero_padded() {
    assert_eq!(hex_encode(&[0x0f]), "0f");
}
#[test]
fn hex_encode_multi() {
    assert_eq!(hex_encode(&[0xca, 0xfe]), "cafe");
}

// ── Realistic: PNG-like ───────────────────────────────────────────────────

#[test]
fn realistic_json_structure() {
    let v = Value::Struct {
        ty_name: "png".into(),
        fields: vec![
            (
                "signature".into(),
                Value::Bytes(vec![0x89, 0x50, 0x4e, 0x47, 0x0d, 0x0a, 0x1a, 0x0a]),
            ),
            (
                "chunks".into(),
                Value::Array(vec![Value::Struct {
                    ty_name: "png::chunk".into(),
                    fields: vec![
                        ("length".into(), Value::UInt(13)),
                        ("type".into(), Value::Str("IHDR".into())),
                        ("body".into(), Value::Bytes(vec![0u8; 13])),
                        ("crc".into(), Value::UInt(0xae426082)),
                    ],
                }]),
            ),
        ],
    };
    let json_str = render_pretty(&v);
    let parsed: JValue = serde_json::from_str(&json_str).unwrap();

    assert_eq!(parsed["$type"], "png");
    assert_eq!(parsed["signature"]["$type"], "bytes");
    assert_eq!(parsed["signature"]["len"], 8u64);
    assert_eq!(parsed["chunks"][0]["type"], "IHDR");
    assert_eq!(parsed["chunks"][0]["length"], 13u64);
}