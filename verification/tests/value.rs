//! Tests of parsed values and their single-line display.

use doe::render::text::{display_value, TextPiece};
use doe::value::{FloatBits, Value};

fn f64_bits(f: f64) -> FloatBits {
    FloatBits::F64(f.to_bits())
}

/// The display of a value as text, floating-point numbers written the
/// standard way.
fn show(v: &Value) -> String {
    let mut s = String::new();
    for p in display_value(v) {
        match p {
            TextPiece::Text(t) => s.push_str(&t),
            TextPiece::Float(FloatBits::F64(b)) => s.push_str(&format!("{}", f64::from_bits(b))),
            TextPiece::Float(FloatBits::F32(b)) => s.push_str(&format!("{}", f32::from_bits(b) as f64)),
        }
    }
    s
}


// ── as_int ────────────────────────────────────────────────────────────────

#[test]
fn as_int_uint() {
    assert_eq!(Value::UInt(42).as_int(), Some(42));
}
#[test]
fn as_int_sint() {
    assert_eq!(Value::SInt(-7).as_int(), Some(-7));
}
#[test]
fn as_int_enum_named() {
    let v = Value::Enum {
        value: 2,
        name: Some("data".into()),
    };
    assert_eq!(v.as_int(), Some(2));
}
#[test]
fn as_int_enum_unnamed() {
    let v = Value::Enum { value: 99, name: None };
    assert_eq!(v.as_int(), Some(99));
}
#[test]
fn as_int_float_is_none() {
    assert_eq!(Value::Float(f64_bits(1.0)).as_int(), None);
}
#[test]
fn as_int_bytes_is_none() {
    assert_eq!(Value::Bytes(vec![]).as_int(), None);
}
#[test]
fn as_int_str_is_none() {
    assert_eq!(Value::Str("x".into()).as_int(), None);
}
#[test]
fn as_int_absent_is_none() {
    assert_eq!(Value::Absent.as_int(), None);
}

// ── byte_len ──────────────────────────────────────────────────────────────

#[test]
fn byte_len_bytes() {
    assert_eq!(Value::Bytes(vec![1, 2, 3]).byte_len(), Some(3));
}
#[test]
fn byte_len_str() {
    assert_eq!(Value::Str("hello".into()).byte_len(), Some(5));
}
#[test]
fn byte_len_uint_is_none() {
    assert_eq!(Value::UInt(1).byte_len(), None);
}

// ── is_truthy ─────────────────────────────────────────────────────────────

#[test]
fn truthy_nonzero_uint() {
    assert!(Value::UInt(1).is_truthy());
}
#[test]
fn falsy_zero_uint() {
    assert!(!Value::UInt(0).is_truthy());
}
#[test]
fn truthy_nonzero_sint() {
    assert!(Value::SInt(-1).is_truthy());
}
#[test]
fn falsy_zero_sint() {
    assert!(!Value::SInt(0).is_truthy());
}
#[test]
fn truthy_enum_nonzero() {
    assert!(Value::Enum { value: 1, name: None }.is_truthy());
}
#[test]
fn falsy_float() {
    assert!(!Value::Float(f64_bits(1.0)).is_truthy());
}
#[test]
fn falsy_bytes() {
    assert!(!Value::Bytes(vec![1]).is_truthy());
}
#[test]
fn falsy_absent() {
    assert!(!Value::Absent.is_truthy());
}

// ── is_absent ─────────────────────────────────────────────────────────────

#[test]
fn absent_is_absent() {
    assert!(Value::Absent.is_absent());
}
#[test]
fn uint_is_not_absent() {
    assert!(!Value::UInt(0).is_absent());
}

// ── ty_name ─────────────────────────────────────────────────────────────

#[test]
fn type_name_variants() {
    assert_eq!(Value::UInt(0).ty_name(), "uint");
    assert_eq!(Value::SInt(0).ty_name(), "sint");
    assert_eq!(Value::Float(f64_bits(0.0)).ty_name(), "float");
    assert_eq!(Value::Bytes(vec![]).ty_name(), "bytes");
    assert_eq!(Value::Str("".into()).ty_name(), "str");
    assert_eq!(
        Value::Enum {
            value: 0,
            name: None
        }
        .ty_name(),
        "enum"
    );
    assert_eq!(
        Value::Struct {
            ty_name: "t".into(),
            fields: vec![]
        }
        .ty_name(),
        "struct"
    );
    assert_eq!(Value::Array(vec![]).ty_name(), "array");
    assert_eq!(Value::Absent.ty_name(), "absent");
}

// ── Display ───────────────────────────────────────────────────────────────

#[test]
fn display_uint() {
    assert_eq!(show(&Value::UInt(255)), "255");
}
#[test]
fn display_sint() {
    assert_eq!(show(&Value::SInt(-1)), "-1");
}
#[test]
fn display_float() {
    assert_eq!(show(&Value::Float(f64_bits(3.14))), "3.14");
}
#[test]
fn display_bytes() {
    assert_eq!(show(&Value::Bytes(vec![0; 8])), "<8 bytes>");
}
#[test]
fn display_str() {
    assert_eq!(show(&Value::Str("hi".into())), "\"hi\"");
}
#[test]
fn display_enum_named() {
    let v = Value::Enum {
        value: 1,
        name: Some("header".into()),
    };
    assert_eq!(show(&v), "header (1)");
}
#[test]
fn display_enum_unnamed() {
    let v = Value::Enum {
        value: 42,
        name: None,
    };
    assert_eq!(show(&v), "42");
}
#[test]
fn display_struct() {
    let v = Value::Struct {
        ty_name: "png::chunk".into(),
        fields: vec![],
    };
    assert_eq!(show(&v), "<png::chunk>");
}
#[test]
fn display_array() {
    assert_eq!(
        show(&Value::Array(vec![Value::UInt(1), Value::UInt(2)])),
        "[2 items]"
    );
}
#[test]
fn display_absent() {
    assert_eq!(show(&Value::Absent), "<absent>");
}

// ── Clone + PartialEq ─────────────────────────────────────────────────────

#[test]
fn clone_and_eq_uint() {
    let v = Value::UInt(7);
    assert_eq!(v.clone(), v);
}
#[test]
fn clone_and_eq_struct() {
    let v = Value::Struct {
        ty_name: "t".into(),
        fields: vec![("x".into(), Value::UInt(1))],
    };
    assert_eq!(v.clone(), v);
}