//! Tests of the raw schema types.

use doe::schema::raw::{RawContents, RawEncoding, RawEndian, RawField, RawMeta, RawSchema, RawTypeDecl, StringOrInt};

#[test]
fn string_or_int_as_str() {
    assert_eq!(StringOrInt::Int(42).as_str(), "42");
    assert_eq!(StringOrInt::Str("foo".into()).as_str(), "foo");
}

#[test]
fn string_or_int_extremes() {
    assert_eq!(StringOrInt::Int(0).as_str(), "0");
    assert_eq!(StringOrInt::Int(u64::MAX).as_str(), "18446744073709551615");
}

#[test]
fn raw_defaults() {
    assert!(RawMeta::default().endian.is_none());
    assert_eq!(RawEndian::default(), RawEndian::Le);
    assert_eq!(RawEncoding::default(), RawEncoding::Utf8);
}

#[test]
fn schema_clone_keeps_every_part() {
    let field = RawField {
        id: "magic".into(),
        type_ref: None,
        contents: Some(RawContents::Bytes(vec![0x7f, 0x45])),
        size: None,
        terminator: None,
        encoding: None,
        bit_size: None,
        repeat: None,
        repeat_expr: None,
        repeat_until: None,
        if_expr: None,
        enum_ref: None,
        doc: Some("marker".into()),
    };
    let decl = RawTypeDecl { doc: None, seq: vec![], types: vec![], enums: vec![] };
    let schema = RawSchema {
        id: "elf".into(),
        doc: Some("ELF".into()),
        meta: RawMeta { endian: Some(RawEndian::Be) },
        imports: vec!["common".into()],
        seq: vec![field],
        types: vec![("header".into(), decl)],
        enums: vec![("class".into(), vec![("1".into(), "elf32".into())])],
        source_path: Some("/t/elf.yaml".into()),
    };
    let copy = schema.clone();
    assert_eq!(copy.id, "elf");
    assert_eq!(copy.doc.as_deref(), Some("ELF"));
    assert_eq!(copy.meta.endian, Some(RawEndian::Be));
    assert_eq!(copy.imports, vec!["common".to_string()]);
    assert_eq!(copy.seq.len(), 1);
    assert!(matches!(&copy.seq[0].contents, Some(RawContents::Bytes(b)) if b == &vec![0x7f, 0x45]));
    assert_eq!(copy.types[0].0, "header");
    assert_eq!(copy.enums[0].1[0].1, "elf32");
    assert_eq!(copy.source_path.as_deref(), Some("/t/elf.yaml"));
}
