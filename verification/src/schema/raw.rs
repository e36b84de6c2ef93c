//! Raw schema types: the schema file's structure, field by field.
//!
//! Nothing here is validated or resolved; the compiler turns these into the
//! typed IR of [`crate::schema::ir`].  Reading the schema file itself and
//! mapping its keys onto these types is done by the program around the
//! library.  Keyed blocks (`types:`, `enums:`) are kept as ordered lists of
//! `(key, value)` pairs in file order.

use vstd::prelude::*;
use crate::strutil::{decimal, u64_to_string};

verus! {

// ── Top-level schema ─────────────────────────────────────────────────────────

/// A complete schema file.
#[derive(Debug)]
pub struct RawSchema {
    /// The canonical identifier for this type (e.g. `png`).
    pub id: String,
    /// Human-readable description.
    pub doc: Option<String>,
    /// File-level metadata (endianness, etc.).
    pub meta: RawMeta,
    /// Schema names or relative paths to import.  A bare name such as
    /// `"zlib_block"` is resolved through include paths; a path starting with
    /// `"./"` or `"../"` is resolved relative to this file.
    pub imports: Vec<String>,
    /// The top-level field sequence — the root struct.
    pub seq: Vec<RawField>,
    /// Locally-defined sub-types, keyed by name.
    pub types: Vec<(String, RawTypeDecl)>,
    /// Enum definitions, keyed by name.
    pub enums: Vec<(String, RawEnum)>,
    /// Where this schema was read from; not part of the file itself.
    pub source_path: Option<String>,
}

// ── Meta ─────────────────────────────────────────────────────────────────────

/// File-level metadata.
#[derive(Debug, Clone, Copy)]
pub struct RawMeta {
    /// Default byte order for multi-byte integer fields.
    pub endian: Option<RawEndian>,
}

impl Default for RawMeta {
    fn default() -> (res: Self)
        ensures
            res.endian is None,
    {
        RawMeta { endian: None }
    }
}

/// Byte order as written in a schema (`le` / `be`).
#[derive(Debug, Clone, Copy, PartialEq, Eq, Structural)]
pub enum RawEndian {
    Le,
    Be,
}

impl Default for RawEndian {
    fn default() -> (res: Self)
        ensures
            res == RawEndian::Le,
    {
        RawEndian::Le
    }
}

// ── Field ────────────────────────────────────────────────────────────────────

/// One field in a `seq` list.
#[derive(Debug)]
pub struct RawField {
    /// Field identifier (used in expressions and output).
    pub id: String,
    /// Type name: a primitive name, a locally defined type, or an imported
    /// type.  Required unless `contents` is set.
    pub type_ref: Option<String>,
    /// Fixed literal contents; `type_ref` is ignored when set.
    pub contents: Option<RawContents>,
    /// Byte count: a literal integer or an expression over earlier fields.
    pub size: Option<StringOrInt>,
    /// For `str`: the byte value that terminates the string.
    pub terminator: Option<u8>,
    /// For `str`: character encoding (default `utf8`).
    pub encoding: Option<RawEncoding>,
    /// For `bits`: how many bits to consume.
    pub bit_size: Option<u8>,
    /// Repetition mode.
    pub repeat: Option<RawRepeat>,
    /// Repeat count expression for `repeat: expr`.
    pub repeat_expr: Option<String>,
    /// Stop condition for `repeat: until`.
    pub repeat_until: Option<String>,
    /// Condition; the field is skipped when it evaluates to zero.
    pub if_expr: Option<String>,
    /// Name of an enum defined in the nearest enclosing `enums:` block.
    pub enum_ref: Option<String>,
    /// Human-readable description.
    pub doc: Option<String>,
}

/// The `contents` value: a byte array or a plain string.
#[derive(Debug)]
pub enum RawContents {
    Bytes(Vec<u8>),
    Str(String),
}

/// A value written either as a bare integer (`12`) or as a string
/// (`"length"`).
#[derive(Debug)]
pub enum StringOrInt {
    Int(u64),
    Str(String),
}

impl StringOrInt {
    /// The value as text: an integer in decimal, a string as it is.
    pub fn as_str(&self) -> (res: String)
        ensures
            res@ == match *self {
                StringOrInt::Int(n) => decimal(n as nat),
                StringOrInt::Str(s) => s@,
            },
    {
        match self {
            StringOrInt::Int(n) => u64_to_string(*n),
            StringOrInt::Str(s) => s.clone(),
        }
    }
}

/// Character encodings as written in a schema.
#[derive(Debug, Clone, Copy, PartialEq, Eq, Structural)]
pub enum RawEncoding {
    Utf8,
    Ascii,
    Latin1,
}

impl Default for RawEncoding {
    fn default() -> (res: Self)
        ensures
            res == RawEncoding::Utf8,
    {
        RawEncoding::Utf8
    }
}

/// Repetition modes as written in a schema.
#[derive(Debug, Clone, Copy, PartialEq, Eq, Structural)]
pub enum RawRepeat {
    /// Repeat until end of stream.
    Eos,
    /// Repeat a number of times given by `repeat-expr`.
    Expr,
    /// Repeat until the last parsed value satisfies `repeat-until`.
    Until,
}

// ── Sub-type declaration ─────────────────────────────────────────────────────

/// An inline type definition inside a `types:` block.
#[derive(Debug)]
pub struct RawTypeDecl {
    pub doc: Option<String>,
    pub seq: Vec<RawField>,
    /// Types can nest types.
    pub types: Vec<(String, RawTypeDecl)>,
    /// Types can also define local enums.
    pub enums: Vec<(String, RawEnum)>,
}

// ── Copies ───────────────────────────────────────────────────────────────────

/// The two `contents:` values hold the same bytes or text.
pub open spec fn same_contents(a: RawContents, b: RawContents) -> bool {
    match (a, b) {
        (RawContents::Bytes(x), RawContents::Bytes(y)) => x@ == y@,
        (RawContents::Str(x), RawContents::Str(y)) => x == y,
        _ => false,
    }
}

/// The two fields are written the same way.
pub open spec fn same_field(a: RawField, b: RawField) -> bool {
    &&& a.id == b.id
    &&& a.type_ref == b.type_ref
    &&& match (a.contents, b.contents) {
        (Some(x), Some(y)) => same_contents(x, y),
        (None, None) => true,
        _ => false,
    }
    &&& a.size == b.size
    &&& a.terminator == b.terminator
    &&& a.encoding == b.encoding
    &&& a.bit_size == b.bit_size
    &&& a.repeat == b.repeat
    &&& a.repeat_expr == b.repeat_expr
    &&& a.repeat_until == b.repeat_until
    &&& a.if_expr == b.if_expr
    &&& a.enum_ref == b.enum_ref
    &&& a.doc == b.doc
}

/// The two enum lists have the same names and entries.
pub open spec fn same_enums(a: Seq<(String, RawEnum)>, b: Seq<(String, RawEnum)>) -> bool {
    &&& a.len() == b.len()
    &&& forall|i: int| 0 <= i < a.len() ==> #[trigger] a[i].0 == b[i].0 && a[i].1@ == b[i].1@
}

/// The two declarations are written the same way, nested ones included.
pub open spec fn same_decl(a: RawTypeDecl, b: RawTypeDecl) -> bool
    decreases a, 1nat,
{
    &&& a.doc == b.doc
    &&& a.seq@.len() == b.seq@.len()
    &&& (forall|i: int| 0 <= i < a.seq@.len() ==> same_field(#[trigger] a.seq@[i], b.seq@[i]))
    &&& same_decls(a.types@, b.types@)
    &&& same_enums(a.enums@, b.enums@)
}

/// The two lists of named declarations are written the same way.
pub open spec fn same_decls(a: Seq<(String, RawTypeDecl)>, b: Seq<(String, RawTypeDecl)>) -> bool
    decreases a, 0nat,
{
    if a.len() == 0 {
        b.len() == 0
    } else {
        b.len() == a.len() && same_decls(a.drop_last(), b.drop_last()) && a.last().0 == b.last().0
            && same_decl(a.last().1, b.last().1)
    }
}

fn copy_text(t: &Option<String>) -> (res: Option<String>)
    ensures
        res == *t,
{
    match t {
        Some(s) => Some(s.clone()),
        None => None,
    }
}

impl Clone for RawContents {
    fn clone(&self) -> (res: Self)
        ensures
            same_contents(*self, res),
    {
        match self {
            RawContents::Bytes(b) => {
                let mut out: Vec<u8> = Vec::new();
                let mut i: usize = 0;
                while i < b.len()
                    invariant
                        i <= b@.len(),
                        out@ == b@.subrange(0, i as int),
                    decreases b@.len() - i,
                {
                    out.push(b[i]);
                    i = i + 1;
                    assert(out@ =~= b@.subrange(0, i as int));
                }
                assert(b@.subrange(0, b@.len() as int) =~= b@);
                RawContents::Bytes(out)
            },
            RawContents::Str(t) => RawContents::Str(t.clone()),
        }
    }
}

impl Clone for StringOrInt {
    fn clone(&self) -> (res: Self)
        ensures
            res == *self,
    {
        match self {
            StringOrInt::Int(n) => StringOrInt::Int(*n),
            StringOrInt::Str(t) => StringOrInt::Str(t.clone()),
        }
    }
}

impl Clone for RawField {
    fn clone(&self) -> (res: Self)
        ensures
            same_field(*self, res),
    {
        RawField {
            id: self.id.clone(),
            type_ref: copy_text(&self.type_ref),
            contents: match &self.contents {
                Some(c) => Some(c.clone()),
                None => None,
            },
            size: match &self.size {
                Some(z) => Some(z.clone()),
                None => None,
            },
            terminator: self.terminator,
            encoding: self.encoding,
            bit_size: self.bit_size,
            repeat: self.repeat,
            repeat_expr: copy_text(&self.repeat_expr),
            repeat_until: copy_text(&self.repeat_until),
            if_expr: copy_text(&self.if_expr),
            enum_ref: copy_text(&self.enum_ref),
            doc: copy_text(&self.doc),
        }
    }
}

fn copy_entries(v: &Vec<(String, String)>) -> (res: Vec<(String, String)>)
    ensures
        res@ == v@,
{
    let mut out: Vec<(String, String)> = Vec::new();
    let mut i: usize = 0;
    while i < v.len()
        invariant
            i <= v@.len(),
            out@ == v@.subrange(0, i as int),
        decreases v@.len() - i,
    {
        out.push((v[i].0.clone(), v[i].1.clone()));
        i = i + 1;
        assert(out@ =~= v@.subrange(0, i as int));
    }
    assert(v@.subrange(0, v@.len() as int) =~= v@);
    out
}

fn copy_enums(v: &Vec<(String, RawEnum)>) -> (res: Vec<(String, RawEnum)>)
    ensures
        same_enums(v@, res@),
{
    let mut out: Vec<(String, RawEnum)> = Vec::new();
    let mut i: usize = 0;
    while i < v.len()
        invariant
            i <= v@.len(),
            out@.len() == i,
            forall|k: int| 0 <= k < i ==> #[trigger] v@[k].0 == out@[k].0 && v@[k].1@ == out@[k].1@,
        decreases v@.len() - i,
    {
        let name = v[i].0.clone();
        let entries = copy_entries(&v[i].1);
        let ghost prev = out@;
        out.push((name, entries));
        proof {
            assert forall|k: int| 0 <= k < i + 1 implies #[trigger] v@[k].0 == out@[k].0 && v@[k].1@
                == out@[k].1@ by {
                if k < i {
                    assert(out@[k] == prev[k]);
                }
            }
        }
        i = i + 1;
    }
    out
}

fn copy_fields(v: &Vec<RawField>) -> (res: Vec<RawField>)
    ensures
        res@.len() == v@.len(),
        forall|k: int| 0 <= k < v@.len() ==> same_field(#[trigger] v@[k], res@[k]),
{
    let mut out: Vec<RawField> = Vec::new();
    let mut i: usize = 0;
    while i < v.len()
        invariant
            i <= v@.len(),
            out@.len() == i,
            forall|k: int| 0 <= k < i ==> same_field(#[trigger] v@[k], out@[k]),
        decreases v@.len() - i,
    {
        out.push(v[i].clone());
        i = i + 1;
    }
    out
}

impl Clone for RawTypeDecl {
    fn clone(&self) -> (res: Self)
        ensures
            same_decl(*self, res),
        decreases self,
    {
        let mut types: Vec<(String, RawTypeDecl)> = Vec::new();
        let mut i: usize = 0;
        while i < self.types.len()
            invariant
                i <= self.types@.len(),
                same_decls(self.types@.subrange(0, i as int), types@),
            decreases self.types@.len() - i,
        {
            proof {
                assert(decreases_to!(self => self.types));
                assert(decreases_to!(self.types => self.types@));
                assert(decreases_to!(self.types@ => self.types@[i as int]));
            }
            let entry = &self.types[i];
            let inner: RawTypeDecl = entry.1.clone();
            let ghost prev = types@;
            types.push((entry.0.clone(), inner));
            proof {
                let sub = self.types@.subrange(0, i + 1);
                assert(sub.drop_last() =~= self.types@.subrange(0, i as int));
                assert(types@.drop_last() =~= prev);
            }
            i = i + 1;
        }
        assert(self.types@.subrange(0, self.types@.len() as int) =~= self.types@);
        RawTypeDecl { doc: copy_text(&self.doc), seq: copy_fields(&self.seq), types, enums: copy_enums(&self.enums) }
    }
}

/// The two schemas are written the same way and come from the same place.
pub open spec fn same_schema(a: RawSchema, b: RawSchema) -> bool {
    &&& a.id == b.id
    &&& a.doc == b.doc
    &&& a.meta == b.meta
    &&& a.imports@ == b.imports@
    &&& a.seq@.len() == b.seq@.len()
    &&& (forall|i: int| 0 <= i < a.seq@.len() ==> same_field(#[trigger] a.seq@[i], b.seq@[i]))
    &&& same_decls(a.types@, b.types@)
    &&& same_enums(a.enums@, b.enums@)
    &&& a.source_path == b.source_path
}

fn copy_names(v: &Vec<String>) -> (res: Vec<String>)
    ensures
        res@ == v@,
{
    let mut out: Vec<String> = Vec::new();
    let mut i: usize = 0;
    while i < v.len()
        invariant
            i <= v@.len(),
            out@ == v@.subrange(0, i as int),
        decreases v@.len() - i,
    {
        out.push(v[i].clone());
        i = i + 1;
        assert(out@ =~= v@.subrange(0, i as int));
    }
    assert(v@.subrange(0, v@.len() as int) =~= v@);
    out
}

impl Clone for RawSchema {
    fn clone(&self) -> (res: Self)
        ensures
            same_schema(*self, res),
    {
        let mut types: Vec<(String, RawTypeDecl)> = Vec::new();
        let mut i: usize = 0;
        while i < self.types.len()
            invariant
                i <= self.types@.len(),
                same_decls(self.types@.subrange(0, i as int), types@),
            decreases self.types@.len() - i,
        {
            let entry = &self.types[i];
            let inner: RawTypeDecl = entry.1.clone();
            let ghost prev = types@;
            types.push((entry.0.clone(), inner));
            proof {
                let sub = self.types@.subrange(0, i + 1);
                assert(sub.drop_last() =~= self.types@.subrange(0, i as int));
                assert(types@.drop_last() =~= prev);
            }
            i = i + 1;
        }
        assert(self.types@.subrange(0, self.types@.len() as int) =~= self.types@);
        RawSchema {
            id: self.id.clone(),
            doc: copy_text(&self.doc),
            meta: self.meta,
            imports: copy_names(&self.imports),
            seq: copy_fields(&self.seq),
            types,
            enums: copy_enums(&self.enums),
            source_path: copy_text(&self.source_path),
        }
    }
}

// ── Enum definition ──────────────────────────────────────────────────────────

/// An enum definition: discriminant keys as written (decimal such as `1`, or
/// hex such as `0x4d`) paired with variant names.
pub type RawEnum = Vec<(String, String)>;

} // verus!
