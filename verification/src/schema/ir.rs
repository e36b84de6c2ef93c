//! Compiled intermediate representation.
//!
//! The IR is what the binary parser consumes.  All type references are
//! resolved, all expression strings are pre-parsed into ASTs, and all enum
//! keys are decoded into `u64`.
//!
//! Types are stored in a flat registry keyed by a fully-qualified name:
//! top-level types use their bare id (`"png"`), inline types are prefixed by
//! their parent (`"png::chunk"`, `"png::chunk::segment"`).

use vstd::prelude::*;
use std::collections::HashMap;
use indexmap::IndexMap;
use crate::schema::expr::Expr;

verus! {

broadcast use vstd::std_specs::hash::group_hash_axioms;

// ─────────────────────────────────────────────────────────────────────────────
// The outside map that holds the registry
// ─────────────────────────────────────────────────────────────────────────────

#[verifier::external_type_specification]
#[verifier::external_body]
#[verifier::reject_recursive_types(K)]
#[verifier::reject_recursive_types(V)]
#[verifier::reject_recursive_types(S)]
pub struct ExIndexMap<K, V, S>(IndexMap<K, V, S>);

/// The outside map type that holds compiled types by name.
pub type TypeMap = IndexMap<String, CompiledType>;

/// The key → value associations held by an `IndexMap` of compiled types,
/// keys taken by their character sequence.
pub uninterp spec fn registry_contents(m: TypeMap) -> Map<Seq<char>, CompiledType>;

/// The registry contents with no entries.
pub open spec fn no_types() -> Map<Seq<char>, CompiledType> {
    Map::empty()
}

/// `IndexMap::new`: a map with no entries.
#[verifier::external_body]
fn index_map_new() -> (res: TypeMap)
    ensures
        registry_contents(res) == no_types(),
{
    IndexMap::new()
}

/// `IndexMap::get`: the value stored under `key`, if any.
#[verifier::external_body]
fn index_map_get<'a>(m: &'a TypeMap, key: &str) -> (res: Option<
    &'a CompiledType,
>)
    ensures
        match res {
            Some(t) => registry_contents(*m).contains_key(key@) && *t == registry_contents(
                *m,
            )[key@],
            None => !registry_contents(*m).contains_key(key@),
        },
{
    m.get(key)
}

/// `IndexMap::contains_key`: whether an entry for `key` exists.
#[verifier::external_body]
fn index_map_contains_key(m: &TypeMap, key: &str) -> (res: bool)
    ensures
        res == registry_contents(*m).contains_key(key@),
{
    m.contains_key(key)
}

/// `IndexMap::insert`: stores `value` under `key`, replacing (and returning)
/// any value that was there.
#[verifier::external_body]
fn index_map_insert(m: &mut TypeMap, key: String, value: CompiledType) -> (res:
    Option<CompiledType>)
    ensures
        registry_contents(*final(m)) == registry_contents(*old(m)).insert(key@, value),
        match res {
            Some(v) => registry_contents(*old(m)).contains_key(key@) && v == registry_contents(
                *old(m),
            )[key@],
            None => !registry_contents(*old(m)).contains_key(key@),
        },
{
    m.insert(key, value)
}

// ─────────────────────────────────────────────────────────────────────────────
// Type registry
// ─────────────────────────────────────────────────────────────────────────────

/// The compiled, resolved representation of all loaded schemas.
#[derive(Debug)]
pub struct TypeRegistry {
    /// All known types, keyed by fully-qualified name, in insertion order.
    pub types: TypeMap,
}

impl View for TypeRegistry {
    type V = Map<Seq<char>, CompiledType>;

    open spec fn view(&self) -> Map<Seq<char>, CompiledType> {
        registry_contents(self.types)
    }
}

impl TypeRegistry {
    /// An empty registry.
    pub fn new() -> (res: Self)
        ensures
            res@ == Map::<Seq<char>, CompiledType>::empty(),
    {
        TypeRegistry { types: index_map_new() }
    }

    /// The type registered under `name`, if any.
    pub fn get(&self, name: &str) -> (res: Option<&CompiledType>)
        ensures
            match res {
                Some(t) => self@.contains_key(name@) && *t == self@[name@],
                None => !self@.contains_key(name@),
            },
    {
        index_map_get(&self.types, name)
    }

    /// Registers `ty` under `name`, replacing any earlier entry.
    pub fn insert(&mut self, name: String, ty: CompiledType)
        ensures
            final(self)@ == old(self)@.insert(name@, ty),
    {
        let _ = index_map_insert(&mut self.types, name, ty);
    }

    /// Is a type registered under `name`?
    pub fn contains(&self, name: &str) -> (res: bool)
        ensures
            res == self@.contains_key(name@),
    {
        index_map_contains_key(&self.types, name)
    }
}

impl Default for TypeRegistry {
    fn default() -> (res: Self)
        ensures
            res@ == Map::<Seq<char>, CompiledType>::empty(),
    {
        TypeRegistry::new()
    }
}

// ─────────────────────────────────────────────────────────────────────────────
// Compiled type
// ─────────────────────────────────────────────────────────────────────────────

/// A fully compiled struct-like type.
#[derive(Debug, Clone)]
pub struct CompiledType {
    /// Fully-qualified name, e.g. `"png"` or `"png::chunk"`.
    pub name: String,
    /// Optional human-readable description.
    pub doc: Option<String>,
    /// Default byte order for this type's fields.
    pub endian: Endian,
    /// Ordered list of fields.
    pub fields: Vec<CompiledField>,
    /// Enum definitions visible within this type, by name.  When a name
    /// occurs more than once the last entry is the one that counts.
    pub enums: Vec<(String, CompiledEnum)>,
}

/// The enum that `name` denotes in a list of named enums: the last entry
/// carrying that name.
pub open spec fn enum_entry(enums: Seq<(String, CompiledEnum)>, name: Seq<char>) -> Option<
    CompiledEnum,
>
    decreases enums.len(),
{
    if enums.len() == 0 {
        None
    } else if enums.last().0@ == name {
        Some(enums.last().1)
    } else {
        enum_entry(enums.drop_last(), name)
    }
}

impl CompiledType {
    /// The enum named `name` among this type's enums.
    pub fn enum_named(&self, name: &str) -> (res: Option<&CompiledEnum>)
        ensures
            match enum_entry(self.enums@, name@) {
                Some(e) => res == Some(&e),
                None => res is None,
            },
    {
        let mut i = self.enums.len();
        assert(self.enums@.subrange(0, i as int) =~= self.enums@);
        while i > 0
            invariant
                i <= self.enums@.len(),
                enum_entry(self.enums@, name@) == enum_entry(self.enums@.subrange(0, i as int), name@),
            decreases i,
        {
            let ghost sub = self.enums@.subrange(0, i as int);
            assert(sub.drop_last() =~= self.enums@.subrange(0, i - 1));
            if crate::schema::lexer::str_is(&self.enums[i - 1].0, name) {
                return Some(&self.enums[i - 1].1);
            }
            i = i - 1;
        }
        None
    }
}

// ─────────────────────────────────────────────────────────────────────────────
// Compiled field
// ─────────────────────────────────────────────────────────────────────────────

/// One compiled field of a type.
#[derive(Debug, Clone)]
pub struct CompiledField {
    pub id: String,
    pub doc: Option<String>,
    pub kind: FieldKind,
    pub repeat: RepeatMode,
    /// Compiled `if:` predicate, if present.
    pub if_expr: Option<Expr>,
    /// Name of the enum to apply, if present.
    pub enum_ref: Option<String>,
}

/// What a field holds and how it is read.
#[derive(Debug, Clone)]
pub enum FieldKind {
    /// A fixed-width unsigned integer.
    UInt { width: IntWidth, endian: EndianOverride },
    /// A fixed-width signed integer.
    SInt { width: IntWidth, endian: EndianOverride },
    /// IEEE 754 float.
    Float { width: FloatWidth },
    /// Raw byte sequence.
    Bytes { size: SizeExpr },
    /// String with a terminator or an explicit size.
    Str { size: StrSize, encoding: Encoding },
    /// Bit field.
    Bits { bit_size: u8 },
    /// A reference to another compiled type by its fully-qualified name.
    TypeRef { ty_name: String },
    /// Fixed literal content: the parser reads and checks exactly these bytes.
    Contents(Vec<u8>),
}

/// Integer byte widths.
#[derive(Debug, Clone, Copy, PartialEq, Eq, Structural)]
pub enum IntWidth {
    W8,
    W16,
    W32,
    W64,
}

/// The number of bytes of an integer width.
pub open spec fn int_width_bytes(w: IntWidth) -> nat {
    match w {
        IntWidth::W8 => 1,
        IntWidth::W16 => 2,
        IntWidth::W32 => 4,
        IntWidth::W64 => 8,
    }
}

impl IntWidth {
    /// The number of bytes this width occupies.
    pub fn bytes(self) -> (res: usize)
        ensures
            res == int_width_bytes(self),
    {
        match self {
            IntWidth::W8 => 1,
            IntWidth::W16 => 2,
            IntWidth::W32 => 4,
            IntWidth::W64 => 8,
        }
    }
}

/// Floating-point widths.
#[derive(Debug, Clone, Copy, PartialEq, Eq, Structural)]
pub enum FloatWidth {
    F32,
    F64,
}

/// The number of bytes of a floating-point width.
pub open spec fn float_width_bytes(w: FloatWidth) -> nat {
    match w {
        FloatWidth::F32 => 4,
        FloatWidth::F64 => 8,
    }
}

impl FloatWidth {
    /// The number of bytes this width occupies.
    pub fn bytes(self) -> (res: usize)
        ensures
            res == float_width_bytes(self),
    {
        match self {
            FloatWidth::F32 => 4,
            FloatWidth::F64 => 8,
        }
    }
}

/// Endianness selection for a specific field.
#[derive(Debug, Clone, Copy, PartialEq, Eq, Structural)]
pub enum EndianOverride {
    /// Use the type's (or schema's) default.
    Inherit,
    Little,
    Big,
}

/// Byte order resolved to a concrete value.
#[derive(Debug, Clone, Copy, PartialEq, Eq, Structural)]
pub enum Endian {
    Little,
    Big,
}

impl Default for Endian {
    fn default() -> (res: Self)
        ensures
            res == Endian::Little,
    {
        Endian::Little
    }
}

/// How many bytes to consume for a `bytes` or `str` field.
#[derive(Debug, Clone)]
pub enum SizeExpr {
    /// A compile-time constant.
    Literal(usize),
    /// An expression evaluated at parse time.
    Dynamic(Expr),
}

/// String termination or size strategy.
#[derive(Debug, Clone)]
pub enum StrSize {
    /// Read until this byte value; the terminator is consumed but is not part
    /// of the string.
    Terminator(u8),
    /// Read exactly this many bytes.
    Fixed(SizeExpr),
}

/// Character encodings of string fields.
#[derive(Debug, Clone, Copy, PartialEq, Eq, Structural)]
pub enum Encoding {
    Utf8,
    Ascii,
    Latin1,
}

impl Default for Encoding {
    fn default() -> (res: Self)
        ensures
            res == Encoding::Utf8,
    {
        Encoding::Utf8
    }
}

/// Repetition mode for a field.
#[derive(Debug, Clone)]
pub enum RepeatMode {
    /// Appear exactly once (default).
    Once,
    /// Repeat until the end of the stream.
    Eos,
    /// Repeat a number of times computed at parse time.
    Count(Expr),
    /// Repeat until the most recently parsed value satisfies a predicate.
    Until(Expr),
}

// ─────────────────────────────────────────────────────────────────────────────
// Compiled enum
// ─────────────────────────────────────────────────────────────────────────────

/// An enum: maps an integer discriminant to a variant name.
#[derive(Debug, Clone)]
pub struct CompiledEnum {
    pub variants: HashMap<u64, String>,
}

impl Default for CompiledEnum {
    fn default() -> (res: Self)
        ensures
            res.variants@ == Map::<u64, String>::empty(),
    {
        CompiledEnum { variants: HashMap::new() }
    }
}

impl CompiledEnum {
    /// The name of the variant with discriminant `v`, if there is one.
    pub fn lookup(&self, v: u64) -> (res: Option<&str>)
        ensures
            match res {
                Some(s) => self.variants@.contains_key(v) && s@ == self.variants@[v]@,
                None => !self.variants@.contains_key(v),
            },
    {
        match self.variants.get(&v) {
            Some(s) => Some(s.as_str()),
            None => None,
        }
    }
}

} // verus!
