//! Schema compiler: turns raw schemas into a [`TypeRegistry`].
//!
//! Compilation of a schema proceeds in passes:
//!
//! 1. **Load** — schemas named in `imports:` are requested from the program
//!    around the library (which reads them from disk) and processed first,
//!    depth-first, with cycle detection.
//! 2. **Collect** — every type name the schema defines (fully-qualified) is
//!    registered, so forward references within a schema resolve.
//! 3. **Resolve** — each type's fields are compiled: type references are
//!    looked up, expressions parsed, enum keys decoded.
//! 4. **Validate** — `size` expressions may only reference fields that
//!    appear earlier in the same `seq`.

use vstd::prelude::*;
use crate::error::DoeError;
use crate::schema::expr::{is_parse_error_in, parse, spec_parse, Expr, ExprV};
use crate::schema::ir::{
    enum_entry, CompiledEnum, CompiledField, CompiledType, Encoding, Endian, EndianOverride,
    FieldKind, FloatWidth, IntWidth, RepeatMode, SizeExpr, StrSize, TypeRegistry, float_width_bytes,
    int_width_bytes,
};
use crate::schema::lexer::{digit_val, digit_value, digits_value, is_digit, is_hex_digit, literal_char, str_is};
use crate::schema::raw::{
    RawContents, RawEncoding, RawEndian, RawEnum, RawField, RawRepeat, RawSchema, RawTypeDecl,
    StringOrInt,
};
use crate::strutil::{chars_of, decimal, digit_char, push_char, push_str};

verus! {

broadcast use vstd::std_specs::hash::group_hash_axioms;

// ─────────────────────────────────────────────────────────────────────────────
// Small conversions
// ─────────────────────────────────────────────────────────────────────────────

/// An empty placeholder type, registered while names are collected.
pub open spec fn is_placeholder(t: CompiledType, fqn: Seq<char>) -> bool {
    &&& t.name@ == fqn
    &&& t.doc is None
    &&& t.endian == Endian::Little
    &&& t.fields@.len() == 0
    &&& t.enums@.len() == 0
}

fn placeholder(fqn: &str) -> (res: CompiledType)
    ensures
        is_placeholder(res, fqn@),
{
    CompiledType {
        name: fqn.to_owned(),
        doc: None,
        endian: Endian::Little,
        fields: Vec::new(),
        enums: Vec::new(),
    }
}

/// The byte order a schema's `meta: endian` stands for.
pub open spec fn endian_of(e: RawEndian) -> Endian {
    match e {
        RawEndian::Le => Endian::Little,
        RawEndian::Be => Endian::Big,
    }
}

fn raw_endian_to_ir(e: RawEndian) -> (res: Endian)
    ensures
        res == endian_of(e),
{
    match e {
        RawEndian::Le => Endian::Little,
        RawEndian::Be => Endian::Big,
    }
}

/// The encoding a field's `encoding:` stands for (UTF-8 when absent).
pub open spec fn encoding_of(enc: Option<RawEncoding>) -> Encoding {
    match enc {
        None => Encoding::Utf8,
        Some(RawEncoding::Utf8) => Encoding::Utf8,
        Some(RawEncoding::Ascii) => Encoding::Ascii,
        Some(RawEncoding::Latin1) => Encoding::Latin1,
    }
}

fn compile_encoding(enc: Option<RawEncoding>) -> (res: Encoding)
    ensures
        res == encoding_of(enc),
{
    match enc {
        None => Encoding::Utf8,
        Some(RawEncoding::Utf8) => Encoding::Utf8,
        Some(RawEncoding::Ascii) => Encoding::Ascii,
        Some(RawEncoding::Latin1) => Encoding::Latin1,
    }
}

/// `e` is a field error of field `field` in `context` with message `msg`.
pub open spec fn is_field_error(e: DoeError, field: Seq<char>, context: Seq<char>, msg: Seq<char>) -> bool {
    e matches DoeError::FieldError { field: f, context: c, message: m } && f@ == field && c@ == context
        && m@ == msg
}

fn field_error(field: &str, context: &str, msg: &str) -> (res: DoeError)
    ensures
        is_field_error(res, field@, context@, msg@),
{
    DoeError::FieldError { field: field.to_owned(), context: context.to_owned(), message: msg.to_owned() }
}

// ─────────────────────────────────────────────────────────────────────────────
// Enum keys
// ─────────────────────────────────────────────────────────────────────────────

/// Unicode white space, as `char::is_whitespace` defines it.
pub open spec fn is_space(c: char) -> bool {
    c == '\t' || c == '\n' || c == '\u{0B}' || c == '\u{0C}' || c == '\r' || c == ' ' || c == '\u{85}'
        || c == '\u{A0}' || c == '\u{1680}' || ('\u{2000}' <= c && c <= '\u{200A}') || c == '\u{2028}'
        || c == '\u{2029}' || c == '\u{202F}' || c == '\u{205F}' || c == '\u{3000}'
}

/// `s` without leading white space.
pub open spec fn trim_front(s: Seq<char>) -> Seq<char>
    decreases s.len(),
{
    if s.len() > 0 && is_space(s[0]) {
        trim_front(s.drop_first())
    } else {
        s
    }
}

/// `s` without trailing white space.
pub open spec fn trim_back(s: Seq<char>) -> Seq<char>
    decreases s.len(),
{
    if s.len() > 0 && is_space(s.last()) {
        trim_back(s.drop_last())
    } else {
        s
    }
}

/// `s` without leading or trailing white space.
pub open spec fn trimmed(s: Seq<char>) -> Seq<char> {
    trim_back(trim_front(s))
}

/// Is `c` a digit of the given radix (10 or 16)?
pub open spec fn is_radix_digit(c: char, radix: nat) -> bool {
    if radix == 16 { is_hex_digit(c) } else { is_digit(c) }
}

/// The digits of an unsigned number: an optional `+` (followed by at least
/// one more character), then the rest.
pub open spec fn unsigned_digits(s: Seq<char>) -> Seq<char> {
    if s.len() > 1 && s[0] == '+' { s.drop_first() } else { s }
}

/// How `u64::from_str_radix` reads `s`: an optional `+`, then at least one
/// digit of the radix, the whole having a value that fits in a `u64`.
pub open spec fn parse_u64_spec(s: Seq<char>, radix: nat) -> Option<u64> {
    let d = unsigned_digits(s);
    if d.len() > 0 && (forall|i: int| 0 <= i < d.len() ==> is_radix_digit(#[trigger] d[i], radix))
        && digits_value(d, radix) <= u64::MAX {
        Some(digits_value(d, radix) as u64)
    } else {
        None
    }
}

/// Does `s` start with `0x` or `0X`?
pub open spec fn has_hex_prefix(s: Seq<char>) -> bool {
    s.len() >= 2 && s[0] == '0' && (s[1] == 'x' || s[1] == 'X')
}

/// An enum discriminant key: decimal, or hexadecimal after `0x` / `0X`,
/// surrounding white space ignored.
pub open spec fn enum_key_spec(s: Seq<char>) -> Option<u64> {
    let t = trimmed(s);
    if has_hex_prefix(t) {
        parse_u64_spec(t.subrange(2, t.len() as int), 16)
    } else {
        parse_u64_spec(t, 10)
    }
}

proof fn lemma_digit_char_value(k: nat)
    requires
        k < 10,
    ensures
        is_digit(digit_char(k)),
        digit_value(digit_char(k)) == k,
        !is_space(digit_char(k)),
        digit_char(k) != '+',
        k > 0 ==> digit_char(k) != '0',
{
}

proof fn lemma_decimal_digits(n: nat)
    ensures
        decimal(n).len() > 0,
        forall|i: int| 0 <= i < decimal(n).len() ==> is_digit(#[trigger] decimal(n)[i]),
        digits_value(decimal(n), 10) == n,
        n >= 10 ==> decimal(n)[0] != '0',
        decimal(n)[0] != '+',
        forall|i: int| 0 <= i < decimal(n).len() ==> !is_space(#[trigger] decimal(n)[i]),
    decreases n,
{
    let d = decimal(n);
    lemma_digit_char_value(n % 10);
    if n < 10 {
        assert(d == seq![digit_char(n)]);
        assert(d.drop_last() =~= Seq::<char>::empty());
        assert(d.last() == digit_char(n));
        assert(digits_value(d, 10) == digits_value(d.drop_last(), 10) * 10 + digit_value(d.last()));
    }
    if n >= 10 {
        lemma_decimal_digits(n / 10);
        assert(n == (n / 10) * 10 + n % 10);
        let p = decimal(n / 10);
        assert(d == p.push(digit_char(n % 10)));
        assert(d.drop_last() =~= p);
        assert(d.last() == digit_char(n % 10));
        assert(digits_value(d, 10) == digits_value(p, 10) * 10 + digit_value(digit_char(n % 10)));
        assert(d[0] == p[0]);
        assert forall|i: int| 0 <= i < d.len() implies is_digit(#[trigger] d[i]) && !is_space(d[i]) by {
            if i < p.len() {
                assert(d[i] == p[i]);
            }
        }
    }
}

proof fn lemma_trim_digits(s: Seq<char>)
    requires
        forall|i: int| 0 <= i < s.len() ==> !is_space(#[trigger] s[i]),
    ensures
        trimmed(s) == s,
{
    if s.len() > 0 {
        assert(!is_space(s[0]));
        assert(!is_space(s.last()));
    }
}

/// The decimal text of any `u64` is read back as that number: an enum key
/// written in decimal stands for its value.
pub proof fn law_enum_key_reads_decimal(n: u64)
    ensures
        enum_key_spec(decimal(n as nat)) == Some(n),
{
    let d = decimal(n as nat);
    lemma_decimal_digits(n as nat);
    lemma_trim_digits(d);
    if d.len() >= 2 {
        assert(n as nat >= 10) by {
            if (n as nat) < 10 {
                assert(d.len() == 1);
            }
        }
    }
    assert(unsigned_digits(d) == d);
}

proof fn lemma_trim_front_sub(s: Seq<char>, a: int)
    requires
        0 <= a <= s.len(),
        forall|j: int| 0 <= j < a ==> is_space(#[trigger] s[j]),
        a == s.len() || !is_space(s[a]),
    ensures
        trim_front(s) == s.subrange(a, s.len() as int),
    decreases a,
{
    if a > 0 {
        assert(s.drop_first().subrange(a - 1, s.drop_first().len() as int) =~= s.subrange(a, s.len() as int));
        assert forall|j: int| 0 <= j < a - 1 implies is_space(#[trigger] s.drop_first()[j]) by {
            assert(s.drop_first()[j] == s[j + 1]);
        }
        lemma_trim_front_sub(s.drop_first(), a - 1);
    } else {
        assert(s.subrange(0, s.len() as int) =~= s);
    }
}

proof fn lemma_trim_back_sub(s: Seq<char>, b: int)
    requires
        0 <= b <= s.len(),
        forall|j: int| b <= j < s.len() ==> is_space(#[trigger] s[j]),
        b == 0 || !is_space(s[b - 1]),
    ensures
        trim_back(s) == s.subrange(0, b),
    decreases s.len() - b,
{
    if b < s.len() {
        assert(s.drop_last().subrange(0, b) =~= s.subrange(0, b));
        lemma_trim_back_sub(s.drop_last(), b);
    } else {
        assert(s.subrange(0, b) =~= s);
    }
}

fn is_space_char(c: char) -> (res: bool)
    ensures
        res == is_space(c),
{
    c == '\t' || c == '\n' || c == '\u{0B}' || c == '\u{0C}' || c == '\r' || c == ' ' || c == '\u{85}'
        || c == '\u{A0}' || c == '\u{1680}' || ('\u{2000}' <= c && c <= '\u{200A}') || c == '\u{2028}'
        || c == '\u{2029}' || c == '\u{202F}' || c == '\u{205F}' || c == '\u{3000}'
}

/// `s[from..to]` read as an unsigned number of the given radix.
fn parse_u64_chars(cs: &Vec<char>, from: usize, to: usize, radix: u64) -> (res: Option<u64>)
    requires
        from <= to <= cs@.len(),
        radix == 10 || radix == 16,
    ensures
        res == parse_u64_spec(cs@.subrange(from as int, to as int), radix as nat),
{
    let ghost s = cs@.subrange(from as int, to as int);
    let mut start = from;
    if to - from > 1 && cs[from] == '+' {
        start = from + 1;
    }
    let ghost d = cs@.subrange(start as int, to as int);
    assert(d =~= unsigned_digits(s));
    if start >= to {
        return None;
    }
    let hex = radix == 16;
    let mut acc: u64 = 0;
    let mut overflow = false;
    let mut i = start;
    assert(cs@.subrange(start as int, start as int) =~= Seq::<char>::empty());
    while i < to
        invariant
            start <= i <= to <= cs@.len(),
            d == cs@.subrange(start as int, to as int),
            d == unsigned_digits(cs@.subrange(from as int, to as int)),
            hex == (radix == 16),
            radix == 10 || radix == 16,
            forall|j: int| start <= j < i ==> is_radix_digit(#[trigger] cs@[j], radix as nat),
            overflow <==> digits_value(cs@.subrange(start as int, i as int), radix as nat) > u64::MAX,
            !overflow ==> acc == digits_value(cs@.subrange(start as int, i as int), radix as nat),
        decreases to - i,
    {
        let c = cs[i];
        if !literal_char(hex, c) {
            proof {
                assert(d[i - start] == c);
                assert(!is_radix_digit(d[i - start], radix as nat));
            }
            return None;
        }
        let dv = digit_val(c);
        let ghost prev = cs@.subrange(start as int, i as int);
        let ghost next = cs@.subrange(start as int, i + 1);
        proof {
            assert(next.drop_last() =~= prev);
            assert(next.last() == c);
        }
        if !overflow {
            let lim: u64 = (0xffff_ffff_ffff_ffff - dv) / radix;
            if acc > lim {
                overflow = true;
                proof {
                    assert(digits_value(next, radix as nat) > u64::MAX) by (nonlinear_arith)
                        requires
                            digits_value(next, radix as nat) == acc * radix + dv,
                            acc > lim,
                            lim == (0xffff_ffff_ffff_ffff - dv) / radix as int,
                            radix >= 10,
                            dv < 16,
                    ;
                }
            } else {
                proof {
                    assert(acc * radix + dv <= 0xffff_ffff_ffff_ffff) by (nonlinear_arith)
                        requires
                            acc <= lim,
                            lim == (0xffff_ffff_ffff_ffff - dv) / radix as int,
                            radix >= 10,
                            dv < 16,
                    ;
                }
                acc = acc * radix + dv;
            }
        } else {
            proof {
                assert(digits_value(next, radix as nat) >= digits_value(prev, radix as nat))
                    by (nonlinear_arith)
                    requires
                        digits_value(next, radix as nat) == digits_value(prev, radix as nat)
                            * radix as nat + digit_value(c),
                        radix >= 10,
                ;
            }
        }
        i = i + 1;
    }
    proof {
        assert(forall|j: int| 0 <= j < d.len() ==> #[trigger] d[j] == cs@[start + j]);
    }
    if overflow {
        None
    } else {
        Some(acc)
    }
}

/// Parse an enum discriminant key: decimal or `0x`-prefixed hex.
pub fn parse_enum_key(s: &str) -> (res: Option<u64>)
    ensures
        res == enum_key_spec(s@),
{
    let cs = chars_of(s);
    let n = cs.len();
    let mut a: usize = 0;
    while a < n && is_space_char(cs[a])
        invariant
            a <= n,
            n == cs@.len(),
            forall|j: int| 0 <= j < a ==> is_space(#[trigger] cs@[j]),
        decreases n - a,
    {
        a = a + 1;
    }
    proof {
        lemma_trim_front_sub(cs@, a as int);
    }
    let mut b: usize = n;
    while b > a && is_space_char(cs[b - 1])
        invariant
            a <= b <= n,
            n == cs@.len(),
            forall|j: int| b <= j < n ==> is_space(#[trigger] cs@[j]),
        decreases b,
    {
        b = b - 1;
    }
    let ghost f = cs@.subrange(a as int, n as int);
    proof {
        assert forall|j: int| b - a <= j < f.len() implies is_space(#[trigger] f[j]) by {
            assert(f[j] == cs@[a + j]);
        }
        lemma_trim_back_sub(f, b - a);
        assert(f.subrange(0, b - a) =~= cs@.subrange(a as int, b as int));
        assert(s@ == cs@);
    }
    let ghost t = cs@.subrange(a as int, b as int);
    assert(t == trimmed(s@));
    if b - a >= 2 && cs[a] == '0' && (cs[a + 1] == 'x' || cs[a + 1] == 'X') {
        assert(has_hex_prefix(t));
        assert(t.subrange(2, t.len() as int) =~= cs@.subrange(a + 2, b as int));
        parse_u64_chars(&cs, a + 2, b, 16)
    } else {
        assert(!has_hex_prefix(t));
        parse_u64_chars(&cs, a, b, 10)
    }
}

// ─────────────────────────────────────────────────────────────────────────────
// Enums
// ─────────────────────────────────────────────────────────────────────────────

/// The message for an enum key that is not a number.
pub open spec fn bad_key_message(enum_name: Seq<char>, context: Seq<char>, key: Seq<char>) -> Seq<char> {
    "enum '"@ + enum_name + "' in "@ + context + ": invalid key '"@ + key + "'"@
}

/// Every key of the entries is a valid discriminant.
pub open spec fn keys_valid(entries: Seq<(String, String)>) -> bool {
    forall|j: int| 0 <= j < entries.len() ==> (#[trigger] enum_key_spec(entries[j].0@)) is Some
}

/// The variants of a raw enum, entered in order (a later entry with the
/// same discriminant replaces an earlier one).
pub open spec fn enum_variants(entries: Seq<(String, String)>) -> Map<u64, String>
    decreases entries.len(),
{
    if entries.len() == 0 {
        Map::empty()
    } else {
        enum_variants(entries.drop_last()).insert(
            enum_key_spec(entries.last().0@)->Some_0,
            entries.last().1,
        )
    }
}

/// `(i, j)` is the first invalid key, enums and entries taken in order.
pub open spec fn first_bad_key(raw: Seq<(String, RawEnum)>, i: int, j: int) -> bool {
    &&& 0 <= i < raw.len()
    &&& 0 <= j < raw[i].1@.len()
    &&& enum_key_spec(raw[i].1@[j].0@) is None
    &&& forall|i2: int| 0 <= i2 < i ==> keys_valid(#[trigger] raw[i2].1@)
    &&& forall|j2: int| 0 <= j2 < j ==> (#[trigger] enum_key_spec(raw[i].1@[j2].0@)) is Some
}

/// Compile `enums:` blocks, in order.
fn compile_enums(raw_enums: &Vec<(String, RawEnum)>, context: &str) -> (res: Result<
    Vec<(String, CompiledEnum)>,
    DoeError,
>)
    ensures
        res is Ok <==> forall|i: int| 0 <= i < raw_enums@.len() ==> keys_valid(#[trigger] raw_enums@[i].1@),
        res matches Ok(v) ==> v@.len() == raw_enums@.len() && forall|i: int|
            0 <= i < v@.len() ==> (#[trigger] v@[i]).0@ == raw_enums@[i].0@ && v@[i].1.variants@
                == enum_variants(raw_enums@[i].1@),
        res matches Err(e) ==> exists|i: int, j: int|
            first_bad_key(raw_enums@, i, j) && (e matches DoeError::Schema(m) && m@ == bad_key_message(
                raw_enums@[i].0@,
                context@,
                raw_enums@[i].1@[j].0@,
            )),
{
    let mut result: Vec<(String, CompiledEnum)> = Vec::new();
    let mut i: usize = 0;
    while i < raw_enums.len()
        invariant
            i <= raw_enums@.len(),
            result@.len() == i,
            forall|i2: int| 0 <= i2 < i ==> keys_valid(#[trigger] raw_enums@[i2].1@),
            forall|k: int|
                0 <= k < i ==> (#[trigger] result@[k]).0@ == raw_enums@[k].0@ && result@[k].1.variants@
                    == enum_variants(raw_enums@[k].1@),
        decreases raw_enums@.len() - i,
    {
        let entry = &raw_enums[i];
        let entries = &entry.1;
        let mut ce = CompiledEnum::default();
        let mut j: usize = 0;
        assert(entries@.subrange(0, 0) =~= Seq::<(String, String)>::empty());
        while j < entries.len()
            invariant
                j <= entries@.len(),
                i < raw_enums@.len(),
                entries@ == raw_enums@[i as int].1@,
                entry.0 == raw_enums@[i as int].0,
                forall|i2: int| 0 <= i2 < i ==> keys_valid(#[trigger] raw_enums@[i2].1@),
                forall|j2: int| 0 <= j2 < j ==> (#[trigger] enum_key_spec(entries@[j2].0@)) is Some,
                ce.variants@ == enum_variants(entries@.subrange(0, j as int)),
            decreases entries@.len() - j,
        {
            let key_str = &entries[j].0;
            match parse_enum_key(key_str.as_str()) {
                Some(key) => {
                    let ghost sub = entries@.subrange(0, j + 1);
                    assert(sub.drop_last() =~= entries@.subrange(0, j as int));
                    ce.variants.insert(key, entries[j].1.clone());
                },
                None => {
                    let mut m = String::new();
                    push_str(&mut m, "enum '");
                    push_str(&mut m, entry.0.as_str());
                    push_str(&mut m, "' in ");
                    push_str(&mut m, context);
                    push_str(&mut m, ": invalid key '");
                    push_str(&mut m, key_str.as_str());
                    push_str(&mut m, "'");
                    assert(first_bad_key(raw_enums@, i as int, j as int));
                    assert(m@ =~= bad_key_message(
                        raw_enums@[i as int].0@,
                        context@,
                        raw_enums@[i as int].1@[j as int].0@,
                    ));
                    return Err(DoeError::Schema(m));
                },
            }
            j = j + 1;
        }
        assert(entries@.subrange(0, entries@.len() as int) =~= entries@);
        result.push((entry.0.clone(), ce));
        i = i + 1;
    }
    Ok(result)
}

// ─────────────────────────────────────────────────────────────────────────────
// Field parts
// ─────────────────────────────────────────────────────────────────────────────

/// The bytes a `contents:` value stands for: the array as it is, a string
/// as its UTF-8 encoding.
pub open spec fn contents_bytes(c: RawContents) -> Seq<u8> {
    match c {
        RawContents::Bytes(b) => b@,
        RawContents::Str(s) => vstd::utf8::encode_utf8(s@),
    }
}

fn bytes_to_vec(b: &[u8]) -> (res: Vec<u8>)
    ensures
        res@ == b@,
{
    let mut out: Vec<u8> = Vec::new();
    let mut i: usize = 0;
    while i < b.len()
        invariant
            i <= b@.len(),
            out@ == b@.subrange(0, i as int),
        decreases b@.len() - i,
    {
        out.push(b[i]);
        i = i + 1;
        assert(out@ =~= b@.subrange(0, i as int));
    }
    assert(b@.subrange(0, b@.len() as int) =~= b@);
    out
}

/// Compile a `contents:` value into a fixed-bytes field kind.
fn compile_contents(contents: &RawContents, field_id: &str, parent_fqn: &str) -> (res: Result<
    FieldKind,
    DoeError,
>)
    ensures
        contents_bytes(*contents).len() == 0 ==> (res matches Err(e) && is_field_error(
            e,
            field_id@,
            parent_fqn@,
            "'contents' must not be empty"@,
        )),
        contents_bytes(*contents).len() > 0 ==> (res matches Ok(FieldKind::Contents(b)) && b@
            == contents_bytes(*contents)),
{
    let bytes = match contents {
        RawContents::Bytes(b) => bytes_to_vec(b.as_slice()),
        RawContents::Str(s) => bytes_to_vec(s.as_str().as_bytes()),
    };
    if bytes.len() == 0 {
        return Err(field_error(field_id, parent_fqn, "'contents' must not be empty"));
    }
    Ok(FieldKind::Contents(bytes))
}

/// The first field name (in evaluation order) that `e` references and
/// that is not among `seen`; `_parent` paths are resolved at parse time
/// and are not checked.
pub open spec fn first_bad_ref(e: ExprV, seen: Seq<Seq<char>>) -> Option<Seq<char>>
    decreases e,
{
    match e {
        ExprV::Int(_) => None,
        ExprV::Bool(_) => None,
        ExprV::Field(parts) => if parts.len() == 0 || parts[0] == "_parent"@ || seen.contains(parts[0]) {
            None
        } else {
            Some(parts[0])
        },
        ExprV::Unary(_, a) => first_bad_ref(*a, seen),
        ExprV::Binary(_, a, b) => match first_bad_ref(*a, seen) {
            Some(n) => Some(n),
            None => first_bad_ref(*b, seen),
        },
    }
}

/// The message for a size expression that looks ahead.
pub open spec fn forward_ref_message(src: Seq<char>, name: Seq<char>) -> Seq<char> {
    "size expression '"@ + src + "' references '"@ + name
        + "' which has not been defined yet in this seq"@
}

/// The names of a list of strings.
pub open spec fn names(v: Seq<String>) -> Seq<Seq<char>> {
    v.map_values(|s: String| s@)
}

pub(crate) fn contains_name(seen: &[String], name: &String) -> (res: bool)
    ensures
        res == names(seen@).contains(name@),
{
    let mut i: usize = 0;
    while i < seen.len()
        invariant
            i <= seen@.len(),
            forall|j: int| 0 <= j < i ==> seen@[j]@ != name@,
        decreases seen@.len() - i,
    {
        if str_is(&seen[i], name.as_str()) {
            assert(names(seen@)[i as int] == name@);
            return true;
        }
        i = i + 1;
    }
    proof {
        if names(seen@).contains(name@) {
            let k = choose|k: int| 0 <= k < names(seen@).len() && names(seen@)[k] == name@;
            assert(seen@[k]@ == name@);
        }
    }
    false
}

/// Check that an expression only references fields seen earlier.
fn check_field_refs_in_expr(e: &Expr, parent_fqn: &str, seen_ids: &[String], src: &str) -> (res:
    Result<(), DoeError>)
    ensures
        match first_bad_ref(e@, names(seen_ids@)) {
            None => res is Ok,
            Some(n) => res matches Err(err) && is_field_error(err, n, parent_fqn@, forward_ref_message(src@, n)),
        },
    decreases e,
{
    match e {
        Expr::Int(_) => Ok(()),
        Expr::Bool(_) => Ok(()),
        Expr::Field(parts) => {
            if parts.len() == 0 || str_is(&parts[0], "_parent") {
                return Ok(());
            }
            let name = &parts[0];
            if !contains_name(seen_ids, name) {
                let mut m = String::new();
                push_str(&mut m, "size expression '");
                push_str(&mut m, src);
                push_str(&mut m, "' references '");
                push_str(&mut m, name.as_str());
                push_str(&mut m, "' which has not been defined yet in this seq");
                return Err(DoeError::FieldError { field: name.clone(), context: parent_fqn.to_owned(), message: m });
            }
            Ok(())
        },
        Expr::Unary(_, inner) => check_field_refs_in_expr(inner, parent_fqn, seen_ids, src),
        Expr::Binary(_, lhs, rhs) => {
            check_field_refs_in_expr(lhs, parent_fqn, seen_ids, src)?;
            check_field_refs_in_expr(rhs, parent_fqn, seen_ids, src)
        },
    }
}

/// Check that a size expression only references fields seen earlier.
fn validate_size_expr_refs(expr_str: &str, parent_fqn: &str, seen_ids: &[String]) -> (res: Result<
    (),
    DoeError,
>)
    ensures
        match spec_parse(expr_str@) {
            None => res matches Err(e) && is_parse_error_in(e, expr_str@),
            Some(ast) => match first_bad_ref(ast, names(seen_ids@)) {
                None => res is Ok,
                Some(n) => res matches Err(err) && is_field_error(
                    err,
                    n,
                    parent_fqn@,
                    forward_ref_message(expr_str@, n),
                ),
            },
        },
{
    let ast = parse(expr_str)?;
    check_field_refs_in_expr(&ast, parent_fqn, seen_ids, expr_str)
}

/// The type name a field error about a missing size quotes.
pub open spec fn type_label(raw: RawField) -> Seq<char> {
    match raw.type_ref {
        Some(t) => t@,
        None => "?"@,
    }
}

/// What compiling a field's `size:` gives.
pub open spec fn size_result(raw: RawField, parent: Seq<char>, seen: Seq<Seq<char>>, res: Result<
    SizeExpr,
    DoeError,
>) -> bool {
    match raw.size {
        None => res matches Err(e) && is_field_error(
            e,
            raw.id@,
            parent,
            "'"@ + type_label(raw) + "' type requires 'size'"@,
        ),
        Some(StringOrInt::Int(n)) => res matches Ok(SizeExpr::Literal(m)) && m == n as usize,
        Some(StringOrInt::Str(s)) => match spec_parse(s@) {
            None => res matches Err(e) && is_parse_error_in(e, s@),
            Some(ast) => match first_bad_ref(ast, seen) {
                Some(n) => res matches Err(e) && is_field_error(e, n, parent, forward_ref_message(s@, n)),
                None => res matches Ok(SizeExpr::Dynamic(x)) && x@ == ast,
            },
        },
    }
}

/// Does compiling a field's `size:` fail?
pub open spec fn size_fails(raw: RawField, seen: Seq<Seq<char>>) -> bool {
    match raw.size {
        None => true,
        Some(StringOrInt::Int(_)) => false,
        Some(StringOrInt::Str(s)) => match spec_parse(s@) {
            None => true,
            Some(ast) => first_bad_ref(ast, seen) is Some,
        },
    }
}

/// Compile a field's `size:` into a size expression.
fn compile_size(raw: &RawField, parent_fqn: &str, seen_ids: &[String]) -> (res: Result<SizeExpr, DoeError>)
    ensures
        size_result(*raw, parent_fqn@, names(seen_ids@), res),
        res is Err <==> size_fails(*raw, names(seen_ids@)),
{
    match &raw.size {
        None => {
            let mut m = String::new();
            push_str(&mut m, "'");
            match &raw.type_ref {
                Some(t) => push_str(&mut m, t.as_str()),
                None => push_str(&mut m, "?"),
            }
            push_str(&mut m, "' type requires 'size'");
            Err(DoeError::FieldError { field: raw.id.clone(), context: parent_fqn.to_owned(), message: m })
        },
        Some(StringOrInt::Int(n)) => Ok(SizeExpr::Literal(*n as usize)),
        Some(StringOrInt::Str(s)) => {
            validate_size_expr_refs(s.as_str(), parent_fqn, seen_ids)?;
            let ast = parse(s.as_str())?;
            Ok(SizeExpr::Dynamic(ast))
        },
    }
}

/// What compiling a field's repetition gives.
pub open spec fn repeat_result(raw: RawField, parent: Seq<char>, res: Result<RepeatMode, DoeError>) -> bool {
    match raw.repeat {
        None => res matches Ok(RepeatMode::Once),
        Some(RawRepeat::Eos) => res matches Ok(RepeatMode::Eos),
        Some(RawRepeat::Until) => match raw.repeat_until {
            None => res matches Err(e) && is_field_error(
                e,
                raw.id@,
                parent,
                "'repeat: until' requires 'repeat-until'"@,
            ),
            Some(s) => match spec_parse(s@) {
                None => res matches Err(e) && is_parse_error_in(e, s@),
                Some(ast) => res matches Ok(RepeatMode::Until(x)) && x@ == ast,
            },
        },
        Some(RawRepeat::Expr) => match raw.repeat_expr {
            None => res matches Err(e) && is_field_error(
                e,
                raw.id@,
                parent,
                "'repeat: expr' requires 'repeat-expr'"@,
            ),
            Some(s) => match spec_parse(s@) {
                None => res matches Err(e) && is_parse_error_in(e, s@),
                Some(ast) => res matches Ok(RepeatMode::Count(x)) && x@ == ast,
            },
        },
    }
}

/// Does compiling a field's repetition fail?
pub open spec fn repeat_fails(raw: RawField) -> bool {
    match raw.repeat {
        Some(RawRepeat::Until) => match raw.repeat_until {
            None => true,
            Some(s) => spec_parse(s@) is None,
        },
        Some(RawRepeat::Expr) => match raw.repeat_expr {
            None => true,
            Some(s) => spec_parse(s@) is None,
        },
        _ => false,
    }
}

/// Compile a field's repetition mode.
fn compile_repeat(raw: &RawField, parent_fqn: &str) -> (res: Result<RepeatMode, DoeError>)
    ensures
        repeat_result(*raw, parent_fqn@, res),
        res is Err <==> repeat_fails(*raw),
{
    match raw.repeat {
        None => Ok(RepeatMode::Once),
        Some(RawRepeat::Eos) => Ok(RepeatMode::Eos),
        Some(RawRepeat::Until) => match &raw.repeat_until {
            None => Err(field_error(raw.id.as_str(), parent_fqn, "'repeat: until' requires 'repeat-until'")),
            Some(s) => {
                let ast = parse(s.as_str())?;
                Ok(RepeatMode::Until(ast))
            },
        },
        Some(RawRepeat::Expr) => match &raw.repeat_expr {
            None => Err(field_error(raw.id.as_str(), parent_fqn, "'repeat: expr' requires 'repeat-expr'")),
            Some(s) => {
                let ast = parse(s.as_str())?;
                Ok(RepeatMode::Count(ast))
            },
        },
    }
}

// ─────────────────────────────────────────────────────────────────────────────
// Type references
// ─────────────────────────────────────────────────────────────────────────────

/// The field kind of a fixed-size primitive type name, if it is one.
pub open spec fn prim_kind(t: Seq<char>) -> Option<FieldKind> {
    if t == "u8"@ {
        Some(FieldKind::UInt { width: IntWidth::W8, endian: EndianOverride::Inherit })
    } else if t == "u16"@ {
        Some(FieldKind::UInt { width: IntWidth::W16, endian: EndianOverride::Inherit })
    } else if t == "u32"@ {
        Some(FieldKind::UInt { width: IntWidth::W32, endian: EndianOverride::Inherit })
    } else if t == "u64"@ {
        Some(FieldKind::UInt { width: IntWidth::W64, endian: EndianOverride::Inherit })
    } else if t == "u16le"@ {
        Some(FieldKind::UInt { width: IntWidth::W16, endian: EndianOverride::Little })
    } else if t == "u32le"@ {
        Some(FieldKind::UInt { width: IntWidth::W32, endian: EndianOverride::Little })
    } else if t == "u64le"@ {
        Some(FieldKind::UInt { width: IntWidth::W64, endian: EndianOverride::Little })
    } else if t == "u16be"@ {
        Some(FieldKind::UInt { width: IntWidth::W16, endian: EndianOverride::Big })
    } else if t == "u32be"@ {
        Some(FieldKind::UInt { width: IntWidth::W32, endian: EndianOverride::Big })
    } else if t == "u64be"@ {
        Some(FieldKind::UInt { width: IntWidth::W64, endian: EndianOverride::Big })
    } else if t == "i8"@ {
        Some(FieldKind::SInt { width: IntWidth::W8, endian: EndianOverride::Inherit })
    } else if t == "i16"@ {
        Some(FieldKind::SInt { width: IntWidth::W16, endian: EndianOverride::Inherit })
    } else if t == "i32"@ {
        Some(FieldKind::SInt { width: IntWidth::W32, endian: EndianOverride::Inherit })
    } else if t == "i64"@ {
        Some(FieldKind::SInt { width: IntWidth::W64, endian: EndianOverride::Inherit })
    } else if t == "i16le"@ {
        Some(FieldKind::SInt { width: IntWidth::W16, endian: EndianOverride::Little })
    } else if t == "i32le"@ {
        Some(FieldKind::SInt { width: IntWidth::W32, endian: EndianOverride::Little })
    } else if t == "i64le"@ {
        Some(FieldKind::SInt { width: IntWidth::W64, endian: EndianOverride::Little })
    } else if t == "i16be"@ {
        Some(FieldKind::SInt { width: IntWidth::W16, endian: EndianOverride::Big })
    } else if t == "i32be"@ {
        Some(FieldKind::SInt { width: IntWidth::W32, endian: EndianOverride::Big })
    } else if t == "i64be"@ {
        Some(FieldKind::SInt { width: IntWidth::W64, endian: EndianOverride::Big })
    } else if t == "f32"@ {
        Some(FieldKind::Float { width: FloatWidth::F32 })
    } else if t == "f64"@ {
        Some(FieldKind::Float { width: FloatWidth::F64 })
    } else {
        None
    }
}

/// A plain field of a primitive type (`u8` ... `i64be`, `f32`, `f64`)
/// always compiles, to the kind that the type name stands for, read once.
pub proof fn law_primitive_field(
    keys: Set<Seq<char>>,
    raw: RawField,
    parent: Seq<char>,
    seen: Seq<Seq<char>>,
    names: Seq<Seq<char>>,
    res: Result<CompiledField, DoeError>,
)
    requires
        raw.contents is None,
        raw.type_ref matches Some(t) && prim_kind(t@) is Some,
        raw.repeat is None,
        raw.if_expr is None,
        raw.enum_ref is None,
        field_result(keys, raw, parent, seen, names, res),
    ensures
        !field_fails(keys, raw, parent, seen, names),
        res matches Ok(f) && f.kind == prim_kind(raw.type_ref->Some_0@)->Some_0 && f.repeat is Once && f.id@
            == raw.id@,
{
}

/// The `le` / `be` ending of a type name, for its byte order.
pub open spec fn endian_suffix(e: EndianOverride) -> Seq<char> {
    match e {
        EndianOverride::Inherit => Seq::empty(),
        EndianOverride::Little => seq!['l', 'e'],
        EndianOverride::Big => seq!['b', 'e'],
    }
}

/// How a fixed-size kind is spelled as a type name: `u` or `i` for an
/// unsigned or signed integer, or `f` for a float, then its width in bits,
/// then `le` or `be` for an explicit byte order (which one-byte integers
/// cannot have).
pub open spec fn spelling(k: FieldKind) -> Option<Seq<char>> {
    match k {
        FieldKind::UInt { width, endian } => if width == IntWidth::W8 && endian != EndianOverride::Inherit {
            None
        } else {
            Some(seq!['u'] + decimal(8 * int_width_bytes(width)) + endian_suffix(endian))
        },
        FieldKind::SInt { width, endian } => if width == IntWidth::W8 && endian != EndianOverride::Inherit {
            None
        } else {
            Some(seq!['i'] + decimal(8 * int_width_bytes(width)) + endian_suffix(endian))
        },
        FieldKind::Float { width } => Some(seq!['f'] + decimal(8 * float_width_bytes(width))),
        _ => None,
    }
}

/// The primitive type names are exactly the spellings of the fixed-size
/// kinds, and each names the kind it spells: `u64be` is a 64-bit unsigned
/// integer read big-endian, `i16le` a 16-bit signed one read little-endian,
/// `u32` a 32-bit unsigned one in the type's byte order, `f64` a 64-bit
/// float, and so on.
pub proof fn law_primitive_names(t: Seq<char>, k: FieldKind)
    ensures
        prim_kind(t) == Some(k) <==> spelling(k) == Some(t),
{
    reveal_strlit("u8");
    reveal_strlit("u16");
    reveal_strlit("u16le");
    reveal_strlit("u16be");
    reveal_strlit("u32");
    reveal_strlit("u32le");
    reveal_strlit("u32be");
    reveal_strlit("u64");
    reveal_strlit("u64le");
    reveal_strlit("u64be");
    reveal_strlit("i8");
    reveal_strlit("i16");
    reveal_strlit("i16le");
    reveal_strlit("i16be");
    reveal_strlit("i32");
    reveal_strlit("i32le");
    reveal_strlit("i32be");
    reveal_strlit("i64");
    reveal_strlit("i64le");
    reveal_strlit("i64be");
    reveal_strlit("f32");
    reveal_strlit("f64");
    assert(decimal(8) =~= seq!['8']);
    assert(decimal(1) =~= seq!['1']);
    assert(decimal(3) =~= seq!['3']);
    assert(decimal(6) =~= seq!['6']);
    assert(decimal(16) =~= seq!['1', '6']);
    assert(decimal(32) =~= seq!['3', '2']);
    assert(decimal(64) =~= seq!['6', '4']);
    assert(seq!['u'] + seq!['8'] + Seq::<char>::empty() =~= "u8"@);
    assert("u8"@ =~= seq!['u', '8']);
    assert(seq!['u'] + seq!['1', '6'] + Seq::<char>::empty() =~= "u16"@);
    assert("u16"@ =~= seq!['u', '1', '6']);
    assert(seq!['u'] + seq!['1', '6'] + seq!['l', 'e'] =~= "u16le"@);
    assert("u16le"@ =~= seq!['u', '1', '6', 'l', 'e']);
    assert(seq!['u'] + seq!['1', '6'] + seq!['b', 'e'] =~= "u16be"@);
    assert("u16be"@ =~= seq!['u', '1', '6', 'b', 'e']);
    assert(seq!['u'] + seq!['3', '2'] + Seq::<char>::empty() =~= "u32"@);
    assert("u32"@ =~= seq!['u', '3', '2']);
    assert(seq!['u'] + seq!['3', '2'] + seq!['l', 'e'] =~= "u32le"@);
    assert("u32le"@ =~= seq!['u', '3', '2', 'l', 'e']);
    assert(seq!['u'] + seq!['3', '2'] + seq!['b', 'e'] =~= "u32be"@);
    assert("u32be"@ =~= seq!['u', '3', '2', 'b', 'e']);
    assert(seq!['u'] + seq!['6', '4'] + Seq::<char>::empty() =~= "u64"@);
    assert("u64"@ =~= seq!['u', '6', '4']);
    assert(seq!['u'] + seq!['6', '4'] + seq!['l', 'e'] =~= "u64le"@);
    assert("u64le"@ =~= seq!['u', '6', '4', 'l', 'e']);
    assert(seq!['u'] + seq!['6', '4'] + seq!['b', 'e'] =~= "u64be"@);
    assert("u64be"@ =~= seq!['u', '6', '4', 'b', 'e']);
    assert(seq!['i'] + seq!['8'] + Seq::<char>::empty() =~= "i8"@);
    assert("i8"@ =~= seq!['i', '8']);
    assert(seq!['i'] + seq!['1', '6'] + Seq::<char>::empty() =~= "i16"@);
    assert("i16"@ =~= seq!['i', '1', '6']);
    assert(seq!['i'] + seq!['1', '6'] + seq!['l', 'e'] =~= "i16le"@);
    assert("i16le"@ =~= seq!['i', '1', '6', 'l', 'e']);
    assert(seq!['i'] + seq!['1', '6'] + seq!['b', 'e'] =~= "i16be"@);
    assert("i16be"@ =~= seq!['i', '1', '6', 'b', 'e']);
    assert(seq!['i'] + seq!['3', '2'] + Seq::<char>::empty() =~= "i32"@);
    assert("i32"@ =~= seq!['i', '3', '2']);
    assert(seq!['i'] + seq!['3', '2'] + seq!['l', 'e'] =~= "i32le"@);
    assert("i32le"@ =~= seq!['i', '3', '2', 'l', 'e']);
    assert(seq!['i'] + seq!['3', '2'] + seq!['b', 'e'] =~= "i32be"@);
    assert("i32be"@ =~= seq!['i', '3', '2', 'b', 'e']);
    assert(seq!['i'] + seq!['6', '4'] + Seq::<char>::empty() =~= "i64"@);
    assert("i64"@ =~= seq!['i', '6', '4']);
    assert(seq!['i'] + seq!['6', '4'] + seq!['l', 'e'] =~= "i64le"@);
    assert("i64le"@ =~= seq!['i', '6', '4', 'l', 'e']);
    assert(seq!['i'] + seq!['6', '4'] + seq!['b', 'e'] =~= "i64be"@);
    assert("i64be"@ =~= seq!['i', '6', '4', 'b', 'e']);
    assert(seq!['f'] + seq!['3', '2'] + Seq::<char>::empty() =~= "f32"@);
    assert("f32"@ =~= seq!['f', '3', '2']);
    assert(seq!['f'] + seq!['6', '4'] + Seq::<char>::empty() =~= "f64"@);
    assert("f64"@ =~= seq!['f', '6', '4']);
    assert(prim_kind("u8"@) == Some(FieldKind::UInt { width: IntWidth::W8, endian: EndianOverride::Inherit }) && spelling(FieldKind::UInt { width: IntWidth::W8, endian: EndianOverride::Inherit }) == Some("u8"@));
    assert(prim_kind("u16"@) == Some(FieldKind::UInt { width: IntWidth::W16, endian: EndianOverride::Inherit }) && spelling(FieldKind::UInt { width: IntWidth::W16, endian: EndianOverride::Inherit }) == Some("u16"@));
    assert(prim_kind("u16le"@) == Some(FieldKind::UInt { width: IntWidth::W16, endian: EndianOverride::Little }) && spelling(FieldKind::UInt { width: IntWidth::W16, endian: EndianOverride::Little }) == Some("u16le"@));
    assert(prim_kind("u16be"@) == Some(FieldKind::UInt { width: IntWidth::W16, endian: EndianOverride::Big }) && spelling(FieldKind::UInt { width: IntWidth::W16, endian: EndianOverride::Big }) == Some("u16be"@));
    assert(prim_kind("u32"@) == Some(FieldKind::UInt { width: IntWidth::W32, endian: EndianOverride::Inherit }) && spelling(FieldKind::UInt { width: IntWidth::W32, endian: EndianOverride::Inherit }) == Some("u32"@));
    assert(prim_kind("u32le"@) == Some(FieldKind::UInt { width: IntWidth::W32, endian: EndianOverride::Little }) && spelling(FieldKind::UInt { width: IntWidth::W32, endian: EndianOverride::Little }) == Some("u32le"@));
    assert(prim_kind("u32be"@) == Some(FieldKind::UInt { width: IntWidth::W32, endian: EndianOverride::Big }) && spelling(FieldKind::UInt { width: IntWidth::W32, endian: EndianOverride::Big }) == Some("u32be"@));
    assert(prim_kind("u64"@) == Some(FieldKind::UInt { width: IntWidth::W64, endian: EndianOverride::Inherit }) && spelling(FieldKind::UInt { width: IntWidth::W64, endian: EndianOverride::Inherit }) == Some("u64"@));
    assert(prim_kind("u64le"@) == Some(FieldKind::UInt { width: IntWidth::W64, endian: EndianOverride::Little }) && spelling(FieldKind::UInt { width: IntWidth::W64, endian: EndianOverride::Little }) == Some("u64le"@));
    assert(prim_kind("u64be"@) == Some(FieldKind::UInt { width: IntWidth::W64, endian: EndianOverride::Big }) && spelling(FieldKind::UInt { width: IntWidth::W64, endian: EndianOverride::Big }) == Some("u64be"@));
    assert(prim_kind("i8"@) == Some(FieldKind::SInt { width: IntWidth::W8, endian: EndianOverride::Inherit }) && spelling(FieldKind::SInt { width: IntWidth::W8, endian: EndianOverride::Inherit }) == Some("i8"@));
    assert(prim_kind("i16"@) == Some(FieldKind::SInt { width: IntWidth::W16, endian: EndianOverride::Inherit }) && spelling(FieldKind::SInt { width: IntWidth::W16, endian: EndianOverride::Inherit }) == Some("i16"@));
    assert(prim_kind("i16le"@) == Some(FieldKind::SInt { width: IntWidth::W16, endian: EndianOverride::Little }) && spelling(FieldKind::SInt { width: IntWidth::W16, endian: EndianOverride::Little }) == Some("i16le"@));
    assert(prim_kind("i16be"@) == Some(FieldKind::SInt { width: IntWidth::W16, endian: EndianOverride::Big }) && spelling(FieldKind::SInt { width: IntWidth::W16, endian: EndianOverride::Big }) == Some("i16be"@));
    assert(prim_kind("i32"@) == Some(FieldKind::SInt { width: IntWidth::W32, endian: EndianOverride::Inherit }) && spelling(FieldKind::SInt { width: IntWidth::W32, endian: EndianOverride::Inherit }) == Some("i32"@));
    assert(prim_kind("i32le"@) == Some(FieldKind::SInt { width: IntWidth::W32, endian: EndianOverride::Little }) && spelling(FieldKind::SInt { width: IntWidth::W32, endian: EndianOverride::Little }) == Some("i32le"@));
    assert(prim_kind("i32be"@) == Some(FieldKind::SInt { width: IntWidth::W32, endian: EndianOverride::Big }) && spelling(FieldKind::SInt { width: IntWidth::W32, endian: EndianOverride::Big }) == Some("i32be"@));
    assert(prim_kind("i64"@) == Some(FieldKind::SInt { width: IntWidth::W64, endian: EndianOverride::Inherit }) && spelling(FieldKind::SInt { width: IntWidth::W64, endian: EndianOverride::Inherit }) == Some("i64"@));
    assert(prim_kind("i64le"@) == Some(FieldKind::SInt { width: IntWidth::W64, endian: EndianOverride::Little }) && spelling(FieldKind::SInt { width: IntWidth::W64, endian: EndianOverride::Little }) == Some("i64le"@));
    assert(prim_kind("i64be"@) == Some(FieldKind::SInt { width: IntWidth::W64, endian: EndianOverride::Big }) && spelling(FieldKind::SInt { width: IntWidth::W64, endian: EndianOverride::Big }) == Some("i64be"@));
    assert(prim_kind("f32"@) == Some(FieldKind::Float { width: FloatWidth::F32 }) && spelling(FieldKind::Float { width: FloatWidth::F32 }) == Some("f32"@));
    assert(prim_kind("f64"@) == Some(FieldKind::Float { width: FloatWidth::F64 }) && spelling(FieldKind::Float { width: FloatWidth::F64 }) == Some("f64"@));
}

fn prim_kind_of(t: &String) -> (res: Option<FieldKind>)
    ensures
        res == prim_kind(t@),
{
    if str_is(t, "u8") {
        Some(FieldKind::UInt { width: IntWidth::W8, endian: EndianOverride::Inherit })
    } else if str_is(t, "u16") {
        Some(FieldKind::UInt { width: IntWidth::W16, endian: EndianOverride::Inherit })
    } else if str_is(t, "u32") {
        Some(FieldKind::UInt { width: IntWidth::W32, endian: EndianOverride::Inherit })
    } else if str_is(t, "u64") {
        Some(FieldKind::UInt { width: IntWidth::W64, endian: EndianOverride::Inherit })
    } else if str_is(t, "u16le") {
        Some(FieldKind::UInt { width: IntWidth::W16, endian: EndianOverride::Little })
    } else if str_is(t, "u32le") {
        Some(FieldKind::UInt { width: IntWidth::W32, endian: EndianOverride::Little })
    } else if str_is(t, "u64le") {
        Some(FieldKind::UInt { width: IntWidth::W64, endian: EndianOverride::Little })
    } else if str_is(t, "u16be") {
        Some(FieldKind::UInt { width: IntWidth::W16, endian: EndianOverride::Big })
    } else if str_is(t, "u32be") {
        Some(FieldKind::UInt { width: IntWidth::W32, endian: EndianOverride::Big })
    } else if str_is(t, "u64be") {
        Some(FieldKind::UInt { width: IntWidth::W64, endian: EndianOverride::Big })
    } else if str_is(t, "i8") {
        Some(FieldKind::SInt { width: IntWidth::W8, endian: EndianOverride::Inherit })
    } else if str_is(t, "i16") {
        Some(FieldKind::SInt { width: IntWidth::W16, endian: EndianOverride::Inherit })
    } else if str_is(t, "i32") {
        Some(FieldKind::SInt { width: IntWidth::W32, endian: EndianOverride::Inherit })
    } else if str_is(t, "i64") {
        Some(FieldKind::SInt { width: IntWidth::W64, endian: EndianOverride::Inherit })
    } else if str_is(t, "i16le") {
        Some(FieldKind::SInt { width: IntWidth::W16, endian: EndianOverride::Little })
    } else if str_is(t, "i32le") {
        Some(FieldKind::SInt { width: IntWidth::W32, endian: EndianOverride::Little })
    } else if str_is(t, "i64le") {
        Some(FieldKind::SInt { width: IntWidth::W64, endian: EndianOverride::Little })
    } else if str_is(t, "i16be") {
        Some(FieldKind::SInt { width: IntWidth::W16, endian: EndianOverride::Big })
    } else if str_is(t, "i32be") {
        Some(FieldKind::SInt { width: IntWidth::W32, endian: EndianOverride::Big })
    } else if str_is(t, "i64be") {
        Some(FieldKind::SInt { width: IntWidth::W64, endian: EndianOverride::Big })
    } else if str_is(t, "f32") {
        Some(FieldKind::Float { width: FloatWidth::F32 })
    } else if str_is(t, "f64") {
        Some(FieldKind::Float { width: FloatWidth::F64 })
    } else {
        None
    }
}

/// The start of the last `::` among the first `n` characters of `s`.
pub open spec fn last_sep_upto(s: Seq<char>, n: int) -> Option<int>
    decreases n,
{
    if n < 2 || n > s.len() {
        None
    } else if s[n - 2] == ':' && s[n - 1] == ':' {
        Some(n - 2)
    } else {
        last_sep_upto(s, n - 1)
    }
}

/// Look for `name` in `scope` and then in each enclosing scope.
pub open spec fn scope_walk(keys: Set<Seq<char>>, name: Seq<char>, scope: Seq<char>) -> Option<Seq<char>>
    decreases scope.len(),
{
    let candidate = scope + "::"@ + name;
    if keys.contains(candidate) {
        Some(candidate)
    } else {
        match last_sep_upto(scope, scope.len() as int) {
            Some(k) => if 0 <= k < scope.len() {
                scope_walk(keys, name, scope.subrange(0, k))
            } else {
                None
            },
            None => None,
        }
    }
}

/// The scope made of the first `m` segments of a path, joined by `::`.
pub open spec fn scope_of(segs: Seq<Seq<char>>, m: int) -> Seq<char> {
    crate::schema::expr::join_with(segs.subrange(0, m), "::"@)
}

/// The segments of a path: non-empty names without `:`.
pub open spec fn plain_segments(segs: Seq<Seq<char>>) -> bool {
    forall|i: int| 0 <= i < segs.len() ==> #[trigger] segs[i].len() > 0 && forall|j: int|
        0 <= j < segs[i].len() ==> segs[i][j] != ':'
}

proof fn lemma_no_sep(s: Seq<char>, n: int)
    requires
        n <= s.len(),
        forall|i: int| 0 <= i < n ==> s[i] != ':',
    ensures
        last_sep_upto(s, n) is None,
    decreases n,
{
    if n >= 2 {
        lemma_no_sep(s, n - 1);
    }
}

proof fn lemma_sep_at(s: Seq<char>, a: int, n: int)
    requires
        2 <= a <= n <= s.len(),
        s[a - 2] == ':',
        s[a - 1] == ':',
        forall|i: int| a <= i < n ==> s[i] != ':',
    ensures
        last_sep_upto(s, n) == Some(a - 2),
    decreases n,
{
    if n > a {
        lemma_sep_at(s, a, n - 1);
    }
}

proof fn lemma_scope_step(segs: Seq<Seq<char>>, m: int)
    requires
        2 <= m <= segs.len(),
    ensures
        scope_of(segs, m) == scope_of(segs, m - 1) + "::"@ + segs[m - 1],
{
    let sub = segs.subrange(0, m);
    assert(sub.drop_last() =~= segs.subrange(0, m - 1));
    assert(sub.last() == segs[m - 1]);
}

proof fn lemma_scope_last_sep(segs: Seq<Seq<char>>, m: int)
    requires
        plain_segments(segs),
        1 <= m <= segs.len(),
    ensures
        m == 1 ==> last_sep_upto(scope_of(segs, m), scope_of(segs, m).len() as int) is None,
        m >= 2 ==> last_sep_upto(scope_of(segs, m), scope_of(segs, m).len() as int) == Some(
            scope_of(segs, m - 1).len() as int,
        ) && scope_of(segs, m).subrange(0, scope_of(segs, m - 1).len() as int) == scope_of(segs, m - 1),
{
    reveal_strlit("::");
    let p = scope_of(segs, m);
    if m == 1 {
        assert(segs.subrange(0, 1) =~= seq![segs[0]]);
        assert(p == segs[0]);
        assert(segs[0].len() > 0);
        lemma_no_sep(p, p.len() as int);
    } else {
        lemma_scope_step(segs, m);
        let q = scope_of(segs, m - 1);
        let last = segs[m - 1];
        assert(last.len() > 0);
        let a: int = q.len() as int + 2;
        assert(p[a - 2] == ':' && p[a - 1] == ':');
        assert forall|i: int| a <= i < p.len() implies p[i] != ':' by {
            assert(p[i] == last[i - a]);
        }
        lemma_sep_at(p, a, p.len() as int);
        assert(p.subrange(0, q.len() as int) =~= q);
    }
}

proof fn lemma_walk_found(keys: Set<Seq<char>>, name: Seq<char>, segs: Seq<Seq<char>>, k: int, m: int)
    requires
        plain_segments(segs),
        1 <= k <= m <= segs.len(),
        keys.contains(scope_of(segs, k) + "::"@ + name),
        forall|k2: int| k < k2 <= segs.len() ==> !keys.contains(#[trigger] scope_of(segs, k2) + "::"@ + name),
    ensures
        scope_walk(keys, name, scope_of(segs, m)) == Some(scope_of(segs, k) + "::"@ + name),
    decreases m,
{
    if m > k {
        lemma_scope_last_sep(segs, m);
        lemma_scope_step(segs, m);
        reveal_strlit("::");
        lemma_walk_found(keys, name, segs, k, m - 1);
        let p = scope_of(segs, m);
        let q = scope_of(segs, m - 1);
        assert(!keys.contains(p + "::"@ + name));
        assert(0 <= q.len() < p.len());
        assert(scope_walk(keys, name, p) == scope_walk(keys, name, p.subrange(0, q.len() as int)));
    }
}

proof fn lemma_walk_none(keys: Set<Seq<char>>, name: Seq<char>, segs: Seq<Seq<char>>, m: int)
    requires
        plain_segments(segs),
        1 <= m <= segs.len(),
        forall|k2: int| 1 <= k2 <= segs.len() ==> !keys.contains(#[trigger] scope_of(segs, k2) + "::"@ + name),
    ensures
        scope_walk(keys, name, scope_of(segs, m)) is None,
    decreases m,
{
    lemma_scope_last_sep(segs, m);
    assert(!keys.contains(scope_of(segs, m) + "::"@ + name));
    if m > 1 {
        lemma_scope_step(segs, m);
        reveal_strlit("::");
        lemma_walk_none(keys, name, segs, m - 1);
        let p = scope_of(segs, m);
        let q = scope_of(segs, m - 1);
        assert(0 <= q.len() < p.len());
        assert(scope_walk(keys, name, p) == scope_walk(keys, name, p.subrange(0, q.len() as int)));
    }
}

/// A type reference inside the type `s1::...::sn` (plain segments) resolves
/// by walking out: to the name itself when that is registered; else to
/// `s1::...::sk::name` for the innermost enclosing scope `s1::...::sk`
/// (from the type itself outwards) under which the name is registered;
/// and to nothing when it is registered under none of them.
pub proof fn law_type_ref_walks_out(keys: Set<Seq<char>>, name: Seq<char>, segs: Seq<Seq<char>>, k: int)
    requires
        plain_segments(segs),
        segs.len() >= 1,
    ensures
        keys.contains(name) ==> resolve_type_spec(keys, name, scope_of(segs, segs.len() as int)) == Some(name),
        !keys.contains(name) && 1 <= k <= segs.len() && keys.contains(scope_of(segs, k) + "::"@ + name) && (forall|
            k2: int,
        |
            k < k2 <= segs.len() ==> !keys.contains(#[trigger] scope_of(segs, k2) + "::"@ + name))
            ==> resolve_type_spec(keys, name, scope_of(segs, segs.len() as int)) == Some(
            scope_of(segs, k) + "::"@ + name,
        ),
        !keys.contains(name) && (forall|k2: int|
            1 <= k2 <= segs.len() ==> !keys.contains(#[trigger] scope_of(segs, k2) + "::"@ + name))
            ==> resolve_type_spec(keys, name, scope_of(segs, segs.len() as int)) is None,
{
    let n = segs.len() as int;
    if !keys.contains(name) && 1 <= k <= n && keys.contains(scope_of(segs, k) + "::"@ + name) && (forall|k2: int|
        k < k2 <= n ==> !keys.contains(#[trigger] scope_of(segs, k2) + "::"@ + name)) {
        lemma_walk_found(keys, name, segs, k, n);
    }
    if !keys.contains(name) && (forall|k2: int| 1 <= k2 <= n ==> !keys.contains(#[trigger] scope_of(segs, k2) + "::"@ + name)) {
        lemma_walk_none(keys, name, segs, n);
    }
}

/// The fully-qualified name a type reference resolves to, among the
/// registered names: the bare name itself, else `<parent>::<name>`, else
/// the same in each enclosing scope of the parent.
pub open spec fn resolve_type_spec(keys: Set<Seq<char>>, name: Seq<char>, parent: Seq<char>) -> Option<
    Seq<char>,
> {
    if keys.contains(name) {
        Some(name)
    } else {
        scope_walk(keys, name, parent)
    }
}

/// What compiling the type name `t` of field `raw` gives.
pub open spec fn kind_result(
    keys: Set<Seq<char>>,
    t: Seq<char>,
    raw: RawField,
    parent: Seq<char>,
    seen: Seq<Seq<char>>,
    res: Result<FieldKind, DoeError>,
) -> bool {
    match prim_kind(t) {
        Some(k) => res == Ok::<FieldKind, DoeError>(k),
        None => if t == "bytes"@ {
            (res matches Ok(FieldKind::Bytes { size }) && size_result(raw, parent, seen, Ok(size)))
                || (res matches Err(e) && size_result(raw, parent, seen, Err(e)))
        } else if t == "strz"@ {
            res matches Ok(FieldKind::Str { size: StrSize::Terminator(term), encoding }) && term == (
            match raw.terminator {
                Some(x) => x,
                None => 0u8,
            }) && encoding == encoding_of(raw.encoding)
        } else if t == "str"@ {
            match raw.terminator {
                Some(term) => res matches Ok(FieldKind::Str { size: StrSize::Terminator(t2), encoding })
                    && t2 == term && encoding == encoding_of(raw.encoding),
                None => (res matches Ok(FieldKind::Str { size: StrSize::Fixed(sz), encoding })
                    && encoding == encoding_of(raw.encoding) && size_result(raw, parent, seen, Ok(sz)))
                    || (res matches Err(e) && size_result(raw, parent, seen, Err(e))),
            }
        } else if t == "bits"@ {
            match raw.bit_size {
                Some(b) => res matches Ok(FieldKind::Bits { bit_size }) && bit_size == b,
                None => res matches Err(e) && is_field_error(
                    e,
                    raw.id@,
                    parent,
                    "'bits' type requires 'bit_size'"@,
                ),
            }
        } else {
            match resolve_type_spec(keys, t, parent) {
                Some(fqn) => res matches Ok(FieldKind::TypeRef { ty_name }) && ty_name@ == fqn,
                None => res matches Err(DoeError::UnknownType { ty_name, context }) && ty_name@ == t
                    && context@ == parent + "."@ + raw.id@,
            }
        },
    }
}

/// Does compiling the type name `t` of field `raw` fail?
pub open spec fn kind_fails(keys: Set<Seq<char>>, t: Seq<char>, raw: RawField, parent: Seq<char>, seen: Seq<
    Seq<char>,
>) -> bool {
    match prim_kind(t) {
        Some(_) => false,
        None => if t == "bytes"@ {
            size_fails(raw, seen)
        } else if t == "strz"@ {
            false
        } else if t == "str"@ {
            raw.terminator is None && size_fails(raw, seen)
        } else if t == "bits"@ {
            raw.bit_size is None
        } else {
            resolve_type_spec(keys, t, parent) is None
        },
    }
}

proof fn lemma_last_sep_prefix(s: Seq<char>, len: int, n: int)
    requires
        0 <= n <= len <= s.len(),
    ensures
        last_sep_upto(s.subrange(0, len), n) == last_sep_upto(s, n),
        last_sep_upto(s, n) matches Some(k) ==> 0 <= k && k + 2 <= n,
    decreases n,
{
    if n >= 2 {
        lemma_last_sep_prefix(s, len, n - 1);
    }
}

fn string_of(cs: &Vec<char>, len: usize) -> (res: String)
    requires
        len <= cs@.len(),
    ensures
        res@ == cs@.subrange(0, len as int),
{
    let mut s = String::new();
    let mut i: usize = 0;
    while i < len
        invariant
            i <= len <= cs@.len(),
            s@ == cs@.subrange(0, i as int),
        decreases len - i,
    {
        push_char(&mut s, cs[i]);
        i = i + 1;
        assert(s@ =~= cs@.subrange(0, i as int));
    }
    s
}

// ─────────────────────────────────────────────────────────────────────────────
// Fields
// ─────────────────────────────────────────────────────────────────────────────

/// The ids of the fields before position `i`.
pub open spec fn ids_before(seq: Seq<RawField>, i: int) -> Seq<Seq<char>> {
    seq.subrange(0, i).map_values(|f: RawField| f.id@)
}

/// The names of a list of named enums.
pub open spec fn enum_names<T>(enums: Seq<(String, T)>) -> Seq<Seq<char>> {
    enums.map_values(|e: (String, T)| e.0@)
}

/// What compiling the kind of field `raw` (its `contents:` or its `type:`)
/// gives.
pub open spec fn kind_step(keys: Set<Seq<char>>, raw: RawField, parent: Seq<char>, seen: Seq<Seq<char>>, r: Result<
    FieldKind,
    DoeError,
>) -> bool {
    match raw.contents {
        Some(c) => if contents_bytes(c).len() == 0 {
            r matches Err(e) && is_field_error(e, raw.id@, parent, "'contents' must not be empty"@)
        } else {
            r matches Ok(FieldKind::Contents(b)) && b@ == contents_bytes(c)
        },
        None => match raw.type_ref {
            None => r matches Err(e) && is_field_error(
                e,
                raw.id@,
                parent,
                "field has neither 'type' nor 'contents'"@,
            ),
            Some(t) => kind_result(keys, t@, raw, parent, seen, r),
        },
    }
}

/// Does compiling the kind of field `raw` fail?
pub open spec fn kind_step_fails(keys: Set<Seq<char>>, raw: RawField, parent: Seq<char>, seen: Seq<Seq<char>>) -> bool {
    match raw.contents {
        Some(c) => contents_bytes(c).len() == 0,
        None => match raw.type_ref {
            None => true,
            Some(t) => kind_fails(keys, t@, raw, parent, seen),
        },
    }
}

/// Is the field's `if:` expression malformed?
pub open spec fn if_fails(raw: RawField) -> bool {
    raw.if_expr matches Some(s) && spec_parse(s@) is None
}

/// Does the field name an enum that is not among `names`?
pub open spec fn enum_fails(raw: RawField, names: Seq<Seq<char>>) -> bool {
    raw.enum_ref matches Some(n) && !names.contains(n@)
}

/// Does compiling field `raw` fail?
pub open spec fn field_fails(
    keys: Set<Seq<char>>,
    raw: RawField,
    parent: Seq<char>,
    seen: Seq<Seq<char>>,
    names: Seq<Seq<char>>,
) -> bool {
    kind_step_fails(keys, raw, parent, seen) || repeat_fails(raw) || if_fails(raw) || enum_fails(raw, names)
}

/// What compiling field `raw` gives: the first failing step's error, or
/// the compiled field.
pub open spec fn field_result(
    keys: Set<Seq<char>>,
    raw: RawField,
    parent: Seq<char>,
    seen: Seq<Seq<char>>,
    names: Seq<Seq<char>>,
    res: Result<CompiledField, DoeError>,
) -> bool {
    if kind_step_fails(keys, raw, parent, seen) {
        res matches Err(e) && kind_step(keys, raw, parent, seen, Err(e))
    } else if repeat_fails(raw) {
        res matches Err(e) && repeat_result(raw, parent, Err(e))
    } else if if_fails(raw) {
        res matches Err(e) && is_parse_error_in(e, raw.if_expr->Some_0@)
    } else if enum_fails(raw, names) {
        res matches Err(DoeError::UnknownEnum { enum_name, context }) && enum_name@
            == raw.enum_ref->Some_0@ && context@ == parent + "."@ + raw.id@
    } else {
        res matches Ok(f) && f.id@ == raw.id@ && f.doc == raw.doc && kind_step(
            keys,
            raw,
            parent,
            seen,
            Ok(f.kind),
        ) && repeat_result(raw, parent, Ok(f.repeat)) && match raw.if_expr {
            None => f.if_expr is None,
            Some(s) => f.if_expr matches Some(x) && spec_parse(s@) == Some(x@),
        } && f.enum_ref == raw.enum_ref
    }
}

proof fn lemma_enum_entry_names(enums: Seq<(String, CompiledEnum)>, n: Seq<char>)
    ensures
        enum_entry(enums, n) is None <==> !enum_names(enums).contains(n),
    decreases enums.len(),
{
    if enums.len() > 0 {
        lemma_enum_entry_names(enums.drop_last(), n);
        assert(enum_names(enums.drop_last()) =~= enum_names(enums).drop_last());
        if enum_names(enums).contains(n) {
            let k = choose|k: int| 0 <= k < enum_names(enums).len() && enum_names(enums)[k] == n;
            if k < enums.len() - 1 {
                assert(enum_names(enums.drop_last())[k] == n);
            }
        }
        if enum_names(enums.drop_last()).contains(n) {
            let k = choose|k: int| 0 <= k < enum_names(enums.drop_last()).len() && enum_names(enums.drop_last())[k] == n;
            assert(enum_names(enums)[k] == n);
        }
        if enums.last().0@ == n {
            assert(enum_names(enums)[enums.len() - 1] == n);
        }
    }
}

// ─────────────────────────────────────────────────────────────────────────────
// Type declarations
// ─────────────────────────────────────────────────────────────────────────────

/// Every enum's keys are valid.
pub open spec fn enums_ok(enums: Seq<(String, RawEnum)>) -> bool {
    forall|i: int| 0 <= i < enums.len() ==> keys_valid(#[trigger] enums[i].1@)
}

/// Every field of a sequence compiles.
pub open spec fn fields_ok(keys: Set<Seq<char>>, seq: Seq<RawField>, parent: Seq<char>, names: Seq<Seq<char>>) -> bool {
    forall|i: int| 0 <= i < seq.len() ==> !field_fails(keys, #[trigger] seq[i], parent, ids_before(seq, i), names)
}

/// A type declaration compiles, nested types included.
pub open spec fn decl_parts_ok(
    keys: Set<Seq<char>>,
    fqn: Seq<char>,
    seq: Seq<RawField>,
    types: Seq<(String, RawTypeDecl)>,
    enums: Seq<(String, RawEnum)>,
) -> bool
    decreases types, 1nat,
{
    enums_ok(enums) && fields_ok(keys, seq, fqn, enum_names(enums)) && decls_ok(keys, fqn, types)
}

/// The nested declarations compile, in order.
pub open spec fn decls_ok(keys: Set<Seq<char>>, fqn: Seq<char>, ds: Seq<(String, RawTypeDecl)>) -> bool
    decreases ds, 0nat,
{
    if ds.len() == 0 {
        true
    } else {
        decls_ok(keys, fqn, ds.drop_last()) && decl_parts_ok(
            keys,
            fqn + "::"@ + ds.last().0@,
            ds.last().1.seq@,
            ds.last().1.types@,
            ds.last().1.enums@,
        )
    }
}

/// `i` is the first field of the sequence that fails to compile.
pub open spec fn first_failing_field(
    keys: Set<Seq<char>>,
    seq: Seq<RawField>,
    parent: Seq<char>,
    names: Seq<Seq<char>>,
    i: int,
) -> bool {
    &&& 0 <= i < seq.len()
    &&& field_fails(keys, seq[i], parent, ids_before(seq, i), names)
    &&& forall|i2: int| 0 <= i2 < i ==> !field_fails(keys, #[trigger] seq[i2], parent, ids_before(seq, i2), names)
}

/// `e` is the error compiling a type declaration reports: that of the
/// first invalid enum key, else that of the first field that fails, else
/// that of the first nested declaration that fails.
pub open spec fn decl_error(
    keys: Set<Seq<char>>,
    fqn: Seq<char>,
    seq: Seq<RawField>,
    types: Seq<(String, RawTypeDecl)>,
    enums: Seq<(String, RawEnum)>,
    e: DoeError,
) -> bool
    decreases types, 1nat,
{
    if !enums_ok(enums) {
        exists|i: int, j: int|
            first_bad_key(enums, i, j) && (e matches DoeError::Schema(m) && m@ == bad_key_message(
                enums[i].0@,
                fqn,
                enums[i].1@[j].0@,
            ))
    } else if !fields_ok(keys, seq, fqn, enum_names(enums)) {
        exists|i: int|
            first_failing_field(keys, seq, fqn, enum_names(enums), i) && field_result(
                keys,
                seq[i],
                fqn,
                ids_before(seq, i),
                enum_names(enums),
                Err(e),
            )
    } else {
        decls_error(keys, fqn, types, e)
    }
}

/// `e` is the error of the first nested declaration that fails.
pub open spec fn decls_error(keys: Set<Seq<char>>, fqn: Seq<char>, ds: Seq<(String, RawTypeDecl)>, e: DoeError) -> bool
    decreases ds, 0nat,
{
    if ds.len() == 0 {
        false
    } else if !decls_ok(keys, fqn, ds.drop_last()) {
        decls_error(keys, fqn, ds.drop_last(), e)
    } else {
        decl_error(
            keys,
            fqn + "::"@ + ds.last().0@,
            ds.last().1.seq@,
            ds.last().1.types@,
            ds.last().1.enums@,
            e,
        )
    }
}

/// Every nested declaration's fully-qualified name is among `keys`.
pub open spec fn all_registered(keys: Set<Seq<char>>, fqn: Seq<char>, ds: Seq<(String, RawTypeDecl)>) -> bool
    decreases ds,
{
    if ds.len() == 0 {
        true
    } else {
        all_registered(keys, fqn, ds.drop_last()) && keys.contains(fqn + "::"@ + ds.last().0@)
            && all_registered(keys, fqn + "::"@ + ds.last().0@, ds.last().1.types@)
    }
}

/// `k` is `fqn` or a name nested under it.
pub open spec fn under(k: Seq<char>, fqn: Seq<char>) -> bool {
    k == fqn || (fqn + "::"@).is_prefix_of(k)
}

proof fn lemma_under_child(k: Seq<char>, fqn: Seq<char>, name: Seq<char>)
    requires
        under(k, fqn + "::"@ + name),
    ensures
        under(k, fqn),
        k != fqn,
{
    let a = fqn + "::"@;
    let c = a + name;
    assert(c.subrange(0, a.len() as int) =~= a);
    if k == c {
        assert(a.is_prefix_of(k));
    } else {
        let c2 = c + "::"@;
        assert(c2.is_prefix_of(k));
        assert(k.subrange(0, c2.len() as int) == c2);
        assert(k.subrange(0, a.len() as int) =~= c2.subrange(0, a.len() as int));
        assert(c2.subrange(0, a.len() as int) =~= a);
    }
    reveal_strlit("::");
}

/// The compiled type at `fqn` is the one declared by these parts.
pub open spec fn compiled_as(
    t: CompiledType,
    keys: Set<Seq<char>>,
    fqn: Seq<char>,
    seq: Seq<RawField>,
    enums: Seq<(String, RawEnum)>,
    endian: Endian,
) -> bool {
    &&& t.name@ == fqn
    &&& t.doc is None
    &&& t.endian == endian
    &&& t.fields@.len() == seq.len()
    &&& t.enums@.len() == enums.len()
    &&& forall|i: int|
        0 <= i < enums.len() ==> (#[trigger] t.enums@[i]).0@ == enums[i].0@ && t.enums@[i].1.variants@
            == enum_variants(enums[i].1@)
    &&& forall|i: int|
        0 <= i < seq.len() ==> field_result(
            keys,
            #[trigger] seq[i],
            fqn,
            ids_before(seq, i),
            enum_names(enums),
            Ok(t.fields@[i]),
        )
}

// ─────────────────────────────────────────────────────────────────────────────
// Compiler
// ─────────────────────────────────────────────────────────────────────────────

/// A schema whose imports are being loaded.
struct Pending {
    schema: RawSchema,
    /// The index of the next import to request.
    next_import: usize,
}

/// A request for the program around the library: read the schema `name`
/// from the first of the `candidates` paths that exists.
#[derive(Debug, Clone)]
pub struct SchemaRequest {
    pub name: String,
    pub candidates: Vec<String>,
}

/// What a compiler step leaves to do.
#[derive(Debug)]
pub enum LoadStep {
    /// A schema must be read and handed to [`Compiler::supply`].
    NeedSchema(SchemaRequest),
    /// Everything requested so far is compiled.
    Done,
}

/// Stateful compiler that accumulates types across multiple schema files.
pub struct Compiler {
    /// Directories to search for bare schema names (`"png"` → `<dir>/png.yaml`).
    include_paths: Vec<String>,
    /// The registry being built.
    pub registry: TypeRegistry,
    /// Ids of the schemas currently being loaded, for cycle detection.
    loading_stack: Vec<String>,
    /// Ids of the schemas fully processed.
    processed: Vec<String>,
    /// Schema id → the source it was loaded from, for duplicate detection.
    source_paths: Vec<(String, String)>,
    /// Schemas waiting for their imports, outermost first.
    pending: Vec<Pending>,
    /// The schema request that is outstanding, if any.
    awaiting: Option<SchemaRequest>,
}

impl Compiler {
    /// The registered types.
    pub closed spec fn types(&self) -> Map<Seq<char>, CompiledType> {
        self.registry@
    }

    /// The names of the registered types.
    pub open spec fn keys(&self) -> Set<Seq<char>> {
        self.types().dom()
    }

    /// A compiler with an empty registry.
    pub fn new(include_paths: Vec<String>) -> (res: Self)
        ensures
            res.types() == Map::<Seq<char>, CompiledType>::empty(),
            res.awaiting_request() is None,
            res.search_dirs() == names(include_paths@),
            res.processed_ids() == Seq::<Seq<char>>::empty(),
            res.loading() == Seq::<Seq<char>>::empty(),
            res.waiting() == 0,
            res.wf(),
    {
        let res = Compiler {
            include_paths,
            registry: TypeRegistry::new(),
            loading_stack: Vec::new(),
            processed: Vec::new(),
            source_paths: Vec::new(),
            pending: Vec::new(),
            awaiting: None,
        };
        assert(res.loading() =~= res.pending_schemas().map_values(|x: RawSchema| x.id@));
        res
    }

    /// The request the compiler is waiting on.
    pub closed spec fn awaiting_request(&self) -> Option<SchemaRequest> {
        self.awaiting
    }

    /// Is the compiler waiting for a schema?
    pub fn is_awaiting(&self) -> (res: bool)
        ensures
            res == self.awaiting_request() is Some,
    {
        self.awaiting.is_some()
    }

    // ── Type references ──────────────────────────────────────────────────────

    /// Resolve a bare or partially-qualified type name to a fully-qualified
    /// one that is registered: the name as it is, else `<parent>::<name>`,
    /// else the same in each enclosing scope.
    fn resolve_type_ref(&self, name: &str, parent_fqn: &str) -> (res: Option<String>)
        ensures
            match resolve_type_spec(self.keys(), name@, parent_fqn@) {
                Some(f) => res matches Some(r) && r@ == f,
                None => res is None,
            },
    {
        if self.registry.contains(name) {
            return Some(name.to_owned());
        }
        let cs = chars_of(parent_fqn);
        let mut len = cs.len();
        assert(cs@.subrange(0, len as int) =~= parent_fqn@);
        loop
            invariant
                len <= cs@.len(),
                scope_walk(self.keys(), name@, cs@.subrange(0, len as int)) == scope_walk(
                    self.keys(),
                    name@,
                    parent_fqn@,
                ),
                !self.keys().contains(name@),
            decreases len,
        {
            let ghost scope = cs@.subrange(0, len as int);
            let mut candidate = string_of(&cs, len);
            push_str(&mut candidate, "::");
            push_str(&mut candidate, name);
            if self.registry.contains(candidate.as_str()) {
                return Some(candidate);
            }
            let mut k = len;
            proof {
                lemma_last_sep_prefix(cs@, len as int, len as int);
            }
            while k >= 2 && !(cs[k - 2] == ':' && cs[k - 1] == ':')
                invariant
                    k <= len <= cs@.len(),
                    last_sep_upto(cs@, len as int) == last_sep_upto(cs@, k as int),
                decreases k,
            {
                k = k - 1;
            }
            if k < 2 {
                return None;
            }
            proof {
                lemma_last_sep_prefix(cs@, len as int, len as int);
                assert(scope.subrange(0, k - 2) =~= cs@.subrange(0, k - 2));
            }
            len = k - 2;
        }
    }

    /// Resolve a type name string to a field kind.
    fn compile_type_ref(&self, ty_name: &String, raw: &RawField, parent_fqn: &str, seen_ids: &[String]) -> (res:
        Result<FieldKind, DoeError>)
        ensures
            kind_result(self.keys(), ty_name@, *raw, parent_fqn@, names(seen_ids@), res),
            res is Err <==> kind_fails(self.keys(), ty_name@, *raw, parent_fqn@, names(seen_ids@)),
    {
        match prim_kind_of(ty_name) {
            Some(k) => {
                return Ok(k);
            },
            None => {},
        }
        if str_is(ty_name, "bytes") {
            let size = compile_size(raw, parent_fqn, seen_ids)?;
            Ok(FieldKind::Bytes { size })
        } else if str_is(ty_name, "strz") {
            let term = match raw.terminator {
                Some(x) => x,
                None => 0u8,
            };
            Ok(FieldKind::Str { size: StrSize::Terminator(term), encoding: compile_encoding(raw.encoding) })
        } else if str_is(ty_name, "str") {
            let enc = compile_encoding(raw.encoding);
            let str_size = match raw.terminator {
                Some(term) => StrSize::Terminator(term),
                None => StrSize::Fixed(compile_size(raw, parent_fqn, seen_ids)?),
            };
            Ok(FieldKind::Str { size: str_size, encoding: enc })
        } else if str_is(ty_name, "bits") {
            match raw.bit_size {
                Some(b) => Ok(FieldKind::Bits { bit_size: b }),
                None => Err(field_error(raw.id.as_str(), parent_fqn, "'bits' type requires 'bit_size'")),
            }
        } else {
            match self.resolve_type_ref(ty_name.as_str(), parent_fqn) {
                Some(name) => Ok(FieldKind::TypeRef { ty_name: name }),
                None => {
                    let mut context = parent_fqn.to_owned();
                    push_str(&mut context, ".");
                    push_str(&mut context, raw.id.as_str());
                    Err(DoeError::UnknownType { ty_name: ty_name.clone(), context })
                },
            }
        }
    }

    /// Compile one field.
    fn compile_field(&self, raw: &RawField, parent_fqn: &str, seen_ids: &[String], enums: &Vec<(String, CompiledEnum)>) -> (res:
        Result<CompiledField, DoeError>)
        ensures
            field_result(self.keys(), *raw, parent_fqn@, names(seen_ids@), enum_names(enums@), res),
            res is Err <==> field_fails(self.keys(), *raw, parent_fqn@, names(seen_ids@), enum_names(enums@)),
    {
        let kind = match &raw.contents {
            Some(contents) => compile_contents(contents, raw.id.as_str(), parent_fqn)?,
            None => match &raw.type_ref {
                None => {
                    return Err(field_error(raw.id.as_str(), parent_fqn, "field has neither 'type' nor 'contents'"));
                },
                Some(t) => self.compile_type_ref(t, raw, parent_fqn, seen_ids)?,
            },
        };
        let repeat = compile_repeat(raw, parent_fqn)?;
        let if_expr = match &raw.if_expr {
            Some(src) => Some(parse(src.as_str())?),
            None => None,
        };
        match &raw.enum_ref {
            Some(enum_name) => {
                let known = enums_contain(enums, enum_name);
                if !known {
                    let mut context = parent_fqn.to_owned();
                    push_str(&mut context, ".");
                    push_str(&mut context, raw.id.as_str());
                    return Err(DoeError::UnknownEnum { enum_name: enum_name.clone(), context });
                }
            },
            None => {},
        }
        Ok(CompiledField {
            id: raw.id.clone(),
            doc: raw.doc.clone(),
            kind,
            repeat,
            if_expr,
            enum_ref: raw.enum_ref.clone(),
        })
    }
}

/// Is an enum named `name` among `enums`?
fn enums_contain(enums: &Vec<(String, CompiledEnum)>, name: &String) -> (res: bool)
    ensures
        res == enum_names(enums@).contains(name@),
{
    let mut i: usize = 0;
    while i < enums.len()
        invariant
            i <= enums@.len(),
            forall|j: int| 0 <= j < i ==> enums@[j].0@ != name@,
        decreases enums@.len() - i,
    {
        if str_is(&enums[i].0, name.as_str()) {
            assert(enum_names(enums@)[i as int] == name@);
            return true;
        }
        i = i + 1;
    }
    proof {
        if enum_names(enums@).contains(name@) {
            let k = choose|k: int| 0 <= k < enum_names(enums@).len() && enum_names(enums@)[k] == name@;
            assert(enums@[k].0@ == name@);
        }
    }
    false
}

/// The fully-qualified names of nested declarations under `prefix`.
pub open spec fn nested_fqns(prefix: Seq<char>, ds: Seq<(String, RawTypeDecl)>) -> Set<Seq<char>>
    decreases ds,
{
    if ds.len() == 0 {
        Set::empty()
    } else {
        nested_fqns(prefix, ds.drop_last()).insert(prefix + "::"@ + ds.last().0@) + nested_fqns(
            prefix + "::"@ + ds.last().0@,
            ds.last().1.types@,
        )
    }
}

proof fn lemma_registered_mono(k1: Set<Seq<char>>, k2: Set<Seq<char>>, fqn: Seq<char>, ds: Seq<(String, RawTypeDecl)>)
    requires
        all_registered(k1, fqn, ds),
        k1.subset_of(k2),
    ensures
        all_registered(k2, fqn, ds),
    decreases ds,
{
    if ds.len() > 0 {
        lemma_registered_mono(k1, k2, fqn, ds.drop_last());
        lemma_registered_mono(k1, k2, fqn + "::"@ + ds.last().0@, ds.last().1.types@);
    }
}

proof fn lemma_registered_index(keys: Set<Seq<char>>, fqn: Seq<char>, ds: Seq<(String, RawTypeDecl)>, j: int)
    requires
        all_registered(keys, fqn, ds),
        0 <= j < ds.len(),
    ensures
        keys.contains(fqn + "::"@ + ds[j].0@),
        all_registered(keys, fqn + "::"@ + ds[j].0@, ds[j].1.types@),
    decreases ds.len(),
{
    if j < ds.len() - 1 {
        assert(ds.drop_last()[j] == ds[j]);
        lemma_registered_index(keys, fqn, ds.drop_last(), j);
    }
}

/// The fully-qualified name of the `i`-th declaration nested in `fqn`.
pub open spec fn child_fqn(fqn: Seq<char>, ds: Seq<(String, RawTypeDecl)>, i: int) -> Seq<char> {
    fqn + "::"@ + ds[i].0@
}

/// Some name is under both `a` and `b`.
pub open spec fn overlap(a: Seq<char>, b: Seq<char>) -> bool {
    exists|k: Seq<char>| #[trigger] under(k, a) && #[trigger] under(k, b)
}

/// No two nested declarations, at any depth, name the same type: no name
/// is under two siblings, so that compiling one never replaces what
/// another compiled.
pub open spec fn decls_disjoint(fqn: Seq<char>, ds: Seq<(String, RawTypeDecl)>) -> bool
    decreases ds, 1nat,
{
    &&& forall|i: int, j: int|
        0 <= i < ds.len() && 0 <= j < ds.len() && i != j ==> !overlap(
            #[trigger] child_fqn(fqn, ds, i),
            #[trigger] child_fqn(fqn, ds, j),
        )
    &&& nested_disjoint(fqn, ds)
}

/// The declarations nested in each of `ds` are disjoint in turn.
pub open spec fn nested_disjoint(fqn: Seq<char>, ds: Seq<(String, RawTypeDecl)>) -> bool
    decreases ds, 0nat,
{
    if ds.len() == 0 {
        true
    } else {
        nested_disjoint(fqn, ds.drop_last()) && decls_disjoint(fqn + "::"@ + ds.last().0@, ds.last().1.types@)
    }
}

/// Every declaration nested in `fqn`, at any depth, is compiled in `m`
/// under its fully-qualified name `fqn::n1::...::nk`, with the byte order
/// `endian` that it inherits.
pub open spec fn all_compiled(
    m: Map<Seq<char>, CompiledType>,
    keys: Set<Seq<char>>,
    fqn: Seq<char>,
    ds: Seq<(String, RawTypeDecl)>,
    endian: Endian,
) -> bool
    decreases ds,
{
    if ds.len() == 0 {
        true
    } else {
        let c = fqn + "::"@ + ds.last().0@;
        &&& all_compiled(m, keys, fqn, ds.drop_last(), endian)
        &&& m.contains_key(c)
        &&& compiled_as(m[c], keys, c, ds.last().1.seq@, ds.last().1.enums@, endian)
        &&& all_compiled(m, keys, c, ds.last().1.types@, endian)
    }
}

/// Every type declared under a schema's `types:`, at any depth, is compiled
/// under its fully-qualified name with the schema's byte order (where no
/// two declarations name the same type).
pub open spec fn nested_compiled(m: Map<Seq<char>, CompiledType>, keys: Set<Seq<char>>, schema: RawSchema) -> bool {
    decls_disjoint(schema.id@, schema.types@) ==> all_compiled(m, keys, schema.id@, schema.types@, schema_endian(schema))
}

proof fn lemma_prefix_trans(a: Seq<char>, b: Seq<char>, c: Seq<char>)
    requires
        a.is_prefix_of(b),
        b.is_prefix_of(c),
    ensures
        a.is_prefix_of(c),
{
    assert forall|i: int| 0 <= i < a.len() implies a[i] == c[i] by {
        assert(a[i] == b[i]);
    }
}

/// `under` is transitive.
proof fn lemma_under_trans(a: Seq<char>, b: Seq<char>, c: Seq<char>)
    requires
        under(a, b),
        under(b, c),
    ensures
        under(a, c),
{
    if a != b && b != c {
        let b2 = b + "::"@;
        let c2 = c + "::"@;
        assert(c2.is_prefix_of(b));
        assert(b.is_prefix_of(b2));
        lemma_prefix_trans(c2, b, b2);
        lemma_prefix_trans(c2, b2, a);
    }
}

proof fn lemma_disjoint_index(fqn: Seq<char>, ds: Seq<(String, RawTypeDecl)>, j: int)
    requires
        nested_disjoint(fqn, ds),
        0 <= j < ds.len(),
    ensures
        decls_disjoint(child_fqn(fqn, ds, j), ds[j].1.types@),
    decreases ds.len(),
{
    if j < ds.len() - 1 {
        assert(ds.drop_last()[j] == ds[j]);
        lemma_disjoint_index(fqn, ds.drop_last(), j);
    }
}

/// What is compiled under `fqn` stays so when only names under `x`, which
/// overlaps no declaration of `ds`, change.
proof fn lemma_all_compiled_frame(
    m1: Map<Seq<char>, CompiledType>,
    m2: Map<Seq<char>, CompiledType>,
    keys: Set<Seq<char>>,
    fqn: Seq<char>,
    ds: Seq<(String, RawTypeDecl)>,
    endian: Endian,
    x: Seq<char>,
)
    requires
        all_compiled(m1, keys, fqn, ds, endian),
        same_outside(m2, m1, x),
        forall|i: int| 0 <= i < ds.len() ==> !overlap(#[trigger] child_fqn(fqn, ds, i), x),
    ensures
        all_compiled(m2, keys, fqn, ds, endian),
    decreases ds,
{
    if ds.len() > 0 {
        let n = ds.len() - 1;
        let c = fqn + "::"@ + ds.last().0@;
        assert(child_fqn(fqn, ds, n) == c);
        assert(!overlap(c, x));
        if under(c, x) {
            assert(under(c, c));
            assert(overlap(c, x));
        }
        assert forall|i: int| 0 <= i < ds.drop_last().len() implies !overlap(
            #[trigger] child_fqn(fqn, ds.drop_last(), i),
            x,
        ) by {
            assert(child_fqn(fqn, ds.drop_last(), i) == child_fqn(fqn, ds, i));
        }
        lemma_all_compiled_frame(m1, m2, keys, fqn, ds.drop_last(), endian, x);
        let sub = ds.last().1.types@;
        assert forall|i: int| 0 <= i < sub.len() implies !overlap(#[trigger] child_fqn(c, sub, i), x) by {
            let ci = child_fqn(c, sub, i);
            if overlap(ci, x) {
                let k = choose|k: Seq<char>| #[trigger] under(k, ci) && #[trigger] under(k, x);
                lemma_under_child(ci, c, sub[i].0@);
                lemma_under_trans(k, ci, c);
                assert(overlap(c, x));
            }
        }
        lemma_all_compiled_frame(m1, m2, keys, c, sub, endian, x);
    }
}

proof fn lemma_nested_under(prefix: Seq<char>, ds: Seq<(String, RawTypeDecl)>, k: Seq<char>)
    requires
        nested_fqns(prefix, ds).contains(k),
    ensures
        under(k, prefix),
        k != prefix,
    decreases ds,
{
    if ds.len() > 0 {
        let c = prefix + "::"@ + ds.last().0@;
        if nested_fqns(prefix, ds.drop_last()).contains(k) {
            lemma_nested_under(prefix, ds.drop_last(), k);
        } else if k == c {
            lemma_under_child(k, prefix, ds.last().0@);
        } else {
            lemma_nested_under(c, ds.last().1.types@, k);
            lemma_under_child(k, prefix, ds.last().0@);
        }
    }
}

/// `new` agrees with `old` outside the names nested under `fqn` (and
/// `fqn` itself).
pub open spec fn same_outside(new: Map<Seq<char>, CompiledType>, old: Map<Seq<char>, CompiledType>, fqn: Seq<char>) -> bool {
    forall|k: Seq<char>| #[trigger] old.contains_key(k) && !under(k, fqn) ==> new.contains_key(k) && new[k] == old[k]
}

impl Compiler {
    /// The state other than the registry is the same.
    closed spec fn same_except_registry(&self, other: &Self) -> bool {
        &&& self.include_paths == other.include_paths
        &&& self.loading_stack == other.loading_stack
        &&& self.processed == other.processed
        &&& self.source_paths == other.source_paths
        &&& self.pending == other.pending
        &&& self.awaiting == other.awaiting
    }

    /// Register every nested type name under `prefix` that is not yet known,
    /// with an empty placeholder.
    fn collect_nested_names(&mut self, prefix: &str, types: &Vec<(String, RawTypeDecl)>)
        ensures
            final(self).keys() == old(self).keys() + nested_fqns(prefix@, types@),
            forall|k: Seq<char>| #[trigger] old(self).types().contains_key(k) ==> final(self).types()[k] == old(self).types()[k],
            forall|k: Seq<char>|
                #[trigger] final(self).types().contains_key(k) && !old(self).types().contains_key(k)
                    ==> is_placeholder(final(self).types()[k], k),
            final(self).same_except_registry(old(self)),
        decreases types,
    {
        let mut i: usize = 0;
        assert(types@.subrange(0, 0) =~= Seq::<(String, RawTypeDecl)>::empty());
        assert(old(self).keys() + Set::empty() =~= old(self).keys());
        while i < types.len()
            invariant
                i <= types@.len(),
                self.keys() == old(self).keys() + nested_fqns(prefix@, types@.subrange(0, i as int)),
                forall|k: Seq<char>| #[trigger] old(self).types().contains_key(k) ==> self.types()[k] == old(self).types()[k],
                forall|k: Seq<char>|
                    #[trigger] self.types().contains_key(k) && !old(self).types().contains_key(k)
                        ==> is_placeholder(self.types()[k], k),
                self.same_except_registry(old(self)),
            decreases types@.len() - i,
        {
            proof {
                assert(decreases_to!(types => types@));
                assert(decreases_to!(types@ => types@[i as int]));
                assert(decreases_to!(types@[i as int] => types@[i as int].1));
                assert(decreases_to!(types@[i as int].1 => types@[i as int].1.types));
            }
            let entry = &types[i];
            let mut fqn = prefix.to_owned();
            push_str(&mut fqn, "::");
            push_str(&mut fqn, entry.0.as_str());
            let ghost before = self.types();
            if !self.registry.contains(fqn.as_str()) {
                let p = placeholder(fqn.as_str());
                self.registry.insert(fqn.clone(), p);
            }
            let ghost mid = self.types();
            self.collect_nested_names(fqn.as_str(), &entry.1.types);
            proof {
                assert forall|k: Seq<char>| #[trigger] old(self).types().contains_key(k) implies self.types()[k] == old(self).types()[k] by {
                    assert(before.contains_key(k));
                    assert(mid.contains_key(k));
                }
                assert forall|k: Seq<char>|
                    #[trigger] self.types().contains_key(k) && !old(self).types().contains_key(k)
                        implies is_placeholder(self.types()[k], k) by {
                    if mid.contains_key(k) {
                        if !before.contains_key(k) {
                            assert(k == fqn@);
                        }
                    }
                }
                let sub = types@.subrange(0, i + 1);
                assert(sub.drop_last() =~= types@.subrange(0, i as int));
                assert(sub.last() == types@[i as int]);
                assert(self.keys() =~= old(self).keys() + nested_fqns(prefix@, sub));
            }
            i = i + 1;
        }
        assert(types@.subrange(0, types@.len() as int) =~= types@);
    }

    /// Register every type name a schema defines, so that references within
    /// the schema resolve while it is compiled.
    fn collect_type_names(&mut self, schema: &RawSchema)
        ensures
            final(self).keys() == old(self).keys().insert(schema.id@) + nested_fqns(schema.id@, schema.types@),
            forall|k: Seq<char>| #[trigger] old(self).types().contains_key(k) ==> final(self).types()[k] == old(self).types()[k],
            forall|k: Seq<char>|
                #[trigger] final(self).types().contains_key(k) && !old(self).types().contains_key(k)
                    ==> is_placeholder(final(self).types()[k], k),
            final(self).same_except_registry(old(self)),
    {
        if !self.registry.contains(schema.id.as_str()) {
            let p = placeholder(schema.id.as_str());
            self.registry.insert(schema.id.clone(), p);
        }
        assert(self.keys() =~= old(self).keys().insert(schema.id@));
        let ghost mid = self.types();
        self.collect_nested_names(schema.id.as_str(), &schema.types);
        proof {
            assert forall|k: Seq<char>| #[trigger] old(self).types().contains_key(k) implies self.types()[k] == old(self).types()[k] by {
                assert(mid.contains_key(k));
            }
            assert forall|k: Seq<char>|
                #[trigger] self.types().contains_key(k) && !old(self).types().contains_key(k)
                    implies is_placeholder(self.types()[k], k) by {
                if mid.contains_key(k) {
                    assert(k == schema.id@);
                }
            }
        }
    }
}

proof fn lemma_nested_registered(keys: Set<Seq<char>>, prefix: Seq<char>, ds: Seq<(String, RawTypeDecl)>)
    requires
        nested_fqns(prefix, ds).subset_of(keys),
    ensures
        all_registered(keys, prefix, ds),
    decreases ds,
{
    if ds.len() > 0 {
        let c = prefix + "::"@ + ds.last().0@;
        lemma_nested_registered(keys, prefix, ds.drop_last());
        lemma_nested_registered(keys, c, ds.last().1.types@);
    }
}

impl Compiler {
    /// Compile one type (the root or an inline sub-type) into the registry,
    /// then its nested `types:` declarations.
    fn compile_type_decl(
        &mut self,
        fqn: &str,
        seq: &Vec<RawField>,
        types: &Vec<(String, RawTypeDecl)>,
        enums: &Vec<(String, RawEnum)>,
        endian: Endian,
    ) -> (res: Result<(), DoeError>)
        requires
            old(self).keys().contains(fqn@),
            all_registered(old(self).keys(), fqn@, types@),
        ensures
            final(self).keys() == old(self).keys(),
            same_outside(final(self).types(), old(self).types(), fqn@),
            final(self).same_except_registry(old(self)),
            res is Ok <==> decl_parts_ok(old(self).keys(), fqn@, seq@, types@, enums@),
            res is Ok ==> compiled_as(final(self).types()[fqn@], old(self).keys(), fqn@, seq@, enums@, endian),
            res is Ok && decls_disjoint(fqn@, types@) ==> all_compiled(
                final(self).types(),
                old(self).keys(),
                fqn@,
                types@,
                endian,
            ),
            res matches Err(e) ==> decl_error(old(self).keys(), fqn@, seq@, types@, enums@, e),
        decreases types,
    {
        let ghost keys = self.keys();
        let compiled_enums = compile_enums(enums, fqn)?;
        assert(enum_names(compiled_enums@) =~= enum_names(enums@));
        let mut fields: Vec<CompiledField> = Vec::new();
        let mut seen_ids: Vec<String> = Vec::new();
        let mut i: usize = 0;
        while i < seq.len()
            invariant
                i <= seq@.len(),
                *self == *old(self),
                keys == self.keys(),
                enums_ok(enums@),
                enum_names(compiled_enums@) == enum_names(enums@),
                names(seen_ids@) == ids_before(seq@, i as int),
                fields@.len() == i,
                forall|j: int|
                    0 <= j < i ==> field_result(
                        keys,
                        #[trigger] seq@[j],
                        fqn@,
                        ids_before(seq@, j),
                        enum_names(enums@),
                        Ok(fields@[j]),
                    ),
                forall|j: int|
                    0 <= j < i ==> !field_fails(keys, #[trigger] seq@[j], fqn@, ids_before(seq@, j), enum_names(enums@)),
            decreases seq@.len() - i,
        {
            let compiled = match self.compile_field(&seq[i], fqn, seen_ids.as_slice(), &compiled_enums) {
                Ok(f) => f,
                Err(e) => {
                    assert(!fields_ok(keys, seq@, fqn@, enum_names(enums@)));
                    assert(first_failing_field(keys, seq@, fqn@, enum_names(enums@), i as int));
                    assert(field_result(keys, seq@[i as int], fqn@, ids_before(seq@, i as int), enum_names(enums@), Err(e)));
                    return Err(e);
                },
            };
            seen_ids.push(seq[i].id.clone());
            fields.push(compiled);
            proof {
                let a = names(seen_ids@);
                let b = ids_before(seq@, i + 1);
                assert(ids_before(seq@, i as int).len() == i);
                assert(seen_ids@.len() == i + 1);
                assert(a.len() == seen_ids@.len());
                assert(seq@.subrange(0, i + 1).len() == i + 1);
                assert(b.len() == i + 1);
                assert forall|k: int| 0 <= k < a.len() implies a[k] == b[k] by {
                    if k < i {
                        assert(a[k] == seen_ids@[k]@);
                        assert(ids_before(seq@, i as int)[k] == seq@[k].id@);
                    } else {
                        assert(a[k] == seen_ids@[k]@);
                    }
                }
                assert(a =~= b);
            }
            i = i + 1;
        }
        let ct = CompiledType { name: fqn.to_owned(), doc: None, endian, fields, enums: compiled_enums };
        assert(compiled_as(ct, keys, fqn@, seq@, enums@, endian));
        self.registry.insert(fqn.to_owned(), ct);
        assert(self.keys() =~= keys);
        let mut j: usize = 0;
        assert(types@.subrange(0, 0) =~= Seq::<(String, RawTypeDecl)>::empty());
        while j < types.len()
            invariant
                j <= types@.len(),
                self.keys() == keys,
                keys == old(self).keys(),
                self.same_except_registry(old(self)),
                all_registered(keys, fqn@, types@),
                self.types().contains_key(fqn@),
                compiled_as(self.types()[fqn@], keys, fqn@, seq@, enums@, endian),
                same_outside(self.types(), old(self).types(), fqn@),
                enums_ok(enums@),
                fields_ok(keys, seq@, fqn@, enum_names(enums@)),
                decls_ok(keys, fqn@, types@.subrange(0, j as int)),
                decls_disjoint(fqn@, types@) ==> all_compiled(
                    self.types(),
                    keys,
                    fqn@,
                    types@.subrange(0, j as int),
                    endian,
                ),
            decreases types@.len() - j,
        {
            proof {
                assert(decreases_to!(types => types@));
                assert(decreases_to!(types@ => types@[j as int]));
                assert(decreases_to!(types@[j as int] => types@[j as int].1));
                assert(decreases_to!(types@[j as int].1 => types@[j as int].1.types));
                lemma_registered_index(keys, fqn@, types@, j as int);
            }
            let entry = &types[j];
            let mut child = fqn.to_owned();
            push_str(&mut child, "::");
            push_str(&mut child, entry.0.as_str());
            let ghost before = self.types();
            let r = self.compile_type_decl(child.as_str(), &entry.1.seq, &entry.1.types, &entry.1.enums, endian);
            proof {
                assert forall|k: Seq<char>| #[trigger] old(self).types().contains_key(k) && !under(k, fqn@)
                    implies self.types().contains_key(k) && self.types()[k] == old(self).types()[k] by {
                    if under(k, child@) {
                        lemma_under_child(k, fqn@, entry.0@);
                    }
                }
                if under(fqn@, child@) {
                    lemma_under_child(fqn@, fqn@, entry.0@);
                }
                let sub = types@.subrange(0, j + 1);
                assert(sub.drop_last() =~= types@.subrange(0, j as int));
                assert(sub.last() == types@[j as int]);
            }
            match r {
                Ok(()) => {
                    proof {
                        if decls_disjoint(fqn@, types@) {
                            let prefix = types@.subrange(0, j as int);
                            let sub = types@.subrange(0, j + 1);
                            assert(child@ == child_fqn(fqn@, types@, j as int));
                            assert forall|i: int| 0 <= i < prefix.len() implies !overlap(
                                #[trigger] child_fqn(fqn@, prefix, i),
                                child@,
                            ) by {
                                assert(child_fqn(fqn@, prefix, i) == child_fqn(fqn@, types@, i));
                            }
                            lemma_all_compiled_frame(before, self.types(), keys, fqn@, prefix, endian, child@);
                            lemma_disjoint_index(fqn@, types@, j as int);
                            assert(all_compiled(self.types(), keys, fqn@, sub, endian));
                        }
                    }
                },
                Err(e) => {
                    proof {
                        if decls_ok(keys, fqn@, types@) {
                            lemma_decls_prefix(keys, fqn@, types@, j as int + 1);
                        }
                        lemma_decls_error_at(keys, fqn@, types@, j as int, e);
                    }
                    return Err(e);
                },
            }
            j = j + 1;
        }
        assert(types@.subrange(0, types@.len() as int) =~= types@);
        Ok(())
    }
}

/// When the first `j` declarations compile and the next one fails with
/// `e`, `e` is the error of the whole list.
proof fn lemma_decls_error_at(keys: Set<Seq<char>>, fqn: Seq<char>, ds: Seq<(String, RawTypeDecl)>, j: int, e: DoeError)
    requires
        0 <= j < ds.len(),
        decls_ok(keys, fqn, ds.subrange(0, j)),
        decl_error(keys, fqn + "::"@ + ds[j].0@, ds[j].1.seq@, ds[j].1.types@, ds[j].1.enums@, e),
        !decl_parts_ok(keys, fqn + "::"@ + ds[j].0@, ds[j].1.seq@, ds[j].1.types@, ds[j].1.enums@),
    ensures
        decls_error(keys, fqn, ds, e),
        !decls_ok(keys, fqn, ds),
    decreases ds.len(),
{
    if j == ds.len() - 1 {
        assert(ds.drop_last() =~= ds.subrange(0, j));
    } else {
        assert(ds.drop_last().subrange(0, j) =~= ds.subrange(0, j));
        assert(ds.drop_last()[j] == ds[j]);
        lemma_decls_error_at(keys, fqn, ds.drop_last(), j, e);
    }
}

/// A prefix of declarations that compile also compiles.
proof fn lemma_decls_prefix(keys: Set<Seq<char>>, fqn: Seq<char>, ds: Seq<(String, RawTypeDecl)>, n: int)
    requires
        0 <= n <= ds.len(),
        decls_ok(keys, fqn, ds),
    ensures
        decls_ok(keys, fqn, ds.subrange(0, n)),
    decreases ds.len(),
{
    if n < ds.len() {
        assert(ds.drop_last() =~= ds.subrange(0, ds.len() - 1));
        assert(ds.drop_last().subrange(0, n) =~= ds.subrange(0, n));
        lemma_decls_prefix(keys, fqn, ds.drop_last(), n);
    } else {
        assert(ds.subrange(0, n) =~= ds);
    }
}

// ─────────────────────────────────────────────────────────────────────────────
// Paths
// ─────────────────────────────────────────────────────────────────────────────

/// The path `rel` joined onto `base`, as `std::path::Path::join` forms it.
pub uninterp spec fn path_join(base: Seq<char>, rel: Seq<char>) -> Seq<char>;

/// The parent of a path, as `std::path::Path::parent` gives it.
pub uninterp spec fn path_parent(p: Seq<char>) -> Option<Seq<char>>;

/// `std::path::Path::join`, the result as text: a function of the two
/// paths alone, named `path_join`.
#[verifier::external_body]
pub(crate) fn join_paths(base: &str, rel: &str) -> (res: String)
    ensures
        res@ == path_join(base@, rel@),
{
    std::path::Path::new(base).join(rel).to_string_lossy().into_owned()
}

/// `std::path::Path::parent`, the result as text: a function of the path
/// alone, named `path_parent`.
#[verifier::external_body]
fn parent_path(p: &str) -> (res: Option<String>)
    ensures
        match path_parent(p@) {
            Some(q) => res matches Some(r) && r@ == q,
            None => res is None,
        },
{
    match std::path::Path::new(p).parent() {
        Some(q) => Some(q.to_string_lossy().into_owned()),
        None => None,
    }
}

/// Does `s` start with `prefix`?
pub open spec fn starts_with(s: Seq<char>, prefix: Seq<char>) -> bool {
    prefix.len() <= s.len() && s.subrange(0, prefix.len() as int) == prefix
}

fn starts_with_chars(s: &Vec<char>, prefix: &[char]) -> (res: bool)
    ensures
        res == starts_with(s@, prefix@),
{
    if prefix.len() > s.len() {
        return false;
    }
    let mut i: usize = 0;
    while i < prefix.len()
        invariant
            prefix@.len() <= s@.len(),
            i <= prefix@.len(),
            forall|j: int| 0 <= j < i ==> s@[j] == prefix@[j],
        decreases prefix@.len() - i,
    {
        if s[i] != prefix[i] {
            return false;
        }
        i = i + 1;
    }
    assert(s@.subrange(0, prefix@.len() as int) =~= prefix@);
    true
}

/// A reference that is resolved relative to the importing schema.
pub open spec fn is_relative_ref(n: Seq<char>) -> bool {
    starts_with(n, seq!['.', '/']) || starts_with(n, seq!['.', '.', '/'])
}

/// The file name a bare schema name stands for: the name itself when it
/// has a `.yaml` / `.yml` extension, else the name with `.yaml` added.
pub open spec fn schema_stem(n: Seq<char>) -> Seq<char> {
    if crate::spec_ends_with(n, seq!['.', 'y', 'a', 'm', 'l']) || crate::spec_ends_with(n, seq!['.', 'y', 'm', 'l']) {
        n
    } else {
        n + seq!['.', 'y', 'a', 'm', 'l']
    }
}

/// The paths a schema reference is looked for at, in order: a relative
/// reference next to the importing schema (or the working directory), a
/// bare name in each include directory; either way with `.yaml` added when
/// the reference has no `.yaml` / `.yml` extension.
pub open spec fn candidates_spec(dirs: Seq<Seq<char>>, n: Seq<char>, rel: Option<Seq<char>>) -> Seq<Seq<char>> {
    if is_relative_ref(n) {
        seq![path_join(match rel {
            Some(r) => r,
            None => seq!['.'],
        }, schema_stem(n))]
    } else {
        dirs.map_values(|d: Seq<char>| path_join(d, schema_stem(n)))
    }
}

/// Two requests ask for the same thing.
pub open spec fn same_request(a: SchemaRequest, b: SchemaRequest) -> bool {
    a.name@ == b.name@ && names(a.candidates@) == names(b.candidates@)
}

/// The first position at or after `i` where `s` holds `x`, or its length.
pub open spec fn first_from(s: Seq<Seq<char>>, x: Seq<char>, i: int) -> int
    decreases s.len() - i,
{
    if i < 0 || i >= s.len() {
        s.len() as int
    } else if s[i] == x {
        i
    } else {
        first_from(s, x, i + 1)
    }
}

/// The import cycle closed by loading `id` again: the ids being loaded from
/// the first occurrence of `id` on, then `id` itself.
pub open spec fn cycle_spec(loading: Seq<Seq<char>>, id: Seq<char>) -> Seq<Seq<char>> {
    loading.subrange(first_from(loading, id, 0), loading.len() as int).push(id)
}

fn cycle_from(stack: &Vec<String>, id: &String) -> (res: Vec<String>)
    ensures
        names(res@) == cycle_spec(names(stack@), id@),
{
    let ghost s = names(stack@);
    let mut i: usize = 0;
    while i < stack.len() && !str_is(&stack[i], id.as_str())
        invariant
            i <= stack@.len(),
            s == names(stack@),
            first_from(s, id@, 0) == first_from(s, id@, i as int),
        decreases stack@.len() - i,
    {
        assert(s[i as int] == stack@[i as int]@);
        i = i + 1;
    }
    let start = i;
    assert(first_from(s, id@, 0) == start);
    let mut out: Vec<String> = Vec::new();
    while i < stack.len()
        invariant
            start <= i <= stack@.len(),
            names(out@) == s.subrange(start as int, i as int),
            s == names(stack@),
        decreases stack@.len() - i,
    {
        let ghost prev = out@;
        let c = stack[i].clone();
        assert(c@ == s[i as int]);
        out.push(c);
        assert(names(out@) =~= names(prev).push(c@));
        i = i + 1;
        assert(names(out@) =~= s.subrange(start as int, i as int));
    }
    out.push(id.clone());
    assert(names(out@) =~= cycle_spec(s, id@));
    out
}

fn copy_strings(v: &Vec<String>) -> (res: Vec<String>)
    ensures
        names(res@) == names(v@),
{
    let mut out: Vec<String> = Vec::new();
    let mut i: usize = 0;
    while i < v.len()
        invariant
            i <= v@.len(),
            out@.len() == i,
            forall|j: int| 0 <= j < i ==> out@[j]@ == v@[j]@,
        decreases v@.len() - i,
    {
        out.push(v[i].clone());
        i = i + 1;
    }
    assert(names(out@) =~= names(v@));
    out
}

fn copy_request(r: &SchemaRequest) -> (res: SchemaRequest)
    ensures
        same_request(res, *r),
{
    SchemaRequest { name: r.name.clone(), candidates: copy_strings(&r.candidates) }
}

/// The source a schema is recorded under: its path, or `<in-memory>`.
pub open spec fn source_of(schema: RawSchema) -> Seq<char> {
    match schema.source_path {
        Some(p) => p@,
        None => "<in-memory>"@,
    }
}

/// `read` is the schema `s` as read from `source`: the same schema, with
/// `source` as where it came from.
pub open spec fn as_read(read: RawSchema, s: RawSchema, source: Seq<char>) -> bool {
    &&& read.id == s.id
    &&& read.doc == s.doc
    &&& read.meta == s.meta
    &&& read.imports == s.imports
    &&& read.seq == s.seq
    &&& read.types == s.types
    &&& read.enums == s.enums
    &&& read.source_path matches Some(p) && p@ == source
}

/// The schema `s` has been compiled, its type registered, and it is
/// recorded as coming from its source.
pub open spec fn finished(c: Compiler, s: RawSchema) -> bool {
    c.processed_ids().contains(s.id@) && c.recorded(s.id@) == source_of(s) && c.keys().contains(s.id@)
}

/// The outermost schema `r` of a load is compiled in `c`: its type and all
/// the types nested in it, over the names registered when it was compiled
/// (which are then the compiler's names, since it was compiled last).
pub open spec fn root_compiled(c: Compiler, r: RawSchema) -> bool {
    &&& c.types().contains_key(r.id@)
    &&& compiled_as(c.types()[r.id@], c.keys(), r.id@, r.seq@, r.enums@, schema_endian(r))
    &&& nested_compiled(c.types(), c.keys(), r)
}

/// What working through the waiting schemas `p` (outermost first) gives:
/// when everything is done, each of them is compiled and recorded, the
/// outermost one compiled last; when a schema must be read, the waiting
/// schemas are an outer part of `p` and the others are compiled and
/// recorded.
pub open spec fn load_outcome(c: Compiler, res: Result<LoadStep, DoeError>, p: Seq<RawSchema>) -> bool {
    &&& res matches Ok(LoadStep::Done) ==> (forall|j: int| 0 <= j < p.len() ==> #[trigger] finished(c, p[j]))
        && (p.len() > 0 ==> root_compiled(c, p[0]))
    &&& res matches Ok(LoadStep::NeedSchema(_)) ==> exists|m: int|
        1 <= m <= p.len() && c.pending_schemas() == p.subrange(0, m) && forall|j: int|
            m <= j < p.len() ==> #[trigger] finished(c, p[j])
}

fn source_string(schema: &RawSchema) -> (res: String)
    ensures
        res@ == source_of(*schema),
{
    match &schema.source_path {
        Some(p) => p.clone(),
        None => "<in-memory>".to_owned(),
    }
}

/// The directory a schema's relative imports are resolved against.
pub open spec fn rel_of(schema: RawSchema) -> Option<Seq<char>> {
    match schema.source_path {
        Some(p) => path_parent(p@),
        None => None,
    }
}

/// The byte order a schema declares (little-endian when it declares none).
pub open spec fn schema_endian(schema: RawSchema) -> Endian {
    endian_of(match schema.meta.endian {
        Some(e) => e,
        None => RawEndian::Le,
    })
}

/// The names registered once `schema` is collected into `keys`.
pub open spec fn keys_with(keys: Set<Seq<char>>, schema: RawSchema) -> Set<Seq<char>> {
    keys.insert(schema.id@) + nested_fqns(schema.id@, schema.types@)
}

/// The source recorded for schema id `id` (the latest), if any.
pub open spec fn recorded_source(sources: Seq<(String, String)>, id: Seq<char>) -> Option<Seq<char>>
    decreases sources.len(),
{
    if sources.len() == 0 {
        None
    } else if sources.last().0@ == id {
        Some(sources.last().1@)
    } else {
        recorded_source(sources.drop_last(), id)
    }
}

/// The source recorded for `id`, or `<unknown>`.
pub open spec fn recorded_or_unknown(sources: Seq<(String, String)>, id: Seq<char>) -> Seq<char> {
    match recorded_source(sources, id) {
        Some(s) => s,
        None => "<unknown>"@,
    }
}

fn lookup_source(sources: &Vec<(String, String)>, id: &String) -> (res: String)
    ensures
        res@ == recorded_or_unknown(sources@, id@),
{
    let mut i = sources.len();
    assert(sources@.subrange(0, i as int) =~= sources@);
    while i > 0
        invariant
            i <= sources@.len(),
            recorded_source(sources@, id@) == recorded_source(sources@.subrange(0, i as int), id@),
        decreases i,
    {
        assert(sources@.subrange(0, i as int).drop_last() =~= sources@.subrange(0, i - 1));
        if str_is(&sources[i - 1].0, id.as_str()) {
            return sources[i - 1].1.clone();
        }
        i = i - 1;
    }
    "<unknown>".to_owned()
}

impl Compiler {
    /// The include paths, as text.
    pub closed spec fn search_dirs(&self) -> Seq<Seq<char>> {
        names(self.include_paths@)
    }

    /// Ids of the schemas fully processed.
    pub closed spec fn processed_ids(&self) -> Seq<Seq<char>> {
        names(self.processed@)
    }

    /// Ids of the schemas being loaded, outermost first.
    pub closed spec fn loading(&self) -> Seq<Seq<char>> {
        names(self.loading_stack@)
    }

    /// How many schemas are waiting for imports to be supplied.
    pub closed spec fn waiting(&self) -> nat {
        self.pending@.len()
    }

    /// The source recorded for a processed schema id, or `<unknown>`.
    pub closed spec fn recorded(&self, id: Seq<char>) -> Seq<char> {
        recorded_or_unknown(self.source_paths@, id)
    }

    /// The schemas waiting for their imports, outermost first.
    pub closed spec fn pending_schemas(&self) -> Seq<RawSchema> {
        self.pending@.map_values(|p: Pending| p.schema)
    }

    /// The compiler's bookkeeping is consistent: the schemas being loaded
    /// are exactly the waiting ones, none of them is processed yet, and no
    /// id waits twice.  Every way of making or changing a compiler keeps it.
    pub closed spec fn wf(&self) -> bool {
        &&& self.loading() == self.pending_schemas().map_values(|x: RawSchema| x.id@)
        &&& forall|i: int|
            0 <= i < self.pending@.len() ==> !self.processed_ids().contains(#[trigger] self.pending@[i].schema.id@)
        &&& forall|i: int, j: int|
            0 <= i < j < self.pending@.len() ==> #[trigger] self.pending@[i].schema.id@
                != #[trigger] self.pending@[j].schema.id@
    }

    /// The request for schema `name`, imported relative to `relative_to`.
    fn request_for(&self, name: &str, relative_to: Option<String>) -> (res: SchemaRequest)
        ensures
            res.name@ == name@,
            names(res.candidates@) == candidates_spec(self.search_dirs(), name@, match relative_to {
                Some(r) => Some(r@),
                None => None,
            }),
    {
        let cs = chars_of(name);
        let rel = starts_with_chars(&cs, &['.', '/']) || starts_with_chars(&cs, &['.', '.', '/']);
        proof {
            assert(['.', '/']@ =~= seq!['.', '/']);
            assert(['.', '.', '/']@ =~= seq!['.', '.', '/']);
        }
        let yaml = ['.', 'y', 'a', 'm', 'l'];
        let yml = ['.', 'y', 'm', 'l'];
        assert(yaml@ =~= seq!['.', 'y', 'a', 'm', 'l']);
        assert(yml@ =~= seq!['.', 'y', 'm', 'l']);
        let mut stem = name.to_owned();
        if !(crate::strutil::ends_with(&cs, &yaml) || crate::strutil::ends_with(&cs, &yml)) {
            push_str(&mut stem, ".yaml");
            proof {
                reveal_strlit(".yaml");
                assert(".yaml".view() =~= seq!['.', 'y', 'a', 'm', 'l']);
            }
        }
        assert(stem@ == schema_stem(name@));
        let mut candidates: Vec<String> = Vec::new();
        if rel {
            let base = match relative_to {
                Some(r) => r,
                None => ".".to_owned(),
            };
            proof {
                reveal_strlit(".");
                assert(".".view() =~= seq!['.']);
            }
            candidates.push(join_paths(base.as_str(), stem.as_str()));
            assert(names(candidates@) =~= candidates_spec(self.search_dirs(), name@, match relative_to {
                Some(r) => Some(r@),
                None => None,
            }));
        } else {
            let mut i: usize = 0;
            while i < self.include_paths.len()
                invariant
                    i <= self.include_paths@.len(),
                    stem@ == schema_stem(name@),
                    candidates@.len() == i,
                    forall|j: int| 0 <= j < i ==> (#[trigger] candidates@[j])@ == path_join(self.include_paths@[j]@, stem@),
                decreases self.include_paths@.len() - i,
            {
                candidates.push(join_paths(self.include_paths[i].as_str(), stem.as_str()));
                i = i + 1;
            }
            assert(names(candidates@) =~= candidates_spec(self.search_dirs(), name@, match relative_to {
                Some(r) => Some(r@),
                None => None,
            }));
        }
        SchemaRequest { name: name.to_owned(), candidates }
    }

    /// Start processing `schema`: report a duplicate or a cycle, or push it
    /// on the stack of schemas being loaded (`true`); a schema already
    /// processed from the same source needs nothing (`false`).
    fn begin(&mut self, schema: RawSchema) -> (res: Result<bool, DoeError>)
        requires
            old(self).wf(),
        ensures
            final(self).wf(),
            res == Ok::<bool, DoeError>(true) ==> final(self).pending_schemas() == old(self).pending_schemas().push(schema),
            res != Ok::<bool, DoeError>(true) ==> *final(self) == *old(self),
            final(self).types() == old(self).types(),
            final(self).include_paths == old(self).include_paths,
            final(self).awaiting == old(self).awaiting,
            final(self).processed == old(self).processed,
            old(self).processed_ids().contains(schema.id@) ==> if old(self).recorded(schema.id@) == source_of(schema) {
                res == Ok::<bool, DoeError>(false) && *final(self) == *old(self)
            } else {
                res matches Err(DoeError::DuplicateType { name, first, second }) && name@ == schema.id@
                    && first@ == old(self).recorded(schema.id@) && second@ == source_of(schema)
            },
            !old(self).processed_ids().contains(schema.id@) && old(self).loading().contains(schema.id@)
                ==> (res matches Err(DoeError::ImportCycle { cycle }) && names(cycle@) == cycle_spec(old(self).loading(), schema.id@)),
            !old(self).processed_ids().contains(schema.id@) && !old(self).loading().contains(schema.id@)
                ==> res == Ok::<bool, DoeError>(true) && final(self).pending@ == old(self).pending@.push(
                Pending { schema, next_import: 0 },
            ) && final(self).loading() == old(self).loading().push(schema.id@) && final(self).processed
                == old(self).processed && final(self).source_paths == old(self).source_paths,
            res is Err ==> final(self).pending == old(self).pending,
    {
        if contains_name(self.processed.as_slice(), &schema.id) {
            let incoming = source_string(&schema);
            let existing = lookup_source(&self.source_paths, &schema.id);
            if !str_is(&incoming, existing.as_str()) {
                return Err(DoeError::DuplicateType { name: schema.id.clone(), first: existing, second: incoming });
            }
            return Ok(false);
        }
        if contains_name(self.loading_stack.as_slice(), &schema.id) {
            let cycle = cycle_from(&self.loading_stack, &schema.id);
            return Err(DoeError::ImportCycle { cycle });
        }
        self.loading_stack.push(schema.id.clone());
        assert(names(self.loading_stack@) =~= old(self).loading().push(schema.id@));
        let ghost sg = schema;
        self.pending.push(Pending { schema, next_import: 0 });
        proof {
            let n = old(self).pending@.len();
            assert(self.pending_schemas() =~= old(self).pending_schemas().push(sg));
            assert(self.loading() =~= self.pending_schemas().map_values(|x: RawSchema| x.id@));
            assert forall|i: int| 0 <= i < n implies old(self).pending@[i].schema.id@ != sg.id@ by {
                assert(old(self).loading()[i] == old(self).pending@[i].schema.id@);
            }
            assert forall|i: int| 0 <= i < self.pending@.len() implies !self.processed_ids().contains(
                #[trigger] self.pending@[i].schema.id@,
            ) by {
                if i < n {
                    assert(self.pending@[i] == old(self).pending@[i]);
                }
            }
            assert forall|i: int, j: int| 0 <= i < j < self.pending@.len() implies #[trigger] self.pending@[i].schema.id@
                != #[trigger] self.pending@[j].schema.id@ by {
                assert(self.pending@[i] == old(self).pending@[i]);
                if j < n {
                    assert(self.pending@[j] == old(self).pending@[j]);
                }
            }
        }
        Ok(true)
    }

    /// Compile a schema whose imports are all loaded: collect its names,
    /// compile its types, and record it as processed.
    fn finish(&mut self, schema: &RawSchema) -> (res: Result<(), DoeError>)
        ensures
            final(self).keys() == keys_with(old(self).keys(), *schema),
            res is Ok <==> decl_parts_ok(
                keys_with(old(self).keys(), *schema),
                schema.id@,
                schema.seq@,
                schema.types@,
                schema.enums@,
            ),
            res is Ok ==> compiled_as(
                final(self).types()[schema.id@],
                keys_with(old(self).keys(), *schema),
                schema.id@,
                schema.seq@,
                schema.enums@,
                schema_endian(*schema),
            ),
            res is Ok ==> nested_compiled(final(self).types(), keys_with(old(self).keys(), *schema), *schema),
            res is Ok ==> final(self).processed_ids() == old(self).processed_ids().push(schema.id@)
                && final(self).recorded(schema.id@) == source_of(*schema),
            res matches Err(e) ==> decl_error(
                keys_with(old(self).keys(), *schema),
                schema.id@,
                schema.seq@,
                schema.types@,
                schema.enums@,
                e,
            ),
            final(self).include_paths == old(self).include_paths,
            final(self).pending == old(self).pending,
            final(self).awaiting == old(self).awaiting,
            forall|k: Seq<char>| old(self).processed_ids().contains(k) ==> final(self).processed_ids().contains(k),
            res is Ok && old(self).loading().len() > 0 ==> final(self).loading() == old(self).loading().drop_last(),
            forall|id: Seq<char>| id != schema.id@ ==> #[trigger] final(self).recorded(id) == old(self).recorded(id),
            res is Err ==> final(self).loading_stack == old(self).loading_stack && final(self).processed
                == old(self).processed && final(self).source_paths == old(self).source_paths,
    {
        self.collect_type_names(schema);
        proof {
            lemma_nested_registered(self.keys(), schema.id@, schema.types@);
        }
        let endian = raw_endian_to_ir(
            match schema.meta.endian {
                Some(e) => e,
                None => RawEndian::Le,
            },
        );
        self.compile_type_decl(schema.id.as_str(), &schema.seq, &schema.types, &schema.enums, endian)?;
        let ghost l0 = self.loading_stack@;
        let _ = self.loading_stack.pop();
        proof {
            if l0.len() > 0 {
                assert(names(self.loading_stack@) =~= names(l0).drop_last());
            }
        }
        let ghost p0 = self.processed@;
        let ghost s0 = self.source_paths@;
        self.processed.push(schema.id.clone());
        self.source_paths.push((schema.id.clone(), source_string(schema)));
        proof {
            assert(names(self.processed@) =~= names(p0).push(schema.id@));
            assert(self.source_paths@.drop_last() =~= s0);
            assert forall|k: Seq<char>| names(p0).contains(k) implies names(self.processed@).contains(k) by {
                let j = choose|j: int| 0 <= j < names(p0).len() && names(p0)[j] == k;
                assert(names(self.processed@)[j] == k);
            }
            assert forall|id: Seq<char>| id != schema.id@ implies #[trigger] self.recorded(id) == old(self).recorded(
                id,
            ) by {
                assert(recorded_source(self.source_paths@, id) == recorded_source(s0, id));
            }
        }
        Ok(())
    }

    /// Act on the innermost schema being loaded: request its next import,
    /// or, with all of them loaded, compile it and drop it from the stack.
    fn step(&mut self) -> (res: Result<Option<SchemaRequest>, DoeError>)
        requires
            old(self).pending@.len() >= 1,
            old(self).awaiting is None,
            old(self).wf(),
        ensures
            res is Ok ==> final(self).wf(),
            res matches Ok(Some(_)) ==> final(self).pending_schemas() == old(self).pending_schemas()
                && final(self).processed == old(self).processed && final(self).source_paths == old(self).source_paths,
            res matches Ok(None) ==> final(self).pending_schemas() == old(self).pending_schemas().drop_last()
                && finished(*final(self), old(self).pending_schemas().last()),
            forall|id: Seq<char>|
                id != old(self).pending_schemas().last().id@ ==> #[trigger] final(self).recorded(id) == old(self).recorded(id),
            final(self).include_paths == old(self).include_paths,
            old(self).keys().subset_of(final(self).keys()),
            forall|k: Seq<char>| old(self).processed_ids().contains(k) ==> final(self).processed_ids().contains(k),
            ({
                let top = old(self).pending@.last();
                if top.next_import < top.schema.imports@.len() {
                    &&& (res matches Ok(Some(r)) && r.name@ == top.schema.imports@[top.next_import as int]@
                        && names(r.candidates@) == candidates_spec(old(self).search_dirs(), r.name@, rel_of(top.schema))
                        && (final(self).awaiting matches Some(a) && same_request(a, r)))
                    &&& final(self).types() == old(self).types()
                    &&& final(self).pending@.len() == old(self).pending@.len()
                } else {
                    &&& final(self).pending@ == old(self).pending@.drop_last()
                    &&& final(self).awaiting is None
                    &&& final(self).keys() == keys_with(old(self).keys(), top.schema)
                    &&& (res is Ok <==> decl_parts_ok(
                        keys_with(old(self).keys(), top.schema),
                        top.schema.id@,
                        top.schema.seq@,
                        top.schema.types@,
                        top.schema.enums@,
                    ))
                    &&& res is Ok ==> res == Ok::<Option<SchemaRequest>, DoeError>(None) && compiled_as(
                        final(self).types()[top.schema.id@],
                        keys_with(old(self).keys(), top.schema),
                        top.schema.id@,
                        top.schema.seq@,
                        top.schema.enums@,
                        schema_endian(top.schema),
                    )
                    &&& res is Ok ==> nested_compiled(final(self).types(), keys_with(old(self).keys(), top.schema), top.schema)
                    &&& res is Ok ==> final(self).processed_ids().contains(top.schema.id@)
                        && final(self).recorded(top.schema.id@) == source_of(top.schema)
                    &&& res matches Err(e) ==> decl_error(
                        keys_with(old(self).keys(), top.schema),
                        top.schema.id@,
                        top.schema.seq@,
                        top.schema.types@,
                        top.schema.enums@,
                        e,
                    )
                }
            }),
    {
        let ghost p0 = self.pending@;
        let ghost n = p0.len();
        let mut top = self.pending.pop().unwrap();
        proof {
            assert(old(self).pending_schemas().last() == top.schema);
            assert(self.pending@ =~= p0.drop_last());
        }
        if top.next_import < top.schema.imports.len() {
            let import = top.schema.imports[top.next_import].clone();
            let rel = match &top.schema.source_path {
                Some(p) => parent_path(p.as_str()),
                None => None,
            };
            top.next_import = top.next_import + 1;
            self.pending.push(top);
            proof {
                assert forall|i: int| 0 <= i < n implies #[trigger] self.pending@[i].schema == p0[i].schema by {
                    if i < n - 1 {
                        assert(self.pending@[i] == p0[i]);
                    }
                }
                assert(self.pending_schemas() =~= old(self).pending_schemas());
            }
            let req = self.request_for(import.as_str(), rel);
            self.awaiting = Some(copy_request(&req));
            Ok(Some(req))
        } else {
            self.finish(&top.schema)?;
            assert(self.processed_ids().last() == top.schema.id@);
            proof {
                assert(self.pending_schemas() =~= old(self).pending_schemas().drop_last());
                assert(old(self).loading().len() == n);
                assert(self.loading() =~= self.pending_schemas().map_values(|x: RawSchema| x.id@));
                assert forall|i: int| 0 <= i < self.pending@.len() implies !self.processed_ids().contains(
                    #[trigger] self.pending@[i].schema.id@,
                ) by {
                    assert(self.pending@[i] == p0[i]);
                    assert(p0[i].schema.id@ != p0[n - 1].schema.id@);
                    assert(!old(self).processed_ids().contains(p0[i].schema.id@));
                    if self.processed_ids().contains(p0[i].schema.id@) {
                        let k = choose|k: int| 0 <= k < self.processed_ids().len() && self.processed_ids()[k] == p0[i].schema.id@;
                        if k < old(self).processed_ids().len() {
                            assert(old(self).processed_ids()[k] == p0[i].schema.id@);
                        }
                    }
                }
                assert forall|i: int, j: int| 0 <= i < j < self.pending@.len() implies #[trigger] self.pending@[i].schema.id@
                    != #[trigger] self.pending@[j].schema.id@ by {
                    assert(self.pending@[i] == p0[i]);
                    assert(self.pending@[j] == p0[j]);
                }
            }
            Ok(None)
        }
    }

    /// Work through the stack of schemas being loaded until a schema must
    /// be read or everything is compiled.
    /// Abandon the load under way: nothing waits and nothing is being
    /// loaded any more; what was compiled stays.
    fn abandon(&mut self)
        ensures
            final(self).wf(),
            final(self).waiting() == 0,
            final(self).loading() == Seq::<Seq<char>>::empty(),
            final(self).pending_schemas() == Seq::<RawSchema>::empty(),
            final(self).registry == old(self).registry,
            final(self).include_paths == old(self).include_paths,
            final(self).processed == old(self).processed,
            final(self).source_paths == old(self).source_paths,
            final(self).awaiting == old(self).awaiting,
    {
        self.pending.clear();
        self.loading_stack.clear();
        assert(self.loading() =~= Seq::<Seq<char>>::empty());
        assert(self.pending_schemas() =~= Seq::<RawSchema>::empty());
        assert(self.loading() =~= self.pending_schemas().map_values(|x: RawSchema| x.id@));
    }

    #[verifier::loop_isolation(false)]
    fn drive(&mut self) -> (res: Result<LoadStep, DoeError>)
        requires
            old(self).awaiting is None,
            old(self).wf(),
        ensures
            final(self).wf(),
            load_outcome(*final(self), res, old(self).pending_schemas()),
            res is Err ==> final(self).loading() == Seq::<Seq<char>>::empty(),
            final(self).include_paths == old(self).include_paths,
            res matches Ok(LoadStep::NeedSchema(r)) ==> final(self).awaiting matches Some(a) && same_request(a, r),
            !(res matches Ok(LoadStep::NeedSchema(_))) ==> final(self).awaiting is None && final(self).pending@.len() == 0,
            old(self).keys().subset_of(final(self).keys()),
            forall|k: Seq<char>| old(self).processed_ids().contains(k) ==> final(self).processed_ids().contains(k),
            old(self).pending@.len() == 0 ==> (res matches Ok(LoadStep::Done) && final(self).types() == old(self).types()),
            old(self).pending@.len() >= 1 ==> ({
                let top = old(self).pending@.last();
                if top.next_import < top.schema.imports@.len() {
                    &&& res matches Ok(LoadStep::NeedSchema(r)) && r.name@ == top.schema.imports@[top.next_import as int]@
                        && names(r.candidates@) == candidates_spec(old(self).search_dirs(), r.name@, rel_of(top.schema))
                    &&& final(self).types() == old(self).types()
                } else if old(self).pending@.len() == 1 {
                    &&& final(self).keys() == keys_with(old(self).keys(), top.schema)
                    &&& (res is Ok <==> decl_parts_ok(
                        keys_with(old(self).keys(), top.schema),
                        top.schema.id@,
                        top.schema.seq@,
                        top.schema.types@,
                        top.schema.enums@,
                    ))
                    &&& res is Ok ==> (res matches Ok(LoadStep::Done) && compiled_as(
                        final(self).types()[top.schema.id@],
                        keys_with(old(self).keys(), top.schema),
                        top.schema.id@,
                        top.schema.seq@,
                        top.schema.enums@,
                        schema_endian(top.schema),
                    ))
                    &&& res is Ok ==> nested_compiled(final(self).types(), keys_with(old(self).keys(), top.schema), top.schema)
                    &&& res is Ok ==> final(self).processed_ids().contains(top.schema.id@)
                        && final(self).recorded(top.schema.id@) == source_of(top.schema)
                    &&& res matches Err(e) ==> decl_error(
                        keys_with(old(self).keys(), top.schema),
                        top.schema.id@,
                        top.schema.seq@,
                        top.schema.types@,
                        top.schema.enums@,
                        e,
                    )
                } else {
                    let keys = keys_with(old(self).keys(), top.schema);
                    let ok = decl_parts_ok(keys, top.schema.id@, top.schema.seq@, top.schema.types@, top.schema.enums@);
                    &&& !ok ==> (res matches Err(e) && decl_error(
                        keys,
                        top.schema.id@,
                        top.schema.seq@,
                        top.schema.types@,
                        top.schema.enums@,
                        e,
                    ))
                    &&& ok ==> final(self).processed_ids().contains(top.schema.id@) && keys.subset_of(final(self).keys())
                }
            }),
    {
        let ghost p = old(self).pending_schemas();
        let ghost n = p.len();
        if self.pending.len() == 0 {
            return Ok(LoadStep::Done);
        }
        proof {
            assert(p.subrange(0, n as int) =~= p);
        }
        match self.step() {
            Ok(Some(req)) => {
                proof {
                    assert(self.pending_schemas() == p.subrange(0, n as int));
                }
                return Ok(LoadStep::NeedSchema(req));
            },
            Ok(None) => {},
            Err(e) => {
                self.abandon();
                return Err(e);
            },
        }
        proof {
            assert(self.pending_schemas() =~= p.subrange(0, n - 1));
            if n == 1 {
                assert(p.last() == p[0]);
                assert(root_compiled(*self, p[0]));
            }
        }
        let ghost after_first = self.types();
        let ghost done_ids = self.processed_ids();
        let ghost done_sources = self.source_paths@;
        let ghost first_done = self.pending@.len() == 0;
        let ghost first_keys = self.keys();
        let ghost first_ids = self.processed_ids();
        loop
            invariant
                self.awaiting is None,
                self.include_paths == old(self).include_paths,
                first_keys.subset_of(self.keys()),
                forall|k: Seq<char>| first_ids.contains(k) ==> self.processed_ids().contains(k),
                first_done ==> self.types() == after_first && self.pending@.len() == 0,
                first_done ==> self.processed_ids() == done_ids && self.source_paths@ == done_sources,
                self.wf(),
                self.pending@.len() < n,
                self.pending_schemas() == p.subrange(0, self.pending@.len() as int),
                forall|j: int| self.pending@.len() <= j < n ==> #[trigger] finished(*self, p[j]),
                self.pending@.len() == 0 ==> root_compiled(*self, p[0]),
            decreases self.pending@.len(),
        {
            if self.pending.len() == 0 {
                return Ok(LoadStep::Done);
            }
            let ghost l = self.pending@.len();
            let ghost before = *self;
            proof {
                assert(self.pending_schemas().len() == l);
                assert(self.pending_schemas().last() == p[l - 1]);
            }
            match self.step() {
                Ok(Some(req)) => {
                    proof {
                        assert forall|j: int| l <= j < n implies #[trigger] finished(*self, p[j]) by {
                            assert(finished(before, p[j]));
                        }
                    }
                    return Ok(LoadStep::NeedSchema(req));
                },
                Ok(None) => {},
                Err(e) => {
                    self.abandon();
                    return Err(e);
                },
            }
            proof {
                assert(self.pending_schemas() =~= p.subrange(0, l - 1));
                assert forall|j: int| l - 1 <= j < n implies #[trigger] finished(*self, p[j]) by {
                    if j >= l {
                        assert(finished(before, p[j]));
                        assert(p[j].id@ != p[l - 1].id@) by {
                            assert(old(self).pending@[j].schema == p[j]);
                            assert(old(self).pending@[l - 1].schema == p[l - 1]);
                        }
                    }
                }
                if l == 1 {
                    assert(root_compiled(*self, p[0]));
                }
            }
        }
    }

    // ── Public API ───────────────────────────────────────────────────────────

    /// Start loading the schema `name_or_path` (resolved relative to
    /// `relative_to` when it starts with `./` or `../`, through the include
    /// paths otherwise).  Any unfinished load is abandoned.  The request
    /// returned must be answered with [`Compiler::supply`].
    pub fn load(&mut self, name_or_path: &str, relative_to: Option<&str>) -> (res: LoadStep)
        ensures
            res matches LoadStep::NeedSchema(r) && r.name@ == name_or_path@ && names(r.candidates@)
                == candidates_spec(old(self).search_dirs(), name_or_path@, match relative_to {
                Some(p) => Some(p@),
                None => None,
            }),
            final(self).awaiting_request() matches Some(a) && (res matches LoadStep::NeedSchema(r) && same_request(a, r)),
            final(self).types() == old(self).types(),
            final(self).search_dirs() == old(self).search_dirs(),
            final(self).waiting() == 0,
            final(self).processed_ids() == old(self).processed_ids(),
            final(self).loading() == Seq::<Seq<char>>::empty(),
            final(self).wf(),
    {
        self.abandon();
        let rel = match relative_to {
            Some(p) => Some(p.to_owned()),
            None => None,
        };
        let req = self.request_for(name_or_path, rel);
        self.awaiting = Some(copy_request(&req));
        LoadStep::NeedSchema(req)
    }

    /// Answer the outstanding request: `None` when no candidate path
    /// exists, or the index of the candidate that was read and the schema
    /// read from it.
    pub fn supply(&mut self, found: Option<(usize, RawSchema)>) -> (res: Result<LoadStep, DoeError>)
        requires
            old(self).wf(),
            old(self).awaiting_request() is Some,
            found matches Some((i, _)) ==> i < old(self).awaiting_request()->Some_0.candidates@.len(),
        ensures
            final(self).wf(),
            res is Err ==> final(self).loading() == Seq::<Seq<char>>::empty() && final(self).waiting() == 0,
            match found {
                Some((i, schema)) => !old(self).processed_ids().contains(schema.id@) && !old(self).loading().contains(
                    schema.id@,
                ) ==> exists|read: RawSchema|
                    as_read(read, schema, old(self).awaiting_request()->Some_0.candidates@[i as int]@) && load_outcome(
                        *final(self),
                        res,
                        old(self).pending_schemas().push(read),
                    ),
                None => true,
            },
            match found {
                Some((i, schema)) => old(self).processed_ids().contains(schema.id@) && old(self).recorded(schema.id@)
                    == old(self).awaiting_request()->Some_0.candidates@[i as int]@ ==> load_outcome(
                    *final(self),
                    res,
                    old(self).pending_schemas(),
                ),
                None => true,
            },
            final(self).search_dirs() == old(self).search_dirs(),
            res matches Ok(LoadStep::NeedSchema(r)) ==> final(self).awaiting_request() matches Some(a) && same_request(a, r),
            !(res matches Ok(LoadStep::NeedSchema(_))) ==> final(self).awaiting_request() is None,
            old(self).keys().subset_of(final(self).keys()),
            forall|k: Seq<char>| old(self).processed_ids().contains(k) ==> final(self).processed_ids().contains(k),
            found is None ==> ({
                let q = old(self).awaiting_request()->Some_0;
                res matches Err(DoeError::SchemaNotFound { name, searched }) && name@ == q.name@ && names(searched@)
                    == names(q.candidates@)
            }),
            match found {
                Some((i, schema)) => (old(self).processed_ids().contains(schema.id@) && old(self).recorded(schema.id@)
                    != old(self).awaiting_request()->Some_0.candidates@[i as int]@) ==> (res matches Err(
                    DoeError::DuplicateType { name, first, second },
                ) && name@ == schema.id@ && first@ == old(self).recorded(schema.id@) && second@
                    == old(self).awaiting_request()->Some_0.candidates@[i as int]@),
                None => true,
            },
            match found {
                Some((_, schema)) => (!old(self).processed_ids().contains(schema.id@)
                    && old(self).loading().contains(schema.id@)) ==> (res matches Err(DoeError::ImportCycle { cycle })
                    && names(cycle@) == cycle_spec(old(self).loading(), schema.id@)),
                None => true,
            },
            match found {
                Some((i, schema)) => (!old(self).processed_ids().contains(schema.id@)
                    && !old(self).loading().contains(schema.id@)) ==> ({
                    let keys = keys_with(old(self).keys(), schema);
                    let source = old(self).awaiting_request()->Some_0.candidates@[i as int]@;
                    let ok = decl_parts_ok(keys, schema.id@, schema.seq@, schema.types@, schema.enums@);
                    if schema.imports@.len() > 0 {
                        &&& res matches Ok(LoadStep::NeedSchema(r)) && r.name@ == schema.imports@[0]@
                            && names(r.candidates@) == candidates_spec(old(self).search_dirs(), r.name@, path_parent(source))
                        &&& final(self).types() == old(self).types()
                    } else if old(self).waiting() > 0 {
                        &&& !ok ==> (res matches Err(e) && decl_error(
                            keys,
                            schema.id@,
                            schema.seq@,
                            schema.types@,
                            schema.enums@,
                            e,
                        ))
                        &&& ok ==> final(self).processed_ids().contains(schema.id@) && keys.subset_of(final(self).keys())
                    } else {
                        &&& final(self).keys() == keys
                        &&& (res is Ok <==> decl_parts_ok(keys, schema.id@, schema.seq@, schema.types@, schema.enums@))
                        &&& res is Ok ==> (res matches Ok(LoadStep::Done) && compiled_as(
                            final(self).types()[schema.id@],
                            keys,
                            schema.id@,
                            schema.seq@,
                            schema.enums@,
                            schema_endian(schema),
                        ))
                        &&& res is Ok ==> nested_compiled(final(self).types(), keys, schema)
                        &&& res is Ok ==> final(self).processed_ids().contains(schema.id@)
                            && final(self).recorded(schema.id@) == source
                        &&& res matches Err(e) ==> decl_error(keys, schema.id@, schema.seq@, schema.types@, schema.enums@, e)
                    }
                }),
                None => true,
            },
    {
        let req = match self.awaiting.take() {
            Some(r) => r,
            None => {
                return Ok(LoadStep::Done);
            },
        };
        match found {
            None => {
                self.abandon();
                Err(DoeError::SchemaNotFound { name: req.name, searched: req.candidates })
            },
            Some((i, schema)) => {
                let ghost orig = schema;
                let mut schema = schema;
                let c = req.candidates[i].clone();
                schema.source_path = Some(c);
                let ghost read = schema;
                let ghost cand = req.candidates@[i as int]@;
                assert(as_read(read, orig, cand));
                match self.begin(schema) {
                    Ok(_) => {
                        let r = self.drive();
                        proof {
                            if !old(self).processed_ids().contains(orig.id@) && !old(self).loading().contains(orig.id@) {
                                assert(as_read(read, orig, cand) && load_outcome(
                                    *self,
                                    r,
                                    old(self).pending_schemas().push(read),
                                ));
                            }
                        }
                        r
                    },
                    Err(e) => {
                        self.abandon();
                        Err(e)
                    },
                }
            },
        }
    }

    /// Compile an already-read schema, first requesting the schemas it
    /// imports.  Any unfinished load is abandoned.
    pub fn process_schema(&mut self, schema: RawSchema) -> (res: Result<LoadStep, DoeError>)
        ensures
            final(self).wf(),
            res is Err ==> final(self).loading() == Seq::<Seq<char>>::empty() && final(self).waiting() == 0,
            !old(self).processed_ids().contains(schema.id@) ==> load_outcome(*final(self), res, seq![schema]),
            final(self).search_dirs() == old(self).search_dirs(),
            res matches Ok(LoadStep::NeedSchema(r)) ==> final(self).awaiting_request() matches Some(a) && same_request(a, r),
            !(res matches Ok(LoadStep::NeedSchema(_))) ==> final(self).awaiting_request() is None,
            old(self).keys().subset_of(final(self).keys()),
            forall|k: Seq<char>| old(self).processed_ids().contains(k) ==> final(self).processed_ids().contains(k),
            old(self).processed_ids().contains(schema.id@) ==> if old(self).recorded(schema.id@) == source_of(schema) {
                &&& res matches Ok(LoadStep::Done)
                &&& final(self).types() == old(self).types()
                &&& final(self).processed_ids() == old(self).processed_ids()
                &&& final(self).loading() == Seq::<Seq<char>>::empty()
                &&& forall|id: Seq<char>| #[trigger] final(self).recorded(id) == old(self).recorded(id)
            } else {
                res matches Err(DoeError::DuplicateType { name, first, second }) && name@ == schema.id@
                    && first@ == old(self).recorded(schema.id@) && second@ == source_of(schema)
            },
            !old(self).processed_ids().contains(schema.id@) && schema.imports@.len() > 0 ==> (res matches Ok(LoadStep::NeedSchema(r)) && r.name@ == schema.imports@[0]@
                && names(r.candidates@) == candidates_spec(old(self).search_dirs(), r.name@, rel_of(schema))
                && final(self).types() == old(self).types()),
            !old(self).processed_ids().contains(schema.id@) && schema.imports@.len() == 0 ==> ({
                let keys = keys_with(old(self).keys(), schema);
                &&& final(self).keys() == keys
                &&& (res is Ok <==> decl_parts_ok(keys, schema.id@, schema.seq@, schema.types@, schema.enums@))
                &&& res is Ok ==> (res matches Ok(LoadStep::Done) && compiled_as(
                    final(self).types()[schema.id@],
                    keys,
                    schema.id@,
                    schema.seq@,
                    schema.enums@,
                    schema_endian(schema),
                ))
                &&& res is Ok ==> nested_compiled(final(self).types(), keys, schema)
                &&& res is Ok ==> final(self).processed_ids().contains(schema.id@)
                    && final(self).recorded(schema.id@) == source_of(schema)
                &&& res matches Err(e) ==> decl_error(keys, schema.id@, schema.seq@, schema.types@, schema.enums@, e)
            }),
    {
        self.abandon();
        self.awaiting = None;
        proof {
            assert(seq![schema] =~= self.pending_schemas().push(schema));
        }
        match self.begin(schema) {
            Ok(true) => self.drive(),
            Ok(false) => Ok(LoadStep::Done),
            Err(e) => Err(e),
        }
    }
}

/// Compile a single in-memory schema (and its inline sub-types) into a
/// registry.  Imports are not followed: use [`Compiler`] for that.
pub fn compile_schema(schema: &RawSchema) -> (res: Result<TypeRegistry, DoeError>)
    ensures
        ({
            let keys = keys_with(Set::empty(), *schema);
            &&& (res is Ok <==> decl_parts_ok(keys, schema.id@, schema.seq@, schema.types@, schema.enums@))
            &&& res matches Ok(reg) ==> reg@.dom() == keys && compiled_as(
                reg@[schema.id@],
                keys,
                schema.id@,
                schema.seq@,
                schema.enums@,
                schema_endian(*schema),
            )
            &&& res matches Ok(reg) ==> nested_compiled(reg@, keys, *schema)
            &&& res matches Err(e) ==> decl_error(keys, schema.id@, schema.seq@, schema.types@, schema.enums@, e)
        }),
{
    let mut compiler = Compiler::new(Vec::new());
    assert(compiler.keys() =~= Set::<Seq<char>>::empty());
    compiler.finish(schema)?;
    Ok(compiler.registry)
}

} // verus!
