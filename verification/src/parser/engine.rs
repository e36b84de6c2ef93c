//! Binary parse engine.
//!
//! [`Engine::parse_type`] is the entry point.  It walks a compiled type's
//! field list, dispatching each field to the matching read routine,
//! evaluating size, repeat and `if` expressions against the accumulated
//! parse context, and builds a `Value::Struct`.

use vstd::prelude::*;
use crate::error::DoeError;
use crate::parser::context::ParseContext;
use crate::parser::cursor::{be_value, decode_value, overrun_message, read_int_post, Cursor};
use crate::schema::expr::{eval, eval_outcome, eval_spec, EvalContext, Expr};
use crate::schema::ir::{
    enum_entry, CompiledField, CompiledType, Encoding, Endian, EndianOverride, FieldKind,
    FloatWidth, IntWidth, RepeatMode, SizeExpr, StrSize, TypeRegistry, float_width_bytes,
    int_width_bytes,
};
use crate::strutil::{decimal, push_char, push_decimal, push_signed_decimal, push_str, signed_decimal};
use crate::parser::semantics::{
    bind_value, decode_spec, is_err, mismatch_message, nesting_message, parse_count, parse_eos,
    parse_field as field_spec, parse_fields, parse_kind, parse_once, parse_struct, parse_until, str_bytes,
};
use crate::value::{int_of, int_of_v, view_fields, view_items, view_value, FloatBits, Value};

verus! {

/// How many nested sub-types the engine descends into before it reports an
/// error instead of going deeper.  This is the library's own limit, chosen
/// so that parsing never runs out of stack: a schema whose sub-types nest
/// (or recurse) deeper than this fails with a schema error naming the type
/// at which the limit was reached.
pub const MAX_NESTING: usize = 256;

// ─────────────────────────────────────────────────────────────────────────────
// What parsed values look like
// ─────────────────────────────────────────────────────────────────────────────

/// The integer a read produced: the number of an integer value, the bit
/// pattern of a float.
pub open spec fn value_int(v: Value) -> int {
    match v {
        Value::UInt(n) => n as int,
        Value::SInt(n) => n as int,
        Value::Float(FloatBits::F32(b)) => b as int,
        Value::Float(FloatBits::F64(b)) => b as int,
        _ => 0,
    }
}

/// One instance of field `f` has the variant its kind calls for.
pub open spec fn once_shape(v: Value, f: CompiledField, reg: Map<Seq<char>, CompiledType>) -> bool {
    match f.kind {
        FieldKind::UInt { .. } => if f.enum_ref is Some { v is Enum } else { v is UInt },
        FieldKind::Bits { .. } => if f.enum_ref is Some { v is Enum } else { v is UInt },
        FieldKind::SInt { .. } => if f.enum_ref is Some { v is Enum } else { v is SInt },
        FieldKind::Float { .. } => v is Float,
        FieldKind::Bytes { .. } => v is Bytes,
        FieldKind::Str { .. } => v is Str,
        FieldKind::TypeRef { ty_name } => reg.contains_key(ty_name@) && (v matches Value::Struct {
            ty_name: n,
            ..
        } && n@ == reg[ty_name@].name@),
        FieldKind::Contents(b) => v matches Value::Bytes(c) && c@ == b@,
    }
}

/// The value of field `f`: absent when its guard is false, an array of
/// instances when it repeats, a single instance otherwise.
pub open spec fn field_shape(v: Value, f: CompiledField, reg: Map<Seq<char>, CompiledType>) -> bool {
    ||| (f.if_expr is Some && v is Absent)
    ||| match f.repeat {
        RepeatMode::Once => once_shape(v, f, reg),
        _ => v matches Value::Array(items) && forall|k: int|
            0 <= k < items@.len() ==> #[trigger] once_shape(items@[k], f, reg),
    }
}

/// `v` is a struct of type `ty`: its name, then one value per declared
/// field, in declaration order, under the field's id.
pub open spec fn struct_shape(v: Value, ty: CompiledType, reg: Map<Seq<char>, CompiledType>) -> bool {
    v matches Value::Struct { ty_name, fields } && ty_name@ == ty.name@ && fields@.len()
        == ty.fields@.len() && forall|i: int|
        0 <= i < fields@.len() ==> (#[trigger] fields@[i]).0@ == ty.fields@[i].id@ && field_shape(
            fields@[i].1,
            ty.fields@[i],
            reg,
        )
}

/// The cursor is still over the same window and has not moved back.
pub open spec fn advanced(old: Cursor, new: Cursor) -> bool {
    &&& new.wf()
    &&& new.data() == old.data()
    &&& new.spec_base() == old.spec_base()
    &&& new.spec_pos() >= old.spec_pos()
}

/// The scope structure of a parse context is what it was.
pub open spec fn same_depth(old: ParseContext, new: ParseContext) -> bool {
    &&& new.wf()
    &&& new.eval_ctx@.len() == old.eval_ctx@.len()
    &&& new.eval_ctx@.drop_last() == old.eval_ctx@.drop_last()
    &&& new.scopes().len() == old.scopes().len()
}

// ─────────────────────────────────────────────────────────────────────────────
// Engine
// ─────────────────────────────────────────────────────────────────────────────

/// The parse engine over a registry of compiled types.
pub struct Engine<'reg> {
    registry: &'reg TypeRegistry,
}

impl<'reg> Engine<'reg> {
    /// The types this engine knows.
    pub closed spec fn types(&self) -> Map<Seq<char>, CompiledType> {
        self.registry@
    }

    /// An engine over `registry`.
    pub fn new(registry: &'reg TypeRegistry) -> (res: Self)
        ensures
            res.types() == registry@,
    {
        Engine { registry }
    }

    /// Parse the type `ty_name` from the cursor's position, returning a
    /// `Value::Struct` with all fields populated.
    ///
    /// An unknown type is reported as such; otherwise the result is what
    /// [`parse_struct`] gives, starting from one empty scope: the value,
    /// with the cursor left after what was read, or the error described.
    ///
    /// Sub-types are followed at most [`MAX_NESTING`] levels deep (a limit
    /// of this library, so that parsing never runs out of stack); a value
    /// nested deeper is a schema error naming the type at which the limit
    /// was reached.
    pub fn parse_type(&self, ty_name: &str, cursor: &mut Cursor) -> (res: Result<Value, DoeError>)
        requires
            old(cursor).wf(),
        ensures
            advanced(*old(cursor), *final(cursor)),
            !self.types().contains_key(ty_name@) ==> (res matches Err(DoeError::UnknownType {
                ty_name: t,
                context: c,
            }) && t@ == ty_name@ && c@ == "<engine>"@),
            res matches Ok(v) ==> self.types().contains_key(ty_name@) && struct_shape(
                v,
                self.types()[ty_name@],
                self.types(),
            ),
            self.types().contains_key(ty_name@) ==> match parse_struct(
                self.types(),
                old(cursor).data(),
                old(cursor).spec_base(),
                self.types()[ty_name@],
                old(cursor).spec_pos(),
                seq![Map::<Seq<char>, i64>::empty()],
                MAX_NESTING as nat,
            ) {
                Ok((v, p)) => res matches Ok(r) && view_value(r) == v && final(cursor).spec_pos() == p,
                Err(ev) => res matches Err(e) && is_err(e, ev),
            },
    {
        let ty = match self.registry.get(ty_name) {
            Some(t) => t,
            None => {
                return Err(
                    DoeError::UnknownType {
                        ty_name: ty_name.to_owned(),
                        context: "<engine>".to_owned(),
                    },
                );
            },
        };
        let mut ctx = ParseContext::new();
        self.parse_compiled_type(ty, cursor, &mut ctx, MAX_NESTING)
    }

    // ── Internal recursion ────────────────────────────────────────────────────

    fn parse_compiled_type(
        &self,
        ty: &CompiledType,
        cursor: &mut Cursor,
        ctx: &mut ParseContext,
        depth: usize,
    ) -> (res: Result<Value, DoeError>)
        requires
            old(cursor).wf(),
            old(ctx).wf(),
        ensures
            advanced(*old(cursor), *final(cursor)),
            same_depth(*old(ctx), *final(ctx)),
            res matches Ok(v) ==> struct_shape(v, *ty, self.types()),
            match parse_struct(
                self.types(),
                old(cursor).data(),
                old(cursor).spec_base(),
                *ty,
                old(cursor).spec_pos(),
                old(ctx).eval_ctx@,
                depth as nat,
            ) {
                Ok((v, p)) => res matches Ok(r) && view_value(r) == v && final(cursor).spec_pos() == p,
                Err(ev) => res matches Err(e) && is_err(e, ev),
            },
        decreases depth, 4nat,
    {
        let ghost target = parse_fields(
            self.types(),
            old(cursor).data(),
            old(cursor).spec_base(),
            *ty,
            0,
            old(cursor).spec_pos(),
            old(ctx).eval_ctx@,
            depth as nat,
        );
        let mut fields: Vec<(String, Value)> = Vec::new();
        let mut i: usize = 0;
        assert(view_fields(fields@) =~= Seq::<(Seq<char>, crate::value::ValueV)>::empty());
        while i < ty.fields.len()
            invariant
                target == parse_fields(self.types(), old(cursor).data(), old(cursor).spec_base(), *ty, 0, old(cursor).spec_pos(), old(ctx).eval_ctx@, depth as nat),
                i <= ty.fields@.len(),
                fields@.len() == i,
                advanced(*old(cursor), *cursor),
                same_depth(*old(ctx), *ctx),
                target == match parse_fields(
                    self.types(),
                    cursor.data(),
                    cursor.spec_base(),
                    *ty,
                    i as nat,
                    cursor.spec_pos(),
                    ctx.eval_ctx@,
                    depth as nat,
                ) {
                    Ok((rest, q)) => Ok((view_fields(fields@) + rest, q)),
                    Err(e) => Err(e),
                },
                forall|j: int|
                    0 <= j < i ==> (#[trigger] fields@[j]).0@ == ty.fields@[j].id@ && field_shape(
                        fields@[j].1,
                        ty.fields@[j],
                        self.types(),
                    ),
            decreases ty.fields@.len() - i,
        {
            let field = &ty.fields[i];
            let value = self.parse_field(field, ty, cursor, ctx, depth)?;
            let copy = value.clone();
            let ghost e_before = ctx.eval_ctx@;
            ctx.bind(field.id.as_str(), copy);
            assert(ctx.eval_ctx@.drop_last() =~= e_before.drop_last());
            assert(ctx.eval_ctx@ == bind_value(e_before, field.id@, view_value(value)));
            let ghost prev = fields@;
            fields.push((field.id.clone(), value));
            proof {
                assert(fields@.drop_last() =~= prev);
                let rest_now = parse_fields(
                    self.types(),
                    cursor.data(),
                    cursor.spec_base(),
                    *ty,
                    (i + 1) as nat,
                    cursor.spec_pos(),
                    ctx.eval_ctx@,
                    depth as nat,
                );
                if let Ok((rest, q)) = rest_now {
                    assert(view_fields(prev) + (seq![(field.id@, view_value(value))] + rest)
                        =~= view_fields(fields@) + rest);
                }
            }
            i = i + 1;
        }
        proof {
            assert(view_fields(fields@) + Seq::<(Seq<char>, crate::value::ValueV)>::empty() =~= view_fields(fields@));
        }
        Ok(Value::Struct { ty_name: ty.name.clone(), fields })
    }

    fn parse_field(
        &self,
        field: &CompiledField,
        parent_ty: &CompiledType,
        cursor: &mut Cursor,
        ctx: &mut ParseContext,
        depth: usize,
    ) -> (res: Result<Value, DoeError>)
        requires
            old(cursor).wf(),
            old(ctx).wf(),
        ensures
            advanced(*old(cursor), *final(cursor)),
            same_depth(*old(ctx), *final(ctx)),
            res matches Ok(v) ==> field_shape(v, *field, self.types()),
            field.if_expr matches Some(g) ==> (eval_spec(g@, old(ctx).eval_ctx@) == Ok::<i64, Seq<char>>(0)
                <==> (res matches Ok(Value::Absent))),
            match (field.repeat, res) {
                (RepeatMode::Count(c), Ok(Value::Array(items))) => eval_spec(c@, old(ctx).eval_ctx@)
                    == Ok::<i64, Seq<char>>(items@.len() as i64),
                (RepeatMode::Eos, Ok(Value::Array(_))) => final(cursor).spec_pos()
                    == final(cursor).data().len(),
                (RepeatMode::Until(_), Ok(Value::Array(items))) => items@.len() >= 1,
                _ => true,
            },
            match field_spec(
                self.types(),
                old(cursor).data(),
                old(cursor).spec_base(),
                *field,
                *parent_ty,
                old(cursor).spec_pos(),
                old(ctx).eval_ctx@,
                depth as nat,
            ) {
                Ok((v, p, fr)) => res matches Ok(r) && view_value(r) == v && final(cursor).spec_pos() == p
                    && final(ctx).eval_ctx@ == fr,
                Err(ev) => res matches Err(e) && is_err(e, ev),
            },
        decreases depth, 3nat,
    {
        // The `if:` guard.
        match &field.if_expr {
            Some(g) => {
                let cond = match eval(g, &ctx.eval_ctx, "<if>") {
                    Ok(c) => c,
                    Err(e) => {
                        return Err(annotate(&e, field.id.as_str(), parent_ty.name.as_str()));
                    },
                };
                if cond == 0 {
                    return Ok(Value::Absent);
                }
            },
            None => {},
        }
        match &field.repeat {
            RepeatMode::Once => self.parse_field_once(field, parent_ty, cursor, ctx, depth),
            RepeatMode::Eos => self.parse_eos_items(field, parent_ty, cursor, ctx, depth),
            RepeatMode::Count(count_expr) => {
                let n = match eval(count_expr, &ctx.eval_ctx, "<repeat-expr>") {
                    Ok(n) => n,
                    Err(e) => {
                        return Err(annotate(&e, field.id.as_str(), parent_ty.name.as_str()));
                    },
                };
                if n < 0 {
                    let mut m = String::new();
                    push_str(&mut m, "repeat count evaluated to negative value: ");
                    push_signed_decimal(&mut m, n);
                    return Err(
                        DoeError::FieldError {
                            field: field.id.clone(),
                            context: parent_ty.name.clone(),
                            message: m,
                        },
                    );
                }
                self.parse_count_items(field, parent_ty, n, cursor, ctx, depth)
            },
            RepeatMode::Until(until_expr) => self.parse_until_items(field, parent_ty, until_expr, cursor, ctx, depth),
        }
    }

    /// `repeat: eos`: instances until the end of the window.
    fn parse_eos_items(
        &self,
        field: &CompiledField,
        parent_ty: &CompiledType,
        cursor: &mut Cursor,
        ctx: &mut ParseContext,
        depth: usize,
    ) -> (res: Result<Value, DoeError>)
        requires
            old(cursor).wf(),
            old(ctx).wf(),
        ensures
            advanced(*old(cursor), *final(cursor)),
            same_depth(*old(ctx), *final(ctx)),
            final(ctx).eval_ctx@ == old(ctx).eval_ctx@,
            res matches Ok(v) ==> v matches Value::Array(items) && forall|k: int|
                0 <= k < items@.len() ==> #[trigger] once_shape(items@[k], *field, self.types()),
            res is Ok ==> final(cursor).spec_pos() == final(cursor).data().len(),
            match parse_eos(
                self.types(),
                old(cursor).data(),
                old(cursor).spec_base(),
                *field,
                *parent_ty,
                old(cursor).spec_pos(),
                old(ctx).eval_ctx@,
                depth as nat,
                Seq::empty(),
            ) {
                Ok((v, p)) => res matches Ok(r) && view_value(r) == v && final(cursor).spec_pos() == p,
                Err(ev) => res matches Err(e) && is_err(e, ev),
            },
        decreases depth, 2nat,
    {
        let ghost target = parse_eos(
            self.types(),
            cursor.data(),
            cursor.spec_base(),
            *field,
            *parent_ty,
            cursor.spec_pos(),
            ctx.eval_ctx@,
            depth as nat,
            Seq::empty(),
        );
        let mut items: Vec<Value> = Vec::new();
        assert(view_items(items@) =~= Seq::<crate::value::ValueV>::empty());
        while !cursor.is_eof()
            invariant
                target == parse_eos(self.types(), old(cursor).data(), old(cursor).spec_base(), *field, *parent_ty, old(cursor).spec_pos(), old(ctx).eval_ctx@, depth as nat, Seq::empty()),
                advanced(*old(cursor), *cursor),
                same_depth(*old(ctx), *ctx),
                ctx.eval_ctx@ == old(ctx).eval_ctx@,
                target == parse_eos(
                    self.types(),
                    cursor.data(),
                    cursor.spec_base(),
                    *field,
                    *parent_ty,
                    cursor.spec_pos(),
                    ctx.eval_ctx@,
                    depth as nat,
                    view_items(items@),
                ),
                forall|k: int|
                    0 <= k < items@.len() ==> #[trigger] once_shape(
                        items@[k],
                        *field,
                        self.types(),
                    ),
            decreases cursor.data().len() - cursor.spec_pos(),
        {
            let before = cursor.pos();
            let v = self.parse_field_once(field, parent_ty, cursor, ctx, depth)?;
            if cursor.pos() == before {
                return Err(no_progress(field.id.as_str(), parent_ty.name.as_str(), "eos"));
            }
            let ghost prev = items@;
            items.push(v);
            assert(items@.drop_last() =~= prev);
        }
        Ok(Value::Array(items))
    }

    /// `repeat: expr`: `n` instances.
    fn parse_count_items(
        &self,
        field: &CompiledField,
        parent_ty: &CompiledType,
        n: i64,
        cursor: &mut Cursor,
        ctx: &mut ParseContext,
        depth: usize,
    ) -> (res: Result<Value, DoeError>)
        requires
            old(cursor).wf(),
            old(ctx).wf(),
            n >= 0,
        ensures
            advanced(*old(cursor), *final(cursor)),
            same_depth(*old(ctx), *final(ctx)),
            final(ctx).eval_ctx@ == old(ctx).eval_ctx@,
            res matches Ok(v) ==> v matches Value::Array(items) && items@.len() == n && forall|k: int|
                0 <= k < items@.len() ==> #[trigger] once_shape(items@[k], *field, self.types()),
            match parse_count(
                self.types(),
                old(cursor).data(),
                old(cursor).spec_base(),
                *field,
                *parent_ty,
                old(cursor).spec_pos(),
                old(ctx).eval_ctx@,
                depth as nat,
                n as nat,
                Seq::empty(),
            ) {
                Ok((v, p)) => res matches Ok(r) && view_value(r) == v && final(cursor).spec_pos() == p,
                Err(ev) => res matches Err(e) && is_err(e, ev),
            },
        decreases depth, 2nat,
    {
        let ghost target = parse_count(
            self.types(),
            cursor.data(),
            cursor.spec_base(),
            *field,
            *parent_ty,
            cursor.spec_pos(),
            ctx.eval_ctx@,
            depth as nat,
            n as nat,
            Seq::empty(),
        );
        let mut items: Vec<Value> = Vec::new();
        let mut k: i64 = 0;
        assert(view_items(items@) =~= Seq::<crate::value::ValueV>::empty());
        while k < n
            invariant
                view_items(items@).len() == items@.len(),
                target == parse_count(self.types(), old(cursor).data(), old(cursor).spec_base(), *field, *parent_ty, old(cursor).spec_pos(), old(ctx).eval_ctx@, depth as nat, n as nat, Seq::empty()),
                0 <= k <= n,
                items@.len() == k,
                advanced(*old(cursor), *cursor),
                same_depth(*old(ctx), *ctx),
                ctx.eval_ctx@ == old(ctx).eval_ctx@,
                target == parse_count(
                    self.types(),
                    cursor.data(),
                    cursor.spec_base(),
                    *field,
                    *parent_ty,
                    cursor.spec_pos(),
                    ctx.eval_ctx@,
                    depth as nat,
                    n as nat,
                    view_items(items@),
                ),
                forall|j: int|
                    0 <= j < items@.len() ==> #[trigger] once_shape(
                        items@[j],
                        *field,
                        self.types(),
                    ),
            decreases n - k,
        {
            let v = self.parse_field_once(field, parent_ty, cursor, ctx, depth)?;
            let ghost prev = items@;
            items.push(v);
            assert(items@.drop_last() =~= prev);
            proof {
                crate::value::lemma_view_items_len(items@);
            }
            k = k + 1;
        }
        Ok(Value::Array(items))
    }

    /// `repeat: until`: instances until the condition holds of the last one
    /// or the window ends.
    fn parse_until_items(
        &self,
        field: &CompiledField,
        parent_ty: &CompiledType,
        until_expr: &Expr,
        cursor: &mut Cursor,
        ctx: &mut ParseContext,
        depth: usize,
    ) -> (res: Result<Value, DoeError>)
        requires
            old(cursor).wf(),
            old(ctx).wf(),
            field.repeat == RepeatMode::Until(*until_expr),
        ensures
            advanced(*old(cursor), *final(cursor)),
            same_depth(*old(ctx), *final(ctx)),
            res matches Ok(v) ==> v matches Value::Array(items) && items@.len() >= 1 && forall|k: int|
                0 <= k < items@.len() ==> #[trigger] once_shape(items@[k], *field, self.types()),
            match parse_until(
                self.types(),
                old(cursor).data(),
                old(cursor).spec_base(),
                *field,
                *parent_ty,
                old(cursor).spec_pos(),
                old(ctx).eval_ctx@,
                depth as nat,
                Seq::empty(),
            ) {
                Ok((v, p, fr)) => res matches Ok(r) && view_value(r) == v && final(cursor).spec_pos() == p
                    && final(ctx).eval_ctx@ == fr,
                Err(ev) => res matches Err(e) && is_err(e, ev),
            },
        decreases depth, 2nat,
    {
        let ghost target = parse_until(
            self.types(),
            cursor.data(),
            cursor.spec_base(),
            *field,
            *parent_ty,
            cursor.spec_pos(),
            ctx.eval_ctx@,
            depth as nat,
            Seq::empty(),
        );
        let mut items: Vec<Value> = Vec::new();
        assert(view_items(items@) =~= Seq::<crate::value::ValueV>::empty());
        loop
            invariant_except_break
                target == parse_until(
                    self.types(),
                    cursor.data(),
                    cursor.spec_base(),
                    *field,
                    *parent_ty,
                    cursor.spec_pos(),
                    ctx.eval_ctx@,
                    depth as nat,
                    view_items(items@),
                ),
            invariant
                target == parse_until(self.types(), old(cursor).data(), old(cursor).spec_base(), *field, *parent_ty, old(cursor).spec_pos(), old(ctx).eval_ctx@, depth as nat, Seq::empty()),
                field.repeat == RepeatMode::Until(*until_expr),
                advanced(*old(cursor), *cursor),
                same_depth(*old(ctx), *ctx),
                forall|j: int|
                    0 <= j < items@.len() ==> #[trigger] once_shape(
                        items@[j],
                        *field,
                        self.types(),
                    ),
            ensures
                items@.len() >= 1,
                target == Ok::<_, crate::parser::semantics::ErrV>((crate::value::ValueV::Array(view_items(items@)), cursor.spec_pos(), ctx.eval_ctx@)),
                advanced(*old(cursor), *cursor),
                same_depth(*old(ctx), *ctx),
                forall|j: int|
                    0 <= j < items@.len() ==> #[trigger] once_shape(
                        items@[j],
                        *field,
                        self.types(),
                    ),
            decreases cursor.data().len() - cursor.spec_pos(),
        {
            let before = cursor.pos();
            let v = self.parse_field_once(field, parent_ty, cursor, ctx, depth)?;
            proof {
                assert(int_of(v) == int_of_v(view_value(v)));
            }
            let done = match v.as_int() {
                Some(n) => {
                    let ghost e_before = ctx.eval_ctx@;
                    ctx.eval_ctx.bind("_", n);
                    assert(ctx.eval_ctx@.drop_last() =~= e_before.drop_last());
                    let r = match eval(until_expr, &ctx.eval_ctx, "<repeat-until>") {
                        Ok(r) => r,
                        Err(e) => {
                            return Err(annotate(&e, field.id.as_str(), parent_ty.name.as_str()));
                        },
                    };
                    r != 0
                },
                None => false,
            };
            let ghost prev = items@;
            items.push(v);
            assert(items@.drop_last() =~= prev);
            if done || cursor.is_eof() {
                break;
            }
            if cursor.pos() == before {
                return Err(no_progress(field.id.as_str(), parent_ty.name.as_str(), "until"));
            }
        }
        Ok(Value::Array(items))
    }

    /// Parse a single (non-repeated) instance of a field, applying its enum.
    fn parse_field_once(
        &self,
        field: &CompiledField,
        parent_ty: &CompiledType,
        cursor: &mut Cursor,
        ctx: &mut ParseContext,
        depth: usize,
    ) -> (res: Result<Value, DoeError>)
        requires
            old(cursor).wf(),
            old(ctx).wf(),
        ensures
            advanced(*old(cursor), *final(cursor)),
            same_depth(*old(ctx), *final(ctx)),
            final(ctx).eval_ctx@ == old(ctx).eval_ctx@,
            res matches Ok(v) ==> once_shape(v, *field, self.types()),
            match (field.enum_ref, res) {
                (Some(en), Ok(Value::Enum { value, name })) => match enum_entry(parent_ty.enums@, en@) {
                    Some(ce) => if ce.variants@.contains_key(value) {
                        name matches Some(s) && s@ == ce.variants@[value]@
                    } else {
                        name is None
                    },
                    None => name is None,
                },
                _ => true,
            },
            match parse_once(
                self.types(),
                old(cursor).data(),
                old(cursor).spec_base(),
                *field,
                *parent_ty,
                old(cursor).spec_pos(),
                old(ctx).eval_ctx@,
                depth as nat,
            ) {
                Ok((v, p)) => res matches Ok(r) && view_value(r) == v && final(cursor).spec_pos() == p,
                Err(ev) => res matches Err(e) && is_err(e, ev),
            },
        decreases depth, 1nat,
    {
        let raw = self.read_kind(&field.kind, parent_ty, cursor, ctx, depth)?;
        assert(int_of(raw) == int_of_v(view_value(raw)));
        match &field.enum_ref {
            Some(enum_name) => {
                match raw.as_int() {
                    Some(n) => {
                        let discriminant = n as u64;
                        let variant: Option<String> = match parent_ty.enum_named(enum_name.as_str()) {
                            Some(ce) => match ce.lookup(discriminant) {
                                Some(s) => Some(s.to_owned()),
                                None => None,
                            },
                            None => None,
                        };
                        return Ok(Value::Enum { value: discriminant, name: variant });
                    },
                    None => {},
                }
            },
            None => {},
        }
        Ok(raw)
    }

    // ── FieldKind dispatch ────────────────────────────────────────────────────

    fn read_kind(
        &self,
        kind: &FieldKind,
        parent_ty: &CompiledType,
        cursor: &mut Cursor,
        ctx: &mut ParseContext,
        depth: usize,
    ) -> (res: Result<Value, DoeError>)
        requires
            old(cursor).wf(),
            old(ctx).wf(),
        ensures
            advanced(*old(cursor), *final(cursor)),
            same_depth(*old(ctx), *final(ctx)),
            final(ctx).eval_ctx@ == old(ctx).eval_ctx@,
            res matches Ok(v) ==> match *kind {
                FieldKind::UInt { .. } => v is UInt,
                FieldKind::Bits { .. } => v is UInt,
                FieldKind::SInt { .. } => v is SInt,
                FieldKind::Float { .. } => v is Float,
                FieldKind::Bytes { .. } => v is Bytes,
                FieldKind::Str { .. } => v is Str,
                FieldKind::TypeRef { ty_name } => self.types().contains_key(ty_name@)
                    && struct_shape(v, self.types()[ty_name@], self.types()),
                FieldKind::Contents(b) => v matches Value::Bytes(c) && c@ == b@,
            },
            *kind matches FieldKind::UInt { width, endian } ==> read_int_post(
                *old(cursor),
                *final(cursor),
                lift_value(res),
                int_width_bytes(width),
                is_big(width, resolve_spec(endian, parent_ty.endian)),
                false,
            ),
            *kind matches FieldKind::SInt { width, endian } ==> read_int_post(
                *old(cursor),
                *final(cursor),
                lift_value(res),
                int_width_bytes(width),
                is_big(width, resolve_spec(endian, parent_ty.endian)),
                true,
            ),
            *kind matches FieldKind::Float { width } ==> read_int_post(
                *old(cursor),
                *final(cursor),
                lift_value(res),
                float_width_bytes(width),
                parent_ty.endian == Endian::Big,
                false,
            ),
            match *kind {
                FieldKind::TypeRef { ty_name } => !self.types().contains_key(ty_name@) ==> (
                res matches Err(DoeError::UnknownType { ty_name: t, context: c }) && t@ == ty_name@
                    && c@ == parent_ty.name@),
                _ => true,
            },
            match parse_kind(
                self.types(),
                old(cursor).data(),
                old(cursor).spec_base(),
                *kind,
                *parent_ty,
                old(cursor).spec_pos(),
                old(ctx).eval_ctx@,
                depth as nat,
            ) {
                Ok((v, p)) => res matches Ok(r) && view_value(r) == v && final(cursor).spec_pos() == p,
                Err(ev) => res matches Err(e) && is_err(e, ev),
            },
        decreases depth, 0nat,
    {
        let ghost data = cursor.data();
        let ghost pos = cursor.spec_pos();
        assert(cursor.rest() == data.subrange(pos as int, data.len() as int));
        assert forall|w: nat| pos + w <= data.len() implies #[trigger] old(cursor).rest().subrange(0, w as int)
            == data.subrange(pos as int, (pos + w) as int) by {
            assert(old(cursor).rest().subrange(0, w as int) =~= data.subrange(pos as int, (pos + w) as int));
        }
        match kind {
            FieldKind::UInt { width, endian } => {
                let e = resolve_endian(*endian, parent_ty.endian);
                let r = read_uint(*width, e, cursor);
                proof {
                    let w = int_width_bytes(*width);
                    if pos + w <= data.len() {
                        assert(old(cursor).rest().subrange(0, w as int) == data.subrange(pos as int, (pos + w) as int));
                    }
                }
                r
            },
            FieldKind::SInt { width, endian } => {
                let e = resolve_endian(*endian, parent_ty.endian);
                let r = read_sint(*width, e, cursor);
                proof {
                    let w = int_width_bytes(*width);
                    if pos + w <= data.len() {
                        assert(old(cursor).rest().subrange(0, w as int) == data.subrange(pos as int, (pos + w) as int));
                    }
                }
                r
            },
            FieldKind::Float { width } => {
                let r = read_float(*width, parent_ty.endian, cursor);
                proof {
                    let w = float_width_bytes(*width);
                    if pos + w <= data.len() {
                        assert(old(cursor).rest().subrange(0, w as int) == data.subrange(pos as int, (pos + w) as int));
                    }
                }
                r
            },
            FieldKind::Bytes { size } => {
                let n = eval_size(size, &ctx.eval_ctx)?;
                let bytes = cursor.read_bytes(n as usize)?;
                assert(bytes@ =~= data.subrange(pos as int, pos + (n as usize)));
                Ok(Value::Bytes(copy_bytes(bytes)))
            },
            FieldKind::Str { size, encoding } => read_str(size, *encoding, cursor, &ctx.eval_ctx),
            FieldKind::Bits { bit_size } => {
                let r = read_bits(*bit_size, cursor);
                proof {
                    let n = ((*bit_size + 7) / 8) as nat;
                    if pos + n <= data.len() {
                        assert(old(cursor).rest().subrange(0, n as int) == data.subrange(pos as int, (pos + n) as int));
                    }
                }
                r
            },
            FieldKind::TypeRef { ty_name } => {
                let sub_ty = match self.registry.get(ty_name.as_str()) {
                    Some(t) => t,
                    None => {
                        return Err(
                            DoeError::UnknownType {
                                ty_name: ty_name.clone(),
                                context: parent_ty.name.clone(),
                            },
                        );
                    },
                };
                if depth == 0 {
                    let mut m = String::new();
                    push_str(&mut m, "type nesting deeper than ");
                    push_decimal(&mut m, MAX_NESTING as u64);
                    push_str(&mut m, " levels at '");
                    push_str(&mut m, ty_name.as_str());
                    push_str(&mut m, "'");
                    assert(m@ =~= nesting_message(ty_name@));
                    return Err(DoeError::Schema(m));
                }
                let ghost g0 = ctx.eval_ctx@;
                ctx.push_scope();
                let result = self.parse_compiled_type(sub_ty, cursor, ctx, depth - 1);
                let _inner_fields = ctx.pop_scope();
                proof {
                    assert(ctx.eval_ctx@ =~= g0);
                }
                result
            },
            FieldKind::Contents(expected) => {
                let actual = cursor.read_bytes(expected.len())?;
                assert(actual@ == data.subrange(pos as int, (pos + expected@.len()) as int));
                if !bytes_equal(actual, expected.as_slice()) {
                    let mut m = String::new();
                    push_str(&mut m, "contents mismatch at offset ");
                    push_decimal(&mut m, (cursor.pos() - expected.len()) as u64);
                    push_str(&mut m, ": expected ");
                    push_byte_list(&mut m, expected.as_slice());
                    push_str(&mut m, ", got ");
                    push_byte_list(&mut m, actual);
                    assert(m@ =~= mismatch_message(pos, expected@, actual@));
                    return Err(DoeError::Schema(m));
                }
                Ok(Value::Bytes(copy_bytes(expected.as_slice())))
            },
        }
    }
}

// ─────────────────────────────────────────────────────────────────────────────
// Reads of single values
// ─────────────────────────────────────────────────────────────────────────────

/// A read's result as the integer it produced.
pub open spec fn lift_value(r: Result<Value, DoeError>) -> Result<int, DoeError> {
    match r {
        Ok(v) => Ok(value_int(v)),
        Err(e) => Err(e),
    }
}

/// Whether a read of this width uses big-endian byte order (single bytes
/// have none).
pub open spec fn is_big(width: IntWidth, endian: Endian) -> bool {
    width != IntWidth::W8 && endian == Endian::Big
}

/// The byte order a field uses: its own, or its type's when it inherits.
pub open spec fn resolve_spec(field_override: EndianOverride, type_default: Endian) -> Endian {
    match field_override {
        EndianOverride::Inherit => type_default,
        EndianOverride::Little => Endian::Little,
        EndianOverride::Big => Endian::Big,
    }
}

/// The byte order a field uses: its own, or its type's when it inherits.
pub fn resolve_endian(field_override: EndianOverride, type_default: Endian) -> (res: Endian)
    ensures
        res == resolve_spec(field_override, type_default),
{
    match field_override {
        EndianOverride::Inherit => type_default,
        EndianOverride::Little => Endian::Little,
        EndianOverride::Big => Endian::Big,
    }
}

fn read_uint(width: IntWidth, endian: Endian, cursor: &mut Cursor) -> (res: Result<Value, DoeError>)
    requires
        old(cursor).wf(),
    ensures
        final(cursor).wf(),
        read_int_post(*old(cursor), *final(cursor), lift_value(res), int_width_bytes(width), is_big(width, endian), false),
        res matches Ok(v) ==> v is UInt,
{
    let v: u64 = match (width, endian) {
        (IntWidth::W8, _) => cursor.read_u8()? as u64,
        (IntWidth::W16, Endian::Little) => cursor.read_u16_le()? as u64,
        (IntWidth::W16, Endian::Big) => cursor.read_u16_be()? as u64,
        (IntWidth::W32, Endian::Little) => cursor.read_u32_le()? as u64,
        (IntWidth::W32, Endian::Big) => cursor.read_u32_be()? as u64,
        (IntWidth::W64, Endian::Little) => cursor.read_u64_le()?,
        (IntWidth::W64, Endian::Big) => cursor.read_u64_be()?,
    };
    Ok(Value::UInt(v))
}

fn read_sint(width: IntWidth, endian: Endian, cursor: &mut Cursor) -> (res: Result<Value, DoeError>)
    requires
        old(cursor).wf(),
    ensures
        final(cursor).wf(),
        read_int_post(*old(cursor), *final(cursor), lift_value(res), int_width_bytes(width), is_big(width, endian), true),
        res matches Ok(v) ==> v is SInt,
{
    let v: i64 = match (width, endian) {
        (IntWidth::W8, _) => cursor.read_i8()? as i64,
        (IntWidth::W16, Endian::Little) => cursor.read_i16_le()? as i64,
        (IntWidth::W16, Endian::Big) => cursor.read_i16_be()? as i64,
        (IntWidth::W32, Endian::Little) => cursor.read_i32_le()? as i64,
        (IntWidth::W32, Endian::Big) => cursor.read_i32_be()? as i64,
        (IntWidth::W64, Endian::Little) => cursor.read_i64_le()?,
        (IntWidth::W64, Endian::Big) => cursor.read_i64_be()?,
    };
    Ok(Value::SInt(v))
}

fn read_float(width: FloatWidth, endian: Endian, cursor: &mut Cursor) -> (res: Result<Value, DoeError>)
    requires
        old(cursor).wf(),
    ensures
        final(cursor).wf(),
        read_int_post(*old(cursor), *final(cursor), lift_value(res), float_width_bytes(width), endian == Endian::Big, false),
        res matches Ok(v) ==> match width {
            FloatWidth::F32 => v matches Value::Float(FloatBits::F32(_)),
            FloatWidth::F64 => v matches Value::Float(FloatBits::F64(_)),
        },
{
    let v = match (width, endian) {
        (FloatWidth::F32, Endian::Little) => FloatBits::F32(cursor.read_u32_le()?),
        (FloatWidth::F32, Endian::Big) => FloatBits::F32(cursor.read_u32_be()?),
        (FloatWidth::F64, Endian::Little) => FloatBits::F64(cursor.read_u64_le()?),
        (FloatWidth::F64, Endian::Big) => FloatBits::F64(cursor.read_u64_be()?),
    };
    Ok(Value::Float(v))
}

/// The message of a negative size.
pub open spec fn negative_size_message(v: int) -> Seq<char> {
    "size expression evaluated to negative value: "@ + signed_decimal(v)
}

/// Evaluate a `bytes` / `str` size: a literal as it is, an expression's
/// value when it is not negative.
pub fn eval_size(size: &SizeExpr, eval_ctx: &EvalContext) -> (res: Result<i64, DoeError>)
    requires
        eval_ctx.wf(),
    ensures
        size matches SizeExpr::Literal(n) ==> res == Ok::<i64, DoeError>(n as i64),
        size matches SizeExpr::Dynamic(e) ==> match eval_spec(e@, eval_ctx@) {
            Ok(v) => if v < 0 {
                res matches Err(DoeError::Schema(m)) && m@ == negative_size_message(v as int)
            } else {
                res == Ok::<i64, DoeError>(v)
            },
            Err(_) => eval_outcome(res, eval_spec(e@, eval_ctx@), "<size>"@),
        },
{
    match size {
        SizeExpr::Literal(n) => Ok(*n as i64),
        SizeExpr::Dynamic(e) => {
            let v = eval(e, eval_ctx, "<size>")?;
            if v < 0 {
                let mut m = String::new();
                push_str(&mut m, "size expression evaluated to negative value: ");
                push_signed_decimal(&mut m, v);
                assert(m@ =~= negative_size_message(v as int));
                return Err(DoeError::Schema(m));
            }
            Ok(v)
        },
    }
}

fn read_str(size: &StrSize, encoding: Encoding, cursor: &mut Cursor, eval_ctx: &EvalContext) -> (res:
    Result<Value, DoeError>)
    requires
        old(cursor).wf(),
        eval_ctx.wf(),
    ensures
        advanced(*old(cursor), *final(cursor)),
        res matches Ok(v) ==> v is Str,
        match str_bytes(*size, old(cursor).data(), old(cursor).spec_base(), old(cursor).spec_pos(), eval_ctx@) {
            Ok((b, p)) => match decode_spec(b, encoding) {
                Ok(s) => res matches Ok(Value::Str(t)) && t@ == s && final(cursor).spec_pos() == p,
                Err(ev) => res matches Err(e) && is_err(e, ev),
            },
            Err(ev) => res matches Err(e) && is_err(e, ev),
        },
{
    let ghost data = cursor.data();
    let ghost pos = cursor.spec_pos();
    assert(cursor.rest() == data.subrange(pos as int, data.len() as int));
    let bytes: &[u8] = match size {
        StrSize::Terminator(term) => cursor.read_until(*term)?,
        StrSize::Fixed(sz) => {
            let n = eval_size(sz, eval_ctx)?;
            let b = cursor.read_bytes(n as usize)?;
            assert(b@ =~= data.subrange(pos as int, pos + (n as usize)));
            b
        },
    };
    let s = decode_string(bytes, encoding)?;
    Ok(Value::Str(s))
}

/// The value of a `bits` field of `bit_size` bits read from `bytes`: the
/// top `bit_size` bits of the bytes taken big-endian.
pub open spec fn bits_value(bytes: Seq<u8>, bit_size: nat) -> nat {
    let extra = (8 * bytes.len() - bit_size) as nat;
    (be_value(bytes) / vstd::arithmetic::power2::pow2(extra)) % vstd::arithmetic::power2::pow2(bit_size)
}

proof fn lemma_be_push(s: Seq<u8>, b: u8)
    ensures
        be_value(s.push(b)) == be_value(s) * 256 + b,
{
    assert(s.push(b).drop_last() =~= s);
}

/// What a `bits` field of `bit_size` bits reads from the bytes it covers:
/// the top `bit_size` bits of the bytes taken big-endian.  Past 64 bits
/// the reading is kept to 64 bits before the padding bits are dropped.
pub open spec fn bits_read(bytes: Seq<u8>, bit_size: nat) -> nat {
    if bit_size <= 64 {
        bits_value(bytes, bit_size)
    } else {
        (be_value(bytes) % vstd::arithmetic::power2::pow2(64)) / vstd::arithmetic::power2::pow2(
            (8 * bytes.len() - bit_size) as nat,
        )
    }
}

proof fn lemma_step_mod(x: nat, b: nat)
    requires
        b < 256,
    ensures
        (x % 0x100_0000_0000_0000) * 256 + b == (x * 256 + b) % 0x1_0000_0000_0000_0000,
{
    let d: int = 0x100_0000_0000_0000;
    let q = x as int / d;
    let r = x as int % d;
    vstd::arithmetic::div_mod::lemma_fundamental_div_mod(x as int, d);
    assert(0 <= r < d);
    assert(x * 256 + b == q * 0x1_0000_0000_0000_0000 + (r * 256 + b)) by (nonlinear_arith)
        requires
            x == d * q + r,
            d == 0x100_0000_0000_0000,
    ;
    vstd::arithmetic::div_mod::lemma_fundamental_div_mod_converse(
        (x * 256 + b) as int,
        0x1_0000_0000_0000_0000,
        q,
        r * 256 + b,
    );
}

proof fn lemma_shift_in_wrapping(v: u64, b: u8)
    ensures
        ((v << 8u64) | (b as u64)) as nat == (v as nat % 0x100_0000_0000_0000) * 256 + b,
{
    assert(((v << 8u64) | (b as u64)) == (v & 0xff_ffff_ffff_ffffu64) * 256 + (b as u64)) by (bit_vector);
    assert(v & 0xff_ffff_ffff_ffffu64 == v % 0x100_0000_0000_0000) by (bit_vector);
}

fn read_bits(bit_size: u8, cursor: &mut Cursor) -> (res: Result<Value, DoeError>)
    requires
        old(cursor).wf(),
    ensures
        final(cursor).wf(),
        ({
            let n = ((bit_size + 7) / 8) as nat;
            &&& res is Ok <==> n <= old(cursor).rest().len()
            &&& res matches Ok(v) ==> {
                &&& v is UInt
                &&& final(cursor).moved_to(old(cursor), old(cursor).spec_pos() + n as int)
                &&& value_int(v) == bits_read(old(cursor).rest().subrange(0, n as int), bit_size as nat)
            }
            &&& res is Err ==> *final(cursor) == *old(cursor)
            &&& res matches Err(e) ==> e matches DoeError::Schema(m) && m@ == overrun_message(
                old(cursor).spec_base() + old(cursor).spec_pos(),
                n,
                old(cursor).rest().len(),
            )
        }),
{
    let byte_count: usize = (bit_size as usize + 7) / 8;
    let bytes = cursor.read_bytes(byte_count)?;
    let mut v: u64 = 0;
    let mut i: usize = 0;
    proof {
        vstd::arithmetic::power2::lemma2_to64();
    }
    while i < bytes.len()
        invariant
            i <= bytes@.len(),
            bytes@.len() == byte_count,
            byte_count <= 32,
            vstd::arithmetic::power2::pow2(64) == 0x1_0000_0000_0000_0000,
            v as nat == be_value(bytes@.subrange(0, i as int)) % 0x1_0000_0000_0000_0000,
        decreases bytes@.len() - i,
    {
        let b = bytes[i];
        proof {
            let pre = bytes@.subrange(0, i as int);
            let x = be_value(pre);
            lemma_shift_in_wrapping(v, b);
            lemma_be_push(pre, b);
            assert(pre.push(b) =~= bytes@.subrange(0, i + 1));
            vstd::arithmetic::div_mod::lemma_mod_mod(x as int, 0x100_0000_0000_0000, 256);
            lemma_step_mod(x, b as nat);
        }
        v = (v << 8u64) | (b as u64);
        i = i + 1;
    }
    assert(bytes@.subrange(0, bytes@.len() as int) =~= bytes@);
    let total_bits: u8 = if byte_count == 32 { 0 } else { (byte_count * 8) as u8 };
    let extra: u8 = total_bits.wrapping_sub(bit_size);
    proof {
        assert(extra < 8);
        assert(extra == 8 * byte_count - bit_size);
        if byte_count <= 7 {
            crate::parser::cursor::lemma_be_below_2_56(bytes@);
        } else if byte_count == 8 {
            lemma_be_push(bytes@.drop_last(), bytes@.last());
            assert(bytes@.drop_last().push(bytes@.last()) =~= bytes@);
            crate::parser::cursor::lemma_be_below_2_56(bytes@.drop_last());
        }
    }
    let shifted = v >> (extra as u64);
    proof {
        vstd::bits::lemma_u64_shr_is_div(v, extra as u64);
        if bit_size < 64 {
            vstd::arithmetic::power2::lemma_pow2_strictly_increases(bit_size as nat, 64);
            vstd::bits::lemma_u64_shl_is_mul(1, bit_size as u64);
            vstd::arithmetic::power2::lemma_pow2_pos(bit_size as nat);
        }
    }
    let mask: u64 = if bit_size >= 64 { 0xffff_ffff_ffff_ffff } else { (1u64 << (bit_size as u64)) - 1 };
    let result = shifted & mask;
    proof {
        if bit_size <= 64 {
            lemma_mask_is_mod(shifted, bit_size as nat, mask);
        } else {
            assert(shifted & 0xffff_ffff_ffff_ffff == shifted) by (bit_vector);
        }
    }
    Ok(Value::UInt(result))
}

proof fn lemma_mask_is_mod(x: u64, n: nat, mask: u64)
    requires
        n <= 64,
        n == 64 ==> mask == 0xffff_ffff_ffff_ffff,
        n < 64 ==> mask == (1u64 << (n as u64)) - 1,
    ensures
        (x & mask) as nat == x as nat % vstd::arithmetic::power2::pow2(n),
{
    vstd::arithmetic::power2::lemma2_to64();
    vstd::arithmetic::power2::lemma2_to64_rest();
    if n == 64 {
        assert(x & 0xffff_ffff_ffff_ffff == x) by (bit_vector);
    } else {
        vstd::bits::lemma_u64_shl_is_mul(1, n as u64);
        vstd::bits::lemma_u64_low_bits_mask_is_mod(x, n);
        vstd::arithmetic::power2::lemma_pow2_pos(n);
    }
}

// ─────────────────────────────────────────────────────────────────────────────
// Strings
// ─────────────────────────────────────────────────────────────────────────────

/// The characters whose code points are the given bytes.
pub open spec fn latin1_chars(bytes: Seq<u8>) -> Seq<char> {
    Seq::new(bytes.len(), |i: int| bytes[i] as char)
}

/// Does any byte lie above the ASCII range?
pub open spec fn has_high_byte(bytes: Seq<u8>) -> bool {
    exists|i: int| 0 <= i < bytes.len() && bytes[i] > 0x7f
}

/// The description that `std::str::Utf8Error` gives of the first invalid
/// sequence in `bytes`.
pub uninterp spec fn utf8_error_text(bytes: Seq<u8>) -> Seq<char>;

/// `std::str::from_utf8`, the text owned: `Ok` exactly when the bytes are
/// valid UTF-8, with the characters they encode; otherwise the error's
/// description, a function of the bytes.
#[verifier::external_body]
fn str_from_utf8(bytes: &[u8]) -> (res: Result<String, String>)
    ensures
        res is Ok <==> vstd::utf8::valid_utf8(bytes@),
        res matches Ok(s) ==> s@ == vstd::utf8::decode_utf8(bytes@),
        res matches Err(m) ==> m@ == utf8_error_text(bytes@),
{
    match std::str::from_utf8(bytes) {
        Ok(s) => Ok(s.to_owned()),
        Err(e) => Err(e.to_string()),
    }
}

fn latin1_decode(bytes: &[u8]) -> (res: String)
    ensures
        res@ == latin1_chars(bytes@),
{
    let mut s = String::new();
    let mut i: usize = 0;
    while i < bytes.len()
        invariant
            i <= bytes@.len(),
            s@ == latin1_chars(bytes@.subrange(0, i as int)),
        decreases bytes@.len() - i,
    {
        push_char(&mut s, bytes[i] as char);
        i = i + 1;
        assert(s@ =~= latin1_chars(bytes@.subrange(0, i as int)));
    }
    assert(bytes@.subrange(0, bytes@.len() as int) =~= bytes@);
    s
}

/// Decode string bytes in the given encoding.
pub fn decode_string(bytes: &[u8], encoding: Encoding) -> (res: Result<String, DoeError>)
    ensures
        encoding == Encoding::Utf8 ==> {
            &&& res is Ok <==> vstd::utf8::valid_utf8(bytes@)
            &&& res matches Ok(s) ==> s@ == vstd::utf8::decode_utf8(bytes@)
            &&& res matches Err(e) ==> (e matches DoeError::Schema(m) && m@ == "UTF-8 decode error: "@
                + utf8_error_text(bytes@))
        },
        encoding == Encoding::Ascii ==> {
            &&& res is Ok <==> !has_high_byte(bytes@)
            &&& res matches Ok(s) ==> s@ == latin1_chars(bytes@)
            &&& res matches Err(e) ==> (e matches DoeError::Schema(m) && m@
                == "non-ASCII byte in ASCII string"@)
        },
        encoding == Encoding::Latin1 ==> (res matches Ok(s) && s@ == latin1_chars(bytes@)),
{
    match encoding {
        Encoding::Utf8 => match str_from_utf8(bytes) {
            Ok(s) => Ok(s),
            Err(e) => {
                let mut m = String::new();
                push_str(&mut m, "UTF-8 decode error: ");
                push_str(&mut m, e.as_str());
                Err(DoeError::Schema(m))
            },
        },
        Encoding::Ascii => {
            let mut i: usize = 0;
            while i < bytes.len()
                invariant
                    i <= bytes@.len(),
                    encoding == Encoding::Ascii,
                    forall|j: int| 0 <= j < i ==> bytes@[j] <= 0x7f,
                decreases bytes@.len() - i,
            {
                if bytes[i] > 0x7f {
                    return Err(DoeError::Schema("non-ASCII byte in ASCII string".to_owned()));
                }
                i = i + 1;
            }
            Ok(latin1_decode(bytes))
        },
        Encoding::Latin1 => Ok(latin1_decode(bytes)),
    }
}

// ─────────────────────────────────────────────────────────────────────────────
// Helpers
// ─────────────────────────────────────────────────────────────────────────────

fn bytes_equal(a: &[u8], b: &[u8]) -> (res: bool)
    ensures
        res == (a@ == b@),
{
    if a.len() != b.len() {
        return false;
    }
    let mut i: usize = 0;
    while i < a.len()
        invariant
            a@.len() == b@.len(),
            i <= a@.len(),
            forall|j: int| 0 <= j < i ==> a@[j] == b@[j],
        decreases a@.len() - i,
    {
        if a[i] != b[i] {
            return false;
        }
        i = i + 1;
    }
    assert(a@ =~= b@);
    true
}

fn copy_bytes(v: &[u8]) -> (res: Vec<u8>)
    ensures
        res@ == v@,
{
    let mut out: Vec<u8> = Vec::new();
    let mut i: usize = 0;
    while i < v.len()
        invariant
            i <= v@.len(),
            out@ == v@.subrange(0, i as int),
        decreases v@.len() - i,
    {
        out.push(v[i]);
        i = i + 1;
        assert(out@ =~= v@.subrange(0, i as int));
    }
    assert(v@.subrange(0, v@.len() as int) =~= v@);
    out
}

/// The debug rendering of a byte list, `[137, 80, 78, 71]`.
pub open spec fn byte_list_text(b: Seq<u8>) -> Seq<char>
    decreases b.len(),
{
    if b.len() == 0 {
        Seq::empty()
    } else if b.len() == 1 {
        decimal(b[0] as nat)
    } else {
        byte_list_text(b.drop_last()) + ", "@ + decimal(b.last() as nat)
    }
}

fn push_byte_list(s: &mut String, b: &[u8])
    ensures
        final(s)@ == old(s)@ + "["@ + byte_list_text(b@) + "]"@,
{
    push_str(s, "[");
    let ghost start = s@;
    let mut i: usize = 0;
    while i < b.len()
        invariant
            i <= b@.len(),
            s@ == start + byte_list_text(b@.subrange(0, i as int)),
        decreases b@.len() - i,
    {
        if i > 0 {
            push_str(s, ", ");
        }
        push_decimal(s, b[i] as u64);
        proof {
            let post = b@.subrange(0, i + 1);
            assert(post.drop_last() =~= b@.subrange(0, i as int));
        }
        i = i + 1;
        assert(s@ =~= start + byte_list_text(b@.subrange(0, i as int)));
    }
    assert(b@.subrange(0, b@.len() as int) =~= b@);
    push_str(s, "]");
    assert(s@ =~= old(s)@ + "["@ + byte_list_text(b@) + "]"@);
}

/// Wrap an error as a field error of `field` in type `ty_name`, keeping its
/// message.
fn annotate(e: &DoeError, field: &str, ty_name: &str) -> (res: DoeError)
    ensures
        res matches DoeError::FieldError { field: f, context: c, message: m } && f@ == field@
            && c@ == ty_name@ && m@ == e.spec_message(),
{
    DoeError::FieldError { field: field.to_owned(), context: ty_name.to_owned(), message: e.message() }
}

/// A repetition that read nothing and cannot end.
fn no_progress(field: &str, ty_name: &str, mode: &str) -> (res: DoeError)
    ensures
        res matches DoeError::FieldError { field: f, context: c, message: m } && f@ == field@ && c@ == ty_name@
            && m@ == "repeat: "@ + mode@ + " read no bytes and would never end"@,
{
    let mut m = String::new();
    push_str(&mut m, "repeat: ");
    push_str(&mut m, mode);
    push_str(&mut m, " read no bytes and would never end");
    DoeError::FieldError { field: field.to_owned(), context: ty_name.to_owned(), message: m }
}

} // verus!
