//! Parse context: tracks parsed field values so that later fields can
//! reference earlier ones in size, repeat-count and conditional expressions.
//!
//! The context is a stack of scopes, one per struct being parsed.  When the
//! engine descends into a sub-type it pushes a new scope and pops it on the
//! way back; this is what gives `_parent` references their meaning.

use vstd::prelude::*;
use crate::schema::expr::EvalContext;
use crate::strutil::push_str;
use crate::value::{int_of_v, view_fields, view_value, Value, ValueV};

verus! {

/// The most recent value bound to `id` in a scope, if any.
pub open spec fn last_binding(frame: Seq<(String, Value)>, id: Seq<char>) -> Option<Value>
    decreases frame.len(),
{
    if frame.len() == 0 {
        None
    } else if frame.last().0@ == id {
        Some(frame.last().1)
    } else {
        last_binding(frame.drop_last(), id)
    }
}

/// The evaluator's bindings after binding the parsed value `v` under `key`:
/// a value with an integer reading is bound under `key`; a struct binds
/// each of its fields, in order, under `key.field` (so that `a.b` in an
/// expression reads field `b` of the struct bound as `a`); other values
/// bind nothing.
pub open spec fn flat_bind(m: Map<Seq<char>, i64>, key: Seq<char>, v: ValueV) -> Map<Seq<char>, i64>
    decreases v,
{
    match v {
        ValueV::Struct { fields, .. } => flat_fields(m, key, fields),
        _ => match int_of_v(v) {
            Some(n) => m.insert(key, n),
            None => m,
        },
    }
}

/// The bindings after binding each field of a struct bound under `key`.
pub open spec fn flat_fields(m: Map<Seq<char>, i64>, key: Seq<char>, fs: Seq<(Seq<char>, ValueV)>) -> Map<
    Seq<char>,
    i64,
>
    decreases fs,
{
    if fs.len() == 0 {
        m
    } else {
        flat_bind(flat_fields(m, key, fs.drop_last()), key + "."@ + fs.last().0, fs.last().1)
    }
}

/// Bind the parsed value `v` under `key` in the evaluator's current frame.
fn bind_flat(ctx: &mut EvalContext, key: String, v: &Value)
    requires
        old(ctx).wf(),
    ensures
        final(ctx).wf(),
        final(ctx)@ == old(ctx)@.update(old(ctx)@.len() - 1, flat_bind(old(ctx)@.last(), key@, view_value(*v))),
    decreases v,
{
    match v {
        Value::Struct { fields, .. } => {
            let ghost start = old(ctx)@;
            let mut i: usize = 0;
            assert(fields@.subrange(0, 0) =~= Seq::<(String, Value)>::empty());
            assert(start.update(start.len() - 1, start.last()) =~= start);
            while i < fields.len()
                invariant
                    i <= fields@.len(),
                    *v is Struct,
                    v->fields == *fields,
                    start.len() >= 1,
                    ctx.wf(),
                    ctx@ == start.update(
                        start.len() - 1,
                        flat_fields(start.last(), key@, view_fields(fields@.subrange(0, i as int))),
                    ),
                decreases fields@.len() - i,
            {
                proof {
                    assert(decreases_to!(*v => v->fields));
                    assert(decreases_to!(v->fields => v->fields@));
                    assert(decreases_to!(v->fields@ => v->fields@[i as int]));
                    assert(decreases_to!(v->fields@[i as int] => v->fields@[i as int].1));
                }
                let mut k = key.clone();
                push_str(&mut k, ".");
                push_str(&mut k, fields[i].0.as_str());
                let ghost before = ctx@;
                bind_flat(ctx, k, &fields[i].1);
                proof {
                    reveal_strlit(".");
                    let sub = fields@.subrange(0, i + 1);
                    assert(sub.drop_last() =~= fields@.subrange(0, i as int));
                    assert(sub.last() == fields@[i as int]);
                    assert(k@ == key@ + "."@ + fields@[i as int].0@);
                    let prevf = view_fields(fields@.subrange(0, i as int));
                    let fs = view_fields(sub);
                    assert(fs == prevf.push((fields@[i as int].0@, view_value(fields@[i as int].1))));
                    assert(fs.drop_last() =~= prevf);
                    assert(flat_fields(start.last(), key@, fs) == flat_bind(
                        flat_fields(start.last(), key@, prevf),
                        key@ + "."@ + fields@[i as int].0@,
                        view_value(fields@[i as int].1),
                    ));
                    assert(before.last() == flat_fields(start.last(), key@, prevf));
                    assert(ctx@ =~= start.update(start.len() - 1, flat_fields(start.last(), key@, view_fields(sub))));
                }
                i = i + 1;
            }
            assert(fields@.subrange(0, fields@.len() as int) =~= fields@);
        },
        _ => {
            match v.as_int() {
                Some(n) => ctx.bind(key.as_str(), n),
                None => {
                    assert(old(ctx)@.update(old(ctx)@.len() - 1, old(ctx)@.last()) =~= old(ctx)@);
                },
            }
        },
    }
}

/// Runtime parse context.
///
/// Maintains two parallel stacks: the numeric bindings of the expression
/// evaluator, and the parsed values themselves.
pub struct ParseContext {
    pub eval_ctx: EvalContext,
    /// Stack of scopes; each scope lists `(field_id, value)` in binding order.
    pub value_frames: Vec<Vec<(String, Value)>>,
}

impl ParseContext {
    /// The value scopes, outermost first.
    pub open spec fn scopes(&self) -> Seq<Seq<(String, Value)>> {
        self.value_frames@.map_values(|f: Vec<(String, Value)>| f@)
    }

    /// Both stacks have a current scope.
    pub open spec fn wf(&self) -> bool {
        self.eval_ctx.wf() && self.scopes().len() >= 1
    }

    /// A context with one empty scope.
    pub fn new() -> (res: Self)
        ensures
            res.eval_ctx@ == seq![Map::<Seq<char>, i64>::empty()],
            res.scopes() == seq![Seq::<(String, Value)>::empty()],
            res.wf(),
    {
        let mut frames: Vec<Vec<(String, Value)>> = Vec::new();
        frames.push(Vec::new());
        let res = ParseContext { eval_ctx: EvalContext::new(), value_frames: frames };
        assert(res.scopes() =~= seq![Seq::<(String, Value)>::empty()]);
        res
    }

    /// Push a new scope (entering a sub-type).
    pub fn push_scope(&mut self)
        ensures
            final(self).eval_ctx@ == old(self).eval_ctx@.push(Map::empty()),
            final(self).scopes() == old(self).scopes().push(Seq::empty()),
    {
        self.eval_ctx.push_frame();
        self.value_frames.push(Vec::new());
        assert(self.scopes() =~= old(self).scopes().push(Seq::empty()));
    }

    /// Pop the current scope (returning from a sub-type) and return the
    /// fields bound in it.  The evaluator's root scope is never removed.
    pub fn pop_scope(&mut self) -> (res: Vec<(String, Value)>)
        ensures
            final(self).eval_ctx@ == (if old(self).eval_ctx@.len() > 1 {
                old(self).eval_ctx@.drop_last()
            } else {
                old(self).eval_ctx@
            }),
            old(self).scopes().len() > 0 ==> final(self).scopes() == old(self).scopes().drop_last()
                && res@ == old(self).scopes().last(),
            old(self).scopes().len() == 0 ==> final(self).scopes() == old(self).scopes()
                && res@.len() == 0,
    {
        self.eval_ctx.pop_frame();
        match self.value_frames.pop() {
            Some(f) => {
                assert(self.scopes() =~= old(self).scopes().drop_last());
                f
            },
            None => Vec::new(),
        }
    }

    /// Bind a parsed field value in the current scope.  A value with a
    /// numeric representation is also bound in the expression evaluator,
    /// and so are the fields of a struct, under dotted names.
    pub fn bind(&mut self, id: &str, value: Value)
        requires
            old(self).wf(),
        ensures
            final(self).wf(),
            final(self).eval_ctx@ == old(self).eval_ctx@.update(
                old(self).eval_ctx@.len() - 1,
                flat_bind(old(self).eval_ctx@.last(), id@, view_value(value)),
            ),
            final(self).scopes().len() == old(self).scopes().len(),
            final(self).scopes().drop_last() == old(self).scopes().drop_last(),
            final(self).scopes().last().drop_last() == old(self).scopes().last(),
            final(self).scopes().last().last().0@ == id@,
            final(self).scopes().last().last().1 == value,
    {
        bind_flat(&mut self.eval_ctx, id.to_owned(), &value);
        let last = self.value_frames.len() - 1;
        let mut frame = self.value_frames.pop().unwrap();
        frame.push((id.to_owned(), value));
        self.value_frames.push(frame);
        proof {
            assert(self.scopes().drop_last() =~= old(self).scopes().drop_last());
            assert(self.scopes().last().drop_last() =~= old(self).scopes().last());
        }
    }

    /// The most recently bound value for `id` in the current scope.
    pub fn lookup(&self, id: &str) -> (res: Option<&Value>)
        ensures
            self.scopes().len() == 0 ==> res is None,
            self.scopes().len() > 0 ==> match last_binding(self.scopes().last(), id@) {
                Some(v) => res == Some(&v),
                None => res is None,
            },
    {
        let n = self.value_frames.len();
        if n == 0 {
            return None;
        }
        let frame = &self.value_frames[n - 1];
        let ghost f = frame@;
        assert(f == self.scopes().last());
        let mut i = frame.len();
        assert(f.subrange(0, i as int) =~= f);
        while i > 0
            invariant
                i <= f.len(),
                f == frame@,
                self.scopes().len() > 0,
                f == self.scopes().last(),
                last_binding(f, id@) == last_binding(f.subrange(0, i as int), id@),
            decreases i,
        {
            assert(f.subrange(0, i as int).drop_last() =~= f.subrange(0, i - 1));
            if crate::schema::lexer::str_is(&frame[i - 1].0, id) {
                return Some(&frame[i - 1].1);
            }
            i = i - 1;
        }
        None
    }

    /// The fields bound in the current scope so far, without popping it.
    pub fn current_fields(&self) -> (res: &[(String, Value)])
        ensures
            self.scopes().len() == 0 ==> res@.len() == 0,
            self.scopes().len() > 0 ==> res@ == self.scopes().last(),
    {
        let n = self.value_frames.len();
        if n == 0 {
            return &[];
        }
        self.value_frames[n - 1].as_slice()
    }
}

impl Default for ParseContext {
    fn default() -> (res: Self)
        ensures
            res.wf(),
    {
        ParseContext::new()
    }
}


// ─────────────────────────────────────────────────────────────────────────────
// Laws
// ─────────────────────────────────────────────────────────────────────────────

/// Entering and then leaving a sub-type restores the context: after
/// `push_scope` (`before` to `pushed`) and `pop_scope` (`pushed` to
/// `popped`, returning `fields`), the scopes and the evaluator's frames are
/// as they were, and the scope that was left is empty (for a well-formed
/// context, which every context the library makes is).
pub proof fn law_scope_round_trip(
    before: ParseContext,
    pushed: ParseContext,
    popped: ParseContext,
    fields: Seq<(String, Value)>,
)
    requires
        before.wf(),
        pushed.eval_ctx@ == before.eval_ctx@.push(Map::empty()),
        pushed.scopes() == before.scopes().push(Seq::empty()),
        popped.eval_ctx@ == (if pushed.eval_ctx@.len() > 1 {
            pushed.eval_ctx@.drop_last()
        } else {
            pushed.eval_ctx@
        }),
        popped.scopes() == pushed.scopes().drop_last(),
        fields == pushed.scopes().last(),
    ensures
        popped.eval_ctx@ == before.eval_ctx@,
        popped.scopes() == before.scopes(),
        fields.len() == 0,
{
    assert(popped.eval_ctx@ =~= before.eval_ctx@);
    assert(popped.scopes() =~= before.scopes());
}

/// A bound field is found again by its name: after binding `id` to `v` in
/// the current scope `frame`, looking `id` up gives `v`, and every other
/// name gives what it gave before.
pub proof fn law_lookup_after_bind(frame: Seq<(String, Value)>, id: String, v: Value, other: Seq<char>)
    ensures
        last_binding(frame.push((id, v)), id@) == Some(v),
        other != id@ ==> last_binding(frame.push((id, v)), other) == last_binding(frame, other),
{
    assert(frame.push((id, v)).drop_last() =~= frame);
}

} // verus!
