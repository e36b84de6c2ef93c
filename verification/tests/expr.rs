//! Tests of the expression language.

use doe::schema::expr;
use doe::schema::expr::{eval_str, parse, EvalContext};


fn ctx() -> EvalContext { EvalContext::new() }

fn eval(s: &str) -> i64 { eval_str(s, &ctx()).expect(s) }

fn eval_with(bindings: &[(&str, i64)], s: &str) -> i64 {
    let mut c = ctx();
    for (k, v) in bindings { c.bind(k, *v); }
    eval_str(s, &c).expect(s)
}

fn parse_err(s: &str) -> bool { parse(s).is_err() }
fn eval_err(s: &str) -> bool  { eval_str(s, &ctx()).is_err() }

// ── Parser: literals ─────────────────────────────────────────────────────

#[test]
fn integer_literal() { assert_eq!(eval("42"), 42); }

#[test]
fn zero_literal() { assert_eq!(eval("0"), 0); }

#[test]
fn hex_literal() { assert_eq!(eval("0xff"), 255); }

#[test]
fn hex_literal_upper() { assert_eq!(eval("0xFF"), 255); }

#[test]
fn true_literal() { assert_eq!(eval("true"), 1); }

#[test]
fn false_literal() { assert_eq!(eval("false"), 0); }

// ── Parser: arithmetic ───────────────────────────────────────────────────

#[test]
fn addition() { assert_eq!(eval("1 + 2"), 3); }

#[test]
fn subtraction() { assert_eq!(eval("10 - 3"), 7); }

#[test]
fn multiplication() { assert_eq!(eval("3 * 4"), 12); }

#[test]
fn division() { assert_eq!(eval("10 / 2"), 5); }

#[test]
fn remainder() { assert_eq!(eval("10 % 3"), 1); }

#[test]
fn precedence_mul_before_add() { assert_eq!(eval("2 + 3 * 4"), 14); }

#[test]
fn parentheses_override_precedence() { assert_eq!(eval("(2 + 3) * 4"), 20); }

#[test]
fn unary_negation() { assert_eq!(eval("-5"), -5); }

#[test]
fn double_negation() { assert_eq!(eval("--5"), 5); }

// ── Parser: bitwise ──────────────────────────────────────────────────────

#[test]
fn bitwise_and() { assert_eq!(eval("0xff & 0x0f"), 0x0f); }

#[test]
fn bitwise_or() { assert_eq!(eval("0x0f | 0xf0"), 0xff); }

#[test]
fn bitwise_xor() { assert_eq!(eval("0xff ^ 0x0f"), 0xf0); }

#[test]
fn shift_left() { assert_eq!(eval("1 << 4"), 16); }

#[test]
fn shift_right() { assert_eq!(eval("0x10 >> 2"), 4); }

// ── Parser: comparison ───────────────────────────────────────────────────

#[test]
fn eq_true()  { assert_eq!(eval("5 == 5"), 1); }
#[test]
fn eq_false() { assert_eq!(eval("5 == 6"), 0); }
#[test]
fn ne_true()  { assert_eq!(eval("5 != 6"), 1); }
#[test]
fn lt_true()  { assert_eq!(eval("3 < 5"),  1); }
#[test]
fn lt_false() { assert_eq!(eval("5 < 3"),  0); }
#[test]
fn le_eq()    { assert_eq!(eval("5 <= 5"), 1); }
#[test]
fn gt_true()  { assert_eq!(eval("5 > 3"),  1); }
#[test]
fn ge_eq()    { assert_eq!(eval("5 >= 5"), 1); }

// ── Parser: logical ──────────────────────────────────────────────────────

#[test]
fn logical_and_both_true() { assert_eq!(eval("1 && 1"), 1); }
#[test]
fn logical_and_one_false() { assert_eq!(eval("1 && 0"), 0); }
#[test]
fn logical_or_one_true()  { assert_eq!(eval("0 || 1"), 1); }
#[test]
fn logical_or_both_false(){ assert_eq!(eval("0 || 0"), 0); }
#[test]
fn logical_not_true()     { assert_eq!(eval("!0"), 1); }
#[test]
fn logical_not_false()    { assert_eq!(eval("!1"), 0); }

#[test]
fn logical_and_short_circuits() {
    // Right side would divide by zero; should never evaluate due to short-circuit.
    // We can't fully test short-circuit without a side-effect, but we can
    // confirm 0 && anything == 0 with a field ref that's not in scope.
    let c = ctx();
    // "0 && missing" — rhs not evaluated when lhs is 0
    let ast = parse("0 && missing").unwrap();
    assert_eq!(expr::eval(&ast, &c, "0 && missing").unwrap(), 0);
}

#[test]
fn logical_or_short_circuits() {
    let c = ctx();
    let ast = parse("1 || missing").unwrap();
    assert_eq!(expr::eval(&ast, &c, "1 || missing").unwrap(), 1);
}

// ── Evaluation: field references ─────────────────────────────────────────

#[test]
fn simple_field_ref() {
    assert_eq!(eval_with(&[("length", 10)], "length"), 10);
}

#[test]
fn field_in_arithmetic() {
    assert_eq!(eval_with(&[("n", 5)], "n * 2 + 1"), 11);
}

#[test]
fn field_comparison() {
    assert_eq!(eval_with(&[("version", 3)], "version > 2"), 1);
    assert_eq!(eval_with(&[("version", 1)], "version > 2"), 0);
}

#[test]
fn unknown_field_is_error() {
    assert!(eval_err("unknown_field"));
}

// ── Evaluation: parent scope ──────────────────────────────────────────────

#[test]
fn parent_field_ref() {
    let mut c = ctx();
    c.bind("outer_count", 7);
    c.push_frame();
    c.bind("inner_val", 3);
    let ast = parse("_parent.outer_count").unwrap();
    assert_eq!(expr::eval(&ast, &c, "_parent.outer_count").unwrap(), 7);
}

#[test]
fn parent_field_in_arithmetic() {
    let mut c = ctx();
    c.bind("base", 100);
    c.push_frame();
    c.bind("offset", 5);
    assert_eq!(eval_str("_parent.base + offset", &c).unwrap(), 105);
}

#[test]
fn too_many_parent_hops_is_error() {
    let mut c = ctx();
    c.push_frame();
    let ast = parse("_parent._parent.x").unwrap();
    assert!(expr::eval(&ast, &c, "_parent._parent.x").is_err());
}

// ── Evaluation: division by zero ─────────────────────────────────────────

#[test]
fn division_by_zero_is_error() { assert!(eval_err("1 / 0")); }

#[test]
fn modulo_by_zero_is_error()   { assert!(eval_err("1 % 0")); }

// ── Parser: error cases ───────────────────────────────────────────────────

#[test]
fn empty_expression_is_error() { assert!(parse_err("")); }

#[test]
fn trailing_operator_is_error() { assert!(parse_err("1 +")); }

#[test]
fn unmatched_paren_is_error() { assert!(parse_err("(1 + 2")); }

#[test]
fn dangling_dot_is_error() { assert!(parse_err("foo.")); }

// ── Complex expressions ───────────────────────────────────────────────────

#[test]
fn complex_size_expr() {
    // (n * 4) + 8 — a plausible "size = count * 4 + header" pattern
    assert_eq!(eval_with(&[("n", 3)], "(n * 4) + 8"), 20);
}

#[test]
fn bitfield_mask_expr() {
    // (flags >> 4) & 0x0f
    assert_eq!(eval_with(&[("flags", 0xab)], "(flags >> 4) & 0x0f"), 0x0a);
}

#[test]
fn nested_conditional() {
    // (a > 0) && (b < 10)
    assert_eq!(eval_with(&[("a", 5), ("b", 3)], "(a > 0) && (b < 10)"), 1);
    assert_eq!(eval_with(&[("a", 5), ("b", 15)], "(a > 0) && (b < 10)"), 0);
}

// ── EvalContext: frame management ────────────────────────────────────────

#[test]
fn bind_and_lookup_current_frame() {
    let mut c = ctx();
    c.bind("x", 42);
    assert_eq!(c.lookup_current("x"), Some(42));
}

#[test]
fn push_frame_shadows_outer() {
    let mut c = ctx();
    c.bind("x", 1);
    c.push_frame();
    c.bind("x", 2);
    assert_eq!(c.lookup_current("x"), Some(2));
}

#[test]
fn pop_frame_restores_outer() {
    let mut c = ctx();
    c.bind("x", 1);
    c.push_frame();
    c.bind("x", 2);
    c.pop_frame();
    assert_eq!(c.lookup_current("x"), Some(1));
}

#[test]
fn pop_below_root_is_safe() {
    let mut c = ctx();
    c.pop_frame(); // should not panic
    c.pop_frame();
}
fn syntax_message(s: &str) -> String {
    match parse(s) {
        Err(doe::DoeError::ExprParse { expr, message }) => {
            assert_eq!(expr, s);
            message
        }
        other => panic!("expected a syntax error for {:?}, got {:?}", s, other.map(|_| ())),
    }
}

#[test]
fn syntax_error_messages() {
    assert_eq!(syntax_message("1 +"), "unexpected token Eof");
    assert_eq!(syntax_message(""), "unexpected token Eof");
    assert_eq!(syntax_message("(1 + 2"), "expected ')'");
    assert_eq!(syntax_message("foo."), "expected identifier after '.'");
    assert_eq!(syntax_message("1 2"), "unexpected token Int(2) after expression");
    assert_eq!(syntax_message("a b"), "unexpected token Ident(\"b\") after expression");
    assert_eq!(syntax_message("* 3"), "unexpected token Star");
}

#[test]
fn evaluation_error_messages() {
    match eval_str("missing + 1", &ctx()) {
        Err(doe::DoeError::ExprEval { expr, message }) => {
            assert_eq!(expr, "missing + 1");
            assert_eq!(message, "unknown field 'missing'");
        }
        other => panic!("unexpected: {:?}", other),
    }
    match eval_str("_parent.x", &ctx()) {
        Err(doe::DoeError::ExprEval { message, .. }) => assert_eq!(message, "_parent: already at root scope"),
        other => panic!("unexpected: {:?}", other),
    }
}

#[test]
fn logical_operators_yield_zero_or_one() {
    assert_eq!(eval("1 && 5"), 1);
    assert_eq!(eval("0 || 7"), 1);
    assert_eq!(eval("3 || 0"), 1);
    assert_eq!(eval("2 && 0"), 0);
}

#[test]
fn invalid_characters_are_parse_errors() {
    assert!(parse_err("a = 1"));
    assert!(parse_err("5 @ 3"));
    assert_eq!(syntax_message("a = 1"), "unexpected token Invalid(\"=\") after expression");
    assert_eq!(syntax_message("@"), "unexpected token Invalid(\"@\")");
}

#[test]
fn dotted_path_reads_the_dotted_binding() {
    assert_eq!(eval_with(&[("header.count", 4)], "header.count + 1"), 5);
    let mut c = ctx();
    c.bind("hdr.len", 9);
    c.push_frame();
    assert_eq!(eval_str("_parent.hdr.len", &c).unwrap(), 9);
    match eval_str("hdr.len", &c) {
        Err(doe::DoeError::ExprEval { message, .. }) => assert_eq!(message, "unknown field 'hdr.len'"),
        other => panic!("unexpected: {:?}", other),
    }
}

#[test]
fn pop_frame_forgets_inner_bindings() {
    let mut c = ctx();
    c.bind("x", 1);
    c.push_frame();
    c.bind("x", 2);
    c.bind("y", 3);
    c.pop_frame();
    assert_eq!(eval_str("x", &c).unwrap(), 1);
    assert!(eval_str("y", &c).is_err());
}
