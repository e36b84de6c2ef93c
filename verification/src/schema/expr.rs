//! Expression language for schema field sizes, repeat counts, and
//! conditionals.
//!
//! Grammar (in precedence order, lowest first):
//!
//! ```text
//! expr    = or
//! or      = and ( "||" and )*
//! and     = cmp  ( "&&" cmp  )*
//! cmp     = bitor ( ( "==" | "!=" | "<" | ">" | "<=" | ">=" ) bitor )?
//! bitor   = bitxor ( "|" bitxor )*
//! bitxor  = bitand ( "^" bitand )*
//! bitand  = shift  ( "&" shift  )*
//! shift   = add    ( ( "<<" | ">>" ) add )*
//! add     = mul    ( ( "+" | "-" ) mul )*
//! mul     = unary  ( ( "*" | "/" | "%" ) unary )*
//! unary   = ( "!" | "-" ) unary | primary
//! primary = INT | "true" | "false" | IDENT ( "." IDENT )* | "(" expr ")"
//! ```
//!
//! All integer arithmetic uses `i64`.  Booleans are represented as `i64`
//! (0 = false, 1 = true) so that `if` expressions and size expressions share
//! the same value type.

use vstd::prelude::*;
use crate::error::DoeError;
use crate::schema::lexer::{str_is, tokenize, tokens_of, toks_view, Tok, Token};
use crate::strutil::{debug_quoted, push_debug_str, push_signed_decimal, push_str, signed_decimal};

verus! {

// ─────────────────────────────────────────────────────────────────────────────
// AST
// ─────────────────────────────────────────────────────────────────────────────

/// An expression tree.
#[derive(Debug, PartialEq)]
pub enum Expr {
    /// Integer literal.
    Int(i64),
    /// Boolean literal (only produced by direct construction; the parser
    /// normalises `true`/`false` to `Int(1)`/`Int(0)`).
    Bool(bool),
    /// Field reference, possibly qualified: `["_parent", "length"]`.
    Field(Vec<String>),
    /// Unary operator.
    Unary(UnaryOp, Box<Expr>),
    /// Binary operator.
    Binary(BinaryOp, Box<Expr>, Box<Expr>),
}

#[derive(Debug, Clone, Copy, PartialEq, Eq, Structural)]
pub enum UnaryOp {
    Neg,
    Not,
}

#[derive(Debug, Clone, Copy, PartialEq, Eq, Structural)]
pub enum BinaryOp {
    Add,
    Sub,
    Mul,
    Div,
    Rem,
    Shl,
    Shr,
    BitAnd,
    BitOr,
    BitXor,
    Eq,
    Ne,
    Lt,
    Gt,
    Le,
    Ge,
    And,
    Or,
}

/// The mathematical form of an expression: field names as character
/// sequences.
pub enum ExprV {
    Int(i64),
    Bool(bool),
    Field(Seq<Seq<char>>),
    Unary(UnaryOp, Box<ExprV>),
    Binary(BinaryOp, Box<ExprV>, Box<ExprV>),
}

/// The views of a vector of strings.
pub open spec fn names_view(v: Seq<String>) -> Seq<Seq<char>> {
    v.map_values(|s: String| s@)
}

/// The mathematical form of an expression tree.
pub open spec fn expr_view(e: Expr) -> ExprV
    decreases e,
{
    match e {
        Expr::Int(n) => ExprV::Int(n),
        Expr::Bool(b) => ExprV::Bool(b),
        Expr::Field(parts) => ExprV::Field(names_view(parts@)),
        Expr::Unary(op, a) => ExprV::Unary(op, Box::new(expr_view(*a))),
        Expr::Binary(op, a, b) => ExprV::Binary(op, Box::new(expr_view(*a)), Box::new(expr_view(*b))),
    }
}

impl View for Expr {
    type V = ExprV;

    open spec fn view(&self) -> ExprV {
        expr_view(*self)
    }
}

/// A copy of a list of names.
pub fn clone_names(v: &Vec<String>) -> (res: Vec<String>)
    ensures
        names_view(res@) == names_view(v@),
{
    let mut out: Vec<String> = Vec::new();
    let mut i: usize = 0;
    while i < v.len()
        invariant
            i <= v@.len(),
            names_view(out@) == names_view(v@.subrange(0, i as int)),
        decreases v@.len() - i,
    {
        let ghost prev = out@;
        out.push(v[i].clone());
        i = i + 1;
        proof {
            assert(names_view(out@) =~= names_view(prev).push(v@[i - 1]@));
            assert(names_view(v@.subrange(0, i as int)) =~= names_view(v@.subrange(0, i - 1)).push(
                v@[i - 1]@,
            ));
        }
    }
    assert(v@.subrange(0, v@.len() as int) =~= v@);
    out
}

impl Clone for Expr {
    fn clone(&self) -> (res: Self)
        ensures
            res@ == self@,
        decreases self,
    {
        match self {
            Expr::Int(n) => Expr::Int(*n),
            Expr::Bool(b) => Expr::Bool(*b),
            Expr::Field(parts) => Expr::Field(clone_names(parts)),
            Expr::Unary(op, a) => {
                let a2: Expr = (**a).clone();
                Expr::Unary(*op, Box::new(a2))
            },
            Expr::Binary(op, a, b) => {
                let a2: Expr = (**a).clone();
                let b2: Expr = (**b).clone();
                Expr::Binary(*op, Box::new(a2), Box::new(b2))
            },
        }
    }
}

/// The source symbol of a binary operator.
pub open spec fn binop_symbol(op: BinaryOp) -> Seq<char> {
    match op {
        BinaryOp::Add => "+"@,
        BinaryOp::Sub => "-"@,
        BinaryOp::Mul => "*"@,
        BinaryOp::Div => "/"@,
        BinaryOp::Rem => "%"@,
        BinaryOp::Shl => "<<"@,
        BinaryOp::Shr => ">>"@,
        BinaryOp::BitAnd => "&"@,
        BinaryOp::BitOr => "|"@,
        BinaryOp::BitXor => "^"@,
        BinaryOp::Eq => "=="@,
        BinaryOp::Ne => "!="@,
        BinaryOp::Lt => "<"@,
        BinaryOp::Gt => ">"@,
        BinaryOp::Le => "<="@,
        BinaryOp::Ge => ">="@,
        BinaryOp::And => "&&"@,
        BinaryOp::Or => "||"@,
    }
}

impl BinaryOp {
    /// The operator as written in expression source.
    pub fn symbol(&self) -> (res: &'static str)
        ensures
            res@ == binop_symbol(*self),
    {
        match self {
            BinaryOp::Add => "+",
            BinaryOp::Sub => "-",
            BinaryOp::Mul => "*",
            BinaryOp::Div => "/",
            BinaryOp::Rem => "%",
            BinaryOp::Shl => "<<",
            BinaryOp::Shr => ">>",
            BinaryOp::BitAnd => "&",
            BinaryOp::BitOr => "|",
            BinaryOp::BitXor => "^",
            BinaryOp::Eq => "==",
            BinaryOp::Ne => "!=",
            BinaryOp::Lt => "<",
            BinaryOp::Gt => ">",
            BinaryOp::Le => "<=",
            BinaryOp::Ge => ">=",
            BinaryOp::And => "&&",
            BinaryOp::Or => "||",
        }
    }
}

// ─────────────────────────────────────────────────────────────────────────────
// Grammar
// ─────────────────────────────────────────────────────────────────────────────

// Precedence levels, lowest binding first: 10 `||`, 9 `&&`, 8 comparisons,
// 7 `|`, 6 `^`, 5 `&`, 4 shifts, 3 additive, 2 multiplicative, 1 unary,
// 0 primary.

/// The binary operator that token `t` denotes at precedence `level`.
pub open spec fn binop_at(level: nat, t: Tok) -> Option<BinaryOp> {
    if level == 2 {
        match t {
            Tok::Star => Some(BinaryOp::Mul),
            Tok::Slash => Some(BinaryOp::Div),
            Tok::Percent => Some(BinaryOp::Rem),
            _ => None,
        }
    } else if level == 3 {
        match t {
            Tok::Plus => Some(BinaryOp::Add),
            Tok::Minus => Some(BinaryOp::Sub),
            _ => None,
        }
    } else if level == 4 {
        match t {
            Tok::Shl => Some(BinaryOp::Shl),
            Tok::Shr => Some(BinaryOp::Shr),
            _ => None,
        }
    } else if level == 5 {
        match t {
            Tok::Amp => Some(BinaryOp::BitAnd),
            _ => None,
        }
    } else if level == 6 {
        match t {
            Tok::Caret => Some(BinaryOp::BitXor),
            _ => None,
        }
    } else if level == 7 {
        match t {
            Tok::Pipe => Some(BinaryOp::BitOr),
            _ => None,
        }
    } else if level == 8 {
        match t {
            Tok::EqEq => Some(BinaryOp::Eq),
            Tok::BangEq => Some(BinaryOp::Ne),
            Tok::Lt => Some(BinaryOp::Lt),
            Tok::Gt => Some(BinaryOp::Gt),
            Tok::Le => Some(BinaryOp::Le),
            Tok::Ge => Some(BinaryOp::Ge),
            _ => None,
        }
    } else if level == 9 {
        match t {
            Tok::AmpAmp => Some(BinaryOp::And),
            _ => None,
        }
    } else if level == 10 {
        match t {
            Tok::PipePipe => Some(BinaryOp::Or),
            _ => None,
        }
    } else {
        None
    }
}

/// The debug rendering of a token, as in `Ident("x")`, `Int(3)` or `Plus`.
pub open spec fn tok_debug(t: Tok) -> Seq<char> {
    match t {
        Tok::Int(n) => "Int("@ + signed_decimal(n as int) + ")"@,
        Tok::Ident(id) => "Ident("@ + debug_quoted(id) + ")"@,
        Tok::Plus => "Plus"@,
        Tok::Minus => "Minus"@,
        Tok::Star => "Star"@,
        Tok::Slash => "Slash"@,
        Tok::Percent => "Percent"@,
        Tok::Shl => "Shl"@,
        Tok::Shr => "Shr"@,
        Tok::Amp => "Amp"@,
        Tok::Pipe => "Pipe"@,
        Tok::Caret => "Caret"@,
        Tok::AmpAmp => "AmpAmp"@,
        Tok::PipePipe => "PipePipe"@,
        Tok::Bang => "Bang"@,
        Tok::EqEq => "EqEq"@,
        Tok::BangEq => "BangEq"@,
        Tok::Lt => "Lt"@,
        Tok::Gt => "Gt"@,
        Tok::Le => "Le"@,
        Tok::Ge => "Ge"@,
        Tok::Dot => "Dot"@,
        Tok::LParen => "LParen"@,
        Tok::RParen => "RParen"@,
        Tok::Invalid(t) => "Invalid("@ + debug_quoted(t) + ")"@,
        Tok::Eof => "Eof"@,
    }
}

/// The rest of a dotted field path after `parts`, starting at token `i`:
/// the tree and the index of the first token after it, or the message of
/// the syntax error.
pub open spec fn grammar_field(toks: Seq<Tok>, i: int, parts: Seq<Seq<char>>) -> Result<(ExprV, int), Seq<char>>
    decreases toks.len() - i,
{
    if i < 0 || i >= toks.len() {
        Err(Seq::empty())
    } else if toks[i] is Dot {
        if i + 1 < toks.len() && toks[i + 1] is Ident {
            grammar_field(toks, i + 2, parts.push(toks[i + 1]->Ident_0))
        } else {
            Err("expected identifier after '.'"@)
        }
    } else {
        Ok((ExprV::Field(parts), i))
    }
}

/// The phrase of precedence `level` that starts at token `i`: the tree and
/// the index of the first token after it, or the message of the syntax
/// error.
pub open spec fn grammar(toks: Seq<Tok>, i: int, level: nat) -> Result<(ExprV, int), Seq<char>>
    decreases toks.len() - i, level, 2nat,
{
    if i < 0 || i >= toks.len() || level > 10 {
        Err(Seq::empty())
    } else if level == 0 {
        match toks[i] {
            Tok::Int(n) => Ok((ExprV::Int(n), i + 1)),
            Tok::Ident(name) => grammar_field(toks, i + 1, seq![name]),
            Tok::LParen => match grammar(toks, i + 1, 10) {
                Ok((e, j)) => if 0 <= j < toks.len() && toks[j] is RParen {
                    Ok((e, j + 1))
                } else {
                    Err("expected ')'"@)
                },
                Err(m) => Err(m),
            },
            _ => Err("unexpected token "@ + tok_debug(toks[i])),
        }
    } else if level == 1 {
        match toks[i] {
            Tok::Minus => match grammar(toks, i + 1, 1) {
                Ok((e, j)) => Ok((ExprV::Unary(UnaryOp::Neg, Box::new(e)), j)),
                Err(m) => Err(m),
            },
            Tok::Bang => match grammar(toks, i + 1, 1) {
                Ok((e, j)) => Ok((ExprV::Unary(UnaryOp::Not, Box::new(e)), j)),
                Err(m) => Err(m),
            },
            _ => grammar(toks, i, 0),
        }
    } else if level == 8 {
        match grammar(toks, i, 7) {
            Err(m) => Err(m),
            Ok((lhs, j)) => if j < i || j >= toks.len() {
                Err(Seq::empty())
            } else {
                match binop_at(8, toks[j]) {
                    None => Ok((lhs, j)),
                    Some(op) => match grammar(toks, j + 1, 7) {
                        Err(m) => Err(m),
                        Ok((rhs, k)) => Ok((ExprV::Binary(op, Box::new(lhs), Box::new(rhs)), k)),
                    },
                }
            },
        }
    } else {
        match grammar(toks, i, (level - 1) as nat) {
            Err(m) => Err(m),
            Ok((lhs, j)) => if j < i || j > toks.len() {
                Err(Seq::empty())
            } else {
                grammar_tail(toks, j, level, lhs)
            },
        }
    }
}

/// Zero or more `op rhs` continuations of a left-associative level.
pub open spec fn grammar_tail(toks: Seq<Tok>, i: int, level: nat, lhs: ExprV) -> Result<(ExprV, int), Seq<char>>
    decreases toks.len() - i, level, 1nat,
{
    if i < 0 || i >= toks.len() || level < 2 || level > 10 {
        Err(Seq::empty())
    } else {
        match binop_at(level, toks[i]) {
            None => Ok((lhs, i)),
            Some(op) => match grammar(toks, i + 1, (level - 1) as nat) {
                Err(m) => Err(m),
                Ok((rhs, k)) => if k <= i || k > toks.len() {
                    Err(Seq::empty())
                } else {
                    grammar_tail(toks, k, level, ExprV::Binary(op, Box::new(lhs), Box::new(rhs)))
                },
            },
        }
    }
}

/// What parsing `src` gives: the tree of a whole expression followed by
/// the end of the token stream, or the message of the syntax error.
pub open spec fn parse_result(src: Seq<char>) -> Result<ExprV, Seq<char>> {
    let toks = tokens_of(src);
    match grammar(toks, 0, 10) {
        Ok((e, j)) => if 0 <= j < toks.len() && toks[j] is Eof {
            Ok(e)
        } else if 0 <= j < toks.len() {
            Err("unexpected token "@ + tok_debug(toks[j]) + " after expression"@)
        } else {
            Err(Seq::empty())
        },
        Err(m) => Err(m),
    }
}

/// The tree that `src` parses to, if it is a well-formed expression.
pub open spec fn spec_parse(src: Seq<char>) -> Option<ExprV> {
    match parse_result(src) {
        Ok(e) => Some(e),
        Err(_) => None,
    }
}

/// The message of the syntax error in `src`.
pub open spec fn parse_message(src: Seq<char>) -> Seq<char> {
    match parse_result(src) {
        Ok(_) => Seq::empty(),
        Err(m) => m,
    }
}

// ─────────────────────────────────────────────────────────────────────────────
// Parser
// ─────────────────────────────────────────────────────────────────────────────

/// A token stream as the lexer produces it: non-empty, ending with the
/// only end-of-input token.
pub open spec fn well_terminated(toks: Seq<Tok>) -> bool {
    &&& toks.len() > 0
    &&& toks.last() is Eof
    &&& forall|j: int| 0 <= j < toks.len() - 1 ==> !(toks[j] is Eof)
}

proof fn lemma_tokens_well_terminated(cs: Seq<char>, p: int)
    ensures
        well_terminated(crate::schema::lexer::tokenize_from(cs, p)),
    decreases cs.len() - p,
{
    let (t, q) = crate::schema::lexer::next_tok(cs, p);
    if t is Eof || q <= p || q > cs.len() || p < 0 {
    } else {
        lemma_tokens_well_terminated(cs, q);
        let rest = crate::schema::lexer::tokenize_from(cs, q);
        let all = seq![t] + rest;
        assert(all.last() == rest.last());
        assert forall|j: int| 0 <= j < all.len() - 1 implies !(all[j] is Eof) by {
            if j > 0 {
                assert(all[j] == rest[j - 1]);
            }
        }
    }
}

struct Parser<'a> {
    toks: Vec<Token>,
    pos: usize,
    src: &'a str,
}

impl<'a> Parser<'a> {
    spec fn tv(&self) -> Seq<Tok> {
        toks_view(self.toks@)
    }

    spec fn wf(&self) -> bool {
        &&& well_terminated(self.tv())
        &&& self.pos < self.toks@.len()
        &&& self.toks@.len() == self.toks.len()
    }

    /// What a parse method at `level` promises.
    spec fn parsed(old: &Self, new: &Self, res: Result<Expr, DoeError>, level: nat) -> bool {
        &&& new.wf()
        &&& new.toks == old.toks
        &&& new.src == old.src
        &&& old.pos <= new.pos
        &&& match res {
            Ok(e) => grammar(old.tv(), old.pos as int, level) == Ok::<(ExprV, int), Seq<char>>((e@, new.pos as int)),
            Err(err) => grammar(old.tv(), old.pos as int, level) matches Err(m) && syntax_error(err, old.src@, m),
        }
    }

    fn new(src: &'a str) -> (res: Parser<'a>)
        ensures
            res.wf(),
            res.pos == 0,
            res.tv() == tokens_of(src@),
            res.src == src,
    {
        let toks = tokenize(src);
        proof {
            lemma_tokens_well_terminated(src@, 0);
        }
        let _n = toks.len();
        Parser { toks, pos: 0, src }
    }

    fn current(&self) -> (t: &Token)
        requires
            self.wf(),
        ensures
            t@ == self.tv()[self.pos as int],
    {
        &self.toks[self.pos]
    }

    fn is_current(&self, k: TokKind) -> (res: bool)
        requires
            self.wf(),
        ensures
            res == kind_matches(k, self.tv()[self.pos as int]),
    {
        let t = self.current();
        match (k, t) {
            (TokKind::Dot, Token::Dot) => true,
            (TokKind::RParen, Token::RParen) => true,
            (TokKind::Eof, Token::Eof) => true,
            _ => false,
        }
    }

    fn bump(&mut self)
        requires
            old(self).wf(),
            !(old(self).tv()[old(self).pos as int] is Eof),
        ensures
            final(self).wf(),
            final(self).toks == old(self).toks,
            final(self).src == old(self).src,
            final(self).pos == old(self).pos + 1,
    {
        self.pos = self.pos + 1;
    }

    fn err(&self, msg: &str) -> (e: DoeError)
        ensures
            syntax_error(e, self.src@, msg@),
    {
        DoeError::ExprParse { expr: self.src.to_owned(), message: msg.to_owned() }
    }

    fn parse_expr(&mut self) -> (res: Result<Expr, DoeError>)
        requires
            old(self).wf(),
        ensures
            Self::parsed(old(self), final(self), res, 10),
        decreases old(self).toks@.len() - old(self).pos, 11nat, 2nat,
    {
        self.parse_or()
    }

    fn parse_or(&mut self) -> (res: Result<Expr, DoeError>)
        requires
            old(self).wf(),
        ensures
            Self::parsed(old(self), final(self), res, 10),
        decreases old(self).toks@.len() - old(self).pos, 10nat, 2nat,
    {
        let lhs = self.parse_and()?;
        self.parse_tail(10, lhs)
    }

    fn parse_and(&mut self) -> (res: Result<Expr, DoeError>)
        requires
            old(self).wf(),
        ensures
            Self::parsed(old(self), final(self), res, 9),
        decreases old(self).toks@.len() - old(self).pos, 9nat, 2nat,
    {
        let lhs = self.parse_comparison()?;
        self.parse_tail(9, lhs)
    }

    fn parse_comparison(&mut self) -> (res: Result<Expr, DoeError>)
        requires
            old(self).wf(),
        ensures
            Self::parsed(old(self), final(self), res, 8),
        decreases old(self).toks@.len() - old(self).pos, 8nat, 2nat,
    {
        let lhs = self.parse_bitor()?;
        let op = match binop_of(8, self.current()) {
            Some(op) => op,
            None => return Ok(lhs),
        };
        self.bump();
        let rhs = self.parse_bitor()?;
        Ok(Expr::Binary(op, Box::new(lhs), Box::new(rhs)))
    }

    fn parse_bitor(&mut self) -> (res: Result<Expr, DoeError>)
        requires
            old(self).wf(),
        ensures
            Self::parsed(old(self), final(self), res, 7),
        decreases old(self).toks@.len() - old(self).pos, 7nat, 2nat,
    {
        let lhs = self.parse_bitxor()?;
        self.parse_tail(7, lhs)
    }

    fn parse_bitxor(&mut self) -> (res: Result<Expr, DoeError>)
        requires
            old(self).wf(),
        ensures
            Self::parsed(old(self), final(self), res, 6),
        decreases old(self).toks@.len() - old(self).pos, 6nat, 2nat,
    {
        let lhs = self.parse_bitand()?;
        self.parse_tail(6, lhs)
    }

    fn parse_bitand(&mut self) -> (res: Result<Expr, DoeError>)
        requires
            old(self).wf(),
        ensures
            Self::parsed(old(self), final(self), res, 5),
        decreases old(self).toks@.len() - old(self).pos, 5nat, 2nat,
    {
        let lhs = self.parse_shift()?;
        self.parse_tail(5, lhs)
    }

    fn parse_shift(&mut self) -> (res: Result<Expr, DoeError>)
        requires
            old(self).wf(),
        ensures
            Self::parsed(old(self), final(self), res, 4),
        decreases old(self).toks@.len() - old(self).pos, 4nat, 2nat,
    {
        let lhs = self.parse_add()?;
        self.parse_tail(4, lhs)
    }

    fn parse_add(&mut self) -> (res: Result<Expr, DoeError>)
        requires
            old(self).wf(),
        ensures
            Self::parsed(old(self), final(self), res, 3),
        decreases old(self).toks@.len() - old(self).pos, 3nat, 2nat,
    {
        let lhs = self.parse_mul()?;
        self.parse_tail(3, lhs)
    }

    fn parse_mul(&mut self) -> (res: Result<Expr, DoeError>)
        requires
            old(self).wf(),
        ensures
            Self::parsed(old(self), final(self), res, 2),
        decreases old(self).toks@.len() - old(self).pos, 2nat, 2nat,
    {
        let lhs = self.parse_unary()?;
        self.parse_tail(2, lhs)
    }

    /// Parse the phrase one precedence level below `level`.
    fn parse_below(&mut self, level: u64) -> (res: Result<Expr, DoeError>)
        requires
            old(self).wf(),
            2 <= level <= 10,
        ensures
            Self::parsed(old(self), final(self), res, (level - 1) as nat),
        decreases old(self).toks@.len() - old(self).pos, (level - 1) as nat, 3nat,
    {
        if level == 10 {
            self.parse_and()
        } else if level == 9 {
            self.parse_comparison()
        } else if level == 8 {
            self.parse_bitor()
        } else if level == 7 {
            self.parse_bitxor()
        } else if level == 6 {
            self.parse_bitand()
        } else if level == 5 {
            self.parse_shift()
        } else if level == 4 {
            self.parse_add()
        } else if level == 3 {
            self.parse_mul()
        } else {
            self.parse_unary()
        }
    }

    /// Zero or more `op rhs` continuations of a left-associative level.
    #[verifier::loop_isolation(false)]
    fn parse_tail(&mut self, level: u64, lhs: Expr) -> (res: Result<Expr, DoeError>)
        requires
            old(self).wf(),
            2 <= level <= 10,
            level != 8,
        ensures
            final(self).wf(),
            final(self).toks == old(self).toks,
            final(self).src == old(self).src,
            old(self).pos <= final(self).pos,
            match res {
                Ok(e) => grammar_tail(old(self).tv(), old(self).pos as int, level as nat, lhs@)
                    == Ok::<(ExprV, int), Seq<char>>((e@, final(self).pos as int)),
                Err(err) => grammar_tail(old(self).tv(), old(self).pos as int, level as nat, lhs@)
                    matches Err(m) && syntax_error(err, old(self).src@, m),
            },
        decreases old(self).toks@.len() - old(self).pos, level as nat, 1nat,
    {
        let mut lhs = lhs;
        let ghost tv = self.tv();
        let ghost start = grammar_tail(tv, old(self).pos as int, level as nat, lhs@);
        loop
            invariant
                self.wf(),
                self.toks == old(self).toks,
                self.src == old(self).src,
                tv == self.tv(),
                old(self).pos <= self.pos,
                2 <= level <= 10,
                start == grammar_tail(tv, self.pos as int, level as nat, lhs@),
            decreases self.toks@.len() - self.pos,
        {
            let op = match binop_of(level, self.current()) {
                Some(op) => op,
                None => return Ok(lhs),
            };
            self.bump();
            let rhs = self.parse_below(level)?;
            lhs = Expr::Binary(op, Box::new(lhs), Box::new(rhs));
        }
    }

    fn parse_unary(&mut self) -> (res: Result<Expr, DoeError>)
        requires
            old(self).wf(),
        ensures
            Self::parsed(old(self), final(self), res, 1),
        decreases old(self).toks@.len() - old(self).pos, 1nat, 2nat,
    {
        let op = match self.current() {
            Token::Minus => UnaryOp::Neg,
            Token::Bang => UnaryOp::Not,
            _ => return self.parse_primary(),
        };
        self.bump();
        let e = self.parse_unary()?;
        Ok(Expr::Unary(op, Box::new(e)))
    }

    fn parse_primary(&mut self) -> (res: Result<Expr, DoeError>)
        requires
            old(self).wf(),
        ensures
            Self::parsed(old(self), final(self), res, 0),
        decreases old(self).toks@.len() - old(self).pos, 0nat, 2nat,
    {
        match self.current() {
            Token::Int(n) => {
                let n = *n;
                self.bump();
                Ok(Expr::Int(n))
            },
            Token::Ident(name) => {
                let name = name.clone();
                self.bump();
                let mut parts: Vec<String> = Vec::new();
                parts.push(name);
                assert(names_view(parts@) =~= seq![parts@[0]@]);
                self.parse_field_rest(parts)
            },
            Token::LParen => {
                self.bump();
                let e = self.parse_expr()?;
                if !self.is_current(TokKind::RParen) {
                    return Err(self.err("expected ')'"));
                }
                self.bump();
                Ok(e)
            },
            _ => {
                let mut msg = String::new();
                push_str(&mut msg, "unexpected token ");
                push_token_debug(&mut msg, self.current());
                Err(DoeError::ExprParse { expr: self.src.to_owned(), message: msg })
            },
        }
    }

    /// The remaining `.IDENT` segments of a field path.
    #[verifier::loop_isolation(false)]
    fn parse_field_rest(&mut self, parts: Vec<String>) -> (res: Result<Expr, DoeError>)
        requires
            old(self).wf(),
        ensures
            final(self).wf(),
            final(self).toks == old(self).toks,
            final(self).src == old(self).src,
            old(self).pos <= final(self).pos,
            match res {
                Ok(e) => grammar_field(old(self).tv(), old(self).pos as int, names_view(parts@))
                    == Ok::<(ExprV, int), Seq<char>>((e@, final(self).pos as int)),
                Err(err) => grammar_field(old(self).tv(), old(self).pos as int, names_view(parts@))
                    matches Err(m) && syntax_error(err, old(self).src@, m),
            },
    {
        let mut parts = parts;
        let ghost start = grammar_field(self.tv(), self.pos as int, names_view(parts@));
        while self.is_current(TokKind::Dot)
            invariant
                self.wf(),
                self.toks == old(self).toks,
                self.src == old(self).src,
                old(self).pos <= self.pos,
                start == grammar_field(self.tv(), self.pos as int, names_view(parts@)),
            decreases self.toks@.len() - self.pos,
        {
            self.bump();
            let part = match self.current() {
                Token::Ident(p) => p.clone(),
                _ => return Err(self.err("expected identifier after '.'")),
            };
            self.bump();
            let ghost prev = parts@;
            parts.push(part);
            proof {
                assert(names_view(parts@) =~= names_view(prev).push(part@));
            }
        }
        Ok(Expr::Field(parts))
    }
}

/// Token kinds that the parser tests for without a payload.
enum TokKind {
    Dot,
    RParen,
    Eof,
}

spec fn kind_matches(k: TokKind, t: Tok) -> bool {
    match k {
        TokKind::Dot => t is Dot,
        TokKind::RParen => t is RParen,
        TokKind::Eof => t is Eof,
    }
}

/// The binary operator that `t` denotes at precedence `level`.
fn binop_of(level: u64, t: &Token) -> (res: Option<BinaryOp>)
    ensures
        res == binop_at(level as nat, t@),
{
    match t {
        Token::Star => if level == 2 { Some(BinaryOp::Mul) } else { None },
        Token::Slash => if level == 2 { Some(BinaryOp::Div) } else { None },
        Token::Percent => if level == 2 { Some(BinaryOp::Rem) } else { None },
        Token::Plus => if level == 3 { Some(BinaryOp::Add) } else { None },
        Token::Minus => if level == 3 { Some(BinaryOp::Sub) } else { None },
        Token::Shl => if level == 4 { Some(BinaryOp::Shl) } else { None },
        Token::Shr => if level == 4 { Some(BinaryOp::Shr) } else { None },
        Token::Amp => if level == 5 { Some(BinaryOp::BitAnd) } else { None },
        Token::Caret => if level == 6 { Some(BinaryOp::BitXor) } else { None },
        Token::Pipe => if level == 7 { Some(BinaryOp::BitOr) } else { None },
        Token::EqEq => if level == 8 { Some(BinaryOp::Eq) } else { None },
        Token::BangEq => if level == 8 { Some(BinaryOp::Ne) } else { None },
        Token::Lt => if level == 8 { Some(BinaryOp::Lt) } else { None },
        Token::Gt => if level == 8 { Some(BinaryOp::Gt) } else { None },
        Token::Le => if level == 8 { Some(BinaryOp::Le) } else { None },
        Token::Ge => if level == 8 { Some(BinaryOp::Ge) } else { None },
        Token::AmpAmp => if level == 9 { Some(BinaryOp::And) } else { None },
        Token::PipePipe => if level == 10 { Some(BinaryOp::Or) } else { None },
        _ => None,
    }
}

/// Appends the debug rendering of a token (as in `Ident("x")` or `Plus`).
fn push_token_debug(s: &mut String, t: &Token)
    ensures
        final(s)@ == old(s)@ + tok_debug(t@),
{
    match t {
        Token::Int(n) => {
            push_str(s, "Int(");
            push_signed_decimal(s, *n);
            push_str(s, ")");
        },
        Token::Ident(id) => {
            push_str(s, "Ident(");
            push_debug_str(s, id.as_str());
            push_str(s, ")");
        },
        Token::Plus => push_str(s, "Plus"),
        Token::Minus => push_str(s, "Minus"),
        Token::Star => push_str(s, "Star"),
        Token::Slash => push_str(s, "Slash"),
        Token::Percent => push_str(s, "Percent"),
        Token::Shl => push_str(s, "Shl"),
        Token::Shr => push_str(s, "Shr"),
        Token::Amp => push_str(s, "Amp"),
        Token::Pipe => push_str(s, "Pipe"),
        Token::Caret => push_str(s, "Caret"),
        Token::AmpAmp => push_str(s, "AmpAmp"),
        Token::PipePipe => push_str(s, "PipePipe"),
        Token::Bang => push_str(s, "Bang"),
        Token::EqEq => push_str(s, "EqEq"),
        Token::BangEq => push_str(s, "BangEq"),
        Token::Lt => push_str(s, "Lt"),
        Token::Gt => push_str(s, "Gt"),
        Token::Le => push_str(s, "Le"),
        Token::Ge => push_str(s, "Ge"),
        Token::Dot => push_str(s, "Dot"),
        Token::LParen => push_str(s, "LParen"),
        Token::RParen => push_str(s, "RParen"),
        Token::Invalid(t) => {
            push_str(s, "Invalid(");
            push_debug_str(s, t.as_str());
            push_str(s, ")");
        },
        Token::Eof => push_str(s, "Eof"),
    }
}

/// Parse an expression string into an AST.
pub fn parse(src: &str) -> (res: Result<Expr, DoeError>)
    ensures
        match res {
            Ok(e) => spec_parse(src@) == Some(e@),
            Err(err) => spec_parse(src@) is None && is_parse_error_in(err, src@),
        },
{
    let mut p = Parser::new(src);
    let e = p.parse_expr()?;
    if !p.is_current(TokKind::Eof) {
        let mut msg = String::new();
        push_str(&mut msg, "unexpected token ");
        push_token_debug(&mut msg, p.current());
        push_str(&mut msg, " after expression");
        return Err(DoeError::ExprParse { expr: src.to_owned(), message: msg });
    }
    Ok(e)
}

/// `e` reports the syntax error with message `m` in the expression text
/// `src`.
pub open spec fn syntax_error(e: DoeError, src: Seq<char>, m: Seq<char>) -> bool {
    e matches DoeError::ExprParse { expr, message } && expr@ == src && message@ == m
}

/// `e` is the syntax error reported for the expression text `src`.
pub open spec fn is_parse_error_in(e: DoeError, src: Seq<char>) -> bool {
    syntax_error(e, src, parse_message(src))
}

// ─────────────────────────────────────────────────────────────────────────────
// Evaluation context
// ─────────────────────────────────────────────────────────────────────────────

/// The value bound to `name` in a frame: the last binding wins.
pub open spec fn frame_get(f: Seq<(String, i64)>, name: Seq<char>) -> Option<i64>
    decreases f.len(),
{
    if f.len() == 0 {
        None
    } else if f.last().0@ == name {
        Some(f.last().1)
    } else {
        frame_get(f.drop_last(), name)
    }
}

/// A frame as a map from field names to values.
pub open spec fn frame_map(f: Seq<(String, i64)>) -> Map<Seq<char>, i64> {
    Map::new(|k: Seq<char>| frame_get(f, k) is Some, |k: Seq<char>| frame_get(f, k)->0)
}

proof fn lemma_frame_update(f: Seq<(String, i64)>, k: int, n: String, v: i64, x: Seq<char>)
    requires
        0 <= k < f.len(),
        f[k].0@ == n@,
        forall|j: int| k < j < f.len() ==> f[j].0@ != n@,
    ensures
        frame_get(f.update(k, (n, v)), x) == (if x == n@ { Some(v) } else { frame_get(f, x) }),
    decreases f.len(),
{
    let g = f.update(k, (n, v));
    if k == f.len() - 1 {
        assert(g.drop_last() =~= f.drop_last());
    } else {
        assert(g.drop_last() =~= f.drop_last().update(k, (n, v)));
        lemma_frame_update(f.drop_last(), k, n, v, x);
    }
}

/// A stack-based evaluation context.
///
/// Each frame maps field names to integer values; the last frame is the
/// current scope and `_parent` walks one frame up.
pub struct EvalContext {
    /// Frames stored outer-to-inner; the last element is the current scope.
    frames: Vec<Vec<(String, i64)>>,
}

impl View for EvalContext {
    type V = Seq<Map<Seq<char>, i64>>;

    closed spec fn view(&self) -> Seq<Map<Seq<char>, i64>> {
        self.frames@.map_values(|f: Vec<(String, i64)>| frame_map(f@))
    }
}

impl EvalContext {
    /// Well-formedness: there is always a current scope.  Every way of
    /// making or changing a context keeps it.
    pub open spec fn wf(&self) -> bool {
        self@.len() >= 1
    }

    /// A context with a single, empty root frame.
    pub fn new() -> (res: EvalContext)
        ensures
            res@ == seq![Map::<Seq<char>, i64>::empty()],
    {
        let mut frames: Vec<Vec<(String, i64)>> = Vec::new();
        frames.push(Vec::new());
        let res = EvalContext { frames };
        assert(frame_map(Seq::empty()) =~= Map::<Seq<char>, i64>::empty());
        assert(res@ =~= seq![Map::<Seq<char>, i64>::empty()]);
        res
    }

    /// Enter a new, empty scope.
    pub fn push_frame(&mut self)
        ensures
            final(self)@ == old(self)@.push(Map::empty()),
    {
        self.frames.push(Vec::new());
        assert(frame_map(Seq::empty()) =~= Map::<Seq<char>, i64>::empty());
        assert(self@ =~= old(self)@.push(Map::empty()));
    }

    /// Leave the current scope; the root scope is never removed.
    pub fn pop_frame(&mut self)
        ensures
            final(self)@ == pop_spec(old(self)@),
    {
        if self.frames.len() > 1 {
            self.frames.pop();
            assert(self@ =~= old(self)@.drop_last());
        }
    }

    /// Bind `name` to `value` in the current (innermost) frame.
    pub fn bind(&mut self, name: &str, value: i64)
        requires
            old(self).wf(),
        ensures
            final(self)@.len() == old(self)@.len(),
            final(self)@ == bind_spec(old(self)@, name@, value),
    {
        let mut frame = self.frames.pop().unwrap();
        let ghost f0 = frame@;
        let key = name.to_owned();
        let ghost kg: String = key;
        match last_index_of(&frame, name) {
            Some(k) => {
                frame.set(k, (key, value));
                proof {
                    assert(frame@ == f0.update(k as int, (kg, value)));
                    assert forall|x: Seq<char>| frame_get(frame@, x) == (if x == name@ {
                        Some(value)
                    } else {
                        frame_get(f0, x)
                    }) by {
                        lemma_frame_update(f0, k as int, kg, value, x);
                    }
                }
            },
            None => {
                frame.push((key, value));
                proof {
                    assert forall|x: Seq<char>| frame_get(frame@, x) == (if x == name@ {
                        Some(value)
                    } else {
                        frame_get(f0, x)
                    }) by {
                        assert(frame@.drop_last() =~= f0);
                    }
                }
            },
        }
        assert(frame_map(frame@) =~= frame_map(f0).insert(name@, value));
        self.frames.push(frame);
        assert(self@ =~= old(self)@.update(
            old(self)@.len() - 1,
            old(self)@.last().insert(name@, value),
        ));
    }

    /// Look up a simple name in the current frame.
    pub fn lookup_current(&self, name: &str) -> (res: Option<i64>)
        requires
            self.wf(),
        ensures
            res == (if self@.last().contains_key(name@) {
                Some(self@.last()[name@])
            } else {
                None
            }),
    {
        let last = self.frames.len() - 1;
        let r = find_in_frame(&self.frames[last], name);
        proof {
            assert(self@.last() == frame_map(self.frames@[last as int]@));
        }
        r
    }

    /// Resolve a qualified path like `["_parent", "count"]`.
    fn resolve_path(&self, parts: &Vec<String>, src: &str) -> (res: Result<i64, DoeError>)
        requires
            self.wf(),
        ensures
            eval_outcome(res, resolve_spec(self@, names_view(parts@)), src@),
    {
        let ghost pv = names_view(parts@);
        let mut frame_idx = self.frames.len() - 1;
        let mut part_idx: usize = 0;
        while part_idx < parts.len() && str_is(&parts[part_idx], "_parent")
            invariant
                part_idx <= parts@.len(),
                pv == names_view(parts@),
                frame_idx + part_idx == self.frames@.len() - 1,
                lead_parents(pv, part_idx as int) == lead_parents(pv, 0),
                self.frames@.len() >= 1,
            decreases parts@.len() - part_idx,
        {
            if frame_idx == 0 {
                proof {
                    lemma_lead_parents_bound(pv, part_idx as int + 1);
                }
                return Err(eval_error(src, "_parent: already at root scope"));
            }
            frame_idx = frame_idx - 1;
            part_idx = part_idx + 1;
        }
        proof {
            lemma_lead_parents_bound(pv, part_idx as int);
        }
        if part_idx >= parts.len() {
            return Err(eval_error(src, "field path ends at _parent with no field name"));
        }
        let ghost k = part_idx as int;
        let mut name = parts[part_idx].clone();
        let mut j: usize = part_idx + 1;
        proof {
            reveal_strlit(".");
            assert(pv.subrange(k, k + 1) =~= seq![pv[k]]);
        }
        while j < parts.len()
            invariant
                0 <= k < j <= parts@.len(),
                pv == names_view(parts@),
                pv.len() == parts@.len(),
                name@ == join_with(pv.subrange(k, j as int), "."@),
            decreases parts@.len() - j,
        {
            push_str(&mut name, ".");
            push_str(&mut name, parts[j].as_str());
            proof {
                reveal_strlit(".");
                let sub = pv.subrange(k, j + 1);
                assert(sub.drop_last() =~= pv.subrange(k, j as int));
                assert(sub.last() == parts@[j as int]@);
            }
            j = j + 1;
        }
        let found = find_in_frame(&self.frames[frame_idx], name.as_str());
        proof {
            assert(self@[frame_idx as int] == frame_map(self.frames@[frame_idx as int]@));
        }
        match found {
            Some(v) => Ok(v),
            None => {
                let mut msg = String::new();
                push_str(&mut msg, "unknown field '");
                push_joined(&mut msg, parts, ".");
                push_str(&mut msg, "'");
                Err(DoeError::ExprEval { expr: src.to_owned(), message: msg })
            },
        }
    }
}

impl Default for EvalContext {
    fn default() -> (res: Self)
        ensures
            res@ == seq![Map::<Seq<char>, i64>::empty()],
    {
        Self::new()
    }
}

/// The index of the last binding of `name` in a frame, if any.
fn last_index_of(frame: &Vec<(String, i64)>, name: &str) -> (res: Option<usize>)
    ensures
        match res {
            Some(k) => k < frame@.len() && frame@[k as int].0@ == name@ && forall|j: int|
                k < j < frame@.len() ==> frame@[j].0@ != name@,
            None => forall|j: int| 0 <= j < frame@.len() ==> frame@[j].0@ != name@,
        },
{
    let mut i = frame.len();
    while i > 0
        invariant
            i <= frame@.len(),
            forall|j: int| i <= j < frame@.len() ==> frame@[j].0@ != name@,
        decreases i,
    {
        if str_is(&frame[i - 1].0, name) {
            return Some(i - 1);
        }
        i = i - 1;
    }
    None
}

proof fn lemma_frame_get_last(f: Seq<(String, i64)>, name: Seq<char>, k: int)
    requires
        0 <= k < f.len(),
        f[k].0@ == name,
        forall|j: int| k < j < f.len() ==> f[j].0@ != name,
    ensures
        frame_get(f, name) == Some(f[k].1),
    decreases f.len(),
{
    if k < f.len() - 1 {
        lemma_frame_get_last(f.drop_last(), name, k);
    }
}

proof fn lemma_frame_get_none(f: Seq<(String, i64)>, name: Seq<char>)
    requires
        forall|j: int| 0 <= j < f.len() ==> f[j].0@ != name,
    ensures
        frame_get(f, name) is None,
    decreases f.len(),
{
    if f.len() > 0 {
        lemma_frame_get_none(f.drop_last(), name);
    }
}

/// The value bound to `name` in a frame, if any.
fn find_in_frame(frame: &Vec<(String, i64)>, name: &str) -> (res: Option<i64>)
    ensures
        res == (if frame_map(frame@).contains_key(name@) {
            Some(frame_map(frame@)[name@])
        } else {
            None
        }),
{
    match last_index_of(frame, name) {
        Some(k) => {
            proof { lemma_frame_get_last(frame@, name@, k as int); }
            Some(frame[k].1)
        },
        None => {
            proof { lemma_frame_get_none(frame@, name@); }
            None
        },
    }
}

/// The index of the first part at or after `i` that is not `_parent`.
pub open spec fn lead_parents(parts: Seq<Seq<char>>, i: int) -> int
    decreases parts.len() - i,
{
    if 0 <= i < parts.len() && parts[i] == "_parent"@ {
        lead_parents(parts, i + 1)
    } else {
        i
    }
}

proof fn lemma_lead_parents_bound(parts: Seq<Seq<char>>, i: int)
    requires
        0 <= i <= parts.len(),
    ensures
        i <= lead_parents(parts, i) <= parts.len(),
    decreases parts.len() - i,
{
    if i < parts.len() && parts[i] == "_parent"@ {
        lemma_lead_parents_bound(parts, i + 1);
    }
}

/// The parts joined by `sep`.
pub open spec fn join_with(parts: Seq<Seq<char>>, sep: Seq<char>) -> Seq<char>
    decreases parts.len(),
{
    if parts.len() == 0 {
        Seq::empty()
    } else if parts.len() == 1 {
        parts[0]
    } else {
        join_with(parts.drop_last(), sep) + sep + parts.last()
    }
}

/// Appends `parts` joined by `sep` to `s`.
pub fn push_joined(s: &mut String, parts: &Vec<String>, sep: &str)
    ensures
        final(s)@ == old(s)@ + join_with(names_view(parts@), sep@),
{
    let ghost start = s@;
    let mut i: usize = 0;
    while i < parts.len()
        invariant
            i <= parts@.len(),
            s@ == start + join_with(names_view(parts@.subrange(0, i as int)), sep@),
        decreases parts@.len() - i,
    {
        if i > 0 {
            push_str(s, sep);
        }
        push_str(s, parts[i].as_str());
        proof {
            let pre = names_view(parts@.subrange(0, i as int));
            let post = names_view(parts@.subrange(0, i + 1));
            assert(post.drop_last() =~= pre);
            if i == 0 {
                assert(post.len() == 1);
            }
        }
        i = i + 1;
        assert(s@ =~= start + join_with(names_view(parts@.subrange(0, i as int)), sep@));
    }
    assert(parts@.subrange(0, parts@.len() as int) =~= parts@);
}

/// The value of a field path in a stack of frames, or the error message:
/// each leading `_parent` steps one frame out, and the rest of the path
/// names a field there (`a.b` is field `b` of the struct bound as `a`,
/// which is bound under the dotted name).
pub open spec fn resolve_spec(frames: Seq<Map<Seq<char>, i64>>, parts: Seq<Seq<char>>) -> Result<
    i64,
    Seq<char>,
> {
    let k = lead_parents(parts, 0);
    if k >= frames.len() {
        Err("_parent: already at root scope"@)
    } else if k >= parts.len() {
        Err("field path ends at _parent with no field name"@)
    } else {
        let m = frames[frames.len() - 1 - k];
        let name = join_with(parts.subrange(k, parts.len() as int), "."@);
        if m.contains_key(name) {
            Ok(m[name])
        } else {
            Err("unknown field '"@ + join_with(parts, "."@) + "'"@)
        }
    }
}

// ─────────────────────────────────────────────────────────────────────────────
// Evaluator
// ─────────────────────────────────────────────────────────────────────────────

/// A boolean as an integer: `1` for true, `0` for false.
pub open spec fn bool_int(b: bool) -> i64 {
    if b { 1 } else { 0 }
}

/// A binary operator applied to two evaluated operands (the logical
/// operators short-circuit and are handled by [`eval_spec`]).
pub open spec fn binop_value(op: BinaryOp, l: i64, r: i64) -> Result<i64, Seq<char>> {
    match op {
        BinaryOp::Add => Ok(l.wrapping_add(r)),
        BinaryOp::Sub => Ok(l.wrapping_sub(r)),
        BinaryOp::Mul => Ok(l.wrapping_mul(r)),
        BinaryOp::Div => if r == 0 {
            Err("division by zero"@)
        } else {
            match l.checked_div(r) {
                Some(q) => Ok(q),
                None => Err("division overflow"@),
            }
        },
        BinaryOp::Rem => if r == 0 {
            Err("modulo by zero"@)
        } else {
            match l.checked_rem(r) {
                Some(q) => Ok(q),
                None => Err("modulo overflow"@),
            }
        },
        BinaryOp::Shl => Ok(l.wrapping_shl(r as u32)),
        BinaryOp::Shr => Ok(l.wrapping_shr(r as u32)),
        BinaryOp::BitAnd => Ok(l & r),
        BinaryOp::BitOr => Ok(l | r),
        BinaryOp::BitXor => Ok(l ^ r),
        BinaryOp::Eq => Ok(bool_int(l == r)),
        BinaryOp::Ne => Ok(bool_int(l != r)),
        BinaryOp::Lt => Ok(bool_int(l < r)),
        BinaryOp::Gt => Ok(bool_int(l > r)),
        BinaryOp::Le => Ok(bool_int(l <= r)),
        BinaryOp::Ge => Ok(bool_int(l >= r)),
        BinaryOp::And => Ok(bool_int(l != 0 && r != 0)),
        BinaryOp::Or => Ok(bool_int(l != 0 || r != 0)),
    }
}

/// The value of an expression in a stack of frames, or the error message.
///
/// Arithmetic wraps on overflow; `&&` and `||` yield `0` or `1`, evaluating
/// the right operand only when the left one does not decide.
pub open spec fn eval_spec(e: ExprV, frames: Seq<Map<Seq<char>, i64>>) -> Result<i64, Seq<char>>
    decreases e,
{
    match e {
        ExprV::Int(n) => Ok(n),
        ExprV::Bool(b) => Ok(bool_int(b)),
        ExprV::Field(parts) => resolve_spec(frames, parts),
        ExprV::Unary(op, a) => match eval_spec(*a, frames) {
            Err(m) => Err(m),
            Ok(v) => Ok(
                match op {
                    UnaryOp::Neg => 0i64.wrapping_sub(v),
                    UnaryOp::Not => bool_int(v == 0),
                },
            ),
        },
        ExprV::Binary(op, a, b) => match eval_spec(*a, frames) {
            Err(m) => Err(m),
            Ok(l) => if op == BinaryOp::And && l == 0 {
                Ok(0)
            } else if op == BinaryOp::Or && l != 0 {
                Ok(1)
            } else {
                match eval_spec(*b, frames) {
                    Err(m) => Err(m),
                    Ok(r) => binop_value(op, l, r),
                }
            },
        },
    }
}

/// `res` is what evaluating an expression with outcome `out` returns for
/// the expression text `src`: the value, or an evaluation error carrying
/// the text and the message.
pub open spec fn eval_outcome(res: Result<i64, DoeError>, out: Result<i64, Seq<char>>, src: Seq<
    char,
>) -> bool {
    match out {
        Ok(v) => res == Ok::<i64, DoeError>(v),
        Err(m) => res matches Err(DoeError::ExprEval { expr, message }) && expr@ == src
            && message@ == m,
    }
}

fn eval_error(src: &str, msg: &str) -> (e: DoeError)
    ensures
        e matches DoeError::ExprEval { expr, message } && expr@ == src@ && message@ == msg@,
{
    DoeError::ExprEval { expr: src.to_owned(), message: msg.to_owned() }
}

/// Evaluate an already-parsed expression against a context.
pub fn eval(expr: &Expr, ctx: &EvalContext, src: &str) -> (res: Result<i64, DoeError>)
    requires
        ctx.wf(),
    ensures
        eval_outcome(res, eval_spec(expr@, ctx@), src@),
    decreases expr,
{
    match expr {
        Expr::Int(n) => Ok(*n),
        Expr::Bool(b) => Ok(if *b { 1 } else { 0 }),
        Expr::Field(parts) => ctx.resolve_path(parts, src),
        Expr::Unary(op, inner) => {
            let v = eval(inner, ctx, src)?;
            match op {
                UnaryOp::Neg => Ok(0i64.wrapping_sub(v)),
                UnaryOp::Not => Ok(if v == 0 { 1 } else { 0 }),
            }
        },
        Expr::Binary(op, lhs, rhs) => {
            let l = eval(lhs, ctx, src)?;
            match op {
                BinaryOp::And => {
                    if l == 0 {
                        return Ok(0);
                    }
                    let r = eval(rhs, ctx, src)?;
                    return Ok(if r != 0 { 1 } else { 0 });
                },
                BinaryOp::Or => {
                    if l != 0 {
                        return Ok(1);
                    }
                    let r = eval(rhs, ctx, src)?;
                    return Ok(if r != 0 { 1 } else { 0 });
                },
                _ => {},
            }
            let r = eval(rhs, ctx, src)?;
            match op {
                BinaryOp::Add => Ok(l.wrapping_add(r)),
                BinaryOp::Sub => Ok(l.wrapping_sub(r)),
                BinaryOp::Mul => Ok(l.wrapping_mul(r)),
                BinaryOp::Div => {
                    if r == 0 {
                        return Err(eval_error(src, "division by zero"));
                    }
                    match l.checked_div(r) {
                        Some(q) => Ok(q),
                        None => Err(eval_error(src, "division overflow")),
                    }
                },
                BinaryOp::Rem => {
                    if r == 0 {
                        return Err(eval_error(src, "modulo by zero"));
                    }
                    match l.checked_rem(r) {
                        Some(q) => Ok(q),
                        None => Err(eval_error(src, "modulo overflow")),
                    }
                },
                BinaryOp::Shl => Ok(l.wrapping_shl(r as u32)),
                BinaryOp::Shr => Ok(l.wrapping_shr(r as u32)),
                BinaryOp::BitAnd => Ok(l & r),
                BinaryOp::BitOr => Ok(l | r),
                BinaryOp::BitXor => Ok(l ^ r),
                BinaryOp::Eq => Ok(if l == r { 1 } else { 0 }),
                BinaryOp::Ne => Ok(if l != r { 1 } else { 0 }),
                BinaryOp::Lt => Ok(if l < r { 1 } else { 0 }),
                BinaryOp::Gt => Ok(if l > r { 1 } else { 0 }),
                BinaryOp::Le => Ok(if l <= r { 1 } else { 0 }),
                BinaryOp::Ge => Ok(if l >= r { 1 } else { 0 }),
                BinaryOp::And => Ok(0),
                BinaryOp::Or => Ok(1),
            }
        },
    }
}

/// Parse then evaluate in one call.
pub fn eval_str(src: &str, ctx: &EvalContext) -> (res: Result<i64, DoeError>)
    requires
        ctx.wf(),
    ensures
        match spec_parse(src@) {
            None => is_parse_error_in(res->Err_0, src@) && res is Err,
            Some(e) => eval_outcome(res, eval_spec(e, ctx@), src@),
        },
{
    let ast = parse(src)?;
    eval(&ast, ctx, src)
}


// ─────────────────────────────────────────────────────────────────────────────
// Laws
// ─────────────────────────────────────────────────────────────────────────────

/// A field bound in the current scope is read back by its name: after
/// `bind(name, v)` on a context with frames `frames`, the field `name`
/// evaluates to `v`.
pub proof fn law_eval_after_bind(frames: Seq<Map<Seq<char>, i64>>, name: Seq<char>, v: i64)
    requires
        frames.len() >= 1,
        name != "_parent"@,
    ensures
        resolve_spec(frames.update(frames.len() - 1, frames.last().insert(name, v)), seq![name])
            == Ok::<i64, Seq<char>>(v),
{
    let parts = seq![name];
    assert(lead_parents(parts, 1) == 1);
    assert(lead_parents(parts, 0) == 0);
}

/// `_parent.x` inside a sub-type reads `x` from the scope that was current
/// when the sub-type was entered (whatever the sub-type's own scope holds).
pub proof fn law_parent_reference(frames: Seq<Map<Seq<char>, i64>>, inner: Map<Seq<char>, i64>, x: Seq<char>)
    requires
        frames.len() >= 1,
        x != "_parent"@,
        frames.last().contains_key(x),
    ensures
        resolve_spec(frames.push(inner), seq!["_parent"@, x]) == Ok::<i64, Seq<char>>(frames.last()[x]),
{
    let parts = seq!["_parent"@, x];
    assert(lead_parents(parts, 2) == 2);
    assert(lead_parents(parts, 1) == 1);
    assert(lead_parents(parts, 0) == 1);
    assert(frames.push(inner)[frames.len() - 1] == frames.last());
}

/// The frames after binding `name` to `v` in the current frame, as
/// [`EvalContext::bind`] leaves them.
pub open spec fn bind_spec(frames: Seq<Map<Seq<char>, i64>>, name: Seq<char>, v: i64) -> Seq<Map<Seq<char>, i64>> {
    frames.update(frames.len() - 1, frames.last().insert(name, v))
}

/// The frames after the bindings `bs`, in order.
pub open spec fn binds_spec(frames: Seq<Map<Seq<char>, i64>>, bs: Seq<(Seq<char>, i64)>) -> Seq<Map<Seq<char>, i64>>
    decreases bs.len(),
{
    if bs.len() == 0 {
        frames
    } else {
        bind_spec(binds_spec(frames, bs.drop_last()), bs.last().0, bs.last().1)
    }
}

/// The frames after [`EvalContext::pop_frame`].
pub open spec fn pop_spec(frames: Seq<Map<Seq<char>, i64>>) -> Seq<Map<Seq<char>, i64>> {
    if frames.len() > 1 { frames.drop_last() } else { frames }
}

/// Does `e` read the field `name` of the current frame (a path with no
/// leading `_parent` that spells `name`)?
pub open spec fn reads_current(e: ExprV, name: Seq<char>) -> bool
    decreases e,
{
    match e {
        ExprV::Field(parts) => parts.len() > 0 && lead_parents(parts, 0) == 0 && join_with(parts, "."@) == name,
        ExprV::Unary(_, a) => reads_current(*a, name),
        ExprV::Binary(_, a, b) => reads_current(*a, name) || reads_current(*b, name),
        _ => false,
    }
}

proof fn lemma_binds_keep_outer(frames: Seq<Map<Seq<char>, i64>>, bs: Seq<(Seq<char>, i64)>)
    requires
        frames.len() >= 1,
    ensures
        binds_spec(frames, bs).len() == frames.len(),
        binds_spec(frames, bs).drop_last() == frames.drop_last(),
    decreases bs.len(),
{
    if bs.len() > 0 {
        lemma_binds_keep_outer(frames, bs.drop_last());
        let f = binds_spec(frames, bs.drop_last());
        assert(bind_spec(f, bs.last().0, bs.last().1).drop_last() =~= f.drop_last());
    }
}

/// Entering a scope, binding any names in it, and leaving it again leaves
/// the frames, and so the value of every expression, as they were before.
pub proof fn law_scope_bindings_forgotten(frames: Seq<Map<Seq<char>, i64>>, bs: Seq<(Seq<char>, i64)>, e: ExprV)
    requires
        frames.len() >= 1,
    ensures
        pop_spec(binds_spec(frames.push(Map::empty()), bs)) == frames,
        eval_spec(e, pop_spec(binds_spec(frames.push(Map::empty()), bs))) == eval_spec(e, frames),
{
    let pushed = frames.push(Map::empty());
    lemma_binds_keep_outer(pushed, bs);
    assert(pushed.drop_last() =~= frames);
}

/// Binding a name changes no expression that does not read it from the
/// current frame: every other expression evaluates as before.
pub proof fn law_bind_keeps_other_values(frames: Seq<Map<Seq<char>, i64>>, name: Seq<char>, v: i64, e: ExprV)
    requires
        frames.len() >= 1,
        !reads_current(e, name),
    ensures
        eval_spec(e, bind_spec(frames, name, v)) == eval_spec(e, frames),
    decreases e,
{
    let g = bind_spec(frames, name, v);
    match e {
        ExprV::Field(parts) => {
            let k = lead_parents(parts, 0);
            if k < frames.len() && k < parts.len() {
                lemma_lead_parents_bound(parts, 0);
                if k == 0 {
                    assert(parts.subrange(0, parts.len() as int) =~= parts);
                } else {
                    assert(g[frames.len() - 1 - k] == frames[frames.len() - 1 - k]);
                }
            }
        },
        ExprV::Unary(_, a) => {
            law_bind_keeps_other_values(frames, name, v, *a);
        },
        ExprV::Binary(_, a, b) => {
            law_bind_keeps_other_values(frames, name, v, *a);
            law_bind_keeps_other_values(frames, name, v, *b);
        },
        _ => {},
    }
}

/// Entering a scope hides the outer scope's names behind `_parent`: a name
/// `n` worth `v` in the current scope is, after `push_frame`, unknown as
/// `n` and worth `v` as `_parent.n`; binding `n` to `w` in the new scope
/// then makes `n` worth `w` while `_parent.n` is still worth `v`.
pub proof fn law_push_shadows(frames: Seq<Map<Seq<char>, i64>>, n: Seq<char>, v: i64, w: i64)
    requires
        frames.len() >= 1,
        n != "_parent"@,
        eval_spec(ExprV::Field(seq![n]), frames) == Ok::<i64, Seq<char>>(v),
    ensures
        ({
            let pushed = frames.push(Map::empty());
            let bound = bind_spec(pushed, n, w);
            &&& eval_spec(ExprV::Field(seq!["_parent"@, n]), pushed) == Ok::<i64, Seq<char>>(v)
            &&& eval_spec(ExprV::Field(seq![n]), pushed) is Err
            &&& eval_spec(ExprV::Field(seq![n]), bound) == Ok::<i64, Seq<char>>(w)
            &&& eval_spec(ExprV::Field(seq!["_parent"@, n]), bound) == Ok::<i64, Seq<char>>(v)
        }),
{
    let one = seq![n];
    let two = seq!["_parent"@, n];
    assert(lead_parents(one, 1) == 1);
    assert(lead_parents(one, 0) == 0);
    assert(lead_parents(two, 2) == 2);
    assert(lead_parents(two, 1) == 1);
    assert(lead_parents(two, 0) == 1);
    assert(one.subrange(0, 1) =~= one);
    assert(two.subrange(1, 2) =~= one);
    assert(join_with(one, "."@) == n);
    let pushed = frames.push(Map::empty());
    assert(pushed[frames.len() - 1] == frames.last());
    let bound = bind_spec(pushed, n, w);
    assert(bound[frames.len() - 1] == frames.last());
}

proof fn lemma_binop_eof(level: nat)
    ensures
        binop_at(level, Tok::Eof) is None,
{
}

proof fn lemma_grammar_lift(toks: Seq<Tok>, e: ExprV, j: int, level: nat)
    requires
        toks.len() >= 1,
        toks[0] is Ident,
        grammar(toks, 0, 0) == Ok::<(ExprV, int), Seq<char>>((e, j)),
        0 < j < toks.len(),
        toks[j] is Eof,
        level <= 10,
    ensures
        grammar(toks, 0, level) == Ok::<(ExprV, int), Seq<char>>((e, j)),
    decreases level,
{
    lemma_binop_eof(level);
    if level >= 2 {
        lemma_grammar_lift(toks, e, j, (level - 1) as nat);
        if level != 8 {
            assert(grammar_tail(toks, j, level, e) == Ok::<(ExprV, int), Seq<char>>((e, j)));
        }
    }
}

/// The text of an identifier parses as a reference to the field it names.
pub proof fn lemma_identifier_parses(n: Seq<char>)
    requires
        crate::schema::lexer::is_identifier(n),
    ensures
        spec_parse(n) == Some(ExprV::Field(seq![n])),
{
    crate::schema::lexer::lemma_identifier_tokens(n);
    let toks = tokens_of(n);
    assert(grammar_field(toks, 1, seq![n]) == Ok::<(ExprV, int), Seq<char>>((ExprV::Field(seq![n]), 1)));
    lemma_grammar_lift(toks, ExprV::Field(seq![n]), 1, 10);
}

/// The text `a.b` of two identifiers parses as the field path `a`, `b`.
pub proof fn lemma_dotted_parses(a: Seq<char>, b: Seq<char>)
    requires
        crate::schema::lexer::is_identifier(a),
        crate::schema::lexer::is_identifier(b),
    ensures
        spec_parse(a + "."@ + b) == Some(ExprV::Field(seq![a, b])),
{
    crate::schema::lexer::lemma_dotted_tokens(a, b);
    let toks = tokens_of(a + "."@ + b);
    assert(seq![a].push(b) =~= seq![a, b]);
    assert(grammar_field(toks, 3, seq![a, b]) == Ok::<(ExprV, int), Seq<char>>((ExprV::Field(seq![a, b]), 3)));
    assert(grammar_field(toks, 1, seq![a]) == Ok::<(ExprV, int), Seq<char>>((ExprV::Field(seq![a, b]), 3)));
    lemma_grammar_lift(toks, ExprV::Field(seq![a, b]), 3, 10);
}

/// The laws of scopes, read through expression text: for an identifier `n`
/// (other than `_parent`) whose text evaluates to `v`, after `push_frame`
/// the text `n` is an error and `_parent.n` evaluates to `v`; after then
/// binding `n` to `w`, `n` evaluates to `w` and `_parent.n` still to `v`.
/// Binding `n` anywhere makes the text `n` evaluate to the bound value.
pub proof fn law_scope_texts(frames: Seq<Map<Seq<char>, i64>>, n: Seq<char>, v: i64, w: i64)
    requires
        frames.len() >= 1,
        crate::schema::lexer::is_identifier(n),
        n != "_parent"@,
        eval_spec(spec_parse(n)->Some_0, frames) == Ok::<i64, Seq<char>>(v),
    ensures
        ({
            let pushed = frames.push(Map::empty());
            let bound = bind_spec(pushed, n, w);
            let parent_n = "_parent"@ + "."@ + n;
            &&& spec_parse(n) is Some && spec_parse(parent_n) is Some
            &&& eval_spec(spec_parse(parent_n)->Some_0, pushed) == Ok::<i64, Seq<char>>(v)
            &&& eval_spec(spec_parse(n)->Some_0, pushed) is Err
            &&& eval_spec(spec_parse(n)->Some_0, bound) == Ok::<i64, Seq<char>>(w)
            &&& eval_spec(spec_parse(parent_n)->Some_0, bound) == Ok::<i64, Seq<char>>(v)
            &&& eval_spec(spec_parse(n)->Some_0, bind_spec(frames, n, w)) == Ok::<i64, Seq<char>>(w)
        }),
{
    reveal_strlit("_parent");
    let p = "_parent"@;
    assert(crate::schema::lexer::is_identifier(p)) by {
        assert(p.len() == 7);
        assert forall|i: int| 0 <= i < p.len() implies crate::schema::lexer::is_ident_char(#[trigger] p[i]) by {
        }
        reveal_strlit("true");
        reveal_strlit("false");
        assert(p != "true"@);
        assert(p != "false"@);
    }
    lemma_identifier_parses(n);
    lemma_dotted_parses(p, n);
    law_push_shadows(frames, n, v, w);
    let one = seq![n];
    assert(lead_parents(one, 1) == 1);
    assert(lead_parents(one, 0) == 0);
    assert(one.subrange(0, 1) =~= one);
}

/// Identifier text, with its characters given as ranges: a letter or `_`
/// followed by letters, digits and `_`, other than `true` and `false`.
pub open spec fn identifier_text(t: Seq<char>) -> bool {
    &&& t.len() > 0
    &&& ('a' <= t[0] <= 'z' || 'A' <= t[0] <= 'Z' || t[0] == '_')
    &&& forall|i: int|
        0 <= i < t.len() ==> ('a' <= #[trigger] t[i] <= 'z' || 'A' <= t[i] <= 'Z' || '0' <= t[i] <= '9' || t[i]
            == '_')
    &&& t != "true"@
    &&& t != "false"@
}

/// Any identifier text, digits included, is read as one identifier token
/// carrying the whole text, and parses as a reference to that field.
pub proof fn law_identifier_text(t: Seq<char>)
    requires
        identifier_text(t),
    ensures
        tokens_of(t) == seq![Tok::Ident(t), Tok::Eof],
        spec_parse(t) == Some(ExprV::Field(seq![t])),
{
    assert(crate::schema::lexer::is_identifier(t));
    crate::schema::lexer::lemma_identifier_tokens(t);
    lemma_identifier_parses(t);
}

/// The comparison operators agree with the order of the integers, and
/// yield `1` for true and `0` for false: whatever two operands evaluate
/// to `l` and `r`, `a <= b` is `1` exactly when `l <= r`, and so on.
pub proof fn law_comparisons(a: ExprV, b: ExprV, frames: Seq<Map<Seq<char>, i64>>, l: i64, r: i64)
    requires
        eval_spec(a, frames) == Ok::<i64, Seq<char>>(l),
        eval_spec(b, frames) == Ok::<i64, Seq<char>>(r),
    ensures
        ({
            let cmp = |op: BinaryOp| eval_spec(ExprV::Binary(op, Box::new(a), Box::new(b)), frames);
            &&& cmp(BinaryOp::Le) == Ok::<i64, Seq<char>>(if l <= r { 1 } else { 0 })
            &&& cmp(BinaryOp::Lt) == Ok::<i64, Seq<char>>(if l < r { 1 } else { 0 })
            &&& cmp(BinaryOp::Ge) == Ok::<i64, Seq<char>>(if l >= r { 1 } else { 0 })
            &&& cmp(BinaryOp::Gt) == Ok::<i64, Seq<char>>(if l > r { 1 } else { 0 })
            &&& cmp(BinaryOp::Eq) == Ok::<i64, Seq<char>>(if l == r { 1 } else { 0 })
            &&& cmp(BinaryOp::Ne) == Ok::<i64, Seq<char>>(if l != r { 1 } else { 0 })
            &&& cmp(BinaryOp::And) == Ok::<i64, Seq<char>>(if l != 0 && r != 0 { 1 } else { 0 })
            &&& cmp(BinaryOp::Or) == Ok::<i64, Seq<char>>(if l != 0 || r != 0 { 1 } else { 0 })
        }),
{
}

/// Arithmetic on two operands that evaluate to `l` and `r` gives the
/// mathematical result whenever it fits in an `i64`; division and
/// remainder of a non-negative `l` by a positive `r` are the quotient and
/// remainder of integer division, and dividing by zero is an error.
pub proof fn law_arithmetic(a: ExprV, b: ExprV, frames: Seq<Map<Seq<char>, i64>>, l: i64, r: i64)
    requires
        eval_spec(a, frames) == Ok::<i64, Seq<char>>(l),
        eval_spec(b, frames) == Ok::<i64, Seq<char>>(r),
    ensures
        ({
            let op = |o: BinaryOp| eval_spec(ExprV::Binary(o, Box::new(a), Box::new(b)), frames);
            &&& i64::MIN <= l + r <= i64::MAX ==> op(BinaryOp::Add) == Ok::<i64, Seq<char>>((l + r) as i64)
            &&& i64::MIN <= l - r <= i64::MAX ==> op(BinaryOp::Sub) == Ok::<i64, Seq<char>>((l - r) as i64)
            &&& i64::MIN <= l * r <= i64::MAX ==> op(BinaryOp::Mul) == Ok::<i64, Seq<char>>((l * r) as i64)
            &&& l >= 0 && r > 0 ==> (op(BinaryOp::Div) matches Ok(q) && q * r <= l < q * r + r)
            &&& l >= 0 && r > 0 ==> (op(BinaryOp::Rem) matches Ok(m) && 0 <= m < r && (l - m) % (r as int) == 0)
            &&& r == 0 ==> op(BinaryOp::Div) is Err && op(BinaryOp::Rem) is Err
        }),
{
    if i64::MIN <= l + r <= i64::MAX {
        assert(l.wrapping_add(r) == (l + r) as i64);
    }
    if i64::MIN <= l - r <= i64::MAX {
        assert(l.wrapping_sub(r) == (l - r) as i64);
    }
    if i64::MIN <= l * r <= i64::MAX {
        assert(l.wrapping_mul(r) == (l * r) as i64);
    }
    if l >= 0 && r > 0 {
        let q = l.checked_div(r);
        assert(q == Some((l / r) as i64));
        assert((l / r) * r <= l < (l / r) * r + r) by (nonlinear_arith)
            requires
                l >= 0,
                r > 0,
        ;
        assert(0 <= (l as int) % (r as int) < r);
        if l == 0 {
            assert((l as int) % (r as int) == 0) by (nonlinear_arith)
                requires
                    l == 0,
                    r > 0,
            ;
        }
        assert(l.checked_rem(r) == Some(((l as int) % (r as int)) as i64));
        assert((l - l % r) % (r as int) == 0) by (nonlinear_arith)
            requires
                l >= 0,
                r > 0,
        ;
    }
}

/// Entering a scope and leaving it again restores the evaluator's frames.
pub proof fn law_frame_round_trip(frames: Seq<Map<Seq<char>, i64>>)
    requires
        frames.len() >= 1,
    ensures
        ({
            let pushed = frames.push(Map::empty());
            (if pushed.len() > 1 { pushed.drop_last() } else { pushed }) == frames
        }),
{
    assert(frames.push(Map::empty()).drop_last() =~= frames);
}

} // verus!
