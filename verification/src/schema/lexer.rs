//! Lexer for the schema expression language.
//!
//! The lexer works on the characters of the expression text.  Whitespace
//! separates tokens; integer literals are decimal or `0x`-prefixed hex;
//! `true` and `false` read as the integers `1` and `0`.  A character that
//! starts no token (including a lone `=`) becomes an invalid token, which no
//! rule of the grammar accepts, so that the parser reports it as an error.

use vstd::prelude::*;
use crate::strutil::{chars_of, push_char};

verus! {

/// A lexical token.
#[derive(Debug)]
pub enum Token {
    Int(i64),
    Ident(String),
    Plus,
    Minus,
    Star,
    Slash,
    Percent,
    Shl,
    Shr,
    Amp,
    Pipe,
    Caret,
    AmpAmp,
    PipePipe,
    Bang,
    EqEq,
    BangEq,
    Lt,
    Gt,
    Le,
    Ge,
    Dot,
    LParen,
    RParen,
    /// A character that starts no token (a lone `=`, or one outside the
    /// expression alphabet), as text.
    Invalid(String),
    Eof,
}

/// The mathematical form of a token: identifiers as character sequences.
pub enum Tok {
    Int(i64),
    Ident(Seq<char>),
    Plus,
    Minus,
    Star,
    Slash,
    Percent,
    Shl,
    Shr,
    Amp,
    Pipe,
    Caret,
    AmpAmp,
    PipePipe,
    Bang,
    EqEq,
    BangEq,
    Lt,
    Gt,
    Le,
    Ge,
    Dot,
    LParen,
    RParen,
    Invalid(Seq<char>),
    Eof,
}

impl View for Token {
    type V = Tok;

    open spec fn view(&self) -> Tok {
        match self {
            Token::Int(n) => Tok::Int(*n),
            Token::Ident(s) => Tok::Ident(s@),
            Token::Plus => Tok::Plus,
            Token::Minus => Tok::Minus,
            Token::Star => Tok::Star,
            Token::Slash => Tok::Slash,
            Token::Percent => Tok::Percent,
            Token::Shl => Tok::Shl,
            Token::Shr => Tok::Shr,
            Token::Amp => Tok::Amp,
            Token::Pipe => Tok::Pipe,
            Token::Caret => Tok::Caret,
            Token::AmpAmp => Tok::AmpAmp,
            Token::PipePipe => Tok::PipePipe,
            Token::Bang => Tok::Bang,
            Token::EqEq => Tok::EqEq,
            Token::BangEq => Tok::BangEq,
            Token::Lt => Tok::Lt,
            Token::Gt => Tok::Gt,
            Token::Le => Tok::Le,
            Token::Ge => Tok::Ge,
            Token::Dot => Tok::Dot,
            Token::LParen => Tok::LParen,
            Token::RParen => Tok::RParen,
            Token::Invalid(s) => Tok::Invalid(s@),
            Token::Eof => Tok::Eof,
        }
    }
}

/// The views of a sequence of tokens.
pub open spec fn toks_view(v: Seq<Token>) -> Seq<Tok> {
    v.map_values(|t: Token| t@)
}

// ── Character classes ───────────────────────────────────────────────────────

pub open spec fn is_ws(c: char) -> bool {
    c == ' ' || c == '\t' || c == '\n' || c == '\r'
}

pub open spec fn is_digit(c: char) -> bool {
    '0' <= c <= '9'
}

pub open spec fn is_hex_digit(c: char) -> bool {
    is_digit(c) || ('a' <= c <= 'f') || ('A' <= c <= 'F')
}

pub open spec fn is_ident_start(c: char) -> bool {
    ('a' <= c <= 'z') || ('A' <= c <= 'Z') || c == '_'
}

pub open spec fn is_ident_char(c: char) -> bool {
    is_ident_start(c) || is_digit(c)
}

/// The value of a hexadecimal (or decimal) digit.
pub open spec fn digit_value(c: char) -> nat {
    if is_digit(c) {
        (c as int - '0' as int) as nat
    } else if 'a' <= c <= 'f' {
        (c as int - 'a' as int + 10) as nat
    } else {
        (c as int - 'A' as int + 10) as nat
    }
}

/// The value of the digit string `s` in base `radix`.
pub open spec fn digits_value(s: Seq<char>, radix: nat) -> nat
    decreases s.len(),
{
    if s.len() == 0 {
        0
    } else {
        digits_value(s.drop_last(), radix) * radix + digit_value(s.last())
    }
}

/// An integer literal's value: the digits' value when it fits in an
/// `i64`, and `0` when it does not (or when there are no digits).
pub open spec fn literal_value(s: Seq<char>, radix: nat) -> i64 {
    if digits_value(s, radix) <= i64::MAX {
        digits_value(s, radix) as i64
    } else {
        0
    }
}

// ── Scanning ────────────────────────────────────────────────────────────────

/// The first position at or after `p` that is not whitespace.
pub open spec fn skip_ws(cs: Seq<char>, p: int) -> int
    decreases cs.len() - p,
{
    if 0 <= p < cs.len() && is_ws(cs[p]) {
        skip_ws(cs, p + 1)
    } else {
        p
    }
}

/// The first position at or after `p` whose character is not a decimal
/// digit (or the end).
pub open spec fn scan_digits(cs: Seq<char>, p: int) -> int
    decreases cs.len() - p,
{
    if 0 <= p < cs.len() && is_digit(cs[p]) {
        scan_digits(cs, p + 1)
    } else {
        p
    }
}

/// The first position at or after `p` whose character is not a hex digit.
pub open spec fn scan_hex(cs: Seq<char>, p: int) -> int
    decreases cs.len() - p,
{
    if 0 <= p < cs.len() && is_hex_digit(cs[p]) {
        scan_hex(cs, p + 1)
    } else {
        p
    }
}

/// The first position at or after `p` that cannot continue an identifier.
pub open spec fn scan_ident(cs: Seq<char>, p: int) -> int
    decreases cs.len() - p,
{
    if 0 <= p < cs.len() && is_ident_char(cs[p]) {
        scan_ident(cs, p + 1)
    } else {
        p
    }
}

/// The character at `p`, if there is one.
pub open spec fn char_at(cs: Seq<char>, p: int) -> Option<char> {
    if 0 <= p < cs.len() { Some(cs[p]) } else { None }
}

/// The integer literal starting at `p` and the position after it.
pub open spec fn lex_int(cs: Seq<char>, p: int) -> (i64, int) {
    if char_at(cs, p) == Some('0') && (char_at(cs, p + 1) == Some('x') || char_at(cs, p + 1)
        == Some('X')) {
        let e = scan_hex(cs, p + 2);
        (literal_value(cs.subrange(p + 2, e), 16), e)
    } else {
        let e = scan_digits(cs, p);
        (literal_value(cs.subrange(p, e), 10), e)
    }
}

/// The token starting exactly at `p` (no whitespace skipping) and the
/// position after it.
pub open spec fn lex_at(cs: Seq<char>, p: int) -> (Tok, int) {
    match char_at(cs, p) {
        None => (Tok::Eof, p),
        Some(c) => if is_digit(c) {
            let (n, e) = lex_int(cs, p);
            (Tok::Int(n), e)
        } else if is_ident_start(c) {
            let e = scan_ident(cs, p);
            let id = cs.subrange(p, e);
            if id == "true"@ {
                (Tok::Int(1), e)
            } else if id == "false"@ {
                (Tok::Int(0), e)
            } else {
                (Tok::Ident(id), e)
            }
        } else if c == '+' {
            (Tok::Plus, p + 1)
        } else if c == '-' {
            (Tok::Minus, p + 1)
        } else if c == '*' {
            (Tok::Star, p + 1)
        } else if c == '/' {
            (Tok::Slash, p + 1)
        } else if c == '%' {
            (Tok::Percent, p + 1)
        } else if c == '^' {
            (Tok::Caret, p + 1)
        } else if c == '.' {
            (Tok::Dot, p + 1)
        } else if c == '(' {
            (Tok::LParen, p + 1)
        } else if c == ')' {
            (Tok::RParen, p + 1)
        } else if c == '<' {
            if char_at(cs, p + 1) == Some('<') {
                (Tok::Shl, p + 2)
            } else if char_at(cs, p + 1) == Some('=') {
                (Tok::Le, p + 2)
            } else {
                (Tok::Lt, p + 1)
            }
        } else if c == '>' {
            if char_at(cs, p + 1) == Some('>') {
                (Tok::Shr, p + 2)
            } else if char_at(cs, p + 1) == Some('=') {
                (Tok::Ge, p + 2)
            } else {
                (Tok::Gt, p + 1)
            }
        } else if c == '=' {
            if char_at(cs, p + 1) == Some('=') {
                (Tok::EqEq, p + 2)
            } else {
                (Tok::Invalid(seq!['=']), p + 1)
            }
        } else if c == '!' {
            if char_at(cs, p + 1) == Some('=') {
                (Tok::BangEq, p + 2)
            } else {
                (Tok::Bang, p + 1)
            }
        } else if c == '&' {
            if char_at(cs, p + 1) == Some('&') {
                (Tok::AmpAmp, p + 2)
            } else {
                (Tok::Amp, p + 1)
            }
        } else if c == '|' {
            if char_at(cs, p + 1) == Some('|') {
                (Tok::PipePipe, p + 2)
            } else {
                (Tok::Pipe, p + 1)
            }
        } else {
            (Tok::Invalid(seq![c]), p + 1)
        },
    }
}

/// The next token at or after `p` (skipping whitespace) and the position
/// after it.
pub open spec fn next_tok(cs: Seq<char>, p: int) -> (Tok, int) {
    lex_at(cs, skip_ws(cs, p))
}

/// The token stream from `p` on: every token up to and including the first
/// end-of-input token.
pub open spec fn tokenize_from(cs: Seq<char>, p: int) -> Seq<Tok>
    decreases cs.len() - p,
{
    let (t, q) = next_tok(cs, p);
    if t is Eof || q <= p || q > cs.len() || p < 0 {
        seq![Tok::Eof]
    } else {
        seq![t] + tokenize_from(cs, q)
    }
}

/// The token stream of an expression text.
pub open spec fn tokens_of(cs: Seq<char>) -> Seq<Tok> {
    tokenize_from(cs, 0)
}

// ── Lexer ───────────────────────────────────────────────────────────────────

struct Lexer {
    src: Vec<char>,
    pos: usize,
}

proof fn lemma_skip_ws_bounds(cs: Seq<char>, p: int)
    requires
        0 <= p <= cs.len(),
    ensures
        p <= skip_ws(cs, p) <= cs.len(),
    decreases cs.len() - p,
{
    if p < cs.len() && is_ws(cs[p]) {
        lemma_skip_ws_bounds(cs, p + 1);
    }
}

proof fn lemma_scan_bounds(cs: Seq<char>, p: int)
    requires
        0 <= p <= cs.len(),
    ensures
        p <= scan_digits(cs, p) <= cs.len(),
        p <= scan_hex(cs, p) <= cs.len(),
        p <= scan_ident(cs, p) <= cs.len(),
    decreases cs.len() - p,
{
    if p < cs.len() {
        lemma_scan_bounds(cs, p + 1);
    }
}

proof fn lemma_lex_at_progress(cs: Seq<char>, p: int)
    requires
        0 <= p <= cs.len(),
    ensures
        p <= lex_at(cs, p).1 <= cs.len(),
        !(lex_at(cs, p).0 is Eof) ==> p < lex_at(cs, p).1,
{
    lemma_scan_bounds(cs, p);
    if p + 1 <= cs.len() {
        lemma_scan_bounds(cs, p + 1);
    }
    if p + 2 <= cs.len() {
        lemma_scan_bounds(cs, p + 2);
    }
}

impl Lexer {
    spec fn wf(&self) -> bool {
        self.pos <= self.src@.len() && self.src@.len() == self.src.len()
    }

    fn new(s: &str) -> (res: Lexer)
        ensures
            res.src@ == s@,
            res.pos == 0,
            res.wf(),
    {
        let src = chars_of(s);
        let _n = src.len();
        Lexer { src, pos: 0 }
    }

    fn peek(&self) -> (res: Option<char>)
        requires
            self.wf(),
        ensures
            res == char_at(self.src@, self.pos as int),
    {
        if self.pos < self.src.len() {
            Some(self.src[self.pos])
        } else {
            None
        }
    }

    fn peek2(&self) -> (res: Option<char>)
        requires
            self.wf(),
        ensures
            res == char_at(self.src@, self.pos + 1),
    {
        if self.pos < self.src.len() && self.pos + 1 < self.src.len() {
            Some(self.src[self.pos + 1])
        } else {
            None
        }
    }

    fn advance(&mut self) -> (res: Option<char>)
        requires
            old(self).wf(),
        ensures
            final(self).wf(),
            final(self).src == old(self).src,
            res == char_at(old(self).src@, old(self).pos as int),
            final(self).pos == (if res is Some { old(self).pos + 1 } else { old(self).pos as int }),
    {
        let b = self.peek();
        if b.is_some() {
            self.pos = self.pos + 1;
        }
        b
    }

    fn skip_ws(&mut self)
        requires
            old(self).wf(),
        ensures
            final(self).wf(),
            final(self).src == old(self).src,
            final(self).pos == skip_ws(old(self).src@, old(self).pos as int),
    {
        while self.pos < self.src.len() && (self.src[self.pos] == ' ' || self.src[self.pos] == '\t'
            || self.src[self.pos] == '\n' || self.src[self.pos] == '\r')
            invariant
                self.wf(),
                self.src == old(self).src,
                skip_ws(self.src@, self.pos as int) == skip_ws(old(self).src@, old(self).pos as int),
            decreases self.src@.len() - self.pos,
        {
            self.pos = self.pos + 1;
        }
    }

    /// Read an integer literal at the current position (a decimal digit).
    fn read_int(&mut self) -> (res: i64)
        requires
            old(self).wf(),
        ensures
            final(self).wf(),
            final(self).src == old(self).src,
            (res, final(self).pos as int) == lex_int(old(self).src@, old(self).pos as int),
    {
        let ghost cs = self.src@;
        let ghost p0 = self.pos as int;
        let hex = self.peek() == Some('0') && (self.peek2() == Some('x') || self.peek2() == Some(
            'X',
        ));
        let radix: u64 = if hex { 16 } else { 10 };
        if hex {
            self.advance();
            self.advance();
        }
        let start = self.pos;
        let mut acc: u64 = 0;
        let mut overflow = false;
        proof {
            assert(cs.subrange(start as int, start as int) =~= Seq::<char>::empty());
        }
        while self.pos < self.src.len() && literal_char(hex, self.src[self.pos])
            invariant
                self.wf(),
                self.src@ == cs,
                self.src == old(self).src,
                start <= self.pos,
                radix == (if hex { 16u64 } else { 10u64 }),
                hex ==> scan_hex(cs, self.pos as int) == scan_hex(cs, start as int),
                !hex ==> scan_digits(cs, self.pos as int) == scan_digits(cs, start as int),
                overflow <==> digits_value(cs.subrange(start as int, self.pos as int), radix as nat)
                    > i64::MAX,
                !overflow ==> acc == digits_value(
                    cs.subrange(start as int, self.pos as int),
                    radix as nat,
                ),
            decreases self.src@.len() - self.pos,
        {
            let c = self.src[self.pos];
            let d = digit_val(c);
            let ghost prev = cs.subrange(start as int, self.pos as int);
            let ghost next = cs.subrange(start as int, self.pos + 1);
            proof {
                assert(next.drop_last() =~= prev);
                assert(next.last() == c);
            }
            if !overflow {
                if acc > (0x7fff_ffff_ffff_ffff - d) / radix {
                    overflow = true;
                } else {
                    acc = acc * radix + d;
                }
            } else {
                proof {
                    assert(digits_value(next, radix as nat) >= digits_value(prev, radix as nat))
                        by (nonlinear_arith)
                        requires
                            digits_value(next, radix as nat) == digits_value(prev, radix as nat)
                                * radix as nat + digit_value(c),
                            radix >= 10,
                    ;
                }
            }
            self.pos = self.pos + 1;
        }
        proof {
            if hex {
                assert(self.pos == scan_hex(cs, self.pos as int));
            } else {
                assert(self.pos == scan_digits(cs, self.pos as int));
            }
        }
        if overflow {
            0
        } else {
            acc as i64
        }
    }

    fn read_ident(&mut self) -> (res: String)
        requires
            old(self).wf(),
        ensures
            final(self).wf(),
            final(self).src == old(self).src,
            final(self).pos == scan_ident(old(self).src@, old(self).pos as int),
            res@ == old(self).src@.subrange(old(self).pos as int, final(self).pos as int),
    {
        let ghost cs = self.src@;
        let start = self.pos;
        let mut s = String::new();
        while self.pos < self.src.len() && is_ident_char_exec(self.src[self.pos])
            invariant
                self.wf(),
                self.src@ == cs,
                self.src == old(self).src,
                start <= self.pos,
                scan_ident(cs, self.pos as int) == scan_ident(cs, start as int),
                s@ == cs.subrange(start as int, self.pos as int),
            decreases self.src@.len() - self.pos,
        {
            push_char(&mut s, self.src[self.pos]);
            self.pos = self.pos + 1;
            assert(s@ =~= cs.subrange(start as int, self.pos as int));
        }
        s
    }

    fn next_token(&mut self) -> (res: Token)
        requires
            old(self).wf(),
        ensures
            final(self).wf(),
            final(self).src == old(self).src,
            (res@, final(self).pos as int) == next_tok(old(self).src@, old(self).pos as int),
    {
        let ghost cs = self.src@;
        self.skip_ws();
        let ghost p = self.pos as int;
        proof {
            lemma_skip_ws_bounds(cs, old(self).pos as int);
        }
        match self.peek() {
            None => Token::Eof,
            Some(c) => {
                if is_digit_char(c) {
                    Token::Int(self.read_int())
                } else if is_ident_start_char(c) {
                    let id = self.read_ident();
                    if str_is(&id, "true") {
                        Token::Int(1)
                    } else if str_is(&id, "false") {
                        Token::Int(0)
                    } else {
                        Token::Ident(id)
                    }
                } else {
                    self.advance();
                    if c == '+' {
                        Token::Plus
                    } else if c == '-' {
                        Token::Minus
                    } else if c == '*' {
                        Token::Star
                    } else if c == '/' {
                        Token::Slash
                    } else if c == '%' {
                        Token::Percent
                    } else if c == '^' {
                        Token::Caret
                    } else if c == '.' {
                        Token::Dot
                    } else if c == '(' {
                        Token::LParen
                    } else if c == ')' {
                        Token::RParen
                    } else if c == '<' {
                        match self.peek() {
                            Some('<') => {
                                self.advance();
                                Token::Shl
                            },
                            Some('=') => {
                                self.advance();
                                Token::Le
                            },
                            _ => Token::Lt,
                        }
                    } else if c == '>' {
                        match self.peek() {
                            Some('>') => {
                                self.advance();
                                Token::Shr
                            },
                            Some('=') => {
                                self.advance();
                                Token::Ge
                            },
                            _ => Token::Gt,
                        }
                    } else if c == '=' {
                        if self.peek() == Some('=') {
                            self.advance();
                            Token::EqEq
                        } else {
                            Token::Invalid(char_text(c))
                        }
                    } else if c == '!' {
                        if self.peek() == Some('=') {
                            self.advance();
                            Token::BangEq
                        } else {
                            Token::Bang
                        }
                    } else if c == '&' {
                        if self.peek() == Some('&') {
                            self.advance();
                            Token::AmpAmp
                        } else {
                            Token::Amp
                        }
                    } else if c == '|' {
                        if self.peek() == Some('|') {
                            self.advance();
                            Token::PipePipe
                        } else {
                            Token::Pipe
                        }
                    } else {
                        Token::Invalid(char_text(c))
                    }
                }
            },
        }
    }
}

/// The one-character text `c`.
fn char_text(c: char) -> (res: String)
    ensures
        res@ == seq![c],
{
    let mut s = String::new();
    push_char(&mut s, c);
    assert(s@ =~= seq![c]);
    s
}

fn is_digit_char(c: char) -> (res: bool)
    ensures
        res == is_digit(c),
{
    '0' <= c && c <= '9'
}

pub fn literal_char(hex: bool, c: char) -> (res: bool)
    ensures
        res == (if hex { is_hex_digit(c) } else { is_digit(c) }),
{
    if hex { is_hex_char(c) } else { is_digit_char(c) }
}

fn is_hex_char(c: char) -> (res: bool)
    ensures
        res == is_hex_digit(c),
{
    ('0' <= c && c <= '9') || ('a' <= c && c <= 'f') || ('A' <= c && c <= 'F')
}

fn is_ident_start_char(c: char) -> (res: bool)
    ensures
        res == is_ident_start(c),
{
    ('a' <= c && c <= 'z') || ('A' <= c && c <= 'Z') || c == '_'
}

fn is_ident_char_exec(c: char) -> (res: bool)
    ensures
        res == is_ident_char(c),
{
    is_ident_start_char(c) || is_digit_char(c)
}

pub fn digit_val(c: char) -> (d: u64)
    requires
        is_hex_digit(c),
    ensures
        d == digit_value(c),
        d < 16,
{
    if '0' <= c && c <= '9' {
        (c as u32 - '0' as u32) as u64
    } else if 'a' <= c && c <= 'f' {
        (c as u32 - 'a' as u32 + 10) as u64
    } else {
        (c as u32 - 'A' as u32 + 10) as u64
    }
}

/// Is the text of `s` exactly `lit`?
pub fn str_is(s: &String, lit: &str) -> (res: bool)
    ensures
        res == (s@ == lit@),
{
    let a = chars_of(s.as_str());
    let b = chars_of(lit);
    if a.len() != b.len() {
        return false;
    }
    let mut i: usize = 0;
    while i < a.len()
        invariant
            a@.len() == b@.len(),
            a@.len() == a.len(),
            i <= a@.len(),
            a@ == s@,
            b@ == lit@,
            forall|j: int| 0 <= j < i ==> a@[j] == b@[j],
        decreases a@.len() - i,
    {
        if a[i] != b[i] {
            return false;
        }
        i = i + 1;
    }
    assert(a@ =~= b@);
    true
}

/// The token stream of `src`: every token up to and including the first
/// end-of-input token.
pub fn tokenize(src: &str) -> (res: Vec<Token>)
    ensures
        toks_view(res@) == tokens_of(src@),
{
    let mut lx = Lexer::new(src);
    let ghost cs = src@;
    let mut out: Vec<Token> = Vec::new();
    loop
        invariant
            lx.wf(),
            lx.src@ == cs,
            cs == src@,
            toks_view(out@) + tokenize_from(cs, lx.pos as int) == tokens_of(cs),
        decreases cs.len() - lx.pos,
    {
        let ghost p = lx.pos as int;
        let t = lx.next_token();
        proof {
            lemma_skip_ws_bounds(cs, p);
            lemma_lex_at_progress(cs, skip_ws(cs, p));
        }
        let done = match t {
            Token::Eof => true,
            _ => false,
        };
        let ghost tv = t@;
        let ghost prev = out@;
        out.push(t);
        proof {
            assert(toks_view(out@) =~= toks_view(prev).push(tv));
        }
        if done {
            proof {
                assert(tokenize_from(cs, p) == seq![Tok::Eof]);
                assert(toks_view(out@) =~= tokens_of(cs));
            }
            return out;
        }
        proof {
            assert(tokenize_from(cs, p) == seq![tv] + tokenize_from(cs, lx.pos as int));
            assert(toks_view(out@) + tokenize_from(cs, lx.pos as int) =~= tokens_of(cs));
        }
    }
}


/// `n` is an identifier: a letter or `_`, then letters, digits and `_`,
/// other than the literals `true` and `false`.
pub open spec fn is_identifier(n: Seq<char>) -> bool {
    &&& n.len() > 0
    &&& is_ident_start(n[0])
    &&& forall|i: int| 0 <= i < n.len() ==> is_ident_char(#[trigger] n[i])
    &&& n != "true"@
    &&& n != "false"@
}

proof fn lemma_scan_ident_all(cs: Seq<char>, p: int)
    requires
        0 <= p <= cs.len(),
        forall|i: int| p <= i < cs.len() ==> is_ident_char(#[trigger] cs[i]),
    ensures
        scan_ident(cs, p) == cs.len(),
    decreases cs.len() - p,
{
    if p < cs.len() {
        lemma_scan_ident_all(cs, p + 1);
    }
}

proof fn lemma_scan_ident_until(cs: Seq<char>, p: int, e: int)
    requires
        0 <= p <= e < cs.len(),
        forall|i: int| p <= i < e ==> is_ident_char(#[trigger] cs[i]),
        !is_ident_char(cs[e]),
    ensures
        scan_ident(cs, p) == e,
    decreases e - p,
{
    if p < e {
        lemma_scan_ident_until(cs, p + 1, e);
    }
}

/// The text `a.b` of two identifiers is the tokens `a`, `.`, `b`.
pub proof fn lemma_dotted_tokens(a: Seq<char>, b: Seq<char>)
    requires
        is_identifier(a),
        is_identifier(b),
    ensures
        tokens_of(a + "."@ + b) == seq![Tok::Ident(a), Tok::Dot, Tok::Ident(b), Tok::Eof],
{
    reveal_strlit(".");
    let t = a + "."@ + b;
    let la = a.len() as int;
    let lt = t.len() as int;
    assert(t[la] == '.');
    assert forall|i: int| 0 <= i < la implies is_ident_char(#[trigger] t[i]) by {
        assert(t[i] == a[i]);
    }
    lemma_scan_ident_until(t, 0, la);
    assert(t[0] == a[0]);
    assert(!is_ws(t[0]));
    assert(skip_ws(t, 0) == 0);
    assert(t.subrange(0, la) =~= a);
    assert(lex_at(t, 0) == (Tok::Ident(a), la));
    assert(skip_ws(t, la) == la);
    assert(next_tok(t, la) == (Tok::Dot, la + 1));
    assert forall|i: int| la + 1 <= i < lt implies is_ident_char(#[trigger] t[i]) by {
        assert(t[i] == b[i - la - 1]);
    }
    lemma_scan_ident_all(t, la + 1);
    assert(t[la + 1] == b[0]);
    assert(!is_ws(t[la + 1]));
    assert(skip_ws(t, la + 1) == la + 1);
    assert(t.subrange(la + 1, lt) =~= b);
    assert(lex_at(t, la + 1) == (Tok::Ident(b), lt));
    assert(skip_ws(t, lt) == lt);
    assert(next_tok(t, lt) == (Tok::Eof, lt));
    assert(tokenize_from(t, lt) == seq![Tok::Eof]);
    assert(tokenize_from(t, la + 1) =~= seq![Tok::Ident(b), Tok::Eof]);
    assert(tokenize_from(t, la) =~= seq![Tok::Dot, Tok::Ident(b), Tok::Eof]);
    assert(tokenize_from(t, 0) =~= seq![Tok::Ident(a), Tok::Dot, Tok::Ident(b), Tok::Eof]);
}

/// The text of an identifier is one identifier token.
pub proof fn lemma_identifier_tokens(n: Seq<char>)
    requires
        is_identifier(n),
    ensures
        tokens_of(n) == seq![Tok::Ident(n), Tok::Eof],
{
    lemma_scan_ident_all(n, 0);
    assert(!is_ws(n[0]));
    assert(skip_ws(n, 0) == 0);
    assert(n.subrange(0, n.len() as int) =~= n);
    assert(lex_at(n, 0) == (Tok::Ident(n), n.len() as int));
    assert(skip_ws(n, n.len() as int) == n.len());
    assert(next_tok(n, n.len() as int) == (Tok::Eof, n.len() as int));
    assert(tokenize_from(n, n.len() as int) == seq![Tok::Eof]);
    assert(tokenize_from(n, 0) =~= seq![Tok::Ident(n)] + seq![Tok::Eof]);
}

} // verus!
