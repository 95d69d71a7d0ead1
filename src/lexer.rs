use vstd::prelude::*;
use vstd::string::{StringExecFns, StringSliceAdditionalSpecFns};
use vstd::utf8::{
    encode_utf8, is_char_boundary, is_char_boundary_iff_not_is_continuation_byte,
    is_char_boundary_start_end_of_seq, valid_utf8, valid_utf8_split,
};
use crate::grammar::{
    ident_continue, ident_start, is_digit, is_space, kw_fn, kw_for, kw_log, kw_main, kw_to,
    ASSIGN_LEXEME, COMMA, LBRACE, LPAREN, QUOTE, RBRACE, RPAREN,
};
use crate::text::{hex_upper, hex_upper_digit, push_char};

verus! {

broadcast use vstd::utf8::group_utf8_lib;

/// A token of the source language.
#[derive(Debug, Clone, PartialEq, Eq)]
pub enum Token {
    Fn,
    Main,
    Log,
    For,
    To,
    Ident(String),
    Number(String),
    Str(String),
    LParen,
    RParen,
    LBrace,
    RBrace,
    Comma,
    Assign,
    Eof,
}

/// What a token stands for, with its text as UTF-8 bytes.
pub enum Lexeme {
    Fn,
    Main,
    Log,
    For,
    To,
    Ident(Seq<u8>),
    Number(Seq<u8>),
    Str(Seq<u8>),
    LParen,
    RParen,
    LBrace,
    RBrace,
    Comma,
    Assign,
    Eof,
}

impl View for Token {
    type V = Lexeme;

    open spec fn view(&self) -> Lexeme {
        match self {
            Token::Fn => Lexeme::Fn,
            Token::Main => Lexeme::Main,
            Token::Log => Lexeme::Log,
            Token::For => Lexeme::For,
            Token::To => Lexeme::To,
            Token::Ident(s) => Lexeme::Ident(encode_utf8(s@)),
            Token::Number(s) => Lexeme::Number(encode_utf8(s@)),
            Token::Str(s) => Lexeme::Str(encode_utf8(s@)),
            Token::LParen => Lexeme::LParen,
            Token::RParen => Lexeme::RParen,
            Token::LBrace => Lexeme::LBrace,
            Token::RBrace => Lexeme::RBrace,
            Token::Comma => Lexeme::Comma,
            Token::Assign => Lexeme::Assign,
            Token::Eof => Lexeme::Eof,
        }
    }
}

impl Token {
    /// A copy of the token.
    pub fn duplicate(&self) -> (r: Token)
        ensures
            r == *self,
    {
        match self {
            Token::Fn => Token::Fn,
            Token::Main => Token::Main,
            Token::Log => Token::Log,
            Token::For => Token::For,
            Token::To => Token::To,
            Token::Ident(s) => Token::Ident(s.clone()),
            Token::Number(s) => Token::Number(s.clone()),
            Token::Str(s) => Token::Str(s.clone()),
            Token::LParen => Token::LParen,
            Token::RParen => Token::RParen,
            Token::LBrace => Token::LBrace,
            Token::RBrace => Token::RBrace,
            Token::Comma => Token::Comma,
            Token::Assign => Token::Assign,
            Token::Eof => Token::Eof,
        }
    }
}

/// A lexical error: what went wrong, and the byte offset where.
#[derive(Debug, Clone)]
pub struct LexError {
    pub message: String,
    pub at_byte: usize,
}

impl LexError {
    /// A copy of the error.
    pub fn duplicate(&self) -> (r: LexError)
        ensures
            r == *self,
    {
        LexError { message: self.message.clone(), at_byte: self.at_byte }
    }
}

/// The first position at or after `i` that is not a space byte.
pub open spec fn skip_spaces(b: Seq<u8>, i: int) -> int
    decreases b.len() - i,
{
    if 0 <= i < b.len() && is_space(b[i]) {
        skip_spaces(b, i + 1)
    } else {
        i
    }
}

/// The end of the run of identifier bytes that starts at `i`.
pub open spec fn ident_end(b: Seq<u8>, i: int) -> int
    decreases b.len() - i,
{
    if 0 <= i < b.len() && ident_continue(b[i]) {
        ident_end(b, i + 1)
    } else {
        i
    }
}

/// The end of the run of digits that starts at `i`.
pub open spec fn digits_end(b: Seq<u8>, i: int) -> int
    decreases b.len() - i,
{
    if 0 <= i < b.len() && is_digit(b[i]) {
        digits_end(b, i + 1)
    } else {
        i
    }
}

/// The first quote at or after `i`, or the length when there is none.
pub open spec fn quote_from(b: Seq<u8>, i: int) -> int
    decreases b.len() - i,
{
    if 0 <= i < b.len() && b[i] != QUOTE {
        quote_from(b, i + 1)
    } else {
        i
    }
}

/// The token that a word of identifier bytes stands for: a keyword, or an identifier.
pub open spec fn word_lexeme(w: Seq<u8>) -> Lexeme {
    if w == kw_fn() {
        Lexeme::Fn
    } else if w == kw_main() {
        Lexeme::Main
    } else if w == kw_log() {
        Lexeme::Log
    } else if w == kw_for() {
        Lexeme::For
    } else if w == kw_to() {
        Lexeme::To
    } else {
        Lexeme::Ident(w)
    }
}

/// One step of lexing.
pub enum Step {
    /// A token, and the position just after it.
    Tok(Lexeme, int),
    /// A lexical error at the given byte offset.
    Fail(int),
}

/// The token that starts at or after position `i` of `b`, or the offset of the error there.
pub open spec fn lex_step(b: Seq<u8>, i: int) -> Step {
    let s = skip_spaces(b, i);
    if s >= b.len() {
        Step::Tok(Lexeme::Eof, s)
    } else {
        let c = b[s];
        if c == ASSIGN_LEXEME {
            Step::Tok(Lexeme::Assign, s + 1)
        } else if c == LPAREN {
            Step::Tok(Lexeme::LParen, s + 1)
        } else if c == RPAREN {
            Step::Tok(Lexeme::RParen, s + 1)
        } else if c == LBRACE {
            Step::Tok(Lexeme::LBrace, s + 1)
        } else if c == RBRACE {
            Step::Tok(Lexeme::RBrace, s + 1)
        } else if c == COMMA {
            Step::Tok(Lexeme::Comma, s + 1)
        } else if c == QUOTE {
            let q = quote_from(b, s + 1);
            if q < b.len() {
                Step::Tok(Lexeme::Str(b.subrange(s + 1, q)), q + 1)
            } else {
                Step::Fail(s)
            }
        } else if ident_start(c) {
            let e = ident_end(b, s);
            Step::Tok(word_lexeme(b.subrange(s, e)), e)
        } else if is_digit(c) {
            let e = digits_end(b, s);
            Step::Tok(Lexeme::Number(b.subrange(s, e)), e)
        } else {
            Step::Fail(s)
        }
    }
}

/// The message of a lexical error at offset `at`.
pub open spec fn lex_message(b: Seq<u8>, at: int) -> Seq<char> {
    if b[at] == QUOTE {
        "chaine non terminée"@
    } else {
        "caractère inattendu: 0x"@.push(hex_upper(b[at] / 16)).push(hex_upper(b[at] % 16))
    }
}

proof fn lemma_skip_spaces_bounds(b: Seq<u8>, i: int)
    requires
        0 <= i <= b.len(),
    ensures
        i <= skip_spaces(b, i) <= b.len(),
    decreases b.len() - i,
{
    if i < b.len() && is_space(b[i]) {
        lemma_skip_spaces_bounds(b, i + 1);
    }
}

proof fn lemma_ident_end_bounds(b: Seq<u8>, i: int)
    requires
        0 <= i <= b.len(),
    ensures
        i <= ident_end(b, i) <= b.len(),
    decreases b.len() - i,
{
    if i < b.len() && ident_continue(b[i]) {
        lemma_ident_end_bounds(b, i + 1);
    }
}

proof fn lemma_quote_from_bounds(b: Seq<u8>, i: int)
    requires
        0 <= i <= b.len(),
    ensures
        i <= quote_from(b, i) <= b.len(),
    decreases b.len() - i,
{
    if i < b.len() && b[i] != QUOTE {
        lemma_quote_from_bounds(b, i + 1);
    }
}

proof fn lemma_digits_end(b: Seq<u8>, i: int)
    requires
        0 <= i <= b.len(),
    ensures
        i <= digits_end(b, i) <= b.len(),
        forall|k: int| i <= k < digits_end(b, i) ==> is_digit(#[trigger] b[k]),
    decreases b.len() - i,
{
    if i < b.len() && is_digit(b[i]) {
        lemma_digits_end(b, i + 1);
    }
}

/// A lexing step from a position within the source ends within it, past where it started,
/// and strictly past it for every token but the end of input; a number token holds digits only.
pub proof fn lemma_lex_step_bounds(b: Seq<u8>, i: int)
    requires
        0 <= i <= b.len(),
    ensures
        match lex_step(b, i) {
            Step::Tok(t, k) => {
                &&& i <= k <= b.len()
                &&& (t != Lexeme::Eof ==> i < k)
                &&& (t matches Lexeme::Number(w) ==> w.len() > 0 && forall|n: int|
                    0 <= n < w.len() ==> is_digit(#[trigger] w[n]))
            },
            Step::Fail(at) => i <= at < b.len(),
        },
{
    lemma_skip_spaces_bounds(b, i);
    let s = skip_spaces(b, i);
    if s < b.len() {
        lemma_ident_end_bounds(b, s + 1);
        lemma_quote_from_bounds(b, s + 1);
        lemma_digits_end(b, s);
        lemma_digits_end(b, s + 1);
        if is_digit(b[s]) {
            let e = digits_end(b, s);
            let w = b.subrange(s, e);
            assert forall|n: int| 0 <= n < w.len() implies is_digit(#[trigger] w[n]) by {
                assert(w[n] == b[s + n]);
            }
        }
    }
}

/// True for a byte that can start a token.
pub open spec fn starts_token(c: u8) -> bool {
    c == ASSIGN_LEXEME || c == LPAREN || c == RPAREN || c == LBRACE || c == RBRACE || c == COMMA
        || c == QUOTE || ident_start(c) || is_digit(c)
}

proof fn lemma_skip_spaces_all(b: Seq<u8>, i: int)
    requires
        0 <= i <= b.len(),
    ensures
        forall|k: int| i <= k < skip_spaces(b, i) ==> is_space(#[trigger] b[k]),
        skip_spaces(b, i) < b.len() ==> !is_space(b[skip_spaces(b, i)]),
    decreases b.len() - i,
{
    if i < b.len() && is_space(b[i]) {
        lemma_skip_spaces_all(b, i + 1);
    }
}

/// Lexing fails exactly at the first byte that no token can take: everything before it since
/// `i` is space, and that byte either starts no token or is a quote that is never closed.
pub proof fn lemma_lex_failure_offset(b: Seq<u8>, i: int)
    requires
        0 <= i <= b.len(),
        lex_step(b, i) is Fail,
    ensures
        ({
            let at = lex_step(b, i)->Fail_0;
            &&& i <= at < b.len()
            &&& forall|k: int| i <= k < at ==> is_space(#[trigger] b[k])
            &&& !starts_token(b[at]) || (b[at] == QUOTE && quote_from(b, at + 1) == b.len())
        }),
{
    lemma_skip_spaces_bounds(b, i);
    lemma_skip_spaces_all(b, i);
    lemma_quote_from_bounds(b, skip_spaces(b, i) + 1);
}

/// Lexing from position `i` token after token, as repeated calls of `next_token` do: the
/// end of input with its position, or the offset of the first error.
pub open spec fn lex_run(b: Seq<u8>, i: int) -> Step
    decreases b.len() - i,
{
    match lex_step(b, i) {
        Step::Tok(Lexeme::Eof, k) => Step::Tok(Lexeme::Eof, k),
        // Every token but the end of input moves on, so the guard always holds.
        Step::Tok(_, k) => if i < k <= b.len() {
            lex_run(b, k)
        } else {
            Step::Fail(i)
        },
        Step::Fail(at) => Step::Fail(at),
    }
}

/// When lexing a source token after token from `i` fails, it fails at the first byte that
/// no token can take: past `i`, within the source, at a byte that starts no token or at a
/// quote that is never closed. No end of input comes before it, and every step before it
/// gives a token.
pub proof fn lemma_lex_run_failure(b: Seq<u8>, i: int)
    requires
        0 <= i <= b.len(),
        lex_run(b, i) is Fail,
    ensures
        ({
            let at = lex_run(b, i)->Fail_0;
            &&& i <= at < b.len()
            &&& !starts_token(b[at]) || (b[at] == QUOTE && quote_from(b, at + 1) == b.len())
        }),
    decreases b.len() - i,
{
    lemma_lex_step_bounds(b, i);
    match lex_step(b, i) {
        Step::Tok(t, k) => {
            if t != Lexeme::Eof {
                lemma_lex_run_failure(b, k);
            }
        },
        Step::Fail(_) => {
            lemma_lex_failure_offset(b, i);
        },
    }
}

/// Past a byte below 0x80 that starts a character, the next character starts.
proof fn lemma_boundary_after_ascii(b: Seq<u8>, k: int)
    requires
        valid_utf8(b),
        0 <= k < b.len(),
        b[k] < 0x80,
        is_char_boundary(b, k),
    ensures
        is_char_boundary(b, k + 1),
{
    is_char_boundary_start_end_of_seq(b);
    if k + 1 < b.len() {
        valid_utf8_split(b, k);
        let t = b.subrange(k, b.len() as int);
        reveal_with_fuel(valid_utf8, 2);
        assert(t.subrange(1, t.len() as int) =~= b.subrange(k + 1, b.len() as int));
        assert(t.subrange(1, t.len() as int)[0] == b[k + 1]);
        is_char_boundary_iff_not_is_continuation_byte(b, k + 1);
    }
}

/// A byte below 0x80 starts a character.
proof fn lemma_boundary_at_ascii(b: Seq<u8>, k: int)
    requires
        valid_utf8(b),
        0 <= k < b.len(),
        b[k] < 0x80,
    ensures
        is_char_boundary(b, k),
{
    is_char_boundary_iff_not_is_continuation_byte(b, k);
}

/// Turns source text into tokens, one at a time.
pub struct Lexer<'a> {
    input: &'a str,
    bytes: &'a [u8],
    i: usize,
}

impl<'a> Lexer<'a> {
    /// The source, as bytes.
    pub closed spec fn source(&self) -> Seq<u8> {
        self.bytes@
    }

    /// The byte offset where lexing goes on.
    pub closed spec fn pos(&self) -> int {
        self.i as int
    }

    /// The position lies within the source, at the start of a character.
    pub closed spec fn wf(&self) -> bool {
        &&& self.sound()
        &&& is_char_boundary(self.bytes@, self.i as int)
    }

    /// A well-formed lexer stands within its source.
    pub proof fn lemma_wf_bounds(&self)
        requires
            self.wf(),
        ensures
            0 <= self.pos() <= self.source().len(),
    {
    }

    closed spec fn sound(&self) -> bool {
        &&& self.bytes@ == self.input.spec_bytes()
        &&& self.i <= self.bytes@.len()
        &&& self.bytes@.len() <= usize::MAX
        &&& valid_utf8(self.bytes@)
    }

    /// A lexer at the start of `input`.
    pub fn new(input: &'a str) -> (r: Self)
        ensures
            r.wf(),
            r.source() == input.spec_bytes(),
            r.pos() == 0,
    {
        let r = Self { input, bytes: input.as_bytes(), i: 0 };
        let _ = r.bytes.len();
        proof {
            is_char_boundary_start_end_of_seq(r.bytes@);
        }
        r
    }

    fn eof(&self) -> (r: bool)
        ensures
            r == (self.i >= self.bytes@.len()),
    {
        self.i >= self.bytes.len()
    }

    fn peek(&self) -> (r: Option<u8>)
        ensures
            r == (if self.i < self.bytes@.len() {
                Some(self.bytes@[self.i as int])
            } else {
                None::<u8>
            }),
    {
        if self.i < self.bytes.len() {
            Some(self.bytes[self.i])
        } else {
            None
        }
    }

    fn bump(&mut self) -> (r: Option<u8>)
        requires
            old(self).sound(),
        ensures
            final(self).sound(),
            final(self).input == old(self).input,
            final(self).bytes == old(self).bytes,
            r == (if old(self).i < old(self).bytes@.len() {
                Some(old(self).bytes@[old(self).i as int])
            } else {
                None::<u8>
            }),
            final(self).i == (if r is Some {
                old(self).i + 1
            } else {
                old(self).i as int
            }),
    {
        if self.i < self.bytes.len() {
            let b = self.bytes[self.i];
            self.i = self.i + 1;
            Some(b)
        } else {
            None
        }
    }

    fn skip_ws(&mut self)
        requires
            old(self).wf(),
        ensures
            final(self).wf(),
            final(self).input == old(self).input,
            final(self).bytes == old(self).bytes,
            final(self).i == skip_spaces(old(self).bytes@, old(self).i as int),
    {
        while self.i < self.bytes.len() && (self.bytes[self.i] == 0x20 || self.bytes[self.i] == 0x09
            || self.bytes[self.i] == 0x0a || self.bytes[self.i] == 0x0d)
            invariant
                self.wf(),
                self.input == old(self).input,
                self.bytes == old(self).bytes,
                skip_spaces(self.bytes@, self.i as int) == skip_spaces(
                    old(self).bytes@,
                    old(self).i as int,
                ),
            decreases self.bytes@.len() - self.i,
        {
            proof {
                lemma_boundary_after_ascii(self.bytes@, self.i as int);
            }
            self.i = self.i + 1;
        }
    }

    fn starts_with(&self, c: u8) -> (r: bool)
        ensures
            r == (self.i < self.bytes@.len() && self.bytes@[self.i as int] == c),
    {
        self.i < self.bytes.len() && self.bytes[self.i] == c
    }

    fn try_take(&mut self, c: u8) -> (r: bool)
        requires
            old(self).wf(),
            c < 0x80,
        ensures
            final(self).wf(),
            final(self).input == old(self).input,
            final(self).bytes == old(self).bytes,
            r == (old(self).i < old(self).bytes@.len() && old(self).bytes@[old(self).i as int]
                == c),
            final(self).i == (if r {
                old(self).i + 1
            } else {
                old(self).i as int
            }),
    {
        if self.starts_with(c) {
            proof {
                lemma_boundary_after_ascii(self.bytes@, self.i as int);
            }
            self.i = self.i + 1;
            true
        } else {
            false
        }
    }

    fn is_ident_start(b: u8) -> (r: bool)
        ensures
            r == ident_start(b),
    {
        (0x61 <= b && b <= 0x7a) || (0x41 <= b && b <= 0x5a) || b == 0x5f
    }

    fn is_ident_continue(b: u8) -> (r: bool)
        ensures
            r == ident_continue(b),
    {
        Self::is_ident_start(b) || (0x30 <= b && b <= 0x39)
    }

    /// The text between two character starts.
    fn text(&self, s: usize, e: usize) -> (r: &'a str)
        requires
            self.sound(),
            s <= e <= self.bytes@.len(),
            is_char_boundary(self.bytes@, s as int),
            is_char_boundary(self.bytes@, e as int),
        ensures
            r.spec_bytes() == self.bytes@.subrange(s as int, e as int),
    {
        let ghost b = self.bytes@;
        proof {
            valid_utf8_split(b, e as int);
            let p = b.subrange(0, e as int);
            is_char_boundary_start_end_of_seq(p);
            if s < e {
                is_char_boundary_iff_not_is_continuation_byte(b, s as int);
                is_char_boundary_iff_not_is_continuation_byte(p, s as int);
            }
        }
        let (head, _) = self.input.split_at(e);
        let (_, mid) = head.split_at(s);
        proof {
            assert(mid.spec_bytes() =~= b.subrange(s as int, e as int));
        }
        mid
    }

    fn read_ident(&mut self) -> (r: (&'a str, usize, usize))
        requires
            old(self).wf(),
        ensures
            final(self).wf(),
            final(self).input == old(self).input,
            final(self).bytes == old(self).bytes,
            r.1 == old(self).i,
            r.1 <= r.2 <= old(self).bytes@.len(),
            r.2 == ident_end(old(self).bytes@, old(self).i as int),
            final(self).i == r.2,
            r.0.spec_bytes() == old(self).bytes@.subrange(r.1 as int, r.2 as int),
    {
        let start = self.i;
        while self.i < self.bytes.len() && Self::is_ident_continue(self.bytes[self.i])
            invariant
                self.wf(),
                self.input == old(self).input,
                self.bytes == old(self).bytes,
                start <= self.i,
                ident_end(self.bytes@, self.i as int) == ident_end(
                    old(self).bytes@,
                    start as int,
                ),
            decreases self.bytes@.len() - self.i,
        {
            proof {
                lemma_boundary_after_ascii(self.bytes@, self.i as int);
            }
            self.i = self.i + 1;
        }
        (self.text(start, self.i), start, self.i)
    }

    fn read_number(&mut self) -> (r: (&'a str, usize, usize))
        requires
            old(self).wf(),
        ensures
            final(self).wf(),
            final(self).input == old(self).input,
            final(self).bytes == old(self).bytes,
            r.1 == old(self).i,
            r.2 == digits_end(old(self).bytes@, old(self).i as int),
            final(self).i == r.2,
            r.0.spec_bytes() == old(self).bytes@.subrange(r.1 as int, r.2 as int),
    {
        let start = self.i;
        while self.i < self.bytes.len() && 0x30 <= self.bytes[self.i] && self.bytes[self.i] <= 0x39
            invariant
                self.wf(),
                self.input == old(self).input,
                self.bytes == old(self).bytes,
                start <= self.i,
                digits_end(self.bytes@, self.i as int) == digits_end(
                    old(self).bytes@,
                    start as int,
                ),
            decreases self.bytes@.len() - self.i,
        {
            proof {
                lemma_boundary_after_ascii(self.bytes@, self.i as int);
            }
            self.i = self.i + 1;
        }
        (self.text(start, self.i), start, self.i)
    }

    fn read_string(&mut self) -> (r: Result<Token, LexError>)
        requires
            old(self).wf(),
            old(self).i < old(self).bytes@.len(),
            old(self).bytes@[old(self).i as int] == QUOTE,
        ensures
            final(self).wf(),
            final(self).input == old(self).input,
            final(self).bytes == old(self).bytes,
            ({
                let b = old(self).bytes@;
                let s = old(self).i as int;
                let q = quote_from(b, s + 1);
                if q < b.len() {
                    r is Ok && r->Ok_0@ == Lexeme::Str(b.subrange(s + 1, q)) && final(self).i == q
                        + 1
                } else {
                    r is Err && r->Err_0.at_byte == s && r->Err_0.message@ == lex_message(b, s)
                }
            }),
    {
        let start = self.i;
        self.bump();
        let s = self.i;
        proof {
            lemma_boundary_after_ascii(self.bytes@, start as int);
        }
        while self.i < self.bytes.len()
            invariant
                self.sound(),
                self.input == old(self).input,
                self.bytes == old(self).bytes,
                s <= self.i,
                s == start + 1,
                start == old(self).i,
                is_char_boundary(self.bytes@, s as int),
                quote_from(self.bytes@, self.i as int) == quote_from(self.bytes@, s as int),
            decreases self.bytes@.len() - self.i,
        {
            if self.bytes[self.i] == QUOTE {
                proof {
                    assert(quote_from(self.bytes@, self.i as int) == self.i);
                    lemma_boundary_at_ascii(self.bytes@, self.i as int);
                    lemma_boundary_after_ascii(self.bytes@, self.i as int);
                }
                let out = self.text(s, self.i);
                self.i = self.i + 1;
                return Ok(Token::Str(out.to_owned()));
            }
            self.i = self.i + 1;
        }
        proof {
            is_char_boundary_start_end_of_seq(self.bytes@);
        }
        Err(LexError { message: String::from_str("chaine non terminée"), at_byte: start })
    }

    fn try_assign(&mut self) -> (r: Option<Token>)
        requires
            old(self).wf(),
        ensures
            final(self).wf(),
            final(self).input == old(self).input,
            final(self).bytes == old(self).bytes,
            ({
                let b = old(self).bytes@;
                let i = old(self).i as int;
                if i < b.len() && b[i] == ASSIGN_LEXEME {
                    r == Some(Token::Assign) && final(self).i == i + 1
                } else {
                    r is None && final(self).i == i
                }
            }),
    {
        if self.try_take(ASSIGN_LEXEME) {
            Some(Token::Assign)
        } else {
            None
        }
    }

    fn try_punct(&mut self) -> (r: Option<Token>)
        requires
            old(self).wf(),
        ensures
            final(self).wf(),
            final(self).input == old(self).input,
            final(self).bytes == old(self).bytes,
            ({
                let b = old(self).bytes@;
                let i = old(self).i as int;
                if i < b.len() && b[i] == LPAREN {
                    r == Some(Token::LParen) && final(self).i == i + 1
                } else if i < b.len() && b[i] == RPAREN {
                    r == Some(Token::RParen) && final(self).i == i + 1
                } else if i < b.len() && b[i] == LBRACE {
                    r == Some(Token::LBrace) && final(self).i == i + 1
                } else if i < b.len() && b[i] == RBRACE {
                    r == Some(Token::RBrace) && final(self).i == i + 1
                } else if i < b.len() && b[i] == COMMA {
                    r == Some(Token::Comma) && final(self).i == i + 1
                } else {
                    r is None && final(self).i == i
                }
            }),
    {
        if self.try_take(LPAREN) {
            return Some(Token::LParen);
        }
        if self.try_take(RPAREN) {
            return Some(Token::RParen);
        }
        if self.try_take(LBRACE) {
            return Some(Token::LBrace);
        }
        if self.try_take(RBRACE) {
            return Some(Token::RBrace);
        }
        if self.try_take(COMMA) {
            return Some(Token::Comma);
        }
        None
    }

    /// The token for the identifier bytes `s..e`: a keyword, or an identifier holding `text`.
    fn word_token(&self, s: usize, e: usize, text: &str) -> (r: Token)
        requires
            self.sound(),
            s <= e <= self.bytes@.len(),
            text.spec_bytes() == self.bytes@.subrange(s as int, e as int),
        ensures
            r@ == word_lexeme(self.bytes@.subrange(s as int, e as int)),
    {
        let ghost w = self.bytes@.subrange(s as int, e as int);
        let n = e - s;
        let b = self.bytes;
        if n == 2 && b[s] == 0x66 && b[s + 1] == 0x6e {
            assert(w =~= kw_fn());
            return Token::Fn;
        }
        if n == 4 && b[s] == 0x6d && b[s + 1] == 0x61 && b[s + 2] == 0x69 && b[s + 3] == 0x6e {
            assert(w =~= kw_main());
            return Token::Main;
        }
        if n == 3 && b[s] == 0x6c && b[s + 1] == 0x6f && b[s + 2] == 0x67 {
            assert(w =~= kw_log());
            return Token::Log;
        }
        if n == 3 && b[s] == 0x66 && b[s + 1] == 0x6f && b[s + 2] == 0x72 {
            assert(w =~= kw_for());
            return Token::For;
        }
        if n == 2 && b[s] == 0x74 && b[s + 1] == 0x6f {
            assert(w =~= kw_to());
            return Token::To;
        }
        proof {
            if w == kw_fn() {
                assert(w[0] == 0x66 && w[1] == 0x6e);
            }
            if w == kw_main() {
                assert(w[0] == 0x6d && w[1] == 0x61 && w[2] == 0x69 && w[3] == 0x6e);
            }
            if w == kw_log() {
                assert(w[0] == 0x6c && w[1] == 0x6f && w[2] == 0x67);
            }
            if w == kw_for() {
                assert(w[0] == 0x66 && w[1] == 0x6f && w[2] == 0x72);
            }
            if w == kw_to() {
                assert(w[0] == 0x74 && w[1] == 0x6f);
            }
        }
        Token::Ident(text.to_owned())
    }

    /// The next token, or the lexical error where lexing stops.
    pub fn next_token(&mut self) -> (r: Result<Token, LexError>)
        requires
            old(self).wf(),
        ensures
            final(self).wf(),
            final(self).source() == old(self).source(),
            match lex_step(old(self).source(), old(self).pos()) {
                Step::Tok(t, j) => r is Ok && r->Ok_0@ == t && final(self).pos() == j,
                Step::Fail(at) => r is Err && r->Err_0.at_byte == at && r->Err_0.message@
                    == lex_message(old(self).source(), at),
            },
    {
        self.skip_ws();
        if self.eof() {
            return Ok(Token::Eof);
        }
        if let Some(tok) = self.try_assign() {
            return Ok(tok);
        }
        if let Some(tok) = self.try_punct() {
            return Ok(tok);
        }
        let c = match self.peek() {
            Some(c) => c,
            None => return Ok(Token::Eof),
        };
        if c == QUOTE {
            return self.read_string();
        }
        if Self::is_ident_start(c) {
            let (id, at, end) = self.read_ident();
            return Ok(self.word_token(at, end, id));
        }
        if 0x30 <= c && c <= 0x39 {
            let (n, _, _) = self.read_number();
            return Ok(Token::Number(n.to_owned()));
        }
        let mut message = String::from_str("caractère inattendu: 0x");
        push_char(&mut message, hex_upper_digit(c / 16));
        push_char(&mut message, hex_upper_digit(c % 16));
        Err(LexError { message, at_byte: self.i })
    }
}

} // verus!
