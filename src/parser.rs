use vstd::prelude::*;
use vstd::utf8::encode_utf8;
use crate::grammar::is_digit;
use crate::lexer::{lemma_lex_step_bounds, lex_message, lex_step, LexError, Lexeme, Lexer, Step, Token};

verus! {

/// A whole program: the statements of `main`, in order.
#[derive(Debug, Clone)]
pub struct Program {
    pub stmts: Vec<Stmt>,
}

/// A statement.
#[derive(Debug)]
pub enum Stmt {
    Log(Vec<Expr>),
    For { name: String, start: i32, end: i32, body: Vec<Stmt> },
}

/// An argument of `log`.
#[derive(Debug, Clone)]
pub enum Expr {
    Str(String),
    Var(String),
    Int(i32),
}

/// An expression, with its text as UTF-8 bytes.
pub enum ExprV {
    Str(Seq<u8>),
    Var(Seq<u8>),
    Int(i32),
}

/// A statement, with its text as UTF-8 bytes.
pub enum StmtV {
    Log(Seq<ExprV>),
    For { name: Seq<u8>, start: i32, end: i32, body: Seq<StmtV> },
}

impl View for Expr {
    type V = ExprV;

    open spec fn view(&self) -> ExprV {
        match self {
            Expr::Str(s) => ExprV::Str(encode_utf8(s@)),
            Expr::Var(s) => ExprV::Var(encode_utf8(s@)),
            Expr::Int(v) => ExprV::Int(*v),
        }
    }
}

/// The views of the expressions, in order.
pub open spec fn exprs_view(v: Seq<Expr>) -> Seq<ExprV> {
    v.map_values(|e: Expr| e@)
}

/// The view of a statement, with its body's statements viewed in turn.
pub open spec fn stmt_view(s: Stmt) -> StmtV
    decreases s,
{
    match s {
        Stmt::Log(args) => StmtV::Log(exprs_view(args@)),
        Stmt::For { name, start, end, body } => StmtV::For {
            name: encode_utf8(name@),
            start,
            end,
            body: stmts_view(body@),
        },
    }
}

/// The views of the statements, in order.
pub open spec fn stmts_view(v: Seq<Stmt>) -> Seq<StmtV>
    decreases v,
{
    if v.len() == 0 {
        seq![]
    } else {
        stmts_view(v.subrange(0, v.len() - 1)).push(stmt_view(v[v.len() - 1]))
    }
}

/// The view of a statement list has one view per statement, in order.
pub proof fn lemma_stmts_view(v: Seq<Stmt>)
    ensures
        stmts_view(v).len() == v.len(),
        forall|i: int| 0 <= i < v.len() ==> #[trigger] stmts_view(v)[i] == stmt_view(v[i]),
    decreases v.len(),
{
    if v.len() > 0 {
        let d = v.subrange(0, v.len() - 1);
        lemma_stmts_view(d);
        assert forall|i: int| 0 <= i < v.len() implies #[trigger] stmts_view(v)[i] == stmt_view(
            v[i],
        ) by {
            if i < v.len() - 1 {
                assert(d[i] == v[i]);
            }
        }
    }
}

impl View for Stmt {
    type V = StmtV;

    open spec fn view(&self) -> StmtV {
        stmt_view(*self)
    }
}

impl View for Program {
    type V = Seq<StmtV>;

    open spec fn view(&self) -> Seq<StmtV> {
        stmts_view(self.stmts@)
    }
}

/// A copy of an expression.
fn copy_expr(e: &Expr) -> (r: Expr)
    ensures
        r == *e,
{
    match e {
        Expr::Str(s) => Expr::Str(s.clone()),
        Expr::Var(s) => Expr::Var(s.clone()),
        Expr::Int(v) => Expr::Int(*v),
    }
}

/// A copy of a list of expressions.
fn copy_exprs(v: &Vec<Expr>) -> (r: Vec<Expr>)
    ensures
        r@ == v@,
{
    let mut r: Vec<Expr> = Vec::new();
    let mut i: usize = 0;
    while i < v.len()
        invariant
            0 <= i <= v@.len(),
            r@ == v@.subrange(0, i as int),
        decreases v@.len() - i,
    {
        r.push(copy_expr(&v[i]));
        proof {
            assert(r@ =~= v@.subrange(0, i + 1));
        }
        i = i + 1;
    }
    proof {
        assert(v@.subrange(0, v@.len() as int) =~= v@);
    }
    r
}

/// A copy of a list of statements.
fn copy_stmts(v: &Vec<Stmt>) -> (r: Vec<Stmt>)
    ensures
        stmts_view(r@) == stmts_view(v@),
    decreases v,
{
    let mut r: Vec<Stmt> = Vec::new();
    let mut i: usize = 0;
    proof {
        assert(stmts_view(r@) =~= stmts_view(v@.subrange(0, 0)));
    }
    while i < v.len()
        invariant
            0 <= i <= v@.len(),
            stmts_view(r@) == stmts_view(v@.subrange(0, i as int)),
        decreases v@.len() - i,
    {
        let ghost before = r@;
        let st = v[i].duplicate();
        r.push(st);
        proof {
            let nx = v@.subrange(0, i + 1);
            assert(nx.subrange(0, nx.len() - 1) =~= v@.subrange(0, i as int));
            assert(r@.subrange(0, r@.len() - 1) =~= before);
        }
        i = i + 1;
    }
    proof {
        assert(v@.subrange(0, v@.len() as int) =~= v@);
    }
    r
}

impl Stmt {
    /// A copy of the statement, with its body copied in turn.
    pub fn duplicate(&self) -> (r: Stmt)
        ensures
            r@ == self@,
        decreases self,
    {
        match self {
            Stmt::Log(args) => Stmt::Log(copy_exprs(args)),
            Stmt::For { name, start, end, body } => Stmt::For {
                name: name.clone(),
                start: *start,
                end: *end,
                body: copy_stmts(body),
            },
        }
    }
}

impl Clone for Stmt {
    fn clone(&self) -> Self {
        self.duplicate()
    }
}

/// A parse error, with texts as in the source.
pub enum PErr {
    /// A lexical error: its offset and message.
    Lex(int, Seq<char>),
    /// A token that the grammar does not allow here, and what was expected.
    Unexpected(Lexeme, Seq<char>),
    /// An integer literal above the 32-bit signed range.
    Overflow(Seq<u8>),
}

/// Why parsing stopped.
#[derive(Debug, Clone)]
pub enum ParseError {
    Lex(LexError),
    Unexpected { found: Token, expected: &'static str },
    IntOverflow(String),
}

impl View for ParseError {
    type V = PErr;

    open spec fn view(&self) -> PErr {
        match self {
            ParseError::Lex(e) => PErr::Lex(e.at_byte as int, e.message@),
            ParseError::Unexpected { found, expected } => PErr::Unexpected(found@, expected@),
            ParseError::IntOverflow(s) => PErr::Overflow(encode_utf8(s@)),
        }
    }
}

impl From<LexError> for ParseError {
    fn from(e: LexError) -> (r: ParseError)
        ensures
            r == ParseError::Lex(e),
    {
        ParseError::Lex(e)
    }
}

impl vstd::std_specs::convert::FromSpecImpl<LexError> for ParseError {
    open spec fn obeys_from_spec() -> bool {
        true
    }

    open spec fn from_spec(e: LexError) -> ParseError {
        ParseError::Lex(e)
    }
}

/// The next token after position `j`, and the position after it.
pub open spec fn advance(b: Seq<u8>, j: int) -> Result<(Lexeme, int), PErr> {
    match lex_step(b, j) {
        Step::Tok(t, k) => Ok((t, k)),
        Step::Fail(at) => Err(PErr::Lex(at, lex_message(b, at))),
    }
}

/// The variant of a token, whatever its text.
pub open spec fn kind(t: Lexeme) -> int {
    match t {
        Lexeme::Fn => 0,
        Lexeme::Main => 1,
        Lexeme::Log => 2,
        Lexeme::For => 3,
        Lexeme::To => 4,
        Lexeme::Ident(_) => 5,
        Lexeme::Number(_) => 6,
        Lexeme::Str(_) => 7,
        Lexeme::LParen => 8,
        Lexeme::RParen => 9,
        Lexeme::LBrace => 10,
        Lexeme::RBrace => 11,
        Lexeme::Comma => 12,
        Lexeme::Assign => 13,
        Lexeme::Eof => 14,
    }
}

/// Consumes the current token if it is of the variant of `want`.
pub open spec fn expect_spec(b: Seq<u8>, cur: Lexeme, j: int, want: Lexeme, name: Seq<char>) -> Result<
    (Lexeme, int),
    PErr,
> {
    if kind(cur) == kind(want) {
        advance(b, j)
    } else {
        Err(PErr::Unexpected(cur, name))
    }
}

/// The value of a sequence of decimal digits.
pub open spec fn decimal_value(w: Seq<u8>) -> nat
    decreases w.len(),
{
    if w.len() == 0 {
        0
    } else {
        decimal_value(w.subrange(0, w.len() - 1)) * 10 + (w[w.len() - 1] - 0x30) as nat
    }
}

/// The largest 32-bit signed value.
pub open spec fn i32_max() -> nat {
    0x7fff_ffff
}

/// An integer literal as the current token, converted to 32 bits.
pub open spec fn number_spec(b: Seq<u8>, cur: Lexeme, j: int) -> Result<(i32, Lexeme, int), PErr> {
    match cur {
        Lexeme::Number(w) => if decimal_value(w) <= i32_max() {
            match advance(b, j) {
                Ok((c, k)) => Ok((decimal_value(w) as i32, c, k)),
                Err(e) => Err(e),
            }
        } else {
            Err(PErr::Overflow(w))
        },
        _ => Err(PErr::Unexpected(cur, "un entier i32"@)),
    }
}

/// An argument of `log`: a string, a variable, or an integer that fits 32 signed bits.
pub open spec fn expr_spec(b: Seq<u8>, cur: Lexeme, j: int) -> Result<(ExprV, Lexeme, int), PErr> {
    match cur {
        Lexeme::Str(s) => match advance(b, j) {
            Ok((c, k)) => Ok((ExprV::Str(s), c, k)),
            Err(e) => Err(e),
        },
        Lexeme::Ident(s) => match advance(b, j) {
            Ok((c, k)) => Ok((ExprV::Var(s), c, k)),
            Err(e) => Err(e),
        },
        Lexeme::Number(w) => if decimal_value(w) <= i32_max() {
            match advance(b, j) {
                Ok((c, k)) => Ok((ExprV::Int(decimal_value(w) as i32), c, k)),
                Err(e) => Err(e),
            }
        } else {
            Err(PErr::Overflow(w))
        },
        _ => Err(PErr::Unexpected(cur, "une expression (string | ident | int)"@)),
    }
}

/// The arguments after the first, each after a comma, added to `acc`.
/// Every token but the end of input moves the position on, so the guard on it always holds.
pub open spec fn args_spec(b: Seq<u8>, acc: Seq<ExprV>, cur: Lexeme, j: int) -> Result<
    (Seq<ExprV>, Lexeme, int),
    PErr,
>
    decreases b.len() - j,
{
    if cur == Lexeme::Comma {
        match advance(b, j) {
            Err(e) => Err(e),
            Ok((c1, j1)) => match expr_spec(b, c1, j1) {
                Err(e) => Err(e),
                Ok((x, c2, j2)) => if j < j2 <= b.len() {
                    args_spec(b, acc.push(x), c2, j2)
                } else {
                    Err(PErr::Lex(j, seq![]))
                },
            },
        }
    } else {
        Ok((acc, cur, j))
    }
}

/// `log ( Expr { , Expr } )`.
pub open spec fn log_spec(b: Seq<u8>, cur: Lexeme, j: int) -> Result<(StmtV, Lexeme, int), PErr> {
    match expect_spec(b, cur, j, Lexeme::Log, "`log`"@) {
        Err(e) => Err(e),
        Ok((c1, j1)) => match expect_spec(b, c1, j1, Lexeme::LParen, "`(`"@) {
            Err(e) => Err(e),
            Ok((c2, j2)) => match expr_spec(b, c2, j2) {
                Err(e) => Err(e),
                Ok((x, c3, j3)) => match args_spec(b, seq![x], c3, j3) {
                    Err(e) => Err(e),
                    Ok((xs, c4, j4)) => match expect_spec(b, c4, j4, Lexeme::RParen, "`)`"@) {
                        Err(e) => Err(e),
                        Ok((c5, j5)) => Ok((StmtV::Log(xs), c5, j5)),
                    },
                },
            },
        },
    }
}

/// The statements up to a closing brace, added to `acc`.
pub open spec fn block_spec(b: Seq<u8>, acc: Seq<StmtV>, cur: Lexeme, j: int) -> Result<
    (Seq<StmtV>, Lexeme, int),
    PErr,
>
    decreases b.len() - j, 2int,
{
    if cur == Lexeme::RBrace {
        Ok((acc, cur, j))
    } else {
        match stmt_spec(b, cur, j) {
            Err(e) => Err(e),
            Ok((s, c, k)) => if j < k <= b.len() {
                block_spec(b, acc.push(s), c, k)
            } else {
                Err(PErr::Lex(j, seq![]))
            },
        }
    }
}

/// A statement: a `log` or a `for`.
pub open spec fn stmt_spec(b: Seq<u8>, cur: Lexeme, j: int) -> Result<(StmtV, Lexeme, int), PErr>
    decreases b.len() - j, 1int,
{
    match cur {
        Lexeme::Log => log_spec(b, cur, j),
        Lexeme::For => for_spec(b, cur, j),
        _ => Err(PErr::Unexpected(cur, "`log` ou `for`"@)),
    }
}

/// `for Ident = Int to Int { Stmt* }`.
pub open spec fn for_spec(b: Seq<u8>, cur: Lexeme, j: int) -> Result<(StmtV, Lexeme, int), PErr>
    decreases b.len() - j, 0int,
{
    match expect_spec(b, cur, j, Lexeme::For, "`for`"@) {
        Err(e) => Err(e),
        Ok((c1, j1)) => match c1 {
            Lexeme::Ident(name) => match advance(b, j1) {
                Err(e) => Err(e),
                Ok((c2, j2)) => match expect_spec(b, c2, j2, Lexeme::Assign, "`=`"@) {
                    Err(e) => Err(e),
                    Ok((c3, j3)) => match number_spec(b, c3, j3) {
                        Err(e) => Err(e),
                        Ok((start, c4, j4)) => match expect_spec(b, c4, j4, Lexeme::To, "`to`"@) {
                            Err(e) => Err(e),
                            Ok((c5, j5)) => match number_spec(b, c5, j5) {
                                Err(e) => Err(e),
                                Ok((end, c6, j6)) => match expect_spec(
                                    b,
                                    c6,
                                    j6,
                                    Lexeme::LBrace,
                                    "`{`"@,
                                ) {
                                    Err(e) => Err(e),
                                    Ok((c7, j7)) => if j < j7 <= b.len() {
                                        match block_spec(b, seq![], c7, j7) {
                                            Err(e) => Err(e),
                                            Ok((body, c8, j8)) => match expect_spec(
                                                b,
                                                c8,
                                                j8,
                                                Lexeme::RBrace,
                                                "`}`"@,
                                            ) {
                                                Err(e) => Err(e),
                                                Ok((c9, j9)) => Ok(
                                                    (StmtV::For { name, start, end, body }, c9, j9),
                                                ),
                                            },
                                        }
                                    } else {
                                        Err(PErr::Lex(j, seq![]))
                                    },
                                },
                            },
                        },
                    },
                },
            },
            _ => Err(PErr::Unexpected(c1, "identifiant"@)),
        },
    }
}

/// The statements of a whole program, from its first token `cur`, read before position `j`.
pub open spec fn program_spec(b: Seq<u8>, cur: Lexeme, j: int) -> Result<Seq<StmtV>, PErr> {
    match expect_spec(b, cur, j, Lexeme::Fn, "`fn`"@) {
        Err(e) => Err(e),
        Ok((c1, j1)) => match expect_spec(b, c1, j1, Lexeme::Main, "`main`"@) {
            Err(e) => Err(e),
            Ok((c2, j2)) => match expect_spec(b, c2, j2, Lexeme::LParen, "`(`"@) {
                Err(e) => Err(e),
                Ok((c3, j3)) => match expect_spec(b, c3, j3, Lexeme::RParen, "`)`"@) {
                    Err(e) => Err(e),
                    Ok((c4, j4)) => match expect_spec(b, c4, j4, Lexeme::LBrace, "`{`"@) {
                        Err(e) => Err(e),
                        Ok((c5, j5)) => match block_spec(b, seq![], c5, j5) {
                            Err(e) => Err(e),
                            Ok((stmts, c6, j6)) => match expect_spec(
                                b,
                                c6,
                                j6,
                                Lexeme::RBrace,
                                "`}`"@,
                            ) {
                                Err(e) => Err(e),
                                Ok((c7, j7)) => match expect_spec(
                                    b,
                                    c7,
                                    j7,
                                    Lexeme::Eof,
                                    "fin de fichier"@,
                                ) {
                                    Err(e) => Err(e),
                                    Ok(_) => Ok(stmts),
                                },
                            },
                        },
                    },
                },
            },
        },
    }
}

/// The result of parsing a whole source text.
pub open spec fn parse_source(b: Seq<u8>) -> Result<Seq<StmtV>, PErr> {
    match advance(b, 0) {
        Err(e) => Err(e),
        Ok((c, j)) => program_spec(b, c, j),
    }
}

proof fn lemma_decimal_grows(w: Seq<u8>, k: int)
    requires
        0 <= k <= w.len(),
        forall|n: int| 0 <= n < w.len() ==> is_digit(#[trigger] w[n]),
    ensures
        decimal_value(w) >= decimal_value(w.subrange(0, k)),
    decreases w.len(),
{
    if k < w.len() {
        let v = w.subrange(0, w.len() - 1);
        assert(v.subrange(0, k) =~= w.subrange(0, k));
        assert forall|n: int| 0 <= n < v.len() implies is_digit(#[trigger] v[n]) by {
            assert(v[n] == w[n]);
        }
        lemma_decimal_grows(v, k);
    } else {
        assert(w.subrange(0, k) =~= w);
    }
}

/// The value of a run of decimal digits, when it fits in 32 signed bits.
fn digits_to_i32(w: &[u8]) -> (r: Option<i32>)
    requires
        forall|n: int| 0 <= n < w@.len() ==> is_digit(#[trigger] w@[n]),
    ensures
        r == (if decimal_value(w@) <= i32_max() {
            Some(decimal_value(w@) as i32)
        } else {
            None::<i32>
        }),
{
    let mut acc: u64 = 0;
    let mut i: usize = 0;
    while i < w.len()
        invariant
            0 <= i <= w@.len(),
            acc as nat == decimal_value(w@.subrange(0, i as int)),
            acc <= 0x7fff_ffff,
            forall|n: int| 0 <= n < w@.len() ==> is_digit(#[trigger] w@[n]),
        decreases w@.len() - i,
    {
        proof {
            assert(w@.subrange(0, i + 1).subrange(0, i as int) =~= w@.subrange(0, i as int));
            assert(is_digit(w@[i as int]));
        }
        acc = acc * 10 + (w[i] - 0x30) as u64;
        i = i + 1;
        if acc > 0x7fff_ffff {
            proof {
                lemma_decimal_grows(w@, i as int);
            }
            return None;
        }
    }
    proof {
        assert(w@.subrange(0, w@.len() as int) =~= w@);
    }
    Some(acc as i32)
}

/// The variant of a token, as `kind` numbers it.
fn token_kind(t: &Token) -> (r: u8)
    ensures
        r as int == kind(t@),
{
    match t {
        Token::Fn => 0,
        Token::Main => 1,
        Token::Log => 2,
        Token::For => 3,
        Token::To => 4,
        Token::Ident(_) => 5,
        Token::Number(_) => 6,
        Token::Str(_) => 7,
        Token::LParen => 8,
        Token::RParen => 9,
        Token::LBrace => 10,
        Token::RBrace => 11,
        Token::Comma => 12,
        Token::Assign => 13,
        Token::Eof => 14,
    }
}

/// A recursive-descent parser with one token of lookahead.
pub struct Parser<'a> {
    lx: Lexer<'a>,
    cur: Token,
}

impl<'a> Parser<'a> {
    /// The source, as bytes.
    pub closed spec fn source(&self) -> Seq<u8> {
        self.lx.source()
    }

    /// The position just after the current token.
    pub closed spec fn pos(&self) -> int {
        self.lx.pos()
    }

    /// The current token.
    pub closed spec fn current(&self) -> Lexeme {
        self.cur@
    }

    /// The lexer is well formed, and a current number token holds digits only.
    pub closed spec fn wf(&self) -> bool {
        &&& self.lx.wf()
        &&& 0 <= self.lx.pos() <= self.lx.source().len()
        &&& (self.cur@ matches Lexeme::Number(w) ==> forall|n: int|
            0 <= n < w.len() ==> is_digit(#[trigger] w[n]))
    }

    /// A parser whose current token is the first token of the lexer's input.
    pub fn new(mut lx: Lexer<'a>) -> (r: Result<Self, ParseError>)
        requires
            lx.wf(),
        ensures
            match advance(lx.source(), lx.pos()) {
                Ok((t, k)) => r is Ok && r->Ok_0.wf() && r->Ok_0.source() == lx.source()
                    && r->Ok_0.current() == t && r->Ok_0.pos() == k,
                Err(e) => r is Err && r->Err_0@ == e,
            },
    {
        proof {
            lx.lemma_wf_bounds();
            lemma_lex_step_bounds(lx.source(), lx.pos());
        }
        let ghost b = lx.source();
        match lx.next_token() {
            Ok(cur) => {
                proof {
                    lx.lemma_wf_bounds();
                }
                Ok(Self { lx, cur })
            },
            Err(e) => Err(ParseError::from(e)),
        }
    }

    fn bump(&mut self) -> (r: Result<(), ParseError>)
        requires
            old(self).wf(),
        ensures
            final(self).source() == old(self).source(),
            match advance(old(self).source(), old(self).pos()) {
                Ok((t, k)) => r is Ok && final(self).wf() && final(self).current() == t
                    && final(self).pos() == k,
                Err(e) => r is Err && r->Err_0@ == e,
            },
            r is Ok ==> old(self).pos() <= final(self).pos(),
    {
        proof {
            lemma_lex_step_bounds(self.lx.source(), self.lx.pos());
        }
        match self.lx.next_token() {
            Ok(t) => {
                self.cur = t;
                proof {
                    self.lx.lemma_wf_bounds();
                }
                Ok(())
            },
            Err(e) => Err(ParseError::from(e)),
        }
    }

    fn expect(&mut self, want: Token, name: &'static str) -> (r: Result<(), ParseError>)
        requires
            old(self).wf(),
        ensures
            final(self).source() == old(self).source(),
            match expect_spec(old(self).source(), old(self).current(), old(self).pos(), want@, name@) {
                Ok((t, k)) => r is Ok && final(self).wf() && final(self).current() == t
                    && final(self).pos() == k,
                Err(e) => r is Err && r->Err_0@ == e,
            },
            r is Ok ==> old(self).pos() <= final(self).pos(),
            kind(old(self).current()) != kind(want@) ==> *final(self) == *old(self),
    {
        if token_kind(&self.cur) == token_kind(&want) {
            self.bump()
        } else {
            Err(ParseError::Unexpected { found: self.cur.duplicate(), expected: name })
        }
    }

    fn parse_number_i32(&mut self) -> (r: Result<i32, ParseError>)
        requires
            old(self).wf(),
        ensures
            final(self).source() == old(self).source(),
            match number_spec(old(self).source(), old(self).current(), old(self).pos()) {
                Ok((v, t, k)) => r == Ok::<i32, ParseError>(v) && final(self).wf()
                    && final(self).current() == t && final(self).pos() == k,
                Err(e) => r is Err && r->Err_0@ == e,
            },
            r is Ok ==> old(self).pos() <= final(self).pos(),
            match old(self).current() {
                Lexeme::Number(w) => decimal_value(w) > i32_max() ==> *final(self) == *old(self),
                _ => *final(self) == *old(self),
            },
    {
        match &self.cur {
            Token::Number(s) => {
                let v = digits_to_i32(s.as_str().as_bytes());
                match v {
                    Some(n) => match self.bump() {
                        Ok(()) => Ok(n),
                        Err(e) => Err(e),
                    },
                    None => Err(ParseError::IntOverflow(s.clone())),
                }
            },
            _ => Err(ParseError::Unexpected { found: self.cur.duplicate(), expected: "un entier i32" }),
        }
    }

    fn parse_expr(&mut self) -> (r: Result<Expr, ParseError>)
        requires
            old(self).wf(),
        ensures
            final(self).source() == old(self).source(),
            match expr_spec(old(self).source(), old(self).current(), old(self).pos()) {
                Ok((v, t, k)) => r is Ok && r->Ok_0@ == v && final(self).wf() && final(self).current()
                    == t && final(self).pos() == k,
                Err(e) => r is Err && r->Err_0@ == e,
            },
            r is Ok ==> old(self).pos() <= final(self).pos(),
            match old(self).current() {
                Lexeme::Str(_) | Lexeme::Ident(_) => true,
                Lexeme::Number(w) => decimal_value(w) > i32_max() ==> *final(self) == *old(self),
                _ => *final(self) == *old(self),
            },
    {
        match &self.cur {
            Token::Str(s) => {
                let v = s.clone();
                match self.bump() {
                    Ok(()) => Ok(Expr::Str(v)),
                    Err(e) => Err(e),
                }
            },
            Token::Ident(s) => {
                let v = s.clone();
                match self.bump() {
                    Ok(()) => Ok(Expr::Var(v)),
                    Err(e) => Err(e),
                }
            },
            Token::Number(s) => {
                let v = digits_to_i32(s.as_str().as_bytes());
                match v {
                    Some(n) => match self.bump() {
                        Ok(()) => Ok(Expr::Int(n)),
                        Err(e) => Err(e),
                    },
                    None => Err(ParseError::IntOverflow(s.clone())),
                }
            },
            _ => Err(
                ParseError::Unexpected {
                    found: self.cur.duplicate(),
                    expected: "une expression (string | ident | int)",
                },
            ),
        }
    }

    #[verifier::loop_isolation(false)]
    fn parse_log(&mut self) -> (r: Result<Stmt, ParseError>)
        requires
            old(self).wf(),
        ensures
            final(self).source() == old(self).source(),
            match log_spec(old(self).source(), old(self).current(), old(self).pos()) {
                Ok((v, t, k)) => r is Ok && r->Ok_0@ == v && final(self).wf() && final(self).current()
                    == t && final(self).pos() == k,
                Err(e) => r is Err && r->Err_0@ == e,
            },
            r is Ok ==> old(self).pos() < final(self).pos(),
    {
        let ghost b = self.source();
        let ghost j0 = self.pos();
        match self.expect(Token::Log, "`log`") {
            Ok(()) => {},
            Err(e) => return Err(e),
        }
        match self.expect(Token::LParen, "`(`") {
            Ok(()) => {},
            Err(e) => return Err(e),
        }
        proof {
            lemma_lex_step_bounds(b, j0);
        }
        let first = match self.parse_expr() {
            Ok(x) => x,
            Err(e) => return Err(e),
        };
        let ghost c3 = self.current();
        let ghost j3 = self.pos();
        let ghost x3 = first@;
        let mut args: Vec<Expr> = Vec::new();
        args.push(first);
        proof {
            assert(exprs_view(args@) =~= seq![x3]);
        }
        while matches!(self.cur, Token::Comma)
            invariant
                self.wf(),
                self.source() == b,
                j0 < self.pos() <= b.len(),
                args_spec(b, exprs_view(args@), self.current(), self.pos()) == args_spec(
                    b,
                    seq![x3],
                    c3,
                    j3,
                ),
            decreases b.len() - self.pos(),
        {
            let ghost j = self.pos();
            let ghost before = args@;
            match self.bump() {
                Ok(()) => {},
                Err(e) => return Err(e),
            }
            proof {
                lemma_lex_step_bounds(b, j);
            }
            let x = match self.parse_expr() {
                Ok(x) => x,
                Err(e) => return Err(e),
            };
            args.push(x);
            proof {
                assert(exprs_view(args@) =~= exprs_view(before).push(x@));
            }
        }
        match self.expect(Token::RParen, "`)`") {
            Ok(()) => {},
            Err(e) => return Err(e),
        }
        Ok(Stmt::Log(args))
    }

    #[verifier::loop_isolation(false)]
    fn parse_for(&mut self) -> (r: Result<Stmt, ParseError>)
        requires
            old(self).wf(),
        ensures
            final(self).source() == old(self).source(),
            match for_spec(old(self).source(), old(self).current(), old(self).pos()) {
                Ok((v, t, k)) => r is Ok && r->Ok_0@ == v && final(self).wf() && final(self).current()
                    == t && final(self).pos() == k,
                Err(e) => r is Err && r->Err_0@ == e,
            },
            r is Ok ==> old(self).pos() < final(self).pos(),
        decreases old(self).source().len() - old(self).pos(), 0int,
    {
        let ghost b = self.source();
        let ghost j0 = self.pos();
        match self.expect(Token::For, "`for`") {
            Ok(()) => {},
            Err(e) => return Err(e),
        }
        proof {
            lemma_lex_step_bounds(b, j0);
        }
        let name = match &self.cur {
            Token::Ident(s) => {
                let v = s.clone();
                match self.bump() {
                    Ok(()) => v,
                    Err(e) => return Err(e),
                }
            },
            _ => return Err(
                ParseError::Unexpected { found: self.cur.duplicate(), expected: "identifiant" },
            ),
        };
        match self.expect(Token::Assign, "`=`") {
            Ok(()) => {},
            Err(e) => return Err(e),
        }
        let start = match self.parse_number_i32() {
            Ok(v) => v,
            Err(e) => return Err(e),
        };
        match self.expect(Token::To, "`to`") {
            Ok(()) => {},
            Err(e) => return Err(e),
        }
        let end = match self.parse_number_i32() {
            Ok(v) => v,
            Err(e) => return Err(e),
        };
        match self.expect(Token::LBrace, "`{`") {
            Ok(()) => {},
            Err(e) => return Err(e),
        }
        let ghost c7 = self.current();
        let ghost j7 = self.pos();
        let mut body: Vec<Stmt> = Vec::new();
        proof {
            assert(stmts_view(body@) =~= Seq::<StmtV>::empty());
        }
        while !matches!(self.cur, Token::RBrace)
            invariant
                self.wf(),
                self.source() == b,
                j0 < self.pos() <= b.len(),
                j0 < j7 <= b.len(),
                block_spec(b, stmts_view(body@), self.current(), self.pos()) == block_spec(
                    b,
                    seq![],
                    c7,
                    j7,
                ),
            decreases b.len() - self.pos(),
        {
            let ghost before = body@;
            let st = match self.parse_stmt() {
                Ok(st) => st,
                Err(e) => return Err(e),
            };
            body.push(st);
            proof {
                assert(body@.subrange(0, body@.len() - 1) =~= before);
            }
        }
        match self.expect(Token::RBrace, "`}`") {
            Ok(()) => {},
            Err(e) => return Err(e),
        }
        Ok(Stmt::For { name, start, end, body })
    }

    fn parse_stmt(&mut self) -> (r: Result<Stmt, ParseError>)
        requires
            old(self).wf(),
        ensures
            final(self).source() == old(self).source(),
            match stmt_spec(old(self).source(), old(self).current(), old(self).pos()) {
                Ok((v, t, k)) => r is Ok && r->Ok_0@ == v && final(self).wf() && final(self).current()
                    == t && final(self).pos() == k,
                Err(e) => r is Err && r->Err_0@ == e,
            },
            r is Ok ==> old(self).pos() < final(self).pos(),
            !(old(self).current() is Log || old(self).current() is For) ==> *final(self) == *old(
                self,
            ),
        decreases old(self).source().len() - old(self).pos(), 1int,
    {
        match self.cur {
            Token::Log => self.parse_log(),
            Token::For => self.parse_for(),
            _ => Err(ParseError::Unexpected { found: self.cur.duplicate(), expected: "`log` ou `for`" }),
        }
    }

    /// Parses a whole program; the first error ends parsing.
    #[verifier::loop_isolation(false)]
    pub fn parse_program(&mut self) -> (r: Result<Program, ParseError>)
        requires
            old(self).wf(),
        ensures
            match program_spec(old(self).source(), old(self).current(), old(self).pos()) {
                Ok(stmts) => r is Ok && r->Ok_0@ == stmts,
                Err(e) => r is Err && r->Err_0@ == e,
            },
    {
        let ghost b = self.source();
        match self.expect(Token::Fn, "`fn`") {
            Ok(()) => {},
            Err(e) => return Err(e),
        }
        match self.expect(Token::Main, "`main`") {
            Ok(()) => {},
            Err(e) => return Err(e),
        }
        match self.expect(Token::LParen, "`(`") {
            Ok(()) => {},
            Err(e) => return Err(e),
        }
        match self.expect(Token::RParen, "`)`") {
            Ok(()) => {},
            Err(e) => return Err(e),
        }
        match self.expect(Token::LBrace, "`{`") {
            Ok(()) => {},
            Err(e) => return Err(e),
        }
        let ghost c5 = self.current();
        let ghost j5 = self.pos();
        let mut stmts: Vec<Stmt> = Vec::new();
        proof {
            assert(stmts_view(stmts@) =~= Seq::<StmtV>::empty());
        }
        while !matches!(self.cur, Token::RBrace)
            invariant
                self.wf(),
                self.source() == b,
                0 <= self.pos() <= b.len(),
                block_spec(b, stmts_view(stmts@), self.current(), self.pos()) == block_spec(
                    b,
                    seq![],
                    c5,
                    j5,
                ),
            decreases b.len() - self.pos(),
        {
            let ghost before = stmts@;
            let st = match self.parse_stmt() {
                Ok(st) => st,
                Err(e) => return Err(e),
            };
            stmts.push(st);
            proof {
                assert(stmts@.subrange(0, stmts@.len() - 1) =~= before);
            }
        }
        match self.expect(Token::RBrace, "`}`") {
            Ok(()) => {},
            Err(e) => return Err(e),
        }
        match self.expect(Token::Eof, "fin de fichier") {
            Ok(()) => {},
            Err(e) => return Err(e),
        }
        Ok(Program { stmts })
    }
}

} // verus!
