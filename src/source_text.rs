use vstd::prelude::*;
use crate::grammar::{
    ident_continue, ident_start, is_digit, is_space, kw_fn, kw_for, kw_log, kw_main, kw_to,
    ASSIGN_LEXEME, COMMA, LBRACE, LPAREN, QUOTE, RBRACE, RPAREN,
};
use crate::parser::{
    advance, args_spec, block_spec, decimal_value, expect_spec, expr_spec, for_spec, i32_max,
    log_spec, number_spec, parse_source, program_spec, stmt_spec, ExprV, PErr, StmtV,
};
use crate::lexer::{digits_end, ident_end, lex_step, quote_from, skip_spaces, word_lexeme, Lexeme, Step};

verus! {

/// The bytes of a token in source text.
pub open spec fn tok_bytes(t: Lexeme) -> Seq<u8> {
    match t {
        Lexeme::Fn => kw_fn(),
        Lexeme::Main => kw_main(),
        Lexeme::Log => kw_log(),
        Lexeme::For => kw_for(),
        Lexeme::To => kw_to(),
        Lexeme::Ident(w) => w,
        Lexeme::Number(w) => w,
        Lexeme::Str(w) => seq![QUOTE] + w + seq![QUOTE],
        Lexeme::LParen => seq![LPAREN],
        Lexeme::RParen => seq![RPAREN],
        Lexeme::LBrace => seq![LBRACE],
        Lexeme::RBrace => seq![RBRACE],
        Lexeme::Comma => seq![COMMA],
        Lexeme::Assign => seq![ASSIGN_LEXEME],
        Lexeme::Eof => seq![],
    }
}

/// True for a word that is not one of the keywords.
pub open spec fn not_keyword(w: Seq<u8>) -> bool {
    w != kw_fn() && w != kw_main() && w != kw_log() && w != kw_for() && w != kw_to()
}

/// True for the bytes of an identifier that is not a keyword.
pub open spec fn ident_ok(w: Seq<u8>) -> bool {
    &&& w.len() > 0
    &&& ident_start(w[0])
    &&& forall|i: int| 0 <= i < w.len() ==> ident_continue(#[trigger] w[i])
    &&& not_keyword(w)
}

/// True for a token that source text can hold and that reads back as itself.
pub open spec fn tok_ok(t: Lexeme) -> bool {
    match t {
        Lexeme::Ident(w) => ident_ok(w),
        Lexeme::Number(w) => w.len() > 0 && forall|i: int|
            0 <= i < w.len() ==> is_digit(#[trigger] w[i]),
        Lexeme::Str(w) => forall|i: int| 0 <= i < w.len() ==> #[trigger] w[i] != QUOTE,
        Lexeme::Eof => false,
        _ => true,
    }
}

/// The tokens written out, each followed by one space.
pub open spec fn render(ts: Seq<Lexeme>) -> Seq<u8>
    decreases ts.len(),
{
    if ts.len() == 0 {
        seq![]
    } else {
        render(ts.drop_last()) + tok_bytes(ts.last()) + seq![0x20u8]
    }
}

/// Where token `k` of the rendered text ends.
pub open spec fn tok_end(ts: Seq<Lexeme>, k: int) -> int {
    render(ts.take(k)).len() + tok_bytes(ts[k]).len() as int
}

/// Where lexing starts to find token `k`: just after the token before it.
pub open spec fn tok_from(ts: Seq<Lexeme>, k: int) -> int {
    if k == 0 {
        0
    } else {
        tok_end(ts, k - 1)
    }
}

proof fn lemma_render_prefix(ts: Seq<Lexeme>, k: int)
    requires
        0 <= k <= ts.len(),
    ensures
        render(ts.take(k)).len() <= render(ts).len(),
        render(ts).subrange(0, render(ts.take(k)).len() as int) == render(ts.take(k)),
    decreases ts.len(),
{
    if k == ts.len() {
        assert(ts.take(k) =~= ts);
        assert(render(ts).subrange(0, render(ts).len() as int) =~= render(ts));
    } else {
        let d = ts.drop_last();
        assert(d.take(k) =~= ts.take(k));
        lemma_render_prefix(d, k);
        let r = render(ts);
        let rd = render(d);
        assert(r.subrange(0, render(ts.take(k)).len() as int) =~= rd.subrange(
            0,
            render(ts.take(k)).len() as int,
        ));
    }
}

/// The bytes of the rendered text around token `k`.
proof fn lemma_render_at(ts: Seq<Lexeme>, k: int)
    requires
        0 <= k < ts.len(),
    ensures
        ({
            let b = render(ts);
            let a = render(ts.take(k)).len() as int;
            let t = tok_bytes(ts[k]);
            &&& a + t.len() < b.len()
            &&& forall|m: int| 0 <= m < t.len() ==> b[a + m] == #[trigger] t[m]
            &&& b[a + t.len()] == 0x20
            &&& k > 0 ==> b[a - 1] == 0x20
            &&& render(ts.take(k + 1)).len() == a + t.len() + 1
        }),
{
    let b = render(ts);
    let p = render(ts.take(k + 1));
    assert(ts.take(k + 1).drop_last() =~= ts.take(k));
    lemma_render_prefix(ts, k + 1);
    let a = render(ts.take(k)).len() as int;
    let t = tok_bytes(ts[k]);
    assert forall|m: int| 0 <= m < t.len() implies b[a + m] == #[trigger] t[m] by {
        assert(b[a + m] == p[a + m]);
    }
    assert(b[a + t.len()] == p[a + t.len()]);
    if k > 0 {
        assert(ts.take(k).drop_last() =~= ts.take(k - 1));
        assert(b[a - 1] == p[a - 1]);
    }
}

proof fn lemma_ident_run(b: Seq<u8>, s: int, n: int)
    requires
        0 <= s,
        0 <= n,
        s + n < b.len(),
        forall|m: int| s <= m < s + n ==> ident_continue(#[trigger] b[m]),
        !ident_continue(b[s + n]),
    ensures
        ident_end(b, s) == s + n,
    decreases n,
{
    if n > 0 {
        lemma_ident_run(b, s + 1, n - 1);
    }
}

proof fn lemma_digit_run(b: Seq<u8>, s: int, n: int)
    requires
        0 <= s,
        0 <= n,
        s + n < b.len(),
        forall|m: int| s <= m < s + n ==> is_digit(#[trigger] b[m]),
        !is_digit(b[s + n]),
    ensures
        digits_end(b, s) == s + n,
    decreases n,
{
    if n > 0 {
        lemma_digit_run(b, s + 1, n - 1);
    }
}

proof fn lemma_quote_run(b: Seq<u8>, s: int, n: int)
    requires
        0 <= s,
        0 <= n,
        s + n < b.len(),
        forall|m: int| s <= m < s + n ==> #[trigger] b[m] != QUOTE,
        b[s + n] == QUOTE,
    ensures
        quote_from(b, s) == s + n,
    decreases n,
{
    if n > 0 {
        lemma_quote_run(b, s + 1, n - 1);
    }
}

/// Rendered tokens read back one by one: lexing from where token `k` starts to be looked for
/// gives token `k`, ending where `tok_end` says.
pub proof fn lemma_render_lexes(ts: Seq<Lexeme>, k: int)
    requires
        0 <= k < ts.len(),
        forall|i: int| 0 <= i < ts.len() ==> tok_ok(#[trigger] ts[i]),
    ensures
        lex_step(render(ts), tok_from(ts, k)) == Step::Tok(ts[k], tok_end(ts, k)),
{
    let b = render(ts);
    let a = render(ts.take(k)).len() as int;
    let t = tok_bytes(ts[k]);
    let tk = ts[k];
    assert(tok_ok(tk));
    lemma_render_at(ts, k);
    if k > 0 {
        lemma_render_at(ts, k - 1);
        assert(ts.take(k).len() == k);
        assert(tok_from(ts, k) == a - 1);
    }
    assert(t.len() > 0) by {
        match tk {
            Lexeme::Str(w) => {
                assert(t.len() == w.len() + 2);
            },
            _ => {},
        }
    }
    assert(b[a] == t[0]);
    assert(!is_space(b[a])) by {
        match tk {
            Lexeme::Ident(w) => {
                assert(ident_continue(w[0]));
            },
            Lexeme::Number(w) => {
                assert(is_digit(w[0]));
            },
            _ => {},
        }
    }
    assert(skip_spaces(b, a) == a);
    assert(skip_spaces(b, tok_from(ts, k)) == a) by {
        if k > 0 {
            assert(a >= 1);
            assert(is_space(b[a - 1]));
            assert(skip_spaces(b, a - 1) == skip_spaces(b, a));
        }
    }
    match tk {
        Lexeme::Fn | Lexeme::Main | Lexeme::Log | Lexeme::For | Lexeme::To | Lexeme::Ident(_) => {
            assert forall|m: int| a <= m < a + t.len() implies ident_continue(#[trigger] b[m]) by {
                assert(b[a + (m - a)] == t[m - a]);
            }
            lemma_ident_run(b, a, t.len() as int);
            assert(b.subrange(a, a + t.len()) =~= t);
        },
        Lexeme::Number(w) => {
            assert forall|m: int| a <= m < a + t.len() implies is_digit(#[trigger] b[m]) by {
                assert(b[a + (m - a)] == t[m - a]);
            }
            lemma_digit_run(b, a, t.len() as int);
            assert(b.subrange(a, a + t.len()) =~= w);
        },
        Lexeme::Str(w) => {
            assert forall|m: int| a + 1 <= m < a + 1 + w.len() implies #[trigger] b[m] != QUOTE by {
                assert(b[a + (m - a)] == t[m - a]);
                assert(t[m - a] == w[m - a - 1]);
            }
            assert(b[a + 1 + w.len()] == t[w.len() + 1int]);
            lemma_quote_run(b, a + 1, w.len() as int);
            assert forall|i: int| 0 <= i < w.len() implies #[trigger] b.subrange(
                a + 1,
                a + 1 + w.len(),
            )[i] == w[i] by {
                assert(b[a + (i + 1)] == t[i + 1]);
                assert(t[i + 1] == w[i]);
            }
            assert(b.subrange(a + 1, a + 1 + w.len()) =~= w);
        },
        _ => {},
    }
}

/// After the last rendered token, lexing finds the end of input at the end of the text.
pub proof fn lemma_render_ends(ts: Seq<Lexeme>)
    ensures
        lex_step(render(ts), tok_from(ts, ts.len() as int)) == Step::Tok(
            Lexeme::Eof,
            render(ts).len() as int,
        ),
{
    let b = render(ts);
    if ts.len() > 0 {
        let k = ts.len() - 1;
        lemma_render_at(ts, k);
        assert(ts.take(k + 1) =~= ts);
        assert(ts.take(k).len() == k);
        let e = b.len() as int;
        assert(tok_from(ts, ts.len() as int) == e - 1);
        assert(skip_spaces(b, e) == e);
        assert(is_space(b[e - 1]));
        assert(skip_spaces(b, e - 1) == skip_spaces(b, e));
    }
}

/// The decimal digits of `n` as bytes, most significant first.
pub open spec fn digit_bytes(n: nat) -> Seq<u8>
    decreases n,
{
    if n < 10 {
        seq![(n + 0x30) as u8]
    } else {
        digit_bytes(n / 10).push(((n % 10) + 0x30) as u8)
    }
}

proof fn lemma_digit_bytes(n: nat)
    ensures
        digit_bytes(n).len() > 0,
        forall|i: int| 0 <= i < digit_bytes(n).len() ==> is_digit(#[trigger] digit_bytes(n)[i]),
        decimal_value(digit_bytes(n)) == n,
    decreases n,
{
    let w = digit_bytes(n);
    if n >= 10 {
        lemma_digit_bytes(n / 10);
        assert(w.subrange(0, w.len() - 1) =~= digit_bytes(n / 10));
        assert(w[w.len() - 1] == ((n % 10) + 0x30) as u8);
        assert(decimal_value(w) == decimal_value(w.subrange(0, w.len() - 1)) * 10 + (w[w.len()
            - 1] - 0x30) as nat);
        assert((n / 10) * 10 + n % 10 == n) by (nonlinear_arith);
    } else {
        assert(w.subrange(0, w.len() - 1) =~= Seq::<u8>::empty());
        assert(decimal_value(w) == decimal_value(w.subrange(0, w.len() - 1)) * 10 + (w[w.len()
            - 1] - 0x30) as nat);
    }
}

/// The token that stands for an argument.
pub open spec fn arg_tok(e: ExprV) -> Lexeme {
    match e {
        ExprV::Str(w) => Lexeme::Str(w),
        ExprV::Var(w) => Lexeme::Ident(w),
        ExprV::Int(v) => Lexeme::Number(digit_bytes(v as nat)),
    }
}

/// A comma and the token of each argument.
pub open spec fn comma_toks(xs: Seq<ExprV>) -> Seq<Lexeme>
    decreases xs.len(),
{
    if xs.len() == 0 {
        seq![]
    } else {
        seq![Lexeme::Comma, arg_tok(xs[0])] + comma_toks(xs.drop_first())
    }
}

/// The tokens of a statement.
pub open spec fn stmt_toks(s: StmtV) -> Seq<Lexeme>
    decreases s,
{
    match s {
        StmtV::Log(args) => seq![Lexeme::Log, Lexeme::LParen, arg_tok(args[0])] + comma_toks(
            args.drop_first(),
        ) + seq![Lexeme::RParen],
        StmtV::For { name, start, end, body } => seq![
            Lexeme::For,
            Lexeme::Ident(name),
            Lexeme::Assign,
            Lexeme::Number(digit_bytes(start as nat)),
            Lexeme::To,
            Lexeme::Number(digit_bytes(end as nat)),
            Lexeme::LBrace,
        ] + block_toks(body) + seq![Lexeme::RBrace],
    }
}

/// The tokens of a statement list.
pub open spec fn block_toks(ss: Seq<StmtV>) -> Seq<Lexeme>
    decreases ss,
{
    if ss.len() == 0 {
        seq![]
    } else {
        stmt_toks(ss[0]) + block_toks(ss.subrange(1, ss.len() as int))
    }
}

/// The tokens of a whole program.
pub open spec fn program_toks(p: Seq<StmtV>) -> Seq<Lexeme> {
    seq![Lexeme::Fn, Lexeme::Main, Lexeme::LParen, Lexeme::RParen, Lexeme::LBrace] + block_toks(p)
        + seq![Lexeme::RBrace]
}

/// The canonical source text of a program: its tokens, each followed by a space.
pub open spec fn program_source(p: Seq<StmtV>) -> Seq<u8> {
    render(program_toks(p))
}

/// An argument that source text can hold: a string without quotes, an identifier that is no
/// keyword, or an integer that is not negative (the language has no minus sign).
pub open spec fn expr_ok(e: ExprV) -> bool {
    match e {
        ExprV::Str(w) => forall|i: int| 0 <= i < w.len() ==> #[trigger] w[i] != QUOTE,
        ExprV::Var(w) => ident_ok(w),
        ExprV::Int(v) => v >= 0,
    }
}

/// A statement whose tokens source text can hold; a `log` has at least one argument.
pub open spec fn stmt_ok(s: StmtV) -> bool
    decreases s,
{
    match s {
        StmtV::Log(args) => args.len() > 0 && forall|i: int|
            0 <= i < args.len() ==> expr_ok(#[trigger] args[i]),
        StmtV::For { name, start, end, body } => ident_ok(name) && start >= 0 && end >= 0
            && block_ok(body),
    }
}

/// Every statement of the list is well formed.
pub open spec fn block_ok(ss: Seq<StmtV>) -> bool
    decreases ss,
{
    ss.len() > 0 ==> stmt_ok(ss[0]) && block_ok(ss.subrange(1, ss.len() as int))
}

/// Every token can be held by source text.
pub open spec fn all_ok(ts: Seq<Lexeme>) -> bool {
    forall|i: int| 0 <= i < ts.len() ==> tok_ok(#[trigger] ts[i])
}

proof fn lemma_all_ok_concat(a: Seq<Lexeme>, b: Seq<Lexeme>)
    requires
        all_ok(a),
        all_ok(b),
    ensures
        all_ok(a + b),
{
    assert forall|i: int| 0 <= i < (a + b).len() implies tok_ok(#[trigger] (a + b)[i]) by {
        if i >= a.len() {
            assert((a + b)[i] == b[i - a.len()]);
        }
    }
}

proof fn lemma_arg_tok_ok(e: ExprV)
    requires
        expr_ok(e),
    ensures
        tok_ok(arg_tok(e)),
{
    if let ExprV::Int(v) = e {
        lemma_digit_bytes(v as nat);
    }
}

proof fn lemma_comma_toks_ok(xs: Seq<ExprV>)
    requires
        forall|i: int| 0 <= i < xs.len() ==> expr_ok(#[trigger] xs[i]),
    ensures
        all_ok(comma_toks(xs)),
    decreases xs.len(),
{
    if xs.len() > 0 {
        lemma_arg_tok_ok(xs[0]);
        let r = xs.drop_first();
        assert forall|i: int| 0 <= i < r.len() implies expr_ok(#[trigger] r[i]) by {
            assert(r[i] == xs[i + 1]);
        }
        lemma_comma_toks_ok(r);
        lemma_all_ok_concat(seq![Lexeme::Comma, arg_tok(xs[0])], comma_toks(r));
    }
}

proof fn lemma_stmt_toks_ok(s: StmtV)
    requires
        stmt_ok(s),
    ensures
        all_ok(stmt_toks(s)),
        stmt_toks(s).len() > 0,
    decreases s,
{
    match s {
        StmtV::Log(args) => {
            lemma_arg_tok_ok(args[0]);
            let r = args.drop_first();
            assert forall|i: int| 0 <= i < r.len() implies expr_ok(#[trigger] r[i]) by {
                assert(r[i] == args[i + 1]);
            }
            lemma_comma_toks_ok(r);
            let h = seq![Lexeme::Log, Lexeme::LParen, arg_tok(args[0])];
            lemma_all_ok_concat(h, comma_toks(r));
            lemma_all_ok_concat(h + comma_toks(r), seq![Lexeme::RParen]);
        },
        StmtV::For { name, start, end, body } => {
            lemma_digit_bytes(start as nat);
            lemma_digit_bytes(end as nat);
            lemma_block_toks_ok(body);
            let h = seq![
                Lexeme::For,
                Lexeme::Ident(name),
                Lexeme::Assign,
                Lexeme::Number(digit_bytes(start as nat)),
                Lexeme::To,
                Lexeme::Number(digit_bytes(end as nat)),
                Lexeme::LBrace,
            ];
            assert(all_ok(h)) by {
                assert forall|i: int| 0 <= i < h.len() implies tok_ok(#[trigger] h[i]) by {
                    if i == 1 {
                        assert(h[1] == Lexeme::Ident(name));
                    }
                }
            }
            lemma_all_ok_concat(h, block_toks(body));
            lemma_all_ok_concat(h + block_toks(body), seq![Lexeme::RBrace]);
        },
    }
}

proof fn lemma_block_toks_ok(ss: Seq<StmtV>)
    requires
        block_ok(ss),
    ensures
        all_ok(block_toks(ss)),
    decreases ss,
{
    if ss.len() > 0 {
        lemma_stmt_toks_ok(ss[0]);
        lemma_block_toks_ok(ss.subrange(1, ss.len() as int));
        lemma_all_ok_concat(stmt_toks(ss[0]), block_toks(ss.subrange(1, ss.len() as int)));
    }
}

/// Token ends grow strictly, and stay inside the text.
proof fn lemma_tok_end_grows(ts: Seq<Lexeme>, k1: int, k2: int)
    requires
        all_ok(ts),
        0 <= k1 <= k2 < ts.len(),
    ensures
        tok_end(ts, k1) + (k2 - k1) <= tok_end(ts, k2) < render(ts).len(),
    decreases k2 - k1,
{
    lemma_render_at(ts, k2);
    if k1 < k2 {
        lemma_tok_end_grows(ts, k1, k2 - 1);
        lemma_render_at(ts, k2 - 1);
        assert(ts.take(k2).len() == k2);
    }
}

/// The tokens `x` stand in `ts` from index `k` on.
pub open spec fn holds_at(ts: Seq<Lexeme>, k: int, x: Seq<Lexeme>) -> bool {
    &&& 0 <= k
    &&& k + x.len() <= ts.len()
    &&& forall|i: int| 0 <= i < x.len() ==> ts[k + i] == #[trigger] x[i]
}

proof fn lemma_holds_split(ts: Seq<Lexeme>, k: int, a: Seq<Lexeme>, b: Seq<Lexeme>)
    requires
        holds_at(ts, k, a + b),
    ensures
        holds_at(ts, k, a),
        holds_at(ts, k + a.len(), b),
{
    assert forall|i: int| 0 <= i < a.len() implies ts[k + i] == #[trigger] a[i] by {
        assert((a + b)[i] == a[i]);
    }
    assert forall|i: int| 0 <= i < b.len() implies ts[k + a.len() + i] == #[trigger] b[i] by {
        assert((a + b)[a.len() + i] == b[i]);
    }
}

/// The lexer reads `b` as exactly the tokens `ts`, token `k` ending at `ends[k]`, followed by
/// the end of input: whatever spaces, tabs and line breaks stand between them.
pub open spec fn lexes_to(b: Seq<u8>, ts: Seq<Lexeme>, ends: Seq<int>) -> bool {
    &&& ts.len() > 0
    &&& ends.len() == ts.len()
    &&& lex_step(b, 0) == Step::Tok(ts[0], ends[0])
    &&& forall|k: int|
        0 <= k < ts.len() - 1 ==> #[trigger] lex_step(b, ends[k]) == Step::Tok(
            ts[k + 1],
            ends[k + 1],
        )
    &&& lex_step(b, ends[ts.len() - 1]) == Step::Tok(Lexeme::Eof, b.len() as int)
    &&& forall|i: int, j: int| 0 <= i < j < ts.len() ==> #[trigger] ends[i] < #[trigger] ends[j]
    &&& forall|k: int| 0 <= k < ts.len() ==> #[trigger] ends[k] <= b.len()
}

proof fn lemma_step(b: Seq<u8>, ts: Seq<Lexeme>, ends: Seq<int>, k: int)
    requires
        lexes_to(b, ts, ends),
        0 <= k,
        k + 1 < ts.len(),
    ensures
        advance(b, ends[k]) == Ok::<(Lexeme, int), PErr>((ts[k + 1], ends[k + 1])),
{
    assert(lex_step(b, ends[k]) == Step::Tok(ts[k + 1], ends[k + 1]));
}

proof fn lemma_ends_grow(b: Seq<u8>, ts: Seq<Lexeme>, ends: Seq<int>, k1: int, k2: int)
    requires
        lexes_to(b, ts, ends),
        0 <= k1 < k2 < ts.len(),
    ensures
        ends[k1] < ends[k2] <= b.len(),
{
    assert(ends[k1] < ends[k2]);
    assert(ends[k2] <= b.len());
}

proof fn lemma_parse_expr(b: Seq<u8>, ts: Seq<Lexeme>, ends: Seq<int>, k: int, e: ExprV)
    requires
        all_ok(ts),
        lexes_to(b, ts, ends),
        0 <= k,
        k + 1 < ts.len(),
        ts[k] == arg_tok(e),
        expr_ok(e),
    ensures
        expr_spec(b, ts[k], ends[k]) == Ok::<(ExprV, Lexeme, int), PErr>(
            (e, ts[k + 1], ends[k + 1]),
        ),
{
    lemma_step(b, ts, ends, k);
    if let ExprV::Int(v) = e {
        lemma_digit_bytes(v as nat);
    }
}

proof fn lemma_parse_commas(b: Seq<u8>, ts: Seq<Lexeme>, ends: Seq<int>, k: int, acc: Seq<ExprV>, xs: Seq<ExprV>)
    requires
        all_ok(ts),
        lexes_to(b, ts, ends),
        holds_at(ts, k, comma_toks(xs)),
        k + comma_toks(xs).len() < ts.len(),
        ts[k + comma_toks(xs).len()] == Lexeme::RParen,
        forall|i: int| 0 <= i < xs.len() ==> expr_ok(#[trigger] xs[i]),
    ensures
        args_spec(b, acc, ts[k], ends[k]) == Ok::<
            (Seq<ExprV>, Lexeme, int),
            PErr,
        >((acc + xs, ts[k + comma_toks(xs).len()], ends[k + comma_toks(xs).len()])),
    decreases xs.len(),
{
    if xs.len() == 0 {
        assert(acc + xs =~= acc);
    } else {
        let r = xs.drop_first();
        let h = seq![Lexeme::Comma, arg_tok(xs[0])];
        lemma_holds_split(ts, k, h, comma_toks(r));
        assert(ts[k] == h[0]);
        assert(ts[k + 1] == h[1]);
        lemma_step(b, ts, ends, k);
        lemma_parse_expr(b, ts, ends, k + 1, xs[0]);
        lemma_ends_grow(b, ts, ends, k, k + 2);
        assert forall|i: int| 0 <= i < r.len() implies expr_ok(#[trigger] r[i]) by {
            assert(r[i] == xs[i + 1]);
        }
        lemma_parse_commas(b, ts, ends, k + 2, acc.push(xs[0]), r);
        assert(acc.push(xs[0]) + r =~= acc + xs);
    }
}

proof fn lemma_parse_log(b: Seq<u8>, ts: Seq<Lexeme>, ends: Seq<int>, k: int, args: Seq<ExprV>)
    requires
        all_ok(ts),
        lexes_to(b, ts, ends),
        holds_at(ts, k, stmt_toks(StmtV::Log(args))),
        k + stmt_toks(StmtV::Log(args)).len() < ts.len(),
        stmt_ok(StmtV::Log(args)),
    ensures
        log_spec(b, ts[k], ends[k]) == Ok::<(StmtV, Lexeme, int), PErr>(
            (
                StmtV::Log(args),
                ts[k + stmt_toks(StmtV::Log(args)).len()],
                ends[k + stmt_toks(StmtV::Log(args)).len()],
            ),
        ),
{
    let x0 = args[0];
    let r = args.drop_first();
    let ct = comma_toks(r);
    let c = ct.len() as int;
    let h = seq![Lexeme::Log, Lexeme::LParen, arg_tok(x0)];
    lemma_holds_split(ts, k, h + ct, seq![Lexeme::RParen]);
    lemma_holds_split(ts, k, h, ct);
    assert(ts[k] == h[0]);
    assert(ts[k + 1] == h[1]);
    assert(ts[k + 2] == h[2]);
    assert(ts[k + 3 + c] == seq![Lexeme::RParen][0]);
    lemma_step(b, ts, ends, k);
    lemma_step(b, ts, ends, k + 1);
    lemma_parse_expr(b, ts, ends, k + 2, x0);
    assert forall|i: int| 0 <= i < r.len() implies expr_ok(#[trigger] r[i]) by {
        assert(r[i] == args[i + 1]);
    }
    lemma_parse_commas(b, ts, ends, k + 3, seq![x0], r);
    lemma_step(b, ts, ends, k + 3 + c);
    assert(seq![x0] + r =~= args);
}

#[verifier::rlimit(40)]
proof fn lemma_parse_for(
    b: Seq<u8>,
    ts: Seq<Lexeme>,
    ends: Seq<int>,
    k: int,
    name: Seq<u8>,
    start: i32,
    end: i32,
    body: Seq<StmtV>,
)
    requires
        all_ok(ts),
        lexes_to(b, ts, ends),
        holds_at(ts, k, stmt_toks(StmtV::For { name, start, end, body })),
        k + stmt_toks(StmtV::For { name, start, end, body }).len() < ts.len(),
        stmt_ok(StmtV::For { name, start, end, body }),
    ensures
        ({
            let st = StmtV::For { name, start, end, body };
            let m = stmt_toks(st).len() as int;
            for_spec(b, ts[k], ends[k]) == Ok::<(StmtV, Lexeme, int), PErr>(
                (st, ts[k + m], ends[k + m]),
            )
        }),
    decreases body, 2int,
{
    let bt = block_toks(body);
    let n = bt.len() as int;
    let ds = digit_bytes(start as nat);
    let de = digit_bytes(end as nat);
    let h = seq![
        Lexeme::For,
        Lexeme::Ident(name),
        Lexeme::Assign,
        Lexeme::Number(ds),
        Lexeme::To,
        Lexeme::Number(de),
        Lexeme::LBrace,
    ];
    lemma_holds_split(ts, k, h + bt, seq![Lexeme::RBrace]);
    lemma_holds_split(ts, k, h, bt);
    assert(ts[k] == h[0]);
    assert(ts[k + 1] == h[1]);
    assert(ts[k + 2] == h[2]);
    assert(ts[k + 3] == h[3]);
    assert(ts[k + 4] == h[4]);
    assert(ts[k + 5] == h[5]);
    assert(ts[k + 6] == h[6]);
    assert(ts[k + 7 + n] == seq![Lexeme::RBrace][0]);
    lemma_digit_bytes(start as nat);
    lemma_digit_bytes(end as nat);
    let p = |i: int| ends[k + i];
    lemma_step(b, ts, ends, k);
    assert(expect_spec(b, ts[k], p(0), Lexeme::For, "`for`"@) == Ok::<(Lexeme, int), PErr>(
        (Lexeme::Ident(name), p(1)),
    ));
    lemma_step(b, ts, ends, k + 1);
    assert(advance(b, p(1)) == Ok::<(Lexeme, int), PErr>((Lexeme::Assign, p(2))));
    lemma_step(b, ts, ends, k + 2);
    assert(expect_spec(b, Lexeme::Assign, p(2), Lexeme::Assign, "`=`"@) == Ok::<
        (Lexeme, int),
        PErr,
    >((Lexeme::Number(ds), p(3))));
    lemma_step(b, ts, ends, k + 3);
    assert(number_spec(b, Lexeme::Number(ds), p(3)) == Ok::<(i32, Lexeme, int), PErr>(
        (start, Lexeme::To, p(4)),
    ));
    lemma_step(b, ts, ends, k + 4);
    assert(expect_spec(b, Lexeme::To, p(4), Lexeme::To, "`to`"@) == Ok::<(Lexeme, int), PErr>(
        (Lexeme::Number(de), p(5)),
    ));
    lemma_step(b, ts, ends, k + 5);
    assert(number_spec(b, Lexeme::Number(de), p(5)) == Ok::<(i32, Lexeme, int), PErr>(
        (end, Lexeme::LBrace, p(6)),
    ));
    lemma_step(b, ts, ends, k + 6);
    assert(expect_spec(b, Lexeme::LBrace, p(6), Lexeme::LBrace, "`{`"@) == Ok::<
        (Lexeme, int),
        PErr,
    >((ts[k + 7], p(7))));
    lemma_ends_grow(b, ts, ends, k, k + 7);
    lemma_parse_block(b, ts, ends, k + 7, seq![], body);
    assert(seq![] + body =~= body);
    lemma_step(b, ts, ends, k + 7 + n);
    assert(block_spec(b, seq![], ts[k + 7], p(7)) == Ok::<(Seq<StmtV>, Lexeme, int), PErr>(
        (body, Lexeme::RBrace, p(7 + n)),
    ));
    assert(expect_spec(b, Lexeme::RBrace, p(7 + n), Lexeme::RBrace, "`}`"@) == Ok::<
        (Lexeme, int),
        PErr,
    >((ts[k + 8 + n], p(8 + n))));
}

#[verifier::rlimit(100)]
proof fn lemma_parse_stmt(b: Seq<u8>, ts: Seq<Lexeme>, ends: Seq<int>, k: int, st: StmtV)
    requires
        all_ok(ts),
        lexes_to(b, ts, ends),
        holds_at(ts, k, stmt_toks(st)),
        k + stmt_toks(st).len() < ts.len(),
        stmt_ok(st),
    ensures
        stmt_spec(b, ts[k], ends[k]) == Ok::<(StmtV, Lexeme, int), PErr>(
            (st, ts[k + stmt_toks(st).len()], ends[k + stmt_toks(st).len()]),
        ),
    decreases st, 3int,
{
    match st {
        StmtV::Log(args) => {
            assert(ts[k] == stmt_toks(st)[0]);
            lemma_parse_log(b, ts, ends, k, args);
        },
        StmtV::For { name, start, end, body } => {
            assert(ts[k] == stmt_toks(st)[0]);
            lemma_parse_for(b, ts, ends, k, name, start, end, body);
        },
    }
}

proof fn lemma_parse_block(b: Seq<u8>, ts: Seq<Lexeme>, ends: Seq<int>, k: int, acc: Seq<StmtV>, ss: Seq<StmtV>)
    requires
        all_ok(ts),
        lexes_to(b, ts, ends),
        holds_at(ts, k, block_toks(ss)),
        k + block_toks(ss).len() < ts.len(),
        ts[k + block_toks(ss).len()] == Lexeme::RBrace,
        block_ok(ss),
    ensures
        block_spec(b, acc, ts[k], ends[k]) == Ok::<
            (Seq<StmtV>, Lexeme, int),
            PErr,
        >((acc + ss, Lexeme::RBrace, ends[k + block_toks(ss).len()])),
    decreases ss, 0int,
{
    if ss.len() == 0 {
        assert(acc + ss =~= acc);
    } else {
        let rest = ss.subrange(1, ss.len() as int);
        let a = stmt_toks(ss[0]);
        lemma_holds_split(ts, k, a, block_toks(rest));
        lemma_stmt_toks_ok(ss[0]);
        assert(ts[k] == a[0]);
        assert(ts[k] != Lexeme::RBrace) by {
            match ss[0] {
                StmtV::Log(_) => {},
                StmtV::For { .. } => {},
            }
        }
        lemma_parse_stmt(b, ts, ends, k, ss[0]);
        lemma_ends_grow(b, ts, ends, k, k + a.len());
        lemma_parse_block(b, ts, ends, k + a.len(), acc.push(ss[0]), rest);
        assert(acc.push(ss[0]) + rest =~= acc + ss);
    }
}

/// Parsing any text that the lexer reads as the tokens of a well-formed program, whatever
/// the spaces, tabs and line breaks between them, gives back that program: every statement,
/// at every depth of nesting, in order.
pub proof fn lemma_layout_round_trip(b: Seq<u8>, p: Seq<StmtV>, ends: Seq<int>)
    requires
        block_ok(p),
        lexes_to(b, program_toks(p), ends),
    ensures
        parse_source(b) == Ok::<Seq<StmtV>, PErr>(p),
{
    let ts = program_toks(p);
    let h = seq![Lexeme::Fn, Lexeme::Main, Lexeme::LParen, Lexeme::RParen, Lexeme::LBrace];
    let bt = block_toks(p);
    let n = bt.len() as int;
    lemma_block_toks_ok(p);
    assert(all_ok(h));
    assert(all_ok(seq![Lexeme::RBrace]));
    lemma_all_ok_concat(h, bt);
    lemma_all_ok_concat(h + bt, seq![Lexeme::RBrace]);
    assert(holds_at(ts, 0, ts)) by {
        assert forall|i: int| 0 <= i < ts.len() implies ts[0 + i] == #[trigger] ts[i] by {}
    }
    lemma_holds_split(ts, 0, h + bt, seq![Lexeme::RBrace]);
    lemma_holds_split(ts, 0, h, bt);
    assert(ts[0] == h[0]);
    assert(ts[1] == h[1]);
    assert(ts[2] == h[2]);
    assert(ts[3] == h[3]);
    assert(ts[4] == h[4]);
    assert(ts[5 + n] == seq![Lexeme::RBrace][0]);
    lemma_step(b, ts, ends, 0);
    lemma_step(b, ts, ends, 1);
    lemma_step(b, ts, ends, 2);
    lemma_step(b, ts, ends, 3);
    lemma_step(b, ts, ends, 4);
    lemma_parse_block(b, ts, ends, 5, seq![], p);
    assert(seq![] + p =~= p);
    assert(ts.len() == 6 + n);
    assert(skip_spaces(b, b.len() as int) == b.len());
}

/// The canonical source text of a program: the lexer reads it as the program's tokens.
proof fn lemma_render_lexes_to(ts: Seq<Lexeme>)
    requires
        ts.len() > 0,
        all_ok(ts),
    ensures
        lexes_to(render(ts), ts, Seq::new(ts.len(), |k: int| tok_end(ts, k))),
{
    let b = render(ts);
    let ends = Seq::new(ts.len(), |k: int| tok_end(ts, k));
    lemma_render_lexes(ts, 0);
    assert forall|k: int| 0 <= k < ts.len() - 1 implies #[trigger] lex_step(b, ends[k])
        == Step::Tok(ts[k + 1], ends[k + 1]) by {
        lemma_render_lexes(ts, k + 1);
    }
    lemma_render_ends(ts);
    assert forall|i: int, j: int| 0 <= i < j < ts.len() implies #[trigger] ends[i]
        < #[trigger] ends[j] by {
        lemma_tok_end_grows(ts, i, j);
    }
    assert forall|k: int| 0 <= k < ts.len() implies #[trigger] ends[k] <= b.len() by {
        lemma_tok_end_grows(ts, k, k);
    }
}

/// Parsing the canonical source text of a well-formed program gives back that program.
pub proof fn lemma_source_round_trip(p: Seq<StmtV>)
    requires
        block_ok(p),
    ensures
        parse_source(program_source(p)) == Ok::<Seq<StmtV>, PErr>(p),
{
    let ts = program_toks(p);
    let h = seq![Lexeme::Fn, Lexeme::Main, Lexeme::LParen, Lexeme::RParen, Lexeme::LBrace];
    let bt = block_toks(p);
    lemma_block_toks_ok(p);
    assert(all_ok(h));
    assert(all_ok(seq![Lexeme::RBrace]));
    lemma_all_ok_concat(h, bt);
    lemma_all_ok_concat(h + bt, seq![Lexeme::RBrace]);
    lemma_render_lexes_to(ts);
    lemma_layout_round_trip(render(ts), p, Seq::new(ts.len(), |k: int| tok_end(ts, k)));
}

} // verus!
