use gaufre::codegen::{generate_wat, try_generate_wat};
use gaufre::lexer::{Lexer, Token};
use gaufre::parser::{Expr, ParseError, Parser, Program, Stmt};
use gaufre::text::{push_digits, push_i32};

fn lex_all(src: &str) -> Vec<Token> {
    let mut lx = Lexer::new(src);
    let mut out = Vec::new();
    loop {
        let t = lx.next_token().expect("lexes");
        let end = matches!(t, Token::Eof);
        out.push(t);
        if end {
            return out;
        }
    }
}

fn parse(src: &str) -> Result<Program, ParseError> {
    let mut p = Parser::new(Lexer::new(src))?;
    p.parse_program()
}

fn compile(src: &str) -> String {
    let prog = parse(src).expect("parses");
    try_generate_wat(&prog).expect("fits")
}

fn count(hay: &str, needle: &str) -> usize {
    hay.matches(needle).count()
}

#[test]
fn lexes_keywords_identifiers_numbers_and_strings() {
    let toks = lex_all("fn main ( ) { log for to = , x_1 42 \"a b\" }");
    assert_eq!(toks.len(), 15);
    assert!(matches!(toks[0], Token::Fn));
    assert!(matches!(toks[1], Token::Main));
    assert!(matches!(toks[2], Token::LParen));
    assert!(matches!(toks[3], Token::RParen));
    assert!(matches!(toks[4], Token::LBrace));
    assert!(matches!(toks[5], Token::Log));
    assert!(matches!(toks[6], Token::For));
    assert!(matches!(toks[7], Token::To));
    assert!(matches!(toks[8], Token::Assign));
    assert!(matches!(toks[9], Token::Comma));
    assert!(matches!(&toks[10], Token::Ident(s) if s == "x_1"));
    assert!(matches!(&toks[11], Token::Number(s) if s == "42"));
    assert!(matches!(&toks[12], Token::Str(s) if s == "a b"));
    assert!(matches!(toks[13], Token::RBrace));
    assert!(matches!(toks[14], Token::Eof));
}

#[test]
fn keyword_prefix_is_an_identifier() {
    let toks = lex_all("fnx logs to2");
    assert!(matches!(&toks[0], Token::Ident(s) if s == "fnx"));
    assert!(matches!(&toks[1], Token::Ident(s) if s == "logs"));
    assert!(matches!(&toks[2], Token::Ident(s) if s == "to2"));
}

#[test]
fn empty_input_gives_end_of_input_again_and_again() {
    let mut lx = Lexer::new(" \t\r\n");
    assert!(matches!(lx.next_token(), Ok(Token::Eof)));
    assert!(matches!(lx.next_token(), Ok(Token::Eof)));
}

#[test]
fn string_keeps_non_ascii_text_and_backslashes() {
    let toks = lex_all("\"h\u{e9} \\n\"");
    assert!(matches!(&toks[0], Token::Str(s) if s == "h\u{e9} \\n"));
}

#[test]
fn unexpected_byte_is_reported_at_its_offset() {
    let mut lx = Lexer::new("  log # x");
    assert!(matches!(lx.next_token(), Ok(Token::Log)));
    let e = lx.next_token().unwrap_err();
    assert_eq!(e.at_byte, 6);
    assert_eq!(e.message, "caractère inattendu: 0x23");
}

#[test]
fn minus_sign_is_not_part_of_a_number() {
    let mut lx = Lexer::new("-5");
    let e = lx.next_token().unwrap_err();
    assert_eq!(e.at_byte, 0);
    assert_eq!(e.message, "caractère inattendu: 0x2D");
}

#[test]
fn non_ascii_byte_outside_a_string_is_unexpected() {
    let mut lx = Lexer::new("x \u{e9}");
    assert!(matches!(lx.next_token(), Ok(Token::Ident(_))));
    let e = lx.next_token().unwrap_err();
    assert_eq!(e.at_byte, 2);
    assert_eq!(e.message, "caractère inattendu: 0xC3");
}

#[test]
fn unterminated_string_is_reported_at_its_opening_quote() {
    let e = match parse("fn main(){ log(\"unterminated )") {
        Err(ParseError::Lex(e)) => e,
        other => panic!("expected a lexical error, got {:?}", other),
    };
    assert_eq!(e.at_byte, 15);
    assert_eq!(e.message, "chaine non terminée");
}

#[test]
fn log_without_arguments_is_a_parse_error() {
    match parse("fn main(){ log() }") {
        Err(ParseError::Unexpected { found: Token::RParen, expected }) => {
            assert_eq!(expected, "une expression (string | ident | int)");
        }
        other => panic!("expected an unexpected-token error, got {:?}", other),
    }
}

#[test]
fn parses_nested_structure() {
    let prog = parse(
        "fn main() { log(\"a\", x, 7) for i = 1 to 3 { for j = 0 to 2 { log(i, j) } log(\"b\") } }",
    )
    .unwrap();
    assert_eq!(prog.stmts.len(), 2);
    match &prog.stmts[0] {
        Stmt::Log(args) => {
            assert_eq!(args.len(), 3);
            assert!(matches!(&args[0], Expr::Str(s) if s == "a"));
            assert!(matches!(&args[1], Expr::Var(s) if s == "x"));
            assert!(matches!(args[2], Expr::Int(7)));
        }
        _ => panic!("expected a log"),
    }
    match &prog.stmts[1] {
        Stmt::For { name, start, end, body } => {
            assert_eq!(name, "i");
            assert_eq!((*start, *end), (1, 3));
            assert_eq!(body.len(), 2);
            match &body[0] {
                Stmt::For { name, body, .. } => {
                    assert_eq!(name, "j");
                    assert_eq!(body.len(), 1);
                }
                _ => panic!("expected a nested for"),
            }
            assert!(matches!(&body[1], Stmt::Log(a) if a.len() == 1));
        }
        _ => panic!("expected a for"),
    }
}

#[test]
fn empty_main_parses_to_no_statements() {
    assert_eq!(parse("fn main(){}").unwrap().stmts.len(), 0);
}

#[test]
fn trailing_tokens_after_main_are_rejected() {
    match parse("fn main(){} log") {
        Err(ParseError::Unexpected { found: Token::Log, expected }) => {
            assert_eq!(expected, "fin de fichier")
        }
        other => panic!("unexpected result {:?}", other),
    }
}

#[test]
fn missing_closing_brace_is_rejected() {
    match parse("fn main(){ log(1)") {
        Err(ParseError::Unexpected { found: Token::Eof, expected }) => {
            assert_eq!(expected, "`log` ou `for`")
        }
        other => panic!("unexpected result {:?}", other),
    }
}

#[test]
fn integer_limits() {
    let prog = parse("fn main(){ log(2147483647) for i = 0 to 2147483647 { } }").unwrap();
    assert!(matches!(&prog.stmts[0], Stmt::Log(a) if matches!(a[0], Expr::Int(2147483647))));
    match parse("fn main(){ log(2147483648) }") {
        Err(ParseError::IntOverflow(s)) => assert_eq!(s, "2147483648"),
        other => panic!("unexpected result {:?}", other),
    }
    match parse("fn main(){ for i = 99999999999999999999999 to 1 { } }") {
        Err(ParseError::IntOverflow(s)) => assert_eq!(s, "99999999999999999999999"),
        other => panic!("unexpected result {:?}", other),
    }
}

#[test]
fn for_needs_an_identifier() {
    match parse("fn main(){ for 1 = 1 to 2 { } }") {
        Err(ParseError::Unexpected { found: Token::Number(n), expected }) => {
            assert_eq!(n, "1");
            assert_eq!(expected, "identifiant");
        }
        other => panic!("unexpected result {:?}", other),
    }
}

#[test]
fn single_log_scenario() {
    let wat = compile("fn main(){ log(\"hi\") }");
    assert_eq!(count(&wat, "(data "), 2);
    assert!(wat.contains("  (data (i32.const 0) \"console.log\")\n"));
    assert!(wat.contains("  (data (i32.const 16) \"\\\"hi\\\"\")\n"));
    assert_eq!(count(&wat, "call $invoke"), 1);
    assert!(wat.contains("    i32.const 16\n    i32.const 4\n    memory.copy\n"));
    assert!(wat.starts_with("(module\n"));
    assert!(wat.ends_with("  )\n)\n"));
}

#[test]
fn repeated_literal_is_stored_once() {
    let wat = compile("fn main(){ log(\"x\") log(\"x\") }");
    assert_eq!(count(&wat, "call $invoke"), 2);
    assert_eq!(count(&wat, "(data "), 2);
    assert_eq!(count(&wat, "    i32.const 16\n    i32.const 3\n    memory.copy\n"), 2);
}

#[test]
fn segments_start_on_sixteen_byte_boundaries() {
    let wat = compile("fn main(){ log(\"hi\", \"a much longer literal text\", \"z\") }");
    assert!(wat.contains("(data (i32.const 16) \"\\\"hi\\\"\")"));
    assert!(wat.contains("(data (i32.const 32) \"\\\"a much longer literal text\\\"\")"));
    assert!(wat.contains("(data (i32.const 64) \"\\\"z\\\"\")"));
    assert_eq!(count(&wat, "i32.const 44  ;; ','"), 2);
}

#[test]
fn literal_is_json_quoted_then_escaped_for_the_module() {
    let wat = compile("fn main(){ log(\"a\\b\") }");
    // JSON form: "a\\b" (6 bytes); in the module each quote and backslash is escaped again.
    assert!(wat.contains("(data (i32.const 16) \"\\\"a\\\\\\\\b\\\"\")"));
    assert!(wat.contains("    i32.const 16\n    i32.const 6\n    memory.copy\n"));
}

#[test]
fn control_and_non_ascii_bytes_in_literals() {
    let wat = compile("fn main(){ log(\"\t\u{e9}\") }");
    // serde_json escapes the tab as \t and keeps the UTF-8 bytes; the module escapes those bytes.
    assert!(wat.contains("(data (i32.const 16) \"\\\"\\\\t\\c3\\a9\\\"\")"));
}

#[test]
fn loop_scenario() {
    let wat = compile("fn main(){ for i = 1 to 3 { log(i) } }");
    assert_eq!(count(&wat, "call $invoke"), 1);
    assert_eq!(count(&wat, "(data "), 1);
    assert!(wat.contains("    (local $.pos i32)\n    (local $i i32)\n"));
    assert!(wat.contains(
        "    i32.const 1\n    local.set $i\n    block $exit\n    loop $loop\n    local.get $i\n    i32.const 3\n    i32.gt_s\n    br_if $exit\n"
    ));
    assert!(wat.contains("    local.get $i\n    i32.const 512\n    local.get $.pos\n    i32.add\n    call $i32_to_json\n"));
    assert!(wat.contains("    call $invoke\n    drop\n    local.get $i\n    i32.const 1\n    i32.add\n    local.set $i\n    br $loop\n    end\n    end\n"));
    assert!(wat.contains("(func $i32_to_json"));
}

#[test]
fn loop_variables_share_one_slot_per_name() {
    let wat = compile(
        "fn main(){ for i = 1 to 2 { for i = 3 to 4 { log(i) } } for j = 0 to 0 { } for i = 5 to 6 { } }",
    );
    let main = &wat[wat.find("(func (export \"main\")").unwrap()..];
    assert_eq!(count(main, "(local $i i32)"), 1);
    assert_eq!(count(main, "(local $j i32)"), 1);
    assert!(wat.contains("    (local $.pos i32)\n    (local $i i32)\n    (local $j i32)\n"));
    assert_eq!(count(&wat, "loop $loop"), 4);
}

#[test]
fn integer_arguments_are_formatted_by_the_routine() {
    let wat = compile("fn main(){ log(0, 2147483647) }");
    assert!(wat.contains("    ;; int 0\n    i32.const 0\n    i32.const 512\n"));
    assert!(wat.contains("    i32.const 2147483647\n    i32.const 512\n"));
    assert_eq!(count(&wat, "call $i32_to_json"), 2);
}

#[test]
fn empty_program_gives_an_empty_entry_routine() {
    let wat = compile("fn main(){ }");
    assert!(wat.ends_with("  (func (export \"main\")\n    (local $.pos i32)\n  )\n)\n"));
    assert_eq!(count(&wat, "(data "), 1);
}

#[test]
fn generate_and_try_generate_agree() {
    let prog = parse("fn main(){ log(\"q\", 5) for k = 2 to 1 { log(k) } }").unwrap();
    assert_eq!(Some(generate_wat(&prog)), try_generate_wat(&prog));
}

#[test]
fn decimal_text_of_extremes() {
    let mut s = String::new();
    push_i32(&mut s, 0);
    assert_eq!(s, "0");
    let mut s = String::new();
    push_i32(&mut s, i32::MIN);
    assert_eq!(s, "-2147483648");
    let mut s = String::new();
    push_i32(&mut s, -7);
    assert_eq!(s, "-7");
    let mut s = String::new();
    push_digits(&mut s, 1234567890);
    assert_eq!(s, "1234567890");
}

#[test]
fn decimal_text_reads_back() {
    for v in [0, 1, -1, 9, 10, -10, 99, 100, 12345, -67890, i32::MAX, i32::MIN + 1, i32::MIN] {
        let mut s = String::new();
        push_i32(&mut s, v);
        assert_eq!(s.parse::<i32>().unwrap(), v);
        assert_eq!(s, v.to_string());
    }
}

#[test]
fn canonical_text_parses_back_to_its_program() {
    let prog = parse(
        "fn main ( ) { log ( \"s t\" , v , 12 ) for a = 0 to 9 { for b = 3 to 3 { log ( b ) } } log ( 0 ) } ",
    )
    .unwrap();
    assert_eq!(prog.stmts.len(), 3);
    match &prog.stmts[1] {
        Stmt::For { name, start, end, body } => {
            assert_eq!((name.as_str(), *start, *end), ("a", 0, 9));
            assert_eq!(body.len(), 1);
            match &body[0] {
                Stmt::For { name, start, end, body } => {
                    assert_eq!((name.as_str(), *start, *end), ("b", 3, 3));
                    assert!(matches!(&body[0], Stmt::Log(a) if matches!(&a[0], Expr::Var(v) if v == "b")));
                }
                _ => panic!("expected a nested for"),
            }
        }
        _ => panic!("expected a for"),
    }
    assert!(matches!(&prog.stmts[2], Stmt::Log(a) if matches!(a[0], Expr::Int(0))));
}

#[test]
fn loop_bounds_are_tested_before_each_run() {
    let wat = compile("fn main(){ for k = 5 to 2 { log(k) } for m = 7 to 7 { log(m) } }");
    assert!(wat.contains(
        "    i32.const 5\n    local.set $k\n    block $exit\n    loop $loop\n    local.get $k\n    i32.const 2\n    i32.gt_s\n    br_if $exit\n"
    ));
    assert!(wat.contains(
        "    i32.const 7\n    local.set $m\n    block $exit\n    loop $loop\n    local.get $m\n    i32.const 7\n    i32.gt_s\n    br_if $exit\n"
    ));
    assert_eq!(count(&wat, "call $invoke"), 2);
}

#[test]
fn lexical_error_converts_into_a_parse_error() {
    let e = gaufre::lexer::LexError { message: "m".to_string(), at_byte: 3 };
    match ParseError::from(e) {
        ParseError::Lex(e) => assert_eq!((e.message.as_str(), e.at_byte), ("m", 3)),
        other => panic!("unexpected {:?}", other),
    }
}

#[test]
fn lexer_error_through_the_parser_keeps_its_offset() {
    match parse("fn main(){ log(1) } $") {
        Err(ParseError::Lex(e)) => {
            assert_eq!(e.at_byte, 20);
            assert_eq!(e.message, "caractère inattendu: 0x24");
        }
        other => panic!("unexpected result {:?}", other),
    }
}

#[test]
fn loop_up_to_the_largest_bound_leaves_before_wrapping() {
    let wat = compile("fn main(){ for i = 2147483646 to 2147483647 { log(i) } for j = 0 to 5 { } }");
    assert!(wat.contains(
        "    drop\n    local.get $i\n    i32.const 2147483647\n    i32.eq\n    br_if $exit\n    local.get $i\n    i32.const 1\n    i32.add\n"
    ));
    // Only that bound gets the extra test.
    assert_eq!(count(&wat, "i32.eq\n"), 1);
    assert!(wat.contains(
        "    br_if $exit\n    local.get $j\n    i32.const 1\n    i32.add\n    local.set $j\n    br $loop\n"
    ));
}

#[test]
fn nested_loops_sharing_a_name_share_the_slot() {
    let wat = compile("fn main(){ for i = 1 to 3 { for i = 1 to 2 { log(i) } } }");
    let main = &wat[wat.find("(func (export \"main\")").unwrap()..];
    assert_eq!(count(main, "(local $i i32)"), 1);
    assert_eq!(count(main, "loop $loop"), 2);
    assert_eq!(count(main, "local.set $i\n"), 4);
    assert_eq!(count(main, "i32.gt_s\n    br_if $exit\n"), 2);
}

#[test]
fn token_and_tree_derives() {
    let t = Token::Ident("a".to_string());
    assert_eq!(t.clone(), t);
    assert_ne!(t, Token::Ident("b".to_string()));
    let prog = parse("fn main(){ for i = 1 to 2 { log(i, \"s\") } }").unwrap();
    let copy = prog.clone();
    assert_eq!(format!("{:?}", copy), format!("{:?}", prog));
}

#[test]
fn loop_variable_named_pos_keeps_the_cursor_apart() {
    let wat = compile("fn main(){ for pos = 1 to 2 { log(pos, \"a\") } }");
    let main = &wat[wat.find("(func (export \"main\")").unwrap()..];
    assert!(main.contains("    (local $.pos i32)\n    (local $pos i32)\n"));
    assert!(main.contains("    local.get $pos\n    i32.const 512\n    local.get $.pos\n"));
}

#[test]
fn control_byte_gets_a_unicode_escape() {
    let wat = compile("fn main(){ log(\"\u{1}\") }");
    // JSON form: "\u0001" (8 bytes).
    assert!(wat.contains("(data (i32.const 16) \"\\\"\\\\u0001\\\"\")"));
    assert!(wat.contains("    i32.const 16\n    i32.const 8\n    memory.copy\n"));
}

#[test]
fn any_whitespace_layout_parses_the_same() {
    let a = parse("fn main(){for i=1 to 2{log(i,\"x\")}log(3)}").unwrap();
    let b = parse("\n\tfn\r\nmain (\t) {\n  for i = 1 to 2 {\n\tlog( i ,\"x\" )\n  }\n  log(3)\n}\n").unwrap();
    assert_eq!(format!("{:?}", a), format!("{:?}", b));
    assert_eq!(a.stmts.len(), 2);
}
