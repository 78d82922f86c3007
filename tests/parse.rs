use rackc::{parse_tokens, Keyword, Lexer, Op, Program, SyntaxError, TokenKind};

fn parse(src: &str) -> Result<Program, SyntaxError> {
    let mut l = Lexer::new(src, Some("t.rk"));
    parse_tokens(&mut l)
}

fn main_body(src: &str) -> Vec<Op> {
    let mut p = parse(src).unwrap();
    assert_eq!(p.funcs.len(), 1);
    p.funcs.remove(0).body
}

#[test]
fn parse_small_function() {
    let p = parse("\nfn main in\n  1 1 -\nend\n").unwrap();
    assert_eq!(p.funcs.len(), 1);
    assert_eq!(p.funcs[0].ident, "main");
    assert_eq!(
        p.funcs[0].body,
        vec![Op::PushInt(1), Op::PushInt(1), Op::Minus, Op::Ret(0)]
    );
}

#[test]
fn parse_arithmetic_block() {
    assert_eq!(
        main_body("fn main in 0x4 5 +  5 end"),
        vec![Op::PushInt(4), Op::PushInt(5), Op::Plus, Op::PushInt(5), Op::Ret(0)]
    );
}

#[test]
fn parse_div_and_mod_expand() {
    assert_eq!(
        main_body("fn main in 7 2 / 7 2 % true false end"),
        vec![
            Op::PushInt(7),
            Op::PushInt(2),
            Op::DivMod,
            Op::Drop,
            Op::PushInt(7),
            Op::PushInt(2),
            Op::DivMod,
            Op::Swap,
            Op::Drop,
            Op::PushInt(1),
            Op::PushInt(0),
            Op::Ret(0),
        ]
    );
}

#[test]
fn parse_divmod_operands() {
    assert_eq!(
        main_body("fn main in 10 3 divmod print print end"),
        vec![Op::PushInt(10), Op::PushInt(3), Op::DivMod, Op::Print, Op::Print, Op::Ret(0)]
    );
}

#[test]
fn parse_nested_control_flow() {
    assert_eq!(
        main_body("fn main in 0 while dup 3 < do dup print 1 + end drop end"),
        vec![
            Op::PushInt(0),
            Op::While {
                condn: vec![Op::Dup, Op::PushInt(3), Op::LessThan],
                body: vec![Op::Dup, Op::Print, Op::PushInt(1), Op::Plus],
            },
            Op::Drop,
            Op::Ret(0),
        ]
    );
    assert_eq!(
        main_body("fn main in 5 3 > if 42 print end end"),
        vec![
            Op::PushInt(5),
            Op::PushInt(3),
            Op::GreaterThan,
            Op::If(vec![Op::PushInt(42), Op::Print]),
            Op::Ret(0),
        ]
    );
}

#[test]
fn parse_binding_scope() {
    assert_eq!(
        main_body("fn main in 7 let x in x x + print end end"),
        vec![
            Op::PushInt(7),
            Op::Bind {
                count: 1,
                peek: false,
                body: vec![Op::PushBind(0), Op::PushBind(0), Op::Plus, Op::Print],
            },
            Op::Ret(0),
        ]
    );
    match parse("fn main in 7 let x in x drop end x end") {
        Err(SyntaxError::UnknownIdentifier { identifier, location }) => {
            assert_eq!(identifier, "x");
            assert_eq!(location.pos, (1, 34));
        }
        other => panic!("unexpected {:?}", other),
    }
}

#[test]
fn parse_binding_indices_count_from_innermost() {
    assert_eq!(
        main_body("fn main in 1 2 3 peek a b c in a b c ret end end"),
        vec![
            Op::PushInt(1),
            Op::PushInt(2),
            Op::PushInt(3),
            Op::Bind {
                count: 3,
                peek: true,
                body: vec![Op::PushBind(2), Op::PushBind(1), Op::PushBind(0), Op::Ret(3)],
            },
            Op::Ret(0),
        ]
    );
}

#[test]
fn parse_function_names_win_over_bindings() {
    let p = parse("fn f in end fn main in 1 let f in f end end").unwrap();
    assert_eq!(p.funcs[1].body[1], Op::Bind { count: 1, peek: false, body: vec![Op::CallFn(0)] });
}

#[test]
fn parse_calls_and_recursion() {
    let p = parse("fn sq in dup + end fn main in 6 sq print main end").unwrap();
    assert_eq!(p.funcs[0].ident, "sq");
    assert_eq!(p.funcs[1].body, vec![Op::PushInt(6), Op::CallFn(0), Op::Print, Op::CallFn(1), Op::Ret(0)]);
    assert_eq!(p.ctx.lookup, vec!["sq".to_string(), "main".to_string()]);
    assert_eq!(p.ctx.func_idents, vec!["sq".to_string(), "main".to_string()]);
    assert!(p.ctx.bindings.is_empty());
}

#[test]
fn parse_string_interning() {
    let p = parse("fn main in \"hi\\n\" puts \"yo\" puts \"hi\\n\" puts \"\\q\" \"q\" end").unwrap();
    assert_eq!(p.ctx.strings, vec!["hi\n".to_string(), "yo".to_string(), "q".to_string()]);
    assert_eq!(
        p.funcs[0].body,
        vec![
            Op::PushInt(3),
            Op::PushStrPtr(0),
            Op::Puts,
            Op::PushInt(2),
            Op::PushStrPtr(1),
            Op::Puts,
            Op::PushInt(3),
            Op::PushStrPtr(0),
            Op::Puts,
            Op::PushInt(1),
            Op::PushStrPtr(2),
            Op::PushInt(1),
            Op::PushStrPtr(2),
            Op::Ret(0),
        ]
    );
}

#[test]
fn parse_string_length_in_bytes() {
    let p = parse("fn main in \"é\\t\\0\" end").unwrap();
    assert_eq!(p.ctx.strings, vec!["é\t\0".to_string()]);
    assert_eq!(p.funcs[0].body[0], Op::PushInt(4));
}

#[test]
fn parse_char_literal() {
    assert_eq!(main_body("fn main in 'A' print end"), vec![Op::PushInt(65), Op::Print, Op::Ret(0)]);
    match parse("fn main in 'ab' end") {
        Err(SyntaxError::Generic { message, location }) => {
            assert_eq!(
                message,
                "all character literals should have a length of 1. Did you mean to use `\"`?"
            );
            assert_eq!(location.pos, (1, 12));
        }
        other => panic!("unexpected {:?}", other),
    }
}

#[test]
fn parse_error_eof() {
    match parse("fn main in 1 2") {
        Err(SyntaxError::Eof(loc)) => {
            assert_eq!(loc.pos, (1, 15));
            assert_eq!(loc.file.as_deref(), Some("t.rk"));
        }
        other => panic!("unexpected {:?}", other),
    }
}

#[test]
fn parse_error_top_level() {
    match parse("1 fn main in end") {
        Err(SyntaxError::UnexpectedTopLevel { found, location }) => {
            assert_eq!(found, TokenKind::Int(1));
            assert_eq!(location.pos, (1, 1));
        }
        other => panic!("unexpected {:?}", other),
    }
}

#[test]
fn parse_error_unexpected_token() {
    match parse("fn 1 in end") {
        Err(SyntaxError::UnexpectedToken { expected, found, .. }) => {
            assert_eq!(expected, TokenKind::Identifier);
            assert_eq!(found, TokenKind::Int(1));
        }
        other => panic!("unexpected {:?}", other),
    }
    match parse("fn main end") {
        Err(SyntaxError::UnexpectedToken { expected, found, .. }) => {
            assert_eq!(expected, TokenKind::Keyword(Keyword::In));
            assert_eq!(found, TokenKind::Keyword(Keyword::End));
        }
        other => panic!("unexpected {:?}", other),
    }
    match parse("fn main in let a 1 in end end") {
        Err(SyntaxError::UnexpectedToken { expected, found, .. }) => {
            assert_eq!(expected, TokenKind::Identifier);
            assert_eq!(found, TokenKind::Int(1));
        }
        other => panic!("unexpected {:?}", other),
    }
}

#[test]
fn parse_error_unexpected_keyword() {
    match parse("fn main in do end") {
        Err(SyntaxError::UnexpectedKeyword { kw, location }) => {
            assert_eq!(kw, Keyword::Do);
            assert_eq!(location.pos, (1, 12));
        }
        other => panic!("unexpected {:?}", other),
    }
}

#[test]
fn parse_error_nested_fn() {
    match parse("fn main in fn f in end end") {
        Err(SyntaxError::Generic { message, .. }) => {
            assert_eq!(message, "no function definitions outside of top-level");
        }
        other => panic!("unexpected {:?}", other),
    }
}

#[test]
fn parse_error_unknown_identifier() {
    match parse("fn main in nothing end") {
        Err(SyntaxError::UnknownIdentifier { identifier, .. }) => assert_eq!(identifier, "nothing"),
        other => panic!("unexpected {:?}", other),
    }
}

#[test]
fn parse_empty_source() {
    let p = parse("  \n").unwrap();
    assert!(p.funcs.is_empty());
}

#[test]
fn parse_expect_next_and_kind() {
    let mut l = Lexer::new("main in", None);
    let t = l.expect_next(TokenKind::Identifier).unwrap();
    assert_eq!(t.value, "main");
    match l.expect_next(TokenKind::Identifier) {
        Err(SyntaxError::UnexpectedToken { expected, found, location }) => {
            assert_eq!(expected, TokenKind::Identifier);
            assert_eq!(found, TokenKind::Keyword(Keyword::In));
            assert_eq!(location.pos, (1, 6));
        }
        other => panic!("unexpected {:?}", other),
    }
    match l.expect_next(TokenKind::Identifier) {
        Err(SyntaxError::Eof(location)) => assert_eq!(location.pos, (1, 8)),
        other => panic!("unexpected {:?}", other),
    }
    let mut l = Lexer::new("42", None);
    let t = l.next().unwrap();
    assert!(t.expect_kind(TokenKind::Int(42)).is_ok());
}

#[test]
fn parse_context_defines_functions() {
    let mut c = rackc::Context::new();
    c.insert_func_ident("f".to_string());
    c.insert_func_ident("g".to_string());
    c.insert_func_ident("f".to_string());
    assert_eq!(c.lookup, vec!["f".to_string(), "g".to_string()]);
    assert_eq!(c.func_idents, vec!["f".to_string(), "g".to_string(), "f".to_string()]);
}

#[test]
fn parse_string_interning_across_functions() {
    let p = parse("fn f in \"a\" puts end fn main in \"b\" puts \"a\" puts f end").unwrap();
    assert_eq!(p.ctx.strings, vec!["a".to_string(), "b".to_string()]);
    assert_eq!(p.funcs[0].body[1], Op::PushStrPtr(0));
    assert_eq!(p.funcs[1].body[1], Op::PushStrPtr(1));
    assert_eq!(p.funcs[1].body[4], Op::PushStrPtr(0));
}
