use minischeme::ast::{AstBuilder, AstError, Expression};
use minischeme::compiler::{Chunk, Compiler, Op};
use minischeme::lexer::{LexError, Lexer, Location, Token};
use minischeme::value::Value;
use minischeme::vm::{Vm, VmError};

fn lex_all(source: &str) -> Result<Vec<Token>, LexError> {
    let lexer = Lexer::new(source);
    let mut it = lexer.tokenize();
    let mut tokens = Vec::new();
    loop {
        match it.next() {
            None => return Ok(tokens),
            Some(Ok(t)) => tokens.push(t),
            Some(Err(e)) => return Err(e),
        }
    }
}

fn parse_all(source: &str) -> Result<Vec<Expression>, AstError> {
    let lexer = Lexer::new(source);
    let mut builder = AstBuilder::new(lexer.tokenize());
    builder.build().map(|ast| ast.into_iter())
}

fn compile_source(source: &str) -> Vec<Chunk> {
    let lexer = Lexer::new(source);
    let mut builder = AstBuilder::new(lexer.tokenize());
    let ast = builder.build().expect("parse failed");
    Compiler::new().compile(ast).expect("compile failed")
}

fn run_source(source: &str) -> Result<Vm, (Vm, VmError)> {
    let chunks = compile_source(source);
    let mut vm = Vm::new();
    for chunk in chunks.iter() {
        if let Err(e) = vm.execute(chunk, &chunks) {
            return Err((vm, e));
        }
    }
    Ok(vm)
}

#[test]
fn tokenizes_define_form_in_order() {
    let tokens = lex_all("(define x (+ 1 2))").unwrap();
    assert_eq!(
        tokens,
        vec![
            Token::Open,
            Token::Identifier("define".to_string()),
            Token::Whitespace,
            Token::Identifier("x".to_string()),
            Token::Whitespace,
            Token::Open,
            Token::Identifier("+".to_string()),
            Token::Whitespace,
            Token::Integer(1),
            Token::Whitespace,
            Token::Integer(2),
            Token::Close,
            Token::Close,
        ]
    );
}

fn token_span(t: &Token) -> String {
    match t {
        Token::Open => "(".to_string(),
        Token::Close => ")".to_string(),
        Token::Whitespace => " ".to_string(),
        Token::Boolean(true) => "#t".to_string(),
        Token::Boolean(false) => "#f".to_string(),
        Token::Identifier(s) => s.clone(),
        Token::Integer(n) => n.to_string(),
    }
}

#[test]
fn spans_reconstruct_source_with_collapsed_whitespace() {
    let source = "(define   x\t(+ 9 10))";
    let tokens = lex_all(source).unwrap();
    let rebuilt: String = tokens.iter().map(token_span).collect();
    assert_eq!(rebuilt, "(define x (+ 9 10))");
}

#[test]
fn whitespace_runs_collapse_to_one_token() {
    let tokens = lex_all("a  \t  b").unwrap();
    assert_eq!(
        tokens,
        vec![
            Token::Identifier("a".to_string()),
            Token::Whitespace,
            Token::Identifier("b".to_string()),
        ]
    );
}

#[test]
fn newline_separates_tokens_without_whitespace_token() {
    let tokens = lex_all("x\ny").unwrap();
    assert_eq!(
        tokens,
        vec![
            Token::Identifier("x".to_string()),
            Token::Identifier("y".to_string()),
        ]
    );
}

#[test]
fn boolean_literals_lex() {
    let tokens = lex_all("#t #f").unwrap();
    assert_eq!(
        tokens,
        vec![Token::Boolean(true), Token::Whitespace, Token::Boolean(false)]
    );
}

#[test]
fn bad_boolean_literal_is_unexpected_char() {
    let err = lex_all("#x").unwrap_err();
    assert_eq!(
        err,
        LexError::UnexpectedChar(Location { line: 0, column: 1 }, 'x')
    );
}

#[test]
fn hash_at_end_is_unexpected_end() {
    let err = lex_all("#").unwrap_err();
    assert_eq!(err, LexError::UnexpectedEnd(Location { line: 0, column: 1 }));
}

#[test]
fn stray_character_is_unexpected_char() {
    let err = lex_all("a ,b").unwrap_err();
    assert_eq!(
        err,
        LexError::UnexpectedChar(Location { line: 0, column: 2 }, ',')
    );
}

#[test]
fn locations_track_lines() {
    let err = lex_all("ab\ncd,").unwrap_err();
    assert_eq!(
        err,
        LexError::UnexpectedChar(Location { line: 1, column: 2 }, ',')
    );
}

#[test]
fn largest_number_lexes() {
    let tokens = lex_all("18446744073709551615").unwrap();
    assert_eq!(tokens, vec![Token::Integer(usize::MAX)]);
}

#[test]
fn too_large_number_is_overflow_error() {
    let err = lex_all("18446744073709551616").unwrap_err();
    assert_eq!(err, LexError::NumberOverflow(Location { line: 0, column: 0 }));
}

#[test]
fn parses_definition() {
    let exprs = parse_all("(define x 5)").unwrap();
    assert_eq!(
        exprs,
        vec![Expression::Definition(
            "x".to_string(),
            Box::new(Expression::StaticValue(Value::Number(5))),
        )]
    );
}

#[test]
fn parses_empty_form() {
    let exprs = parse_all("()").unwrap();
    assert_eq!(exprs, vec![Expression::Empty]);
}

#[test]
fn parses_call_with_literal_arguments() {
    let exprs = parse_all("(+ 1 2)").unwrap();
    assert_eq!(
        exprs,
        vec![Expression::Call(
            "+".to_string(),
            vec![
                Expression::StaticValue(Value::Number(1)),
                Expression::StaticValue(Value::Number(2)),
            ],
        )]
    );
}

#[test]
fn parses_nested_call_arguments() {
    let exprs = parse_all("(+ 1 (+ 2 3))").unwrap();
    assert_eq!(
        exprs,
        vec![Expression::Call(
            "+".to_string(),
            vec![
                Expression::StaticValue(Value::Number(1)),
                Expression::Call(
                    "+".to_string(),
                    vec![
                        Expression::StaticValue(Value::Number(2)),
                        Expression::StaticValue(Value::Number(3)),
                    ],
                ),
            ],
        )]
    );
}

#[test]
fn stray_close_is_unexpected_token() {
    let err = parse_all(")").unwrap_err();
    assert_eq!(err, AstError::UnexpectedToken(")".to_string()));
}

#[test]
fn unmatched_open_is_unexpected_end() {
    let err = parse_all("(").unwrap_err();
    assert_eq!(err, AstError::UnexpectedEnd);
}

#[test]
fn unmatched_open_with_content_is_unexpected_end() {
    let err = parse_all("(+ 1 2").unwrap_err();
    assert_eq!(err, AstError::UnexpectedEnd);
}

#[test]
fn define_without_body_is_unexpected_token() {
    let err = parse_all("(define x)").unwrap_err();
    assert_eq!(err, AstError::UnexpectedToken(String::new()));
}

#[test]
fn define_with_two_bodies_is_unexpected_token() {
    let err = parse_all("(define x 1 2)").unwrap_err();
    assert_eq!(err, AstError::UnexpectedToken("1".to_string()));
}

#[test]
fn call_with_number_head_is_unexpected_token() {
    let err = parse_all("(5 6)").unwrap_err();
    assert_eq!(err, AstError::UnexpectedToken("(".to_string()));
}

#[test]
fn bare_atom_at_top_level_is_unexpected_token() {
    let err = parse_all("27").unwrap_err();
    assert_eq!(err, AstError::UnexpectedToken("27".to_string()));
}

#[test]
fn lex_error_surfaces_through_parse() {
    let err = parse_all("(a ,)").unwrap_err();
    assert_eq!(
        err,
        AstError::LexError(LexError::UnexpectedChar(Location { line: 0, column: 3 }, ','))
    );
}

#[test]
fn compiles_definition_to_wrapper_and_body_chunks() {
    let chunks = compile_source("(define x 5)");
    assert_eq!(chunks.len(), 2);
    assert_eq!(chunks[0].id, 0);
    assert_eq!(
        chunks[0].code,
        vec![Op::Push(1), Op::Define("x".to_string())]
    );
    assert_eq!(chunks[1].id, 1);
    assert_eq!(chunks[1].code, vec![Op::LoadImmediate(Value::Number(5))]);
}

#[test]
fn compiles_call_arguments_in_order() {
    let chunks = compile_source("(+ 1 2)");
    assert_eq!(chunks.len(), 3);
    assert_eq!(
        chunks[0].code,
        vec![
            Op::Push(1),
            Op::Push(2),
            Op::Lookup("+".to_string()),
            Op::Call(2),
        ]
    );
    assert_eq!(chunks[1].code, vec![Op::LoadImmediate(Value::Number(1))]);
    assert_eq!(chunks[2].code, vec![Op::LoadImmediate(Value::Number(2))]);
}

#[test]
fn compiles_variable_reference() {
    let chunks = compile_source("(display x)");
    assert_eq!(chunks.len(), 2);
    assert_eq!(
        chunks[0].code,
        vec![Op::Push(1), Op::Lookup("display".to_string()), Op::Call(1)]
    );
    assert_eq!(
        chunks[1].code,
        vec![Op::Lookup("x".to_string()), Op::LoadVariable]
    );
}

#[test]
fn compiles_empty_form_to_empty_chunk() {
    let chunks = compile_source("()");
    assert_eq!(chunks.len(), 1);
    assert_eq!(chunks[0].code, Vec::<Op>::new());
}

#[test]
fn chunk_ids_are_dense_and_pushes_point_forward() {
    let chunks = compile_source("(define x (+ 1 2)) (display x)");
    for (i, chunk) in chunks.iter().enumerate() {
        assert_eq!(chunk.id, i);
        for op in chunk.code.iter() {
            if let Op::Push(t) = op {
                assert!(*t > i && *t < chunks.len());
            }
        }
    }
}

#[test]
fn end_to_end_binds_global_and_prints_once() {
    let mut vm = run_source("(define x (+ 1 2)) (display x)").unwrap();
    assert_eq!(
        vm.get_global(&"x".to_string()),
        Some(Value::Number(3))
    );
    assert_eq!(vm.take_output(), vec![Value::Number(3)]);
}

#[test]
fn unknown_callee_fails_loudly() {
    let (_, err) = run_source("(boom 1)").unwrap_err();
    assert_eq!(err, VmError::UnknownCallee("boom".to_string()));
}

#[test]
fn unbound_variable_fails() {
    let (_, err) = run_source("(display y)").unwrap_err();
    assert_eq!(err, VmError::UnboundIdentifier("y".to_string()));
}

#[test]
fn calling_a_plain_value_is_not_callable() {
    let (_, err) = run_source("(define f 1) (f 2)").unwrap_err();
    assert_eq!(err, VmError::NotCallable("f".to_string()));
}

#[test]
fn addition_arity_is_checked() {
    let (_, err) = run_source("(+ 1)").unwrap_err();
    assert_eq!(err, VmError::ArityMismatch);
}

#[test]
fn addition_wants_numbers() {
    let (_, err) = run_source("(+ #t 2)").unwrap_err();
    assert_eq!(err, VmError::TypeMismatch);
}

#[test]
fn addition_overflow_is_type_mismatch() {
    let (_, err) = run_source("(+ 18446744073709551615 1)").unwrap_err();
    assert_eq!(err, VmError::TypeMismatch);
}

#[test]
fn display_returns_eof_and_rebinding_overwrites() {
    let mut vm = run_source("(define x 1) (define x (+ x 41)) (display x)").unwrap();
    assert_eq!(vm.get_global(&"x".to_string()), Some(Value::Number(42)));
    assert_eq!(vm.take_output(), vec![Value::Number(42)]);
}

#[test]
fn empty_program_runs_cleanly() {
    let mut vm = run_source("()").unwrap();
    assert_eq!(vm.get_global(&"x".to_string()), None);
    assert_eq!(vm.take_output(), Vec::<Value>::new());
}

#[test]
fn booleans_are_values() {
    let mut vm = run_source("(define flag #t) (display flag)").unwrap();
    assert_eq!(vm.get_global(&"flag".to_string()), Some(Value::Boolean(true)));
    assert_eq!(vm.take_output(), vec![Value::Boolean(true)]);
}

#[test]
fn nested_call_arguments_evaluate() {
    let mut vm = run_source("(display (+ 1 (+ 2 3)))").unwrap();
    assert_eq!(vm.take_output(), vec![Value::Number(6)]);
}

#[test]
fn identifiers_may_contain_digits() {
    let mut vm = run_source("(define x1 5) (display x1)").unwrap();
    assert_eq!(vm.get_global(&"x1".to_string()), Some(Value::Number(5)));
    assert_eq!(vm.take_output(), vec![Value::Number(5)]);
}

#[test]
fn multi_line_program_runs() {
    let source = "
        (define x (+ 1 2))
        (display x)
    ";
    let mut vm = run_source(source).unwrap();
    assert_eq!(vm.get_global(&"x".to_string()), Some(Value::Number(3)));
    assert_eq!(vm.take_output(), vec![Value::Number(3)]);
}
