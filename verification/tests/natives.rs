use minischeme::lexer::{Lexer, Token};
use minischeme::native::{execute_native, lookup_native, NativeFn};
use minischeme::value::Value;
use minischeme::vm::VmError;

#[test]
fn addition_adds_two_numbers() {
    let args = vec![Value::Number(2), Value::Number(40)];
    assert_eq!(
        execute_native(NativeFn::Add, &args),
        Ok((Value::Number(42), None))
    );
}

#[test]
fn addition_rejects_wrong_arity() {
    let args = vec![Value::Number(2)];
    assert_eq!(execute_native(NativeFn::Add, &args), Err(VmError::ArityMismatch));
}

#[test]
fn addition_rejects_non_numbers() {
    let args = vec![Value::Null, Value::Number(1)];
    assert_eq!(execute_native(NativeFn::Add, &args), Err(VmError::TypeMismatch));
}

#[test]
fn addition_rejects_overflow() {
    let args = vec![Value::Number(usize::MAX), Value::Number(1)];
    assert_eq!(execute_native(NativeFn::Add, &args), Err(VmError::TypeMismatch));
}

#[test]
fn print_emits_its_argument_and_returns_eof() {
    let args = vec![Value::String("hi".to_string())];
    assert_eq!(
        execute_native(NativeFn::Print, &args),
        Ok((Value::Eof, Some(Value::String("hi".to_string()))))
    );
}

#[test]
fn registry_knows_plus_and_display_only() {
    assert_eq!(lookup_native(&"+".to_string()), Some(NativeFn::Add));
    assert_eq!(lookup_native(&"display".to_string()), Some(NativeFn::Print));
    assert_eq!(lookup_native(&"-".to_string()), None);
    assert_eq!(lookup_native(&"displays".to_string()), None);
}

#[test]
fn tokenize_restarts_from_the_beginning() {
    let lexer = Lexer::new("(a)");
    for _ in 0..2 {
        let mut it = lexer.tokenize();
        assert_eq!(it.next(), Some(Ok(Token::Open)));
        assert_eq!(it.next(), Some(Ok(Token::Identifier("a".to_string()))));
        assert_eq!(it.next(), Some(Ok(Token::Close)));
        assert_eq!(it.next(), None);
    }
}
