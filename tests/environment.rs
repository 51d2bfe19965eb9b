use ownpy::common::{LiteralValue, Token, TokenType};
use ownpy::environment::Environment;

fn name(s: &str) -> Token {
    Token::new(TokenType::Identifier, s.to_string(), LiteralValue::Nil, 1)
}

#[test]
fn assign_then_get_when_defined() {
    let mut env = Environment::new(None);
    env.define(name("x"), LiteralValue::Integer(1));
    assert!(env.assign(name("x"), LiteralValue::Str("v".to_string())).is_ok());
    assert_eq!(env.get(name("x")).unwrap(), LiteralValue::Str("v".to_string()));
}

#[test]
fn assign_and_get_fail_when_undefined() {
    let mut env = Environment::new(None);
    let err = env.assign(name("x"), LiteralValue::Integer(1)).unwrap_err();
    assert_eq!(err.message, "Undefined variable 'x'.");
    let err = env.get(name("x")).unwrap_err();
    assert_eq!(err.message, "Undefined variable 'x'.");
}

#[test]
fn assign_updates_nearest_enclosing_scope() {
    let mut global = Environment::new(None);
    global.define(name("a"), LiteralValue::Integer(1));
    let mut inner = Environment::new(Some(Box::new(global)));
    assert!(inner.assign(name("a"), LiteralValue::Integer(2)).is_ok());
    assert_eq!(inner.get(name("a")).unwrap(), LiteralValue::Integer(2));
    inner.pop_scope();
    assert_eq!(inner.get(name("a")).unwrap(), LiteralValue::Integer(2));
}

#[test]
fn define_shadows_in_inner_scope() {
    let mut env = Environment::default();
    env.define(name("a"), LiteralValue::Integer(1));
    env.push_scope();
    env.define(name("a"), LiteralValue::Bool(true));
    assert_eq!(env.get(name("a")).unwrap(), LiteralValue::Bool(true));
    assert!(env.assign(name("a"), LiteralValue::Nil).is_ok());
    env.pop_scope();
    assert_eq!(env.get(name("a")).unwrap(), LiteralValue::Integer(1));
}

#[test]
fn define_rebinds() {
    let mut env = Environment::default();
    env.define(name("a"), LiteralValue::Integer(1));
    env.define(name("a"), LiteralValue::Integer(5));
    assert_eq!(env.get(name("a")).unwrap(), LiteralValue::Integer(5));
}

#[test]
fn global_scope_is_never_popped() {
    let mut env = Environment::default();
    env.define(name("g"), LiteralValue::Integer(9));
    env.pop_scope();
    assert_eq!(env.get(name("g")).unwrap(), LiteralValue::Integer(9));
}

