use ownpy::common::LiteralValue;
use ownpy::environment::Environment;
use ownpy::interpreter::Interpreter;
use ownpy::parser::Parser;
use ownpy::scanner::Scanner;

/// Runs a source text on `interp`: the lines printed, and the runtime error
/// message if one stopped it.
fn run_on(interp: &mut Interpreter, source: &str) -> (Vec<String>, Option<String>) {
    let tokens = Scanner::new(source.to_string()).scan_tokens().expect("scans");
    let mut parser = Parser::new(tokens);
    let statements = parser.parse();
    assert!(parser.errors().is_empty(), "parse errors in {:?}", source);
    let result = interp.interpret(statements);
    (interp.take_output(), result.err().map(|e| e.message))
}

fn run(source: &str) -> (Vec<String>, Option<String>) {
    run_on(&mut Interpreter::default(), source)
}

fn lines(v: &[&str]) -> Vec<String> {
    v.iter().map(|s| s.to_string()).collect()
}

#[test]
fn arithmetic_precedence() {
    assert_eq!(run("print 1 + 2 * 3;"), (lines(&["7"]), None));
}

#[test]
fn string_concatenation() {
    assert_eq!(run("var a = \"hi\"; var b = \"!\"; print a + b;"), (lines(&["hi!"]), None));
}

#[test]
fn var_without_initializer_is_undefined() {
    assert_eq!(
        run("var x; print x;"),
        (vec![], Some("Undefined variable 'x'.".to_string()))
    );
}

#[test]
fn block_scope_ends_with_block() {
    assert_eq!(
        run("{ var x = 10; } print x;"),
        (vec![], Some("Undefined variable 'x'.".to_string()))
    );
}

#[test]
fn comparison_equals_negation() {
    assert_eq!(run("print (1 < 2) == !false;"), (lines(&["true"]), None));
}

#[test]
fn string_plus_integer_is_invalid() {
    assert_eq!(run("print \"a\" + 1;"), (vec![], Some("Invalid operator".to_string())));
}

#[test]
fn nested_blocks_shadow() {
    assert_eq!(
        run("{ var x = 1; { var x = 2; print x; } print x; }"),
        (lines(&["2", "1"]), None)
    );
}

#[test]
fn integer_division_by_zero() {
    assert_eq!(run("print 1 / 0;"), (vec![], Some("Division by zero".to_string())));
}

#[test]
fn integer_division_truncates() {
    assert_eq!(run("print 7 / 2; print -7 / 2; print 7 / -2;"), (lines(&["3", "-3", "-3"]), None));
}

#[test]
fn integer_overflow() {
    assert_eq!(
        run("print 9223372036854775807 + 1;"),
        (vec![], Some("Integer overflow".to_string()))
    );
    assert_eq!(
        run("print -9223372036854775807 - 1;"),
        (lines(&["-9223372036854775808"]), None)
    );
    assert_eq!(
        run("print (-9223372036854775807 - 1) / -1;"),
        (vec![], Some("Integer overflow".to_string()))
    );
}

#[test]
fn var_then_print_matches_print() {
    let (a, ea) = run("var x = (4 - 1) * 5 == 15; print x;");
    let (b, eb) = run("print (4 - 1) * 5 == 15;");
    assert_eq!(a, b);
    assert_eq!(ea, eb);
    assert_eq!(a, lines(&["true"]));
}

#[test]
fn same_program_same_output() {
    let program = "var a = 2; { var b = a * 3; a = b; } print a; print \"x\" + \"y\";";
    let (first, e1) = run(program);
    let (second, e2) = run(program);
    assert_eq!(first, second);
    assert_eq!(e1, e2);
    assert_eq!(first, lines(&["6", "xy"]));
}

#[test]
fn assignment_reaches_enclosing_scope() {
    assert_eq!(run("var a = 1; { a = 2; } print a;"), (lines(&["2"]), None));
}

#[test]
fn assignment_yields_value() {
    assert_eq!(run("var a = 1; var b = 0; print b = a = 5; print a;"), (lines(&["5", "5"]), None));
}

#[test]
fn assignment_to_undefined_fails() {
    assert_eq!(
        run("y = 1;"),
        (vec![], Some("Undefined variable 'y'.".to_string()))
    );
}

#[test]
fn truthiness() {
    assert_eq!(
        run("print !nil; print !0; print !\"\"; print !false; print !1; print !\"a\"; print !true;"),
        (lines(&["true", "true", "true", "true", "false", "false", "false"]), None)
    );
}

#[test]
fn negation_of_non_number() {
    assert_eq!(run("print -\"a\";"), (vec![], Some("Invalid data type for -".to_string())));
    assert_eq!(run("print -5; print --5;"), (lines(&["-5", "5"]), None));
}

#[test]
fn equality_across_kinds() {
    assert_eq!(
        run("print 1 == \"1\"; print nil == nil; print nil == false; print \"a\" != \"b\"; print 2 == 2;"),
        (lines(&["false", "true", "false", "true", "true"]), None)
    );
}

#[test]
fn comparisons() {
    assert_eq!(
        run("print 1 < 2; print 2 <= 2; print 3 > 4; print 4 >= 5;"),
        (lines(&["true", "true", "false", "false"]), None)
    );
    assert_eq!(run("print \"a\" < \"b\";"), (vec![], Some("Invalid operator".to_string())));
}

#[test]
fn bitwise_operators_are_rejected() {
    assert_eq!(run("print 1 & 2;"), (vec![], Some("Invalid operator".to_string())));
}

#[test]
fn nil_prints_empty_line() {
    assert_eq!(run("print nil;"), (lines(&[""]), None));
}

#[test]
fn error_stops_the_rest() {
    assert_eq!(
        run("print 1; print z; print 2;"),
        (lines(&["1"]), Some("Undefined variable 'z'.".to_string()))
    );
}

#[test]
fn error_inside_block_restores_scope() {
    let mut interp = Interpreter::default();
    let (_, err) = run_on(&mut interp, "var a = 1; { var a = 2; print q; }");
    assert_eq!(err, Some("Undefined variable 'q'.".to_string()));
    assert_eq!(run_on(&mut interp, "print a;"), (lines(&["1"]), None));
}

#[test]
fn bindings_persist_across_inputs() {
    let mut interp = Interpreter::default();
    assert_eq!(run_on(&mut interp, "var a = 40;"), (vec![], None));
    assert_eq!(run_on(&mut interp, "a = a + 2;"), (vec![], None));
    assert_eq!(run_on(&mut interp, "print a;"), (lines(&["42"]), None));
}

#[test]
fn value_display() {
    assert_eq!(LiteralValue::Integer(-120).to_string(), "-120");
    assert_eq!(LiteralValue::Integer(i64::MIN).to_string(), "-9223372036854775808");
    assert_eq!(LiteralValue::Bool(false).to_string(), "false");
    assert_eq!(LiteralValue::Str("s t".to_string()).to_string(), "s t");
    assert_eq!(LiteralValue::Nil.to_string(), "");
}

#[test]
fn evaluator_helpers() {
    let interp = Interpreter::default();
    assert!(interp.is_equal(&LiteralValue::Integer(3), &LiteralValue::Integer(3)));
    assert!(!interp.is_equal(&LiteralValue::Integer(3), &LiteralValue::Str("3".to_string())));
    assert!(!interp.is_truthy(&LiteralValue::Integer(0)));
    assert!(interp.is_truthy(&LiteralValue::Str("0".to_string())));
    let _ = Environment::default();
}

#[test]
fn execute_block_closes_its_scope() {
    let tokens = Scanner::new("var y = 1; y = 5;".to_string()).scan_tokens().unwrap();
    let statements = Parser::new(tokens).parse();
    let mut interp = Interpreter::default();
    assert!(interp.execute_block(&statements).is_ok());
    assert_eq!(
        run_on(&mut interp, "print y;"),
        (vec![], Some("Undefined variable 'y'.".to_string()))
    );
}

#[test]
fn execute_block_closes_its_scope_on_error() {
    let mut interp = Interpreter::default();
    assert_eq!(run_on(&mut interp, "var g = 1;"), (vec![], None));
    let tokens = Scanner::new("var z = 2; g = 3; print w;".to_string()).scan_tokens().unwrap();
    let statements = Parser::new(tokens).parse();
    let err = interp.execute_block(&statements).unwrap_err();
    assert_eq!(err.message, "Undefined variable 'w'.");
    assert_eq!(run_on(&mut interp, "print g;"), (lines(&["3"]), None));
    assert_eq!(
        run_on(&mut interp, "print z;"),
        (vec![], Some("Undefined variable 'z'.".to_string()))
    );
}
