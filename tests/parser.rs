use ownpy::common::{Expr, LiteralValue, Statement, Token, TokenType};
use ownpy::parser::Parser;
use ownpy::scanner::Scanner;
use ownpy::utils::ast_print;

fn parse(source: &str) -> (Vec<Statement>, Vec<String>) {
    let tokens = Scanner::new(source.to_string()).scan_tokens().expect("scans");
    let mut parser = Parser::new(tokens);
    let statements = parser.parse();
    let errors = parser.errors().iter().map(|e| e.report()).collect();
    (statements, errors)
}

fn expr_text(stmt: &Statement) -> String {
    let expr = match stmt {
        Statement::Print { expr } | Statement::Expr { expr } => expr.clone(),
        Statement::Var { expr, .. } => expr.clone(),
        Statement::Block { .. } => panic!("a block has no expression"),
    };
    let mut out = String::new();
    ast_print(&mut out, Box::new(expr));
    out
}

#[test]
fn parse_precedence() {
    let (stmts, errors) = parse("1 + 2 * 3;");
    assert!(errors.is_empty());
    assert_eq!(stmts.len(), 1);
    assert_eq!(expr_text(&stmts[0]), "( +1( *23))");
}

#[test]
fn parse_left_associative() {
    let (stmts, _) = parse("print 8 - 4 - 2;");
    assert_eq!(expr_text(&stmts[0]), "( -( -84)2)");
}

#[test]
fn parse_comparison_and_equality() {
    let (stmts, _) = parse("(1 < 2) == !false;");
    assert_eq!(expr_text(&stmts[0]), "( ==( group ( <12))( !false))");
}

#[test]
fn parse_bitwise_between_comparison_and_term() {
    let (stmts, _) = parse("1 < 2 & 3 + 4;");
    assert_eq!(expr_text(&stmts[0]), "( <1( &2( +34)))");
}

#[test]
fn parse_assignment_right_associative() {
    let (stmts, errors) = parse("a = b = 3;");
    assert!(errors.is_empty());
    assert_eq!(expr_text(&stmts[0]), "var(a=var(b=3))");
}

#[test]
fn parse_invalid_assignment_target() {
    let (stmts, errors) = parse("1 = 2;");
    assert_eq!(stmts.len(), 1);
    assert_eq!(expr_text(&stmts[0]), "1");
    assert_eq!(errors, vec!["[line 1] Error at '=': Invalid assignment target".to_string()]);
}

#[test]
fn parse_var_without_initializer() {
    let (stmts, errors) = parse("var x;");
    assert!(errors.is_empty());
    match &stmts[0] {
        Statement::Var { name, expr } => {
            assert_eq!(name.lexeme, "x");
            assert!(matches!(expr, Expr::Literal { value: LiteralValue::Nil }));
        }
        _ => panic!("expected a var statement"),
    }
}

#[test]
fn parse_nested_blocks() {
    let (stmts, errors) = parse("{ var x = 1; { print x; } }");
    assert!(errors.is_empty());
    match &stmts[0] {
        Statement::Block { statements } => {
            assert_eq!(statements.len(), 2);
            assert!(matches!(statements[1], Statement::Block { .. }));
        }
        _ => panic!("expected a block"),
    }
}

#[test]
fn parse_first_declaration_fails() {
    let (stmts, errors) = parse("print 1");
    assert_eq!(stmts.len(), 1);
    assert!(matches!(
        &stmts[0],
        Statement::Expr { expr: Expr::Literal { value: LiteralValue::Nil } }
    ));
    assert_eq!(errors, vec!["[line 1] Error at end: Expected ';' after print statement".to_string()]);
}

#[test]
fn parse_recovers_at_statement_boundary() {
    let (stmts, errors) = parse("print 1;\nprint ;\nprint 2;");
    assert_eq!(stmts.len(), 2);
    assert_eq!(expr_text(&stmts[0]), "1");
    assert_eq!(expr_text(&stmts[1]), "2");
    assert_eq!(errors, vec!["[line 2] Error at ';': Expect expression.".to_string()]);
}

#[test]
fn parse_reports_each_failed_declaration() {
    let (stmts, errors) = parse("var = 1;\n(2;\nvar y = 3;");
    assert_eq!(stmts.len(), 1);
    assert!(matches!(
        &stmts[0],
        Statement::Expr { expr: Expr::Literal { value: LiteralValue::Nil } }
    ));
    assert_eq!(
        errors,
        vec![
            "[line 1] Error at '=': Expected variable name".to_string(),
            "[line 2] Error at ';': Expect ')' after expression.".to_string(),
        ]
    );
}

#[test]
fn parse_missing_right_brace() {
    let (_, errors) = parse("{ print 1;");
    assert_eq!(errors, vec!["[line 1] Error at end: Expect '}' after block.".to_string()]);
}

#[test]
fn parse_missing_semicolon_after_var() {
    let (_, errors) = parse("var a = 1 print a;");
    assert_eq!(
        errors,
        vec!["[line 1] Error at 'print': Expect ';' after variable declaration".to_string()]
    );
}

#[test]
fn parse_missing_semicolon_after_expression() {
    let (_, errors) = parse("1 + 2");
    assert_eq!(errors, vec!["[line 1] Error at end: Expected ';' after expression".to_string()]);
}

#[test]
fn parse_empty_program() {
    let (stmts, errors) = parse("");
    assert!(stmts.is_empty());
    assert!(errors.is_empty());
}

#[test]
fn ast_print_forms() {
    let name = Token::new(TokenType::Identifier, "v".to_string(), LiteralValue::Nil, 1);
    let minus = Token::new(TokenType::Minus, "-".to_string(), LiteralValue::Nil, 1);
    let expr = Expr::Assign {
        name: name.clone(),
        value: Box::new(Expr::Unary {
            operator: minus,
            right: Box::new(Expr::Grouping {
                expression: Box::new(Expr::Var { name }),
            }),
        }),
    };
    let mut out = String::from(">");
    ast_print(&mut out, Box::new(expr));
    assert_eq!(out, ">var(v=( -( group var(v))))");
}
