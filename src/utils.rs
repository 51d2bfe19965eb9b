use vstd::prelude::*;

use crate::common::{display_text, Expr};

verus! {

/// A decimal digit `0`-`9`.
pub open spec fn digit_char(c: char) -> bool {
    '0' <= c && c <= '9'
}

/// An ASCII letter or the underscore.
pub open spec fn alpha_char(c: char) -> bool {
    ('a' <= c && c <= 'z') || ('A' <= c && c <= 'Z') || c == '_'
}

pub open spec fn alpha_numeric_char(c: char) -> bool {
    digit_char(c) || alpha_char(c)
}

pub fn is_digit(c: char) -> (r: bool)
    ensures
        r == digit_char(c),
{
    c >= '0' && c <= '9'
}

pub fn is_alpha(c: char) -> (r: bool)
    ensures
        r == alpha_char(c),
{
    (c >= 'a' && c <= 'z') || (c >= 'A' && c <= 'Z') || c == '_'
}

pub fn is_alpha_numeric(c: char) -> (r: bool)
    ensures
        r == alpha_numeric_char(c),
{
    is_digit(c) || is_alpha(c)
}

/// The bracketed text of an expression tree: an operator node as `( op`
/// followed by its operands and `)`, a group as `( group inner)`, a literal
/// as it prints, a variable as `var(name)`, an assignment as
/// `var(name=value)`.
pub open spec fn ast_text(e: Expr) -> Seq<char>
    decreases e,
{
    match e {
        Expr::Binary { left, operator, right } => "( "@ + operator.lexeme@ + ast_text(*left)
            + ast_text(*right) + ")"@,
        Expr::Grouping { expression } => "( group "@ + ast_text(*expression) + ")"@,
        Expr::Literal { value } => display_text(value@),
        Expr::Unary { operator, right } => "( "@ + operator.lexeme@ + ast_text(*right) + ")"@,
        Expr::Var { name } => "var("@ + name.lexeme@ + ")"@,
        Expr::Assign { name, value } => "var("@ + name.lexeme@ + "="@ + ast_text(*value) + ")"@,
    }
}

/// Appends the bracketed text of `expr` to `ast_expr_str`.
pub fn ast_print(ast_expr_str: &mut String, expr: Box<Expr>)
    ensures
        final(ast_expr_str)@ == old(ast_expr_str)@ + ast_text(*expr),
    decreases expr,
{
    let ghost e = *expr;
    match *expr {
        Expr::Binary { left, operator, right } => {
            ast_expr_str.append("( ");
            ast_expr_str.append(operator.lexeme.as_str());
            ast_print(ast_expr_str, left);
            ast_print(ast_expr_str, right);
            ast_expr_str.append(")");
        },
        Expr::Grouping { expression } => {
            ast_expr_str.append("( group ");
            ast_print(ast_expr_str, expression);
            ast_expr_str.append(")");
        },
        Expr::Literal { value } => {
            ast_expr_str.append(value.to_string().as_str());
        },
        Expr::Unary { operator, right } => {
            ast_expr_str.append("( ");
            ast_expr_str.append(operator.lexeme.as_str());
            ast_print(ast_expr_str, right);
            ast_expr_str.append(")");
        },
        Expr::Var { name } => {
            ast_expr_str.append("var(");
            ast_expr_str.append(name.lexeme.as_str());
            ast_expr_str.append(")");
        },
        Expr::Assign { name, value } => {
            ast_expr_str.append("var(");
            ast_expr_str.append(name.lexeme.as_str());
            ast_expr_str.append("=");
            ast_print(ast_expr_str, value);
            ast_expr_str.append(")");
        },
    }
    assert(ast_expr_str@ =~= old(ast_expr_str)@ + ast_text(e));
}

} // verus!
