use vstd::prelude::*;

use crate::common::{display_text, Expr, LiteralValue, Statement, Token, TokenType, Val};
use crate::environment::{
    env_assign, env_define, env_lookup, lemma_assign_keeps_depth, undefined_message, Environment,
    Scopes,
};
use crate::error::RuntimeError;

verus! {

pub open spec fn invalid_operator_message() -> Seq<char> {
    "Invalid operator"@
}

pub open spec fn invalid_negation_message() -> Seq<char> {
    "Invalid data type for -"@
}

pub open spec fn overflow_message() -> Seq<char> {
    "Integer overflow"@
}

pub open spec fn division_by_zero_message() -> Seq<char> {
    "Division by zero"@
}

/// `nil`, `false`, `0` and `""` are falsy; every other value is truthy.
pub open spec fn truthy(v: Val) -> bool {
    match v {
        Val::Nil => false,
        Val::Bool(b) => b,
        Val::Int(i) => i != 0,
        Val::Str(s) => s.len() > 0,
    }
}

/// An integer result, or an overflow error where it does not fit in 64 bits.
pub open spec fn int_result(x: int) -> Result<Val, Seq<char>> {
    if i64::MIN <= x <= i64::MAX {
        Ok(Val::Int(x as i64))
    } else {
        Err(overflow_message())
    }
}

/// Integer division that rounds toward zero.
pub open spec fn quotient(a: int, b: int) -> int {
    let q = abs(a) / abs(b);
    if (a < 0) != (b < 0) {
        -q
    } else {
        q
    }
}

pub open spec fn abs(a: int) -> int {
    if a < 0 {
        -a
    } else {
        a
    }
}

/// The value of `l op r`, by the operand kinds and the operator.
pub open spec fn binary_result(l: Val, op: TokenType, r: Val) -> Result<Val, Seq<char>> {
    match (l, op, r) {
        (Val::Int(a), TokenType::Plus, Val::Int(b)) => int_result(a + b),
        (Val::Int(a), TokenType::Minus, Val::Int(b)) => int_result(a - b),
        (Val::Int(a), TokenType::Star, Val::Int(b)) => int_result(a * b),
        (Val::Int(a), TokenType::Slash, Val::Int(b)) => if b == 0 {
            Err(division_by_zero_message())
        } else {
            int_result(quotient(a as int, b as int))
        },
        (Val::Str(a), TokenType::Plus, Val::Str(b)) => Ok(Val::Str(a + b)),
        (Val::Int(a), TokenType::Greater, Val::Int(b)) => Ok(Val::Bool(a > b)),
        (Val::Int(a), TokenType::GreaterEqual, Val::Int(b)) => Ok(Val::Bool(a >= b)),
        (Val::Int(a), TokenType::Less, Val::Int(b)) => Ok(Val::Bool(a < b)),
        (Val::Int(a), TokenType::LessEqual, Val::Int(b)) => Ok(Val::Bool(a <= b)),
        (_, TokenType::EqualEqual, _) => Ok(Val::Bool(l == r)),
        (_, TokenType::BangEqual, _) => Ok(Val::Bool(l != r)),
        _ => Err(invalid_operator_message()),
    }
}

/// The value of a prefix operator applied to `v`.
pub open spec fn unary_result(op: TokenType, v: Val) -> Result<Val, Seq<char>> {
    match op {
        TokenType::Minus => match v {
            Val::Int(i) => int_result(-i),
            _ => Err(invalid_negation_message()),
        },
        TokenType::Bang => Ok(Val::Bool(!truthy(v))),
        _ => Ok(Val::Nil),
    }
}

/// The scopes after evaluating an expression, and its value or error message.
pub struct Evaluation {
    pub env: Scopes,
    pub value: Result<Val, Seq<char>>,
}

/// Evaluates `e` against `env`: operands left to right, assignment to the
/// nearest scope that binds the name.
pub open spec fn eval(e: Expr, env: Scopes) -> Evaluation
    decreases e,
{
    match e {
        Expr::Literal { value } => Evaluation { env, value: Ok(value@) },
        Expr::Grouping { expression } => eval(*expression, env),
        Expr::Var { name } => Evaluation {
            env,
            value: match env_lookup(env, name.lexeme@) {
                Some(v) => Ok(v),
                None => Err(undefined_message(name.lexeme@)),
            },
        },
        Expr::Assign { name, value } => {
            let inner = eval(*value, env);
            match inner.value {
                Ok(v) => match env_assign(inner.env, name.lexeme@, v) {
                    Some(env2) => Evaluation { env: env2, value: Ok(v) },
                    None => Evaluation {
                        env: inner.env,
                        value: Err(undefined_message(name.lexeme@)),
                    },
                },
                Err(m) => inner,
            }
        },
        Expr::Unary { operator, right } => {
            let inner = eval(*right, env);
            match inner.value {
                Ok(v) => Evaluation {
                    env: inner.env,
                    value: unary_result(operator.token_type, v),
                },
                Err(m) => inner,
            }
        },
        Expr::Binary { left, operator, right } => {
            let lhs = eval(*left, env);
            match lhs.value {
                Ok(a) => {
                    let rhs = eval(*right, lhs.env);
                    match rhs.value {
                        Ok(b) => Evaluation {
                            env: rhs.env,
                            value: binary_result(a, operator.token_type, b),
                        },
                        Err(m) => rhs,
                    }
                },
                Err(m) => lhs,
            }
        },
    }
}

/// The scopes, the lines printed so far, and the error that stopped the run.
pub struct Run {
    pub env: Scopes,
    pub out: Seq<Seq<char>>,
    pub error: Option<Seq<char>>,
}

/// The parser's stand-in for a missing initializer.
pub open spec fn is_nil_literal(e: Expr) -> bool {
    e matches Expr::Literal { value: LiteralValue::Nil }
}

/// Executes one statement against `env`, after the lines `out` were printed.
pub open spec fn exec_stmt(s: Statement, env: Scopes, out: Seq<Seq<char>>) -> Run
    decreases s, 2int,
{
    match s {
        Statement::Print { expr } => {
            let ev = eval(expr, env);
            match ev.value {
                Ok(v) => Run { env: ev.env, out: out.push(display_text(v)), error: None },
                Err(m) => Run { env: ev.env, out, error: Some(m) },
            }
        },
        Statement::Expr { expr } => {
            let ev = eval(expr, env);
            match ev.value {
                Ok(v) => Run { env: ev.env, out, error: None },
                Err(m) => Run { env: ev.env, out, error: Some(m) },
            }
        },
        Statement::Var { name, expr } => if is_nil_literal(expr) {
            Run { env, out, error: None }
        } else {
            let ev = eval(expr, env);
            match ev.value {
                Ok(v) => Run { env: env_define(ev.env, name.lexeme@, v), out, error: None },
                Err(m) => Run { env: ev.env, out, error: Some(m) },
            }
        },
        Statement::Block { statements } => exec_block(statements@, env, out),
    }
}

/// Executes a block: `ss` in a fresh scope enclosed by `env`, which is
/// removed again on exit, whether the block finished or failed.
pub open spec fn exec_block(ss: Seq<Statement>, env: Scopes, out: Seq<Seq<char>>) -> Run
    decreases ss, ss.len() + 1,
{
    let r = exec_list(ss, 0, env.push(Map::empty()), out);
    Run { env: r.env.drop_last(), out: r.out, error: r.error }
}

/// Executes `ss[i..]` in order, stopping at the first error.
pub open spec fn exec_list(ss: Seq<Statement>, i: int, env: Scopes, out: Seq<Seq<char>>) -> Run
    decreases ss, ss.len() - i,
{
    if i < 0 || i >= ss.len() {
        Run { env, out, error: None }
    } else {
        let r = exec_stmt(ss[i], env, out);
        if r.error is Some {
            r
        } else {
            exec_list(ss, i + 1, r.env, r.out)
        }
    }
}

proof fn lemma_eval_keeps_depth(e: Expr, env: Scopes)
    ensures
        eval(e, env).env.len() == env.len(),
    decreases e,
{
    match e {
        Expr::Grouping { expression } => lemma_eval_keeps_depth(*expression, env),
        Expr::Assign { name, value } => {
            lemma_eval_keeps_depth(*value, env);
            let inner = eval(*value, env);
            if let Ok(v) = inner.value {
                lemma_assign_keeps_depth(inner.env, name.lexeme@, v);
            }
        },
        Expr::Unary { operator, right } => lemma_eval_keeps_depth(*right, env),
        Expr::Binary { left, operator, right } => {
            lemma_eval_keeps_depth(*left, env);
            lemma_eval_keeps_depth(*right, eval(*left, env).env);
        },
        _ => {},
    }
}

proof fn lemma_exec_stmt_keeps_depth(s: Statement, env: Scopes, out: Seq<Seq<char>>)
    requires
        env.len() >= 1,
    ensures
        exec_stmt(s, env, out).env.len() == env.len(),
    decreases s, 2int,
{
    match s {
        Statement::Print { expr } => lemma_eval_keeps_depth(expr, env),
        Statement::Expr { expr } => lemma_eval_keeps_depth(expr, env),
        Statement::Var { name, expr } => lemma_eval_keeps_depth(expr, env),
        Statement::Block { statements } => {
            lemma_exec_list_keeps_depth(statements@, 0, env.push(Map::empty()), out);
        },
    }
}

proof fn lemma_exec_list_keeps_depth(ss: Seq<Statement>, i: int, env: Scopes, out: Seq<Seq<char>>)
    requires
        env.len() >= 1,
    ensures
        exec_list(ss, i, env, out).env.len() == env.len(),
    decreases ss, ss.len() - i,
{
    if 0 <= i < ss.len() {
        lemma_exec_stmt_keeps_depth(ss[i], env, out);
        let r = exec_stmt(ss[i], env, out);
        if r.error is None {
            lemma_exec_list_keeps_depth(ss, i + 1, r.env, r.out);
        }
    }
}

/// The value or error message that an evaluation returned.
pub open spec fn outcome(r: Result<LiteralValue, RuntimeError>) -> Result<Val, Seq<char>> {
    match r {
        Ok(v) => Ok(v@),
        Err(e) => Err(e.message@),
    }
}

/// The error message that an execution returned, if any.
pub open spec fn failure(r: Result<(), RuntimeError>) -> Option<Seq<char>> {
    match r {
        Ok(()) => None,
        Err(e) => Some(e.message@),
    }
}

fn runtime_error(message: &str) -> (r: RuntimeError)
    ensures
        r.message@ == message@,
{
    RuntimeError { message: String::from_str(message) }
}

/// A checked integer result.
fn int_value(x: i128) -> (r: Result<LiteralValue, RuntimeError>)
    ensures
        outcome(r) == int_result(x as int),
{
    if x < i64::MIN as i128 || x > i64::MAX as i128 {
        Err(runtime_error("Integer overflow"))
    } else {
        Ok(LiteralValue::Integer(x as i64))
    }
}

/// A tree-walking evaluator. Its environment lives as long as it does, and
/// the lines that `print` writes are collected in order.
pub struct Interpreter {
    environment: Environment,
    output: Vec<String>,
}

impl Default for Interpreter {
    /// An evaluator with an empty global scope and nothing printed.
    fn default() -> (r: Interpreter)
        ensures
            r.env() == seq![Map::<Seq<char>, Val>::empty()],
            r.printed() == Seq::<Seq<char>>::empty(),
    {
        let r = Interpreter { environment: Environment::default(), output: Vec::new() };
        assert(r.printed() =~= Seq::<Seq<char>>::empty());
        r
    }
}

impl Interpreter {
    /// The scopes of the evaluator's environment.
    pub closed spec fn env(&self) -> Scopes {
        self.environment@
    }

    /// The lines printed and not yet taken.
    pub closed spec fn printed(&self) -> Seq<Seq<char>> {
        self.output@.map_values(|s: String| s@)
    }

    pub proof fn lemma_env_nonempty(&self)
        ensures
            self.env().len() >= 1,
    {
        self.environment.lemma_nonempty();
    }

    /// Takes the lines printed so far, leaving none.
    pub fn take_output(&mut self) -> (r: Vec<String>)
        ensures
            r@.map_values(|s: String| s@) == old(self).printed(),
            final(self).printed() == Seq::<Seq<char>>::empty(),
            final(self).env() == old(self).env(),
    {
        let mut r: Vec<String> = Vec::new();
        std::mem::swap(&mut r, &mut self.output);
        assert(final(self).printed() =~= Seq::<Seq<char>>::empty());
        r
    }

    /// Whether a value counts as true.
    pub fn is_truthy(&self, literal_value: &LiteralValue) -> (r: bool)
        ensures
            r == truthy(literal_value@),
    {
        match literal_value {
            LiteralValue::Nil => false,
            LiteralValue::Bool(b) => *b,
            LiteralValue::Integer(i) => *i != 0,
            LiteralValue::Str(s) => s.as_str().unicode_len() > 0,
        }
    }

    /// Whether two values are of the same kind with equal contents.
    pub fn is_equal(&self, left_value: &LiteralValue, right_value: &LiteralValue) -> (r: bool)
        ensures
            r == (left_value@ == right_value@),
    {
        *left_value == *right_value
    }

    /// Applies a binary operator to two evaluated operands.
    pub fn evaluate_binary(
        &self,
        left_literal_val: &LiteralValue,
        operator_token_type: TokenType,
        right_literal_val: &LiteralValue,
    ) -> (r: Result<LiteralValue, RuntimeError>)
        ensures
            outcome(r) == binary_result(
                left_literal_val@,
                operator_token_type,
                right_literal_val@,
            ),
    {
        match (left_literal_val, operator_token_type, right_literal_val) {
            (LiteralValue::Integer(a), TokenType::Plus, LiteralValue::Integer(b)) => int_value(
                *a as i128 + *b as i128,
            ),
            (LiteralValue::Integer(a), TokenType::Minus, LiteralValue::Integer(b)) => int_value(
                *a as i128 - *b as i128,
            ),
            (LiteralValue::Integer(a), TokenType::Star, LiteralValue::Integer(b)) => {
                assert((*a as int) * (*b as int) <= 0x4000_0000_0000_0000_0000_0000_0000_0000)
                    by (nonlinear_arith);
                assert((*a as int) * (*b as int) >= -0x4000_0000_0000_0000_0000_0000_0000_0000)
                    by (nonlinear_arith);
                int_value(*a as i128 * *b as i128)
            },
            (LiteralValue::Integer(a), TokenType::Slash, LiteralValue::Integer(b)) => {
                if *b == 0 {
                    Err(runtime_error("Division by zero"))
                } else {
                    let x: i128 = *a as i128;
                    let y: i128 = *b as i128;
                    let ux: i128 = if x < 0 {
                        -x
                    } else {
                        x
                    };
                    let uy: i128 = if y < 0 {
                        -y
                    } else {
                        y
                    };
                    let q: i128 = ux / uy;
                    assert(q <= ux) by (nonlinear_arith)
                        requires
                            q == ux / uy,
                            ux >= 0,
                            uy > 0,
                    ;
                    if (x < 0) != (y < 0) {
                        int_value(-q)
                    } else {
                        int_value(q)
                    }
                }
            },
            (LiteralValue::Str(a), TokenType::Plus, LiteralValue::Str(b)) => {
                let mut s = a.clone();
                s.append(b.as_str());
                Ok(LiteralValue::Str(s))
            },
            (LiteralValue::Integer(a), TokenType::Greater, LiteralValue::Integer(b)) => Ok(
                LiteralValue::Bool(*a > *b),
            ),
            (LiteralValue::Integer(a), TokenType::GreaterEqual, LiteralValue::Integer(b)) => Ok(
                LiteralValue::Bool(*a >= *b),
            ),
            (LiteralValue::Integer(a), TokenType::Less, LiteralValue::Integer(b)) => Ok(
                LiteralValue::Bool(*a < *b),
            ),
            (LiteralValue::Integer(a), TokenType::LessEqual, LiteralValue::Integer(b)) => Ok(
                LiteralValue::Bool(*a <= *b),
            ),
            (_, TokenType::EqualEqual, _) => Ok(
                LiteralValue::Bool(self.is_equal(left_literal_val, right_literal_val)),
            ),
            (_, TokenType::BangEqual, _) => Ok(
                LiteralValue::Bool(!self.is_equal(left_literal_val, right_literal_val)),
            ),
            _ => Err(runtime_error("Invalid operator")),
        }
    }

    /// Applies a prefix operator to an evaluated operand.
    pub fn evaluate_unary(&self, operator_token_type: TokenType, right_literal_val: &LiteralValue) -> (r:
        Result<LiteralValue, RuntimeError>)
        ensures
            outcome(r) == unary_result(operator_token_type, right_literal_val@),
    {
        match operator_token_type {
            TokenType::Minus => match right_literal_val {
                LiteralValue::Integer(i) => int_value(-(*i as i128)),
                _ => Err(runtime_error("Invalid data type for -")),
            },
            TokenType::Bang => Ok(LiteralValue::Bool(!self.is_truthy(right_literal_val))),
            _ => Ok(LiteralValue::Nil),
        }
    }

    /// Evaluates an expression against the current environment.
    pub fn evaluate(&mut self, expr: &Expr) -> (r: Result<LiteralValue, RuntimeError>)
        ensures
            eval(*expr, old(self).env()) == (Evaluation { env: final(self).env(), value: outcome(r) }),
            final(self).printed() == old(self).printed(),
        decreases expr,
    {
        match expr {
            Expr::Literal { value } => Ok(value.clone()),
            Expr::Grouping { expression } => self.evaluate(expression),
            Expr::Var { name } => self.environment.get(name.clone()),
            Expr::Assign { name, value } => {
                let v = self.evaluate(value)?;
                match self.environment.assign(name.clone(), v.clone()) {
                    Ok(()) => Ok(v),
                    Err(e) => Err(e),
                }
            },
            Expr::Unary { operator, right } => {
                let v = self.evaluate(right)?;
                self.evaluate_unary(operator.token_type, &v)
            },
            Expr::Binary { left, operator, right } => {
                let a = self.evaluate(left)?;
                let b = self.evaluate(right)?;
                self.evaluate_binary(&a, operator.token_type, &b)
            },
        }
    }

    /// Executes one statement.
    pub fn execute(&mut self, stmt: &Statement) -> (r: Result<(), RuntimeError>)
        ensures
            exec_stmt(*stmt, old(self).env(), old(self).printed()) == (Run {
                env: final(self).env(),
                out: final(self).printed(),
                error: failure(r),
            }),
        decreases stmt, 2int,
    {
        proof {
            self.lemma_env_nonempty();
        }
        match stmt {
            Statement::Print { expr } => {
                let v = self.evaluate(expr)?;
                let line = v.to_string();
                self.output.push(line);
                assert(self.printed() =~= old(self).printed().push(display_text(v@)));
                Ok(())
            },
            Statement::Expr { expr } => {
                self.evaluate(expr)?;
                Ok(())
            },
            Statement::Var { name, expr } => {
                if let Expr::Literal { value: LiteralValue::Nil } = expr {
                    return Ok(());
                }
                let v = self.evaluate(expr)?;
                self.environment.define(name.clone(), v);
                Ok(())
            },
            Statement::Block { statements } => self.execute_block(statements),
        }
    }

    /// Executes a block: the statements in order in a fresh scope enclosed by
    /// the current one, stopping at the first error. The scope is closed
    /// again on exit, whether the block finished or failed.
    pub fn execute_block(&mut self, stmts: &Vec<Statement>) -> (r: Result<(), RuntimeError>)
        ensures
            exec_block(stmts@, old(self).env(), old(self).printed()) == (Run {
                env: final(self).env(),
                out: final(self).printed(),
                error: failure(r),
            }),
        decreases stmts, 1int,
    {
        proof {
            self.lemma_env_nonempty();
        }
        self.environment.push_scope();
        let r = self.execute_statements(stmts);
        proof {
            lemma_exec_list_keeps_depth(
                stmts@,
                0,
                old(self).env().push(Map::empty()),
                old(self).printed(),
            );
        }
        self.environment.pop_scope();
        r
    }

    /// Executes statements in order in the current scope, stopping at the
    /// first error.
    fn execute_statements(&mut self, stmts: &Vec<Statement>) -> (r: Result<(), RuntimeError>)
        ensures
            exec_list(stmts@, 0, old(self).env(), old(self).printed()) == (Run {
                env: final(self).env(),
                out: final(self).printed(),
                error: failure(r),
            }),
        decreases stmts, 0int,
    {
        proof {
            self.lemma_env_nonempty();
        }
        let mut i: usize = 0;
        while i < stmts.len()
            invariant
                i <= stmts.len(),
                self.env().len() >= 1,
                exec_list(stmts@, 0, old(self).env(), old(self).printed()) == exec_list(
                    stmts@,
                    i as int,
                    self.env(),
                    self.printed(),
                ),
            decreases stmts.len() - i,
        {
            proof {
                lemma_exec_stmt_keeps_depth(stmts@[i as int], self.env(), self.printed());
            }
            let r = self.execute(&stmts[i]);
            if r.is_err() {
                return r;
            }
            i = i + 1;
        }
        Ok(())
    }

    /// Executes a program's statements in order against the long-lived
    /// environment; the first runtime error stops it and is returned.
    pub fn interpret(&mut self, stmts: Vec<Statement>) -> (r: Result<(), RuntimeError>)
        ensures
            exec_list(stmts@, 0, old(self).env(), old(self).printed()) == (Run {
                env: final(self).env(),
                out: final(self).printed(),
                error: failure(r),
            }),
    {
        self.execute_statements(&stmts)
    }
}

/// `r` with the lines `prior` printed before its own.
pub open spec fn after_lines(prior: Seq<Seq<char>>, r: Run) -> Run {
    Run { env: r.env, out: prior + r.out, error: r.error }
}

proof fn lemma_stmt_lines(s: Statement, env: Scopes, out: Seq<Seq<char>>)
    ensures
        exec_stmt(s, env, out) == after_lines(out, exec_stmt(s, env, Seq::empty())),
    decreases s, 2int,
{
    let none = Seq::<Seq<char>>::empty();
    match s {
        Statement::Print { expr } => {
            if let Ok(v) = eval(expr, env).value {
                assert(out.push(display_text(v)) =~= out + none.push(display_text(v)));
            }
            assert(out =~= out + none);
        },
        Statement::Block { statements } => {
            lemma_list_lines(statements@, 0, env.push(Map::empty()), out);
        },
        _ => {
            assert(out =~= out + none);
        },
    }
}

proof fn lemma_list_lines(ss: Seq<Statement>, i: int, env: Scopes, out: Seq<Seq<char>>)
    ensures
        exec_list(ss, i, env, out) == after_lines(out, exec_list(ss, i, env, Seq::empty())),
    decreases ss, ss.len() - i,
{
    let none = Seq::<Seq<char>>::empty();
    if i < 0 || i >= ss.len() {
        assert(out =~= out + none);
    } else {
        lemma_stmt_lines(ss[i], env, out);
        lemma_stmt_lines(ss[i], env, none);
        let r = exec_stmt(ss[i], env, none);
        if r.error is None {
            lemma_list_lines(ss, i + 1, r.env, out + r.out);
            lemma_list_lines(ss, i + 1, r.env, r.out);
            let x = exec_list(ss, i + 1, r.env, none);
            assert(out + (r.out + x.out) =~= (out + r.out) + x.out);
        }
    }
}

/// Running a program is a function of the program and the scopes it starts
/// from: run twice from the same scopes, it ends in the same scopes, with the
/// same error, having printed the same lines, whatever was printed before.
pub proof fn law_run_repeats(
    ss: Seq<Statement>,
    env: Scopes,
    before1: Seq<Seq<char>>,
    before2: Seq<Seq<char>>,
)
    ensures
        exec_list(ss, 0, env, before1).env == exec_list(ss, 0, env, before2).env,
        exec_list(ss, 0, env, before1).error == exec_list(ss, 0, env, before2).error,
        exec_list(ss, 0, env, before1).out.subrange(before1.len() as int, exec_list(ss, 0, env, before1).out.len() as int)
            == exec_list(ss, 0, env, before2).out.subrange(before2.len() as int, exec_list(ss, 0, env, before2).out.len() as int),
{
    lemma_list_lines(ss, 0, env, before1);
    lemma_list_lines(ss, 0, env, before2);
    let x = exec_list(ss, 0, env, Seq::empty());
    assert((before1 + x.out).subrange(before1.len() as int, (before1 + x.out).len() as int) =~= x.out);
    assert((before2 + x.out).subrange(before2.len() as int, (before2 + x.out).len() as int) =~= x.out);
}

/// Whether an expression holds no assignment, so that evaluating it changes
/// no binding.
pub open spec fn assigns_nothing(e: Expr) -> bool
    decreases e,
{
    match e {
        Expr::Assign { name, value } => false,
        Expr::Grouping { expression } => assigns_nothing(*expression),
        Expr::Unary { operator, right } => assigns_nothing(*right),
        Expr::Binary { left, operator, right } => assigns_nothing(*left) && assigns_nothing(*right),
        _ => true,
    }
}

proof fn lemma_pure_eval(e: Expr, env: Scopes)
    requires
        assigns_nothing(e),
    ensures
        eval(e, env).env == env,
    decreases e,
{
    match e {
        Expr::Grouping { expression } => lemma_pure_eval(*expression, env),
        Expr::Unary { operator, right } => lemma_pure_eval(*right, env),
        Expr::Binary { left, operator, right } => {
            lemma_pure_eval(*left, env);
            lemma_pure_eval(*right, env);
        },
        _ => {},
    }
}

/// `var x = E; print x;` prints what `print E;` prints, and fails where it
/// fails, when `E` assigns nothing. `E` is not the literal `nil`, which as an
/// initializer leaves `x` undefined.
pub proof fn law_var_then_print(x: Token, e: Expr, env: Scopes, out: Seq<Seq<char>>)
    requires
        env.len() >= 1,
        assigns_nothing(e),
        !is_nil_literal(e),
    ensures
        exec_list(
            seq![Statement::Var { name: x, expr: e }, Statement::Print { expr: Expr::Var { name: x } }],
            0,
            env,
            out,
        ).out == exec_list(seq![Statement::Print { expr: e }], 0, env, out).out,
        exec_list(
            seq![Statement::Var { name: x, expr: e }, Statement::Print { expr: Expr::Var { name: x } }],
            0,
            env,
            out,
        ).error == exec_list(seq![Statement::Print { expr: e }], 0, env, out).error,
{
    lemma_pure_eval(e, env);
    let ss = seq![Statement::Var { name: x, expr: e }, Statement::Print { expr: Expr::Var { name: x } }];
    let one = seq![Statement::Print { expr: e }];
    if let Ok(v) = eval(e, env).value {
        let env1 = env_define(env, x.lexeme@, v);
        assert(env1.last().contains_key(x.lexeme@));
        assert(env_lookup(env1, x.lexeme@) == Some(v));
        let r0 = exec_stmt(ss[0], env, out);
        assert(r0.env == env1);
        let r1 = exec_stmt(ss[1], env1, out);
        assert(r1.out == out.push(display_text(v)));
        assert(exec_list(ss, 2, r1.env, r1.out).out == r1.out);
        assert(exec_list(ss, 1, env1, out) == exec_list(ss, 2, r1.env, r1.out));
        assert(exec_list(one, 1, env, out.push(display_text(v))).out == out.push(display_text(v)));
        assert(exec_list(ss, 0, env, out) == exec_list(ss, 1, env1, out));
        assert(exec_list(one, 0, env, out) == exec_list(one, 1, env, out.push(display_text(v))));
    } else {
        assert(ss[0] == Statement::Var { name: x, expr: e });
        assert(exec_stmt(ss[0], env, out).error is Some);
        assert(exec_list(ss, 0, env, out) == exec_stmt(ss[0], env, out));
        assert(exec_list(one, 0, env, out) == exec_stmt(one[0], env, out));
    }
}

/// `b` has as many scopes as `a`, and its first `n` scopes bind the same names.
pub open spec fn keeps_keys(a: Scopes, b: Scopes, n: int) -> bool {
    &&& a.len() == b.len()
    &&& forall|j: int| 0 <= j < n ==> #[trigger] b[j].dom() == a[j].dom()
}

proof fn lemma_assign_keys(env: Scopes, name: Seq<char>, v: Val)
    ensures
        env_assign(env, name, v) matches Some(e) ==> keeps_keys(env, e, env.len() as int),
    decreases env.len(),
{
    if env.len() > 0 {
        if env.last().contains_key(name) {
            let e = env.update(env.len() - 1, env.last().insert(name, v));
            assert(e.last().dom() =~= env.last().dom());
            assert forall|j: int| 0 <= j < env.len() implies #[trigger] e[j].dom() == env[j].dom() by {
                if j == env.len() - 1 {
                    assert(e[j] == e.last());
                }
            }
        } else {
            lemma_assign_keys(env.drop_last(), name, v);
            if let Some(outer) = env_assign(env.drop_last(), name, v) {
                let e = outer.push(env.last());
                assert forall|j: int| 0 <= j < env.len() implies #[trigger] e[j].dom() == env[j].dom() by {
                    if j < env.len() - 1 {
                        assert(e[j] == outer[j]);
                        assert(env.drop_last()[j] == env[j]);
                    }
                }
            }
        }
    }
}

proof fn lemma_eval_keys(e: Expr, env: Scopes)
    ensures
        keeps_keys(env, eval(e, env).env, env.len() as int),
    decreases e,
{
    match e {
        Expr::Grouping { expression } => lemma_eval_keys(*expression, env),
        Expr::Assign { name, value } => {
            lemma_eval_keys(*value, env);
            let inner = eval(*value, env);
            if let Ok(v) = inner.value {
                lemma_assign_keys(inner.env, name.lexeme@, v);
            }
        },
        Expr::Unary { operator, right } => lemma_eval_keys(*right, env),
        Expr::Binary { left, operator, right } => {
            lemma_eval_keys(*left, env);
            lemma_eval_keys(*right, eval(*left, env).env);
        },
        _ => {},
    }
}

proof fn lemma_stmt_keys(s: Statement, env: Scopes, out: Seq<Seq<char>>)
    requires
        env.len() >= 1,
    ensures
        keeps_keys(env, exec_stmt(s, env, out).env, env.len() - 1),
    decreases s, 2int,
{
    match s {
        Statement::Print { expr } => lemma_eval_keys(expr, env),
        Statement::Expr { expr } => lemma_eval_keys(expr, env),
        Statement::Var { name, expr } => {
            lemma_eval_keys(expr, env);
            let ev = eval(expr, env);
            if let Ok(v) = ev.value {
                let e2 = env_define(ev.env, name.lexeme@, v);
                assert forall|j: int| 0 <= j < env.len() - 1 implies #[trigger] e2[j].dom()
                    == env[j].dom() by {
                    assert(e2[j] == ev.env[j]);
                }
            }
        },
        Statement::Block { statements } => law_block_keeps_keys(statements@, env, out),
    }
}

proof fn lemma_list_keys(ss: Seq<Statement>, i: int, env: Scopes, out: Seq<Seq<char>>)
    requires
        env.len() >= 1,
    ensures
        keeps_keys(env, exec_list(ss, i, env, out).env, env.len() - 1),
    decreases ss, ss.len() - i,
{
    if 0 <= i < ss.len() {
        lemma_stmt_keys(ss[i], env, out);
        let r = exec_stmt(ss[i], env, out);
        if r.error is None {
            lemma_list_keys(ss, i + 1, r.env, r.out);
            let f = exec_list(ss, i + 1, r.env, r.out).env;
            assert forall|j: int| 0 <= j < env.len() - 1 implies #[trigger] f[j].dom()
                == env[j].dom() by {
                assert(f[j].dom() == r.env[j].dom());
            }
        }
    }
}

/// A block, whether it finishes or fails, leaves as many scopes as there were
/// before it, each binding the same names: what it defines is gone, and only
/// the values of bindings that existed may have changed.
pub proof fn law_block_keeps_keys(ss: Seq<Statement>, env: Scopes, out: Seq<Seq<char>>)
    requires
        env.len() >= 1,
    ensures
        keeps_keys(env, exec_block(ss, env, out).env, env.len() as int),
    decreases ss, ss.len() + 1,
{
    let inner = env.push(Map::empty());
    lemma_list_keys(ss, 0, inner, out);
    let r = exec_list(ss, 0, inner, out).env;
    let b = r.drop_last();
    assert forall|j: int| 0 <= j < env.len() implies #[trigger] b[j].dom() == env[j].dom() by {
        assert(b[j] == r[j]);
        assert(r[j].dom() == inner[j].dom());
        assert(inner[j] == env[j]);
    }
}

} // verus!
