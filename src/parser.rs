use vstd::prelude::*;

use crate::common::{Expr, LiteralValue, Statement, Token, TokenType};
use crate::error::ParserError;

verus! {

/// What a parsing error found missing or wrong.
#[derive(Clone, Copy, Debug, PartialEq, Eq, Structural)]
pub enum ParseProblem {
    ExpectExpression,
    ExpectRightParen,
    ExpectSemicolonAfterPrint,
    ExpectSemicolonAfterExpression,
    ExpectVariableName,
    ExpectSemicolonAfterVar,
    ExpectRightBrace,
    InvalidAssignmentTarget,
}

/// The message reported for a problem.
pub open spec fn problem_message(p: ParseProblem) -> Seq<char> {
    match p {
        ParseProblem::ExpectExpression => "Expect expression."@,
        ParseProblem::ExpectRightParen => "Expect ')' after expression."@,
        ParseProblem::ExpectSemicolonAfterPrint => "Expected ';' after print statement"@,
        ParseProblem::ExpectSemicolonAfterExpression => "Expected ';' after expression"@,
        ParseProblem::ExpectVariableName => "Expected variable name"@,
        ParseProblem::ExpectSemicolonAfterVar => "Expect ';' after variable declaration"@,
        ParseProblem::ExpectRightBrace => "Expect '}' after block."@,
        ParseProblem::InvalidAssignmentTarget => "Invalid assignment target"@,
    }
}

impl ParseProblem {
    /// The message reported for this problem.
    pub fn message(&self) -> (r: &'static str)
        ensures
            r@ == problem_message(*self),
    {
        match self {
            ParseProblem::ExpectExpression => "Expect expression.",
            ParseProblem::ExpectRightParen => "Expect ')' after expression.",
            ParseProblem::ExpectSemicolonAfterPrint => "Expected ';' after print statement",
            ParseProblem::ExpectSemicolonAfterExpression => "Expected ';' after expression",
            ParseProblem::ExpectVariableName => "Expected variable name",
            ParseProblem::ExpectSemicolonAfterVar => "Expect ';' after variable declaration",
            ParseProblem::ExpectRightBrace => "Expect '}' after block.",
            ParseProblem::InvalidAssignmentTarget => "Invalid assignment target",
        }
    }
}

/// A parsing problem and the index of the token at which it was found.
#[derive(Clone, Copy, Debug, PartialEq, Eq, Structural)]
pub struct ParseFault {
    pub at: usize,
    pub problem: ParseProblem,
}

/// The shape of a statement, with a block's statements as a sequence.
pub enum StmtModel {
    Print(Expr),
    Expression(Expr),
    Var(Token, Expr),
    Block(Seq<StmtModel>),
}

/// The shape of a statement.
pub open spec fn stmt_view(s: Statement) -> StmtModel
    decreases s, 0int,
{
    match s {
        Statement::Print { expr } => StmtModel::Print(expr),
        Statement::Expr { expr } => StmtModel::Expression(expr),
        Statement::Var { name, expr } => StmtModel::Var(name, expr),
        Statement::Block { statements } => StmtModel::Block(
            stmts_view(statements@, statements@.len() as int),
        ),
    }
}

/// The shapes of the first `n` statements of `ss`.
pub open spec fn stmts_view(ss: Seq<Statement>, n: int) -> Seq<StmtModel>
    decreases ss, n,
{
    if n <= 0 || n > ss.len() {
        Seq::empty()
    } else {
        stmts_view(ss, n - 1).push(stmt_view(ss[n - 1]))
    }
}

/// The shapes of all the statements of `ss`.
pub open spec fn program_view(ss: Seq<Statement>) -> Seq<StmtModel> {
    stmts_view(ss, ss.len() as int)
}

proof fn lemma_stmts_view_prefix(a: Seq<Statement>, b: Seq<Statement>, n: int)
    requires
        0 <= n <= a.len(),
        n <= b.len(),
        forall|k: int| 0 <= k < n ==> a[k] == b[k],
    ensures
        stmts_view(a, n) == stmts_view(b, n),
    decreases n,
{
    if n > 0 {
        lemma_stmts_view_prefix(a, b, n - 1);
    }
}

proof fn lemma_stmts_view_push(a: Seq<Statement>, s: Statement)
    ensures
        program_view(a.push(s)) == program_view(a).push(stmt_view(s)),
{
    lemma_stmts_view_prefix(a, a.push(s), a.len() as int);
}

/// What a parsing function gives: its result or the fatal problem, the index
/// of the next token, and the problems noted so far that did not stop it.
pub struct Parsed<T> {
    pub result: Result<T, ParseFault>,
    pub pos: int,
    pub notes: Seq<ParseFault>,
}

/// Whether parsing stands at the end of the tokens.
pub open spec fn at_end(ts: Seq<Token>, p: int) -> bool {
    p < 0 || p >= ts.len() || ts[p].token_type == TokenType::EOF
}

/// Whether the token at `p` is of kind `k`, short of the end.
pub open spec fn check(ts: Seq<Token>, p: int, k: TokenType) -> bool {
    !at_end(ts, p) && ts[p].token_type == k
}

/// The operators of the binary precedence levels, from the loosest
/// (equality) to the tightest (factor).
pub open spec fn level_op(level: int, k: TokenType) -> bool {
    if level == 0 {
        k == TokenType::BangEqual || k == TokenType::EqualEqual
    } else if level == 1 {
        k == TokenType::Greater || k == TokenType::GreaterEqual || k == TokenType::Less || k
            == TokenType::LessEqual
    } else if level == 2 {
        k == TokenType::BitwiseAnd || k == TokenType::BitwiseOr
    } else if level == 3 {
        k == TokenType::Minus || k == TokenType::Plus
    } else {
        k == TokenType::Slash || k == TokenType::Star
    }
}

pub open spec fn fail<T>(at: int, problem: ParseProblem, notes: Seq<ParseFault>) -> Parsed<T> {
    Parsed { result: Err(ParseFault { at: at as usize, problem }), pos: at, notes }
}

/// `expression → assignment`
pub open spec fn p_expression(ts: Seq<Token>, p: int, n: Seq<ParseFault>) -> Parsed<Expr>
    decreases ts.len() - p, 31int,
{
    p_assignment(ts, p, n)
}

/// `assignment → equality ( "=" assignment )?`, right-associative; a left
/// side that is not a variable is noted and kept.
pub open spec fn p_assignment(ts: Seq<Token>, p: int, n: Seq<ParseFault>) -> Parsed<Expr>
    decreases ts.len() - p, 30int,
{
    let l = p_binary(ts, p, n, 0);
    if l.result is Err || !check(ts, l.pos, TokenType::Equal) || l.pos < p {
        l
    } else {
        let r = p_assignment(ts, l.pos + 1, l.notes);
        match r.result {
            Err(f) => r,
            Ok(value) => match l.result->Ok_0 {
                Expr::Var { name } => Parsed {
                    result: Ok(Expr::Assign { name, value: Box::new(value) }),
                    pos: r.pos,
                    notes: r.notes,
                },
                other => Parsed {
                    result: Ok(other),
                    pos: r.pos,
                    notes: r.notes.push(
                        ParseFault { at: l.pos as usize, problem: ParseProblem::InvalidAssignmentTarget },
                    ),
                },
            },
        }
    }
}

/// One binary level: `operand ( op operand )*`, left-associative.
pub open spec fn p_binary(ts: Seq<Token>, p: int, n: Seq<ParseFault>, level: int) -> Parsed<Expr>
    decreases ts.len() - p, 20 - 2 * level,
{
    if level < 0 || level > 4 {
        fail(p, ParseProblem::ExpectExpression, n)
    } else {
        let l = p_operand(ts, p, n, level);
        if l.result is Err || l.pos < p || l.pos > ts.len() {
            l
        } else {
            p_binary_rest(ts, l.pos, l.notes, level, l.result->Ok_0)
        }
    }
}

/// The operand of a binary level: the next level, or a unary expression
/// below the tightest one.
pub open spec fn p_operand(ts: Seq<Token>, p: int, n: Seq<ParseFault>, level: int) -> Parsed<Expr>
    decreases ts.len() - p, 19 - 2 * level,
{
    if level < 0 || level > 4 {
        fail(p, ParseProblem::ExpectExpression, n)
    } else if level == 4 {
        p_unary(ts, p, n)
    } else {
        p_binary(ts, p, n, level + 1)
    }
}

/// The `( op operand )*` tail of a binary level, after `left`.
pub open spec fn p_binary_rest(
    ts: Seq<Token>,
    p: int,
    n: Seq<ParseFault>,
    level: int,
    left: Expr,
) -> Parsed<Expr>
    decreases ts.len() - p, 0int,
{
    if !at_end(ts, p) && level_op(level, ts[p].token_type) && 0 <= level <= 4 {
        let r = p_operand(ts, p + 1, n, level);
        match r.result {
            Err(f) => r,
            Ok(right) => if r.pos <= p || r.pos > ts.len() {
                r
            } else {
                p_binary_rest(
                    ts,
                    r.pos,
                    r.notes,
                    level,
                    Expr::Binary { left: Box::new(left), operator: ts[p], right: Box::new(right) },
                )
            },
        }
    } else {
        Parsed { result: Ok(left), pos: p, notes: n }
    }
}

/// `unary → ( "!" | "-" ) unary | primary`
pub open spec fn p_unary(ts: Seq<Token>, p: int, n: Seq<ParseFault>) -> Parsed<Expr>
    decreases ts.len() - p, 2int,
{
    if check(ts, p, TokenType::Bang) || check(ts, p, TokenType::Minus) {
        let r = p_unary(ts, p + 1, n);
        match r.result {
            Err(f) => r,
            Ok(right) => Parsed {
                result: Ok(Expr::Unary { operator: ts[p], right: Box::new(right) }),
                pos: r.pos,
                notes: r.notes,
            },
        }
    } else {
        p_primary(ts, p, n)
    }
}

/// `primary → NUMBER | STRING | "true" | "false" | "nil" | "(" expression ")" | IDENT`
pub open spec fn p_primary(ts: Seq<Token>, p: int, n: Seq<ParseFault>) -> Parsed<Expr>
    decreases ts.len() - p, 1int,
{
    let ok = |e: Expr| Parsed { result: Ok(e), pos: p + 1, notes: n };
    if check(ts, p, TokenType::Number) || check(ts, p, TokenType::String) {
        ok(Expr::Literal { value: ts[p].literal_value })
    } else if check(ts, p, TokenType::True) {
        ok(Expr::Literal { value: LiteralValue::Bool(true) })
    } else if check(ts, p, TokenType::False) {
        ok(Expr::Literal { value: LiteralValue::Bool(false) })
    } else if check(ts, p, TokenType::Nil) {
        ok(Expr::Literal { value: LiteralValue::Nil })
    } else if check(ts, p, TokenType::LeftParen) {
        let r = p_expression(ts, p + 1, n);
        match r.result {
            Err(f) => r,
            Ok(inner) => if check(ts, r.pos, TokenType::RightParen) {
                Parsed {
                    result: Ok(Expr::Grouping { expression: Box::new(inner) }),
                    pos: r.pos + 1,
                    notes: r.notes,
                }
            } else {
                fail(r.pos, ParseProblem::ExpectRightParen, r.notes)
            },
        }
    } else if check(ts, p, TokenType::Identifier) {
        ok(Expr::Var { name: ts[p] })
    } else {
        fail(p, ParseProblem::ExpectExpression, n)
    }
}

/// An expression followed by `;`: a print statement where `print` holds,
/// an expression statement otherwise.
pub open spec fn p_terminated(
    ts: Seq<Token>,
    p: int,
    n: Seq<ParseFault>,
    problem: ParseProblem,
    print: bool,
) -> Parsed<StmtModel> {
    let r = p_expression(ts, p, n);
    match r.result {
        Err(f) => Parsed { result: Err(f), pos: r.pos, notes: r.notes },
        Ok(e) => if check(ts, r.pos, TokenType::Semicolon) {
            Parsed {
                result: Ok(
                    if print {
                        StmtModel::Print(e)
                    } else {
                        StmtModel::Expression(e)
                    },
                ),
                pos: r.pos + 1,
                notes: r.notes,
            }
        } else {
            fail(r.pos, problem, r.notes)
        },
    }
}

/// `varDecl → "var" IDENT ( "=" expression )? ";"`, after `var`; a missing
/// initializer stands as `Literal(Nil)`.
pub open spec fn p_var_declaration(ts: Seq<Token>, p: int, n: Seq<ParseFault>) -> Parsed<StmtModel> {
    if !check(ts, p, TokenType::Identifier) {
        fail(p, ParseProblem::ExpectVariableName, n)
    } else {
        let name = ts[p];
        let init = if check(ts, p + 1, TokenType::Equal) {
            p_expression(ts, p + 2, n)
        } else {
            Parsed { result: Ok(Expr::Literal { value: LiteralValue::Nil }), pos: p + 1, notes: n }
        };
        match init.result {
            Err(f) => Parsed { result: Err(f), pos: init.pos, notes: init.notes },
            Ok(e) => if check(ts, init.pos, TokenType::Semicolon) {
                Parsed { result: Ok(StmtModel::Var(name, e)), pos: init.pos + 1, notes: init.notes }
            } else {
                fail(init.pos, ParseProblem::ExpectSemicolonAfterVar, init.notes)
            },
        }
    }
}

/// `declaration → varDecl | statement`
pub open spec fn p_declaration(ts: Seq<Token>, p: int, n: Seq<ParseFault>) -> Parsed<StmtModel>
    decreases ts.len() - p, 3int,
{
    if check(ts, p, TokenType::Var) {
        p_var_declaration(ts, p + 1, n)
    } else {
        p_statement(ts, p, n)
    }
}

/// `statement → printStmt | block | exprStmt`
pub open spec fn p_statement(ts: Seq<Token>, p: int, n: Seq<ParseFault>) -> Parsed<StmtModel>
    decreases ts.len() - p, 2int,
{
    if check(ts, p, TokenType::Print) {
        p_terminated(ts, p + 1, n, ParseProblem::ExpectSemicolonAfterPrint, true)
    } else if check(ts, p, TokenType::LeftBrace) {
        p_block(ts, p + 1, n, Seq::empty())
    } else {
        p_terminated(ts, p, n, ParseProblem::ExpectSemicolonAfterExpression, false)
    }
}

/// `block → "{" declaration* "}"`, after `{` and the declarations `acc`.
pub open spec fn p_block(ts: Seq<Token>, p: int, n: Seq<ParseFault>, acc: Seq<StmtModel>) -> Parsed<
    StmtModel,
>
    decreases ts.len() - p, 4int,
{
    if check(ts, p, TokenType::RightBrace) {
        Parsed { result: Ok(StmtModel::Block(acc)), pos: p + 1, notes: n }
    } else if at_end(ts, p) {
        fail(p, ParseProblem::ExpectRightBrace, n)
    } else {
        let d = p_declaration(ts, p, n);
        match d.result {
            Err(f) => d,
            Ok(s) => if d.pos <= p || d.pos > ts.len() {
                d
            } else {
                p_block(ts, d.pos, d.notes, acc.push(s))
            },
        }
    }
}

/// Whether a token of kind `k` begins a statement, for recovery.
pub open spec fn starts_statement(k: TokenType) -> bool {
    k == TokenType::Class || k == TokenType::Fun || k == TokenType::Var || k == TokenType::For
        || k == TokenType::If || k == TokenType::While || k == TokenType::Print || k
        == TokenType::Return
}

/// Recovery after an error at `p`: skip at least one token, then on until
/// the token just passed is `;` or the next one begins a statement.
pub open spec fn synchronize_from(ts: Seq<Token>, p: int) -> int {
    if at_end(ts, p) {
        p
    } else {
        skip_to_boundary(ts, p + 1)
    }
}

pub open spec fn skip_to_boundary(ts: Seq<Token>, q: int) -> int
    decreases ts.len() - q,
{
    if at_end(ts, q) || q < 1 || ts[q - 1].token_type == TokenType::Semicolon || starts_statement(
        ts[q].token_type,
    ) {
        q
    } else {
        skip_to_boundary(ts, q + 1)
    }
}

proof fn lemma_skip_bounds(ts: Seq<Token>, q: int)
    requires
        0 <= q <= ts.len(),
    ensures
        q <= skip_to_boundary(ts, q) <= ts.len(),
    decreases ts.len() - q,
{
    if !(at_end(ts, q) || q < 1 || ts[q - 1].token_type == TokenType::Semicolon
        || starts_statement(ts[q].token_type)) {
        lemma_skip_bounds(ts, q + 1);
    }
}

/// What parsing a program gives: the declarations that parsed, all the
/// problems in the order found, and whether the first declaration failed.
pub struct Program {
    pub stmts: Seq<StmtModel>,
    pub faults: Seq<ParseFault>,
    pub first_failed: bool,
}

/// `program → declaration* EOF`, from `p`: a declaration that fails is
/// dropped, its problem recorded, and parsing resumes after recovery.
pub open spec fn p_program(ts: Seq<Token>, p: int, prog: Program) -> Program
    decreases ts.len() - p,
{
    if at_end(ts, p) {
        prog
    } else {
        let d = p_declaration(ts, p, prog.faults);
        match d.result {
            Ok(s) => if d.pos <= p || d.pos > ts.len() {
                prog
            } else {
                p_program(
                    ts,
                    d.pos,
                    Program { stmts: prog.stmts.push(s), faults: d.notes, first_failed: prog.first_failed },
                )
            },
            Err(f) => {
                let q = synchronize_from(ts, d.pos);
                if q <= p || q > ts.len() {
                    prog
                } else {
                    p_program(
                        ts,
                        q,
                        Program {
                            stmts: prog.stmts,
                            faults: d.notes.push(f),
                            first_failed: prog.first_failed || p == 0,
                        },
                    )
                }
            },
        }
    }
}

/// The statements a parse returns: those that parsed, or the single
/// statement `Literal(Nil);` where the first declaration failed.
pub open spec fn parse_result(ts: Seq<Token>) -> Seq<StmtModel> {
    let prog = p_program(ts, 0, Program { stmts: Seq::empty(), faults: Seq::empty(), first_failed: false });
    if prog.first_failed {
        seq![StmtModel::Expression(Expr::Literal { value: LiteralValue::Nil })]
    } else {
        prog.stmts
    }
}

/// The problems a parse records, in order.
pub open spec fn parse_faults(ts: Seq<Token>) -> Seq<ParseFault> {
    p_program(ts, 0, Program { stmts: Seq::empty(), faults: Seq::empty(), first_failed: false }).faults
}

/// Token lists as the scanner makes them: non-empty, ending in `EOF`.
pub open spec fn ends_in_eof(ts: Seq<Token>) -> bool {
    ts.len() >= 1 && ts.last().token_type == TokenType::EOF
}

/// The token and message of each problem, in order.
pub open spec fn fault_reports(ts: Seq<Token>, fs: Seq<ParseFault>) -> Seq<(Token, Seq<char>)> {
    fs.map_values(|f: ParseFault| (ts[f.at as int], problem_message(f.problem)))
}

pub open spec fn error_reports(es: Seq<ParserError>) -> Seq<(Token, Seq<char>)> {
    es.map_values(|e: ParserError| (e.token, e.message@))
}

/// A statement result in the terms of the parsing functions.
pub open spec fn lift(r: Result<Statement, ParseFault>) -> Result<StmtModel, ParseFault> {
    match r {
        Ok(s) => Ok(stmt_view(s)),
        Err(f) => Err(f),
    }
}

/// The binary precedence levels, loosest first.
pub const EQUALITY: usize = 0;

pub const COMPARISON: usize = 1;

pub const BITWISE: usize = 2;

pub const TERM: usize = 3;

pub const FACTOR: usize = 4;

fn is_level_op(level: usize, k: TokenType) -> (r: bool)
    ensures
        r == level_op(level as int, k),
{
    if level == 0 {
        k == TokenType::BangEqual || k == TokenType::EqualEqual
    } else if level == 1 {
        k == TokenType::Greater || k == TokenType::GreaterEqual || k == TokenType::Less || k
            == TokenType::LessEqual
    } else if level == 2 {
        k == TokenType::BitwiseAnd || k == TokenType::BitwiseOr
    } else if level == 3 {
        k == TokenType::Minus || k == TokenType::Plus
    } else {
        k == TokenType::Slash || k == TokenType::Star
    }
}

fn is_statement_start(k: TokenType) -> (r: bool)
    ensures
        r == starts_statement(k),
{
    k == TokenType::Class || k == TokenType::Fun || k == TokenType::Var || k == TokenType::For
        || k == TokenType::If || k == TokenType::While || k == TokenType::Print || k
        == TokenType::Return
}

/// A recursive-descent parser over a token list that ends in `EOF`. A
/// declaration that fails is reported and skipped, and parsing goes on.
pub struct Parser {
    tokens: Vec<Token>,
    current: usize,
    notes: Vec<ParseFault>,
    errors: Vec<ParserError>,
}

impl Parser {
    /// The tokens being parsed.
    pub closed spec fn tokens(&self) -> Seq<Token> {
        self.tokens@
    }

    /// The problems reported by the last parse: token and message of each.
    pub closed spec fn reports(&self) -> Seq<(Token, Seq<char>)> {
        error_reports(self.errors@)
    }

    spec fn ready(&self) -> bool {
        &&& ends_in_eof(self.tokens@)
        &&& self.current < self.tokens.len()
        &&& forall|i: int| 0 <= i < self.notes@.len() ==> #[trigger] self.notes@[i].at < self.tokens.len()
    }

    /// The state after a parsing function, in its terms.
    spec fn parsed<T>(&self, r: Result<T, ParseFault>) -> Parsed<T> {
        Parsed { result: r, pos: self.current as int, notes: self.notes@ }
    }

    /// A parsing function kept the tokens and the parser ready, and did not
    /// move back.
    spec fn moved_on(&self, before: &Parser) -> bool {
        &&& self.ready()
        &&& self.tokens == before.tokens
        &&& self.errors == before.errors
        &&& before.current <= self.current
    }

    pub fn new(tokens: Vec<Token>) -> (r: Parser)
        ensures
            r.tokens() == tokens@,
            r.reports() == Seq::<(Token, Seq<char>)>::empty(),
    {
        let r = Parser { tokens, current: 0, notes: Vec::new(), errors: Vec::new() };
        assert(r.reports() =~= Seq::<(Token, Seq<char>)>::empty());
        r
    }

    /// The problems reported by the last parse, in order.
    pub fn errors(&self) -> (r: &Vec<ParserError>)
        ensures
            error_reports(r@) == self.reports(),
    {
        &self.errors
    }

    fn is_at_end(&self) -> (r: bool)
        requires
            self.ready(),
        ensures
            r == at_end(self.tokens@, self.current as int),
    {
        self.tokens[self.current].token_type == TokenType::EOF
    }

    fn check_type(&self, k: TokenType) -> (r: bool)
        requires
            self.ready(),
        ensures
            r == check(self.tokens@, self.current as int, k),
    {
        !self.is_at_end() && self.tokens[self.current].token_type == k
    }

    fn advance(&mut self)
        requires
            old(self).ready(),
            !at_end(old(self).tokens@, old(self).current as int),
        ensures
            final(self).ready(),
            final(self).current == old(self).current + 1,
            final(self).tokens == old(self).tokens,
            final(self).notes == old(self).notes,
            final(self).errors == old(self).errors,
    {
        self.current = self.current + 1;
    }

    fn fault(&self, problem: ParseProblem) -> (r: ParseFault)
        ensures
            r == (ParseFault { at: self.current, problem }),
    {
        ParseFault { at: self.current, problem }
    }

    fn expression(&mut self) -> (r: Result<Expr, ParseFault>)
        requires
            old(self).ready(),
        ensures
            final(self).moved_on(old(self)),
            r matches Err(f) ==> f.at == final(self).current,
            r is Ok ==> old(self).current < final(self).current,
            p_expression(old(self).tokens@, old(self).current as int, old(self).notes@) == final(self).parsed(r),
        decreases old(self).tokens@.len() - old(self).current, 31int,
    {
        self.assignment()
    }

    fn assignment(&mut self) -> (r: Result<Expr, ParseFault>)
        requires
            old(self).ready(),
        ensures
            final(self).moved_on(old(self)),
            r matches Err(f) ==> f.at == final(self).current,
            r is Ok ==> old(self).current < final(self).current,
            p_assignment(old(self).tokens@, old(self).current as int, old(self).notes@) == final(self).parsed(r),
        decreases old(self).tokens@.len() - old(self).current, 30int,
    {
        let left = match self.binary(EQUALITY) {
            Ok(e) => e,
            Err(f) => {
                return Err(f);
            },
        };
        if !self.check_type(TokenType::Equal) {
            return Ok(left);
        }
        let eq_at = self.current;
        self.advance();
        let value = match self.assignment() {
            Ok(e) => e,
            Err(f) => {
                return Err(f);
            },
        };
        match left {
            Expr::Var { name } => Ok(Expr::Assign { name, value: Box::new(value) }),
            other => {
                self.notes.push(
                    ParseFault { at: eq_at, problem: ParseProblem::InvalidAssignmentTarget },
                );
                Ok(other)
            },
        }
    }

    /// `equality`, `comparison`, `bitwise`, `term` and `factor`: one binary
    /// level, `operand ( op operand )*`, left-associative.
    fn binary(&mut self, level: usize) -> (r: Result<Expr, ParseFault>)
        requires
            old(self).ready(),
            level <= FACTOR,
        ensures
            final(self).moved_on(old(self)),
            r matches Err(f) ==> f.at == final(self).current,
            r is Ok ==> old(self).current < final(self).current,
            p_binary(old(self).tokens@, old(self).current as int, old(self).notes@, level as int)
                == final(self).parsed(r),
        decreases old(self).tokens@.len() - old(self).current, 20 - 2 * level,
    {
        let left = match self.operand(level) {
            Ok(e) => e,
            Err(f) => {
                return Err(f);
            },
        };
        self.binary_rest(level, left)
    }

    fn operand(&mut self, level: usize) -> (r: Result<Expr, ParseFault>)
        requires
            old(self).ready(),
            level <= 4,
        ensures
            final(self).moved_on(old(self)),
            r matches Err(f) ==> f.at == final(self).current,
            r is Ok ==> old(self).current < final(self).current,
            p_operand(old(self).tokens@, old(self).current as int, old(self).notes@, level as int)
                == final(self).parsed(r),
        decreases old(self).tokens@.len() - old(self).current, 19 - 2 * level,
    {
        if level == FACTOR {
            self.unary()
        } else {
            self.binary(level + 1)
        }
    }

    fn binary_rest(&mut self, level: usize, left: Expr) -> (r: Result<Expr, ParseFault>)
        requires
            old(self).ready(),
            level <= 4,
        ensures
            final(self).moved_on(old(self)),
            r matches Err(f) ==> f.at == final(self).current,
            p_binary_rest(
                old(self).tokens@,
                old(self).current as int,
                old(self).notes@,
                level as int,
                left,
            ) == final(self).parsed(r),
        decreases old(self).tokens@.len() - old(self).current, 0int,
    {
        let mut expr = left;
        while !self.is_at_end() && is_level_op(level, self.tokens[self.current].token_type)
            invariant
                self.moved_on(old(self)),
                level <= 4,
                p_binary_rest(
                    old(self).tokens@,
                    old(self).current as int,
                    old(self).notes@,
                    level as int,
                    left,
                ) == p_binary_rest(
                    self.tokens@,
                    self.current as int,
                    self.notes@,
                    level as int,
                    expr,
                ),
            decreases self.tokens@.len() - self.current,
        {
            let operator = self.tokens[self.current].clone();
            self.advance();
            let right = match self.operand(level) {
                Ok(e) => e,
                Err(f) => {
                    return Err(f);
                },
            };
            expr = Expr::Binary { left: Box::new(expr), operator, right: Box::new(right) };
        }
        Ok(expr)
    }

    fn unary(&mut self) -> (r: Result<Expr, ParseFault>)
        requires
            old(self).ready(),
        ensures
            final(self).moved_on(old(self)),
            r matches Err(f) ==> f.at == final(self).current,
            r is Ok ==> old(self).current < final(self).current,
            p_unary(old(self).tokens@, old(self).current as int, old(self).notes@) == final(self).parsed(r),
        decreases old(self).tokens@.len() - old(self).current, 2int,
    {
        if self.check_type(TokenType::Bang) || self.check_type(TokenType::Minus) {
            let operator = self.tokens[self.current].clone();
            self.advance();
            match self.unary() {
                Ok(right) => Ok(Expr::Unary { operator, right: Box::new(right) }),
                Err(f) => Err(f),
            }
        } else {
            self.primary()
        }
    }

    fn primary(&mut self) -> (r: Result<Expr, ParseFault>)
        requires
            old(self).ready(),
        ensures
            final(self).moved_on(old(self)),
            r matches Err(f) ==> f.at == final(self).current,
            r is Ok ==> old(self).current < final(self).current,
            p_primary(old(self).tokens@, old(self).current as int, old(self).notes@) == final(self).parsed(r),
        decreases old(self).tokens@.len() - old(self).current, 1int,
    {
        if self.check_type(TokenType::Number) || self.check_type(TokenType::String) {
            let value = self.tokens[self.current].literal_value.clone();
            self.advance();
            Ok(Expr::Literal { value })
        } else if self.check_type(TokenType::True) {
            self.advance();
            Ok(Expr::Literal { value: LiteralValue::Bool(true) })
        } else if self.check_type(TokenType::False) {
            self.advance();
            Ok(Expr::Literal { value: LiteralValue::Bool(false) })
        } else if self.check_type(TokenType::Nil) {
            self.advance();
            Ok(Expr::Literal { value: LiteralValue::Nil })
        } else if self.check_type(TokenType::LeftParen) {
            self.advance();
            let inner = match self.expression() {
                Ok(e) => e,
                Err(f) => {
                    return Err(f);
                },
            };
            if self.check_type(TokenType::RightParen) {
                self.advance();
                Ok(Expr::Grouping { expression: Box::new(inner) })
            } else {
                Err(self.fault(ParseProblem::ExpectRightParen))
            }
        } else if self.check_type(TokenType::Identifier) {
            let name = self.tokens[self.current].clone();
            self.advance();
            Ok(Expr::Var { name })
        } else {
            Err(self.fault(ParseProblem::ExpectExpression))
        }
    }

    /// An expression and its `;`, as a print or an expression statement.
    fn terminated(&mut self, problem: ParseProblem, print: bool) -> (r: Result<Statement, ParseFault>)
        requires
            old(self).ready(),
        ensures
            final(self).moved_on(old(self)),
            r matches Err(f) ==> f.at == final(self).current,
            r is Ok ==> old(self).current < final(self).current,
            p_terminated(old(self).tokens@, old(self).current as int, old(self).notes@, problem, print)
                == final(self).parsed(lift(r)),
    {
        let expr = match self.expression() {
            Ok(e) => e,
            Err(f) => {
                return Err(f);
            },
        };
        if !self.check_type(TokenType::Semicolon) {
            return Err(self.fault(problem));
        }
        self.advance();
        if print {
            Ok(Statement::Print { expr })
        } else {
            Ok(Statement::Expr { expr })
        }
    }

    fn var_declaration(&mut self) -> (r: Result<Statement, ParseFault>)
        requires
            old(self).ready(),
        ensures
            final(self).moved_on(old(self)),
            r matches Err(f) ==> f.at == final(self).current,
            r is Ok ==> old(self).current < final(self).current,
            p_var_declaration(old(self).tokens@, old(self).current as int, old(self).notes@)
                == final(self).parsed(lift(r)),
    {
        if !self.check_type(TokenType::Identifier) {
            return Err(self.fault(ParseProblem::ExpectVariableName));
        }
        let name = self.tokens[self.current].clone();
        self.advance();
        let mut initializer = Expr::Literal { value: LiteralValue::Nil };
        if self.check_type(TokenType::Equal) {
            self.advance();
            initializer = match self.expression() {
                Ok(e) => e,
                Err(f) => {
                    return Err(f);
                },
            };
        }
        if !self.check_type(TokenType::Semicolon) {
            return Err(self.fault(ParseProblem::ExpectSemicolonAfterVar));
        }
        self.advance();
        Ok(Statement::Var { name, expr: initializer })
    }

    fn declaration(&mut self) -> (r: Result<Statement, ParseFault>)
        requires
            old(self).ready(),
        ensures
            final(self).moved_on(old(self)),
            r matches Err(f) ==> f.at == final(self).current,
            r is Ok ==> old(self).current < final(self).current,
            p_declaration(old(self).tokens@, old(self).current as int, old(self).notes@) == final(self).parsed(lift(r)),
        decreases old(self).tokens@.len() - old(self).current, 3int,
    {
        if self.check_type(TokenType::Var) {
            self.advance();
            self.var_declaration()
        } else {
            self.statement()
        }
    }

    fn statement(&mut self) -> (r: Result<Statement, ParseFault>)
        requires
            old(self).ready(),
        ensures
            final(self).moved_on(old(self)),
            r matches Err(f) ==> f.at == final(self).current,
            r is Ok ==> old(self).current < final(self).current,
            p_statement(old(self).tokens@, old(self).current as int, old(self).notes@) == final(self).parsed(lift(r)),
        decreases old(self).tokens@.len() - old(self).current, 2int,
    {
        if self.check_type(TokenType::Print) {
            self.advance();
            self.terminated(ParseProblem::ExpectSemicolonAfterPrint, true)
        } else if self.check_type(TokenType::LeftBrace) {
            self.advance();
            self.block_statement()
        } else {
            self.terminated(ParseProblem::ExpectSemicolonAfterExpression, false)
        }
    }

    /// The declarations of a block up to its `}`, after the `{`.
    fn block_statement(&mut self) -> (r: Result<Statement, ParseFault>)
        requires
            old(self).ready(),
        ensures
            final(self).moved_on(old(self)),
            r matches Err(f) ==> f.at == final(self).current,
            r is Ok ==> old(self).current < final(self).current,
            p_block(old(self).tokens@, old(self).current as int, old(self).notes@, Seq::empty())
                == final(self).parsed(lift(r)),
        decreases old(self).tokens@.len() - old(self).current, 4int,
    {
        let mut statements: Vec<Statement> = Vec::new();
        proof {
            assert(program_view(statements@) =~= Seq::<StmtModel>::empty());
        }
        loop
            invariant
                self.moved_on(old(self)),
                p_block(old(self).tokens@, old(self).current as int, old(self).notes@, Seq::empty())
                    == p_block(
                    self.tokens@,
                    self.current as int,
                    self.notes@,
                    program_view(statements@),
                ),
            decreases self.tokens@.len() - self.current,
        {
            if self.check_type(TokenType::RightBrace) {
                self.advance();
                return Ok(Statement::Block { statements });
            }
            if self.is_at_end() {
                return Err(self.fault(ParseProblem::ExpectRightBrace));
            }
            match self.declaration() {
                Ok(s) => {
                    proof {
                        lemma_stmts_view_push(statements@, s);
                    }
                    statements.push(s);
                },
                Err(f) => {
                    return Err(f);
                },
            }
        }
    }

    /// Skips past the token at which an error was found, then on to a
    /// statement boundary.
    fn synchronize(&mut self)
        requires
            old(self).ready(),
        ensures
            final(self).ready(),
            final(self).tokens == old(self).tokens,
            final(self).notes == old(self).notes,
            final(self).errors == old(self).errors,
            final(self).current == synchronize_from(old(self).tokens@, old(self).current as int),
    {
        if self.is_at_end() {
            return;
        }
        self.advance();
        while !self.is_at_end() && self.tokens[self.current - 1].token_type != TokenType::Semicolon
            && !is_statement_start(self.tokens[self.current].token_type)
            invariant
                self.ready(),
                self.tokens == old(self).tokens,
                self.notes == old(self).notes,
                self.errors == old(self).errors,
                self.current >= 1,
                synchronize_from(old(self).tokens@, old(self).current as int) == skip_to_boundary(
                    self.tokens@,
                    self.current as int,
                ),
            decreases self.tokens@.len() - self.current,
        {
            self.advance();
        }
    }

    /// Parses the whole token list. Each declaration that fails is reported
    /// and skipped; where the first one fails, the result is the single
    /// statement `nil;`.
    pub fn parse(&mut self) -> (r: Vec<Statement>)
        requires
            ends_in_eof(old(self).tokens()),
        ensures
            program_view(r@) == parse_result(old(self).tokens()),
            final(self).reports() == fault_reports(old(self).tokens(), parse_faults(old(self).tokens())),
            final(self).tokens() == old(self).tokens(),
    {
        self.current = 0;
        self.notes = Vec::new();
        self.errors = Vec::new();
        let ghost ts = self.tokens@;
        let ghost start = Program { stmts: Seq::empty(), faults: Seq::empty(), first_failed: false };
        let mut statements: Vec<Statement> = Vec::new();
        let mut first_failed = false;
        proof {
            assert(program_view(statements@) =~= Seq::<StmtModel>::empty());
            assert(self.notes@ =~= Seq::<ParseFault>::empty());
        }
        while !self.is_at_end()
            invariant
                self.ready(),
                self.tokens@ == ts,
                self.tokens == old(self).tokens,
                self.errors@ == Seq::<ParserError>::empty(),
                p_program(ts, 0, start) == p_program(
                    ts,
                    self.current as int,
                    Program { stmts: program_view(statements@), faults: self.notes@, first_failed },
                ),
            decreases self.tokens@.len() - self.current,
        {
            let p = self.current;
            match self.declaration() {
                Ok(s) => {
                    proof {
                        lemma_stmts_view_push(statements@, s);
                    }
                    statements.push(s);
                },
                Err(f) => {
                    proof {
                        if !at_end(ts, self.current as int) {
                            lemma_skip_bounds(ts, self.current + 1);
                        }
                    }
                    self.synchronize();
                    self.notes.push(f);
                    if p == 0 {
                        first_failed = true;
                    }
                },
            }
        }
        let ghost prog = p_program(ts, 0, start);
        let mut i: usize = 0;
        while i < self.notes.len()
            invariant
                self.ready(),
                self.tokens@ == ts,
                self.tokens == old(self).tokens,
                self.notes@ == prog.faults,
                i <= self.notes.len(),
                error_reports(self.errors@) == fault_reports(ts, self.notes@.subrange(0, i as int)),
            decreases self.notes.len() - i,
        {
            let f = self.notes[i];
            let e = ParserError {
                token: self.tokens[f.at].clone(),
                message: String::from_str(f.problem.message()),
            };
            let ghost before = self.errors@;
            self.errors.push(e);
            proof {
                assert(self.notes@.subrange(0, i + 1) =~= self.notes@.subrange(0, i as int).push(f));
                assert(error_reports(self.errors@) =~= error_reports(before).push(
                    (e.token, e.message@),
                ));
                assert(fault_reports(ts, self.notes@.subrange(0, i + 1)) =~= fault_reports(
                    ts,
                    self.notes@.subrange(0, i as int),
                ).push((ts[f.at as int], problem_message(f.problem))));
            }
            i = i + 1;
        }
        proof {
            assert(self.notes@.subrange(0, self.notes@.len() as int) =~= self.notes@);
        }
        if first_failed {
            let mut only: Vec<Statement> = Vec::new();
            only.push(Statement::Expr { expr: Expr::Literal { value: LiteralValue::Nil } });
            proof {
                lemma_stmts_view_push(Seq::empty(), only@[0]);
                assert(only@ =~= Seq::<Statement>::empty().push(only@[0]));
                assert(program_view(Seq::<Statement>::empty()) =~= Seq::<StmtModel>::empty());
            }
            only
        } else {
            statements
        }
    }
}

} // verus!
