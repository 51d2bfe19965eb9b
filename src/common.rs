use vstd::prelude::*;

verus! {

/// The closed set of token kinds the scanner produces.
#[derive(Clone, Copy, Debug, PartialEq, Eq, Structural)]
pub enum TokenType {
    // Single-character punctuation.
    LeftParen,
    RightParen,
    LeftBrace,
    RightBrace,
    Comma,
    Dot,
    Minus,
    Plus,
    Semicolon,
    Slash,
    Star,
    // One- or two-character operators.
    Bang,
    BangEqual,
    Equal,
    EqualEqual,
    Greater,
    GreaterEqual,
    Less,
    LessEqual,
    // Literals.
    Identifier,
    String,
    Number,
    // Reserved words.
    And,
    Class,
    Else,
    False,
    Fun,
    For,
    If,
    Nil,
    Or,
    Print,
    Return,
    Super,
    This,
    True,
    Var,
    While,
    // Bitwise operators.
    BitwiseAnd,
    BitwiseOr,
    EOF,
}

/// The mathematical value of a runtime literal.
pub enum Val {
    Nil,
    Bool(bool),
    Int(i64),
    Str(Seq<char>),
}

/// A runtime value: nil, a boolean, a 64-bit integer or a string.
#[derive(Debug)]
pub enum LiteralValue {
    Nil,
    Bool(bool),
    Integer(i64),
    Str(String),
}

impl View for LiteralValue {
    type V = Val;

    open spec fn view(&self) -> Val {
        match self {
            LiteralValue::Nil => Val::Nil,
            LiteralValue::Bool(b) => Val::Bool(*b),
            LiteralValue::Integer(i) => Val::Int(*i),
            LiteralValue::Str(s) => Val::Str(s@),
        }
    }
}

impl Clone for LiteralValue {
    fn clone(&self) -> (r: Self)
        ensures
            r == *self,
    {
        match self {
            LiteralValue::Nil => LiteralValue::Nil,
            LiteralValue::Bool(b) => LiteralValue::Bool(*b),
            LiteralValue::Integer(i) => LiteralValue::Integer(*i),
            LiteralValue::Str(s) => LiteralValue::Str(s.clone()),
        }
    }
}

/// Values are equal when they are of the same variant with equal contents.
impl PartialEq for LiteralValue {
    fn eq(&self, other: &LiteralValue) -> (r: bool) {
        match (self, other) {
            (LiteralValue::Nil, LiteralValue::Nil) => true,
            (LiteralValue::Bool(a), LiteralValue::Bool(b)) => *a == *b,
            (LiteralValue::Integer(a), LiteralValue::Integer(b)) => *a == *b,
            (LiteralValue::Str(a), LiteralValue::Str(b)) => *a == *b,
            _ => false,
        }
    }
}

impl vstd::std_specs::cmp::PartialEqSpecImpl for LiteralValue {
    open spec fn obeys_eq_spec() -> bool {
        true
    }

    open spec fn eq_spec(&self, other: &LiteralValue) -> bool {
        self@ == other@
    }
}

/// The decimal digits of a natural number, most significant first.
pub open spec fn nat_text(n: nat) -> Seq<char>
    decreases n,
{
    if n < 10 {
        seq![digit_of(n)]
    } else {
        nat_text(n / 10).push(digit_of(n % 10))
    }
}

pub open spec fn digit_of(d: nat) -> char {
    (('0' as u32) + d) as char
}

/// The decimal form of an integer, with a leading `-` when negative.
pub open spec fn int_text(i: int) -> Seq<char> {
    if i < 0 {
        seq!['-'] + nat_text((-i) as nat)
    } else {
        nat_text(i as nat)
    }
}

pub open spec fn true_text() -> Seq<char> {
    seq!['t', 'r', 'u', 'e']
}

pub open spec fn false_text() -> Seq<char> {
    seq!['f', 'a', 'l', 's', 'e']
}

/// What `print` writes for a value: strings verbatim, integers in decimal,
/// booleans as `true`/`false`, nil as the empty text.
pub open spec fn display_text(v: Val) -> Seq<char> {
    match v {
        Val::Nil => Seq::empty(),
        Val::Bool(b) => if b { true_text() } else { false_text() },
        Val::Int(i) => int_text(i as int),
        Val::Str(s) => s,
    }
}

fn digit_str(d: u64) -> (r: &'static str)
    requires
        d < 10,
    ensures
        r@ == seq![digit_of(d as nat)],
{
    proof {
        reveal_strlit("0");
        reveal_strlit("1");
        reveal_strlit("2");
        reveal_strlit("3");
        reveal_strlit("4");
        reveal_strlit("5");
        reveal_strlit("6");
        reveal_strlit("7");
        reveal_strlit("8");
        reveal_strlit("9");
    }
    match d {
        0 => "0",
        1 => "1",
        2 => "2",
        3 => "3",
        4 => "4",
        5 => "5",
        6 => "6",
        7 => "7",
        8 => "8",
        _ => "9",
    }
}

/// Appends the decimal digits of `n` to `out`.
pub fn push_nat_text(out: &mut String, n: u64)
    ensures
        final(out)@ == old(out)@ + nat_text(n as nat),
    decreases n,
{
    if n < 10 {
        out.append(digit_str(n));
    } else {
        push_nat_text(out, n / 10);
        out.append(digit_str(n % 10));
        assert(final(out)@ =~= old(out)@ + nat_text(n as nat));
    }
}

/// Appends the decimal form of `i` to `out`.
pub fn push_int_text(out: &mut String, i: i64)
    ensures
        final(out)@ == old(out)@ + int_text(i as int),
{
    if i < 0 {
        proof {
            reveal_strlit("-");
        }
        out.append("-");
        let m: u64 = (0i128 - (i as i128)) as u64;
        push_nat_text(out, m);
        assert(final(out)@ =~= old(out)@ + int_text(i as int));
    } else {
        push_nat_text(out, i as u64);
    }
}

impl LiteralValue {
    /// The text that `print` writes for this value.
    pub fn to_string(&self) -> (r: String)
        ensures
            r@ == display_text(self@),
    {
        let mut out = String::new();
        match self {
            LiteralValue::Nil => {},
            LiteralValue::Bool(b) => {
                proof {
                    reveal_strlit("true");
                    reveal_strlit("false");
                }
                if *b {
                    out.append("true");
                } else {
                    out.append("false");
                }
            },
            LiteralValue::Integer(i) => {
                push_int_text(&mut out, *i);
            },
            LiteralValue::Str(s) => {
                out.append(s.as_str());
            },
        }
        assert(out@ =~= display_text(self@));
        out
    }
}

/// The mathematical content of a token.
pub struct TokenModel {
    pub kind: TokenType,
    pub lexeme: Seq<char>,
    pub literal: Val,
    pub line: nat,
}

/// A token: its kind, the exact source slice it was read from, the value of a
/// string or number literal (nil otherwise), and the line on which it ended.
#[derive(Debug)]
pub struct Token {
    pub token_type: TokenType,
    pub lexeme: String,
    pub literal_value: LiteralValue,
    pub line: u32,
}

impl View for Token {
    type V = TokenModel;

    open spec fn view(&self) -> TokenModel {
        TokenModel {
            kind: self.token_type,
            lexeme: self.lexeme@,
            literal: self.literal_value@,
            line: self.line as nat,
        }
    }
}

impl Clone for Token {
    fn clone(&self) -> (r: Self)
        ensures
            r == *self,
    {
        Token {
            token_type: self.token_type,
            lexeme: self.lexeme.clone(),
            literal_value: self.literal_value.clone(),
            line: self.line,
        }
    }
}

impl Token {
    pub fn new(token_type: TokenType, lexeme: String, literal_value: LiteralValue, line: u32) -> (r:
        Self)
        ensures
            r.token_type == token_type,
            r.lexeme == lexeme,
            r.literal_value == literal_value,
            r.line == line,
    {
        Token { token_type, lexeme, literal_value, line }
    }
}

/// An expression node; each node owns its children.
#[derive(Debug)]
pub enum Expr {
    Binary { left: Box<Expr>, operator: Token, right: Box<Expr> },
    Grouping { expression: Box<Expr> },
    Literal { value: LiteralValue },
    Unary { operator: Token, right: Box<Expr> },
    Var { name: Token },
    Assign { name: Token, value: Box<Expr> },
}

impl Clone for Expr {
    fn clone(&self) -> (r: Self)
        ensures
            r == *self,
        decreases self,
    {
        match self {
            Expr::Binary { left, operator, right } => Expr::Binary {
                left: Box::new((**left).clone()),
                operator: operator.clone(),
                right: Box::new((**right).clone()),
            },
            Expr::Grouping { expression } => Expr::Grouping {
                expression: Box::new((**expression).clone()),
            },
            Expr::Literal { value } => Expr::Literal { value: value.clone() },
            Expr::Unary { operator, right } => Expr::Unary {
                operator: operator.clone(),
                right: Box::new((**right).clone()),
            },
            Expr::Var { name } => Expr::Var { name: name.clone() },
            Expr::Assign { name, value } => Expr::Assign {
                name: name.clone(),
                value: Box::new((**value).clone()),
            },
        }
    }
}

/// A statement node. A `Var` without an initializer carries `Literal(Nil)`.
#[derive(Debug)]
pub enum Statement {
    Print { expr: Expr },
    Expr { expr: Expr },
    Var { name: Token, expr: Expr },
    Block { statements: Vec<Statement> },
}

} // verus!
