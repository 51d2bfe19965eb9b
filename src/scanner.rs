use vstd::prelude::*;

use crate::common::{LiteralValue, Token, TokenModel, TokenType, Val};
use crate::error::{report_line, report_text};
use vstd::std_specs::iter::IteratorSpec;

use crate::utils::{alpha_char, alpha_numeric_char, digit_char, is_alpha, is_alpha_numeric, is_digit};

verus! {

/// Why scanning stopped.
#[derive(Clone, Copy, Debug, PartialEq, Eq, Structural)]
pub enum ScanProblem {
    /// A character that starts no token.
    UnexpectedCharacter,
    /// The input ended inside a string literal.
    UnterminatedString,
    /// A number with a fractional part: only integers are supported.
    FractionalNumber,
    /// An integer literal that does not fit in 64 bits.
    NumberTooLarge,
}

/// A fatal scanning error and the line on which it was found.
#[derive(Clone, Copy, Debug, PartialEq, Eq, Structural)]
pub struct ScanError {
    pub problem: ScanProblem,
    pub line: u32,
}

/// The message reported for a scanning problem.
pub open spec fn scan_message(p: ScanProblem) -> Seq<char> {
    match p {
        ScanProblem::UnexpectedCharacter => "Unexpected character."@,
        ScanProblem::UnterminatedString => "Unterminated string."@,
        ScanProblem::FractionalNumber => "Fractional numbers are not supported."@,
        ScanProblem::NumberTooLarge => "Number literal too large."@,
    }
}

impl ScanError {
    /// What went wrong, in words.
    pub fn message(&self) -> (r: &'static str)
        ensures
            r@ == scan_message(self.problem),
    {
        match self.problem {
            ScanProblem::UnexpectedCharacter => "Unexpected character.",
            ScanProblem::UnterminatedString => "Unterminated string.",
            ScanProblem::FractionalNumber => "Fractional numbers are not supported.",
            ScanProblem::NumberTooLarge => "Number literal too large.",
        }
    }

    /// The report line for this error: `[line L] Error: MSG`.
    pub fn report(&self) -> (r: String)
        ensures
            r@ == report_text(self.line as int, Seq::empty(), scan_message(self.problem)),
    {
        report_line(self.line, self.message())
    }
}

/// The number of line breaks in `s`.
pub open spec fn newlines(s: Seq<char>) -> nat
    decreases s.len(),
{
    if s.len() == 0 {
        0
    } else {
        newlines(s.drop_last()) + if s.last() == '\n' {
            1nat
        } else {
            0nat
        }
    }
}

/// The 1-based line on which the character before index `i` stands.
pub open spec fn line_at(src: Seq<char>, i: int) -> nat {
    1 + newlines(src.subrange(0, i))
}

/// The end of the run of digits that starts at `i`.
pub open spec fn skip_digits(src: Seq<char>, i: int) -> int
    decreases src.len() - i,
{
    if 0 <= i < src.len() && digit_char(src[i]) {
        skip_digits(src, i + 1)
    } else {
        i
    }
}

/// The end of the run of letters, digits and underscores that starts at `i`.
pub open spec fn skip_word(src: Seq<char>, i: int) -> int
    decreases src.len() - i,
{
    if 0 <= i < src.len() && alpha_numeric_char(src[i]) {
        skip_word(src, i + 1)
    } else {
        i
    }
}

/// The index of the first line break at or after `i`, or the end of input.
pub open spec fn line_end(src: Seq<char>, i: int) -> int
    decreases src.len() - i,
{
    if 0 <= i < src.len() && src[i] != '\n' {
        line_end(src, i + 1)
    } else {
        i
    }
}

/// The index of the first `"` at or after `i`, or the end of input.
pub open spec fn quote_end(src: Seq<char>, i: int) -> int
    decreases src.len() - i,
{
    if 0 <= i < src.len() && src[i] != '"' {
        quote_end(src, i + 1)
    } else {
        i
    }
}

/// The index just past the first `*/` at or after `i`, or the end of input.
pub open spec fn comment_end(src: Seq<char>, i: int) -> int
    decreases src.len() - i,
{
    if i < 0 || i + 1 >= src.len() {
        src.len() as int
    } else if src[i] == '*' && src[i + 1] == '/' {
        i + 2
    } else {
        comment_end(src, i + 1)
    }
}

/// The kind of a token of one fixed character.
pub open spec fn single_kind(c: char) -> Option<TokenType> {
    if c == '(' {
        Some(TokenType::LeftParen)
    } else if c == ')' {
        Some(TokenType::RightParen)
    } else if c == '{' {
        Some(TokenType::LeftBrace)
    } else if c == '}' {
        Some(TokenType::RightBrace)
    } else if c == ',' {
        Some(TokenType::Comma)
    } else if c == '.' {
        Some(TokenType::Dot)
    } else if c == '-' {
        Some(TokenType::Minus)
    } else if c == '+' {
        Some(TokenType::Plus)
    } else if c == ';' {
        Some(TokenType::Semicolon)
    } else if c == '*' {
        Some(TokenType::Star)
    } else if c == '&' {
        Some(TokenType::BitwiseAnd)
    } else if c == '|' {
        Some(TokenType::BitwiseOr)
    } else {
        None
    }
}

/// Whether `c` starts a one- or two-character operator: `! = < >`.
pub open spec fn pair_char(c: char) -> bool {
    c == '!' || c == '=' || c == '<' || c == '>'
}

/// The kind of `! = < >` alone, or followed by `=` when `with_equal` holds.
pub open spec fn pair_kind(c: char, with_equal: bool) -> TokenType {
    if c == '!' {
        if with_equal { TokenType::BangEqual } else { TokenType::Bang }
    } else if c == '=' {
        if with_equal { TokenType::EqualEqual } else { TokenType::Equal }
    } else if c == '<' {
        if with_equal { TokenType::LessEqual } else { TokenType::Less }
    } else {
        if with_equal { TokenType::GreaterEqual } else { TokenType::Greater }
    }
}

/// The kind of a word: a reserved word's own kind, else `Identifier`.
pub open spec fn keyword_kind(w: Seq<char>) -> TokenType {
    if w == "and"@ {
        TokenType::And
    } else if w == "class"@ {
        TokenType::Class
    } else if w == "else"@ {
        TokenType::Else
    } else if w == "false"@ {
        TokenType::False
    } else if w == "fun"@ {
        TokenType::Fun
    } else if w == "for"@ {
        TokenType::For
    } else if w == "if"@ {
        TokenType::If
    } else if w == "nil"@ {
        TokenType::Nil
    } else if w == "or"@ {
        TokenType::Or
    } else if w == "print"@ {
        TokenType::Print
    } else if w == "return"@ {
        TokenType::Return
    } else if w == "super"@ {
        TokenType::Super
    } else if w == "this"@ {
        TokenType::This
    } else if w == "true"@ {
        TokenType::True
    } else if w == "var"@ {
        TokenType::Var
    } else if w == "while"@ {
        TokenType::While
    } else {
        TokenType::Identifier
    }
}

/// What the scanner reads starting at one index: nothing to emit, up to an
/// end index; a token of a kind, up to an end index; or a fatal problem,
/// found when reading up to an end index.
pub enum Lexed {
    Blank(int),
    Emit(TokenType, int),
    Bad(ScanProblem, int),
}

/// The one step of scanning that starts at `pos`.
pub open spec fn lex_at(src: Seq<char>, pos: int) -> Lexed {
    let c = src[pos];
    let next_is = |d: char| pos + 1 < src.len() && src[pos + 1] == d;
    if single_kind(c) is Some {
        Lexed::Emit(single_kind(c)->0, pos + 1)
    } else if pair_char(c) {
        if next_is('=') {
            Lexed::Emit(pair_kind(c, true), pos + 2)
        } else {
            Lexed::Emit(pair_kind(c, false), pos + 1)
        }
    } else if c == '/' {
        if next_is('/') {
            Lexed::Blank(line_end(src, pos + 2))
        } else if next_is('*') {
            Lexed::Blank(comment_end(src, pos + 2))
        } else {
            Lexed::Emit(TokenType::Slash, pos + 1)
        }
    } else if c == '"' {
        let q = quote_end(src, pos + 1);
        if q < src.len() {
            Lexed::Emit(TokenType::String, q + 1)
        } else {
            Lexed::Bad(ScanProblem::UnterminatedString, q)
        }
    } else if c == '\n' || c == ' ' || c == '\r' || c == '\t' {
        Lexed::Blank(pos + 1)
    } else if digit_char(c) {
        let e = skip_digits(src, pos);
        if e + 1 < src.len() && src[e] == '.' && digit_char(src[e + 1]) {
            Lexed::Bad(ScanProblem::FractionalNumber, skip_digits(src, e + 1))
        } else {
            Lexed::Emit(TokenType::Number, e)
        }
    } else if alpha_char(c) {
        let e = skip_word(src, pos);
        Lexed::Emit(keyword_kind(src.subrange(pos, e)), e)
    } else {
        Lexed::Bad(ScanProblem::UnexpectedCharacter, pos + 1)
    }
}

/// The value of a run of decimal digits.
pub open spec fn digits_value(s: Seq<char>) -> nat
    decreases s.len(),
{
    if s.len() == 0 {
        0
    } else {
        digits_value(s.drop_last()) * 10 + ((s.last() as nat) - ('0' as nat)) as nat
    }
}

/// The literal value a token of kind `kind` carries: the contents of a string
/// without its quotes, the integer a number denotes, nil for the rest.
pub open spec fn literal_of(kind: TokenType, text: Seq<char>) -> Result<Val, ScanProblem> {
    match kind {
        TokenType::String => Ok(Val::Str(text.subrange(1, text.len() - 1))),
        TokenType::Number => if digits_value(text) <= i64::MAX {
            Ok(Val::Int(digits_value(text) as i64))
        } else {
            Err(ScanProblem::NumberTooLarge)
        },
        _ => Ok(Val::Nil),
    }
}

/// The token that ends every token list.
pub open spec fn eof_token(line: nat) -> TokenModel {
    TokenModel { kind: TokenType::EOF, lexeme: Seq::empty(), literal: Val::Nil, line }
}

/// The tokens read from `pos` on, or the first problem and its line.
pub open spec fn scan_from(src: Seq<char>, pos: int) -> Result<Seq<TokenModel>, (ScanProblem, nat)>
    decreases src.len() - pos via scan_from_decreases
{
    if pos < 0 || pos >= src.len() {
        Ok(seq![eof_token(line_at(src, src.len() as int))])
    } else {
        match lex_at(src, pos) {
            Lexed::Blank(e) => scan_from(src, e),
            Lexed::Bad(p, e) => Err((p, line_at(src, e))),
            Lexed::Emit(kind, e) => {
                let text = src.subrange(pos, e);
                match literal_of(kind, text) {
                    Err(p) => Err((p, line_at(src, e))),
                    Ok(v) => match scan_from(src, e) {
                        Ok(rest) => Ok(
                            seq![TokenModel { kind, lexeme: text, literal: v, line: line_at(src, e) }]
                                + rest,
                        ),
                        Err(x) => Err(x),
                    },
                }
            },
        }
    }
}

/// The tokens of a whole source text.
pub open spec fn scan(src: Seq<char>) -> Result<Seq<TokenModel>, (ScanProblem, nat)> {
    scan_from(src, 0)
}

#[via_fn]
proof fn scan_from_decreases(src: Seq<char>, pos: int) {
    if 0 <= pos < src.len() {
        lemma_lex_advances(src, pos);
    }
}

proof fn lemma_skip_digits(src: Seq<char>, i: int)
    requires
        0 <= i <= src.len(),
    ensures
        i <= skip_digits(src, i) <= src.len(),
        skip_digits(src, i) < src.len() ==> !digit_char(src[skip_digits(src, i)]),
        forall|k: int| i <= k < skip_digits(src, i) ==> digit_char(#[trigger] src[k]),
    decreases src.len() - i,
{
    if i < src.len() && digit_char(src[i]) {
        lemma_skip_digits(src, i + 1);
    }
}

proof fn lemma_skip_word(src: Seq<char>, i: int)
    requires
        0 <= i <= src.len(),
    ensures
        i <= skip_word(src, i) <= src.len(),
    decreases src.len() - i,
{
    if i < src.len() && alpha_numeric_char(src[i]) {
        lemma_skip_word(src, i + 1);
    }
}

proof fn lemma_line_end(src: Seq<char>, i: int)
    requires
        0 <= i <= src.len(),
    ensures
        i <= line_end(src, i) <= src.len(),
    decreases src.len() - i,
{
    if i < src.len() && src[i] != '\n' {
        lemma_line_end(src, i + 1);
    }
}

proof fn lemma_quote_end(src: Seq<char>, i: int)
    requires
        0 <= i <= src.len(),
    ensures
        i <= quote_end(src, i) <= src.len(),
    decreases src.len() - i,
{
    if i < src.len() && src[i] != '"' {
        lemma_quote_end(src, i + 1);
    }
}

proof fn lemma_comment_end(src: Seq<char>, i: int)
    requires
        0 <= i,
    ensures
        i <= comment_end(src, i) <= src.len() || (i >= src.len() && comment_end(src, i)
            == src.len()),
    decreases src.len() - i,
{
    if i + 1 < src.len() && !(src[i] == '*' && src[i + 1] == '/') {
        lemma_comment_end(src, i + 1);
    }
}

/// Each step of scanning reads at least one character and stays within the
/// input.
pub proof fn lemma_lex_advances(src: Seq<char>, pos: int)
    requires
        0 <= pos < src.len(),
    ensures
        match lex_at(src, pos) {
            Lexed::Blank(e) => pos < e <= src.len(),
            Lexed::Emit(_, e) => pos < e <= src.len(),
            Lexed::Bad(_, e) => pos < e <= src.len(),
        },
{
    let c = src[pos];
    if pos + 2 <= src.len() {
        lemma_line_end(src, pos + 2);
        lemma_comment_end(src, pos + 2);
    }
    lemma_quote_end(src, pos + 1);
    lemma_skip_digits(src, pos);
    let e = skip_digits(src, pos);
    if e + 1 < src.len() {
        lemma_skip_digits(src, e + 1);
    }
    lemma_skip_word(src, pos);
    if digit_char(c) {
        assert(skip_digits(src, pos) == skip_digits(src, pos + 1));
        lemma_skip_digits(src, pos + 1);
    }
    if alpha_char(c) {
        assert(skip_word(src, pos) == skip_word(src, pos + 1));
        lemma_skip_word(src, pos + 1);
    }
}

proof fn lemma_line_step(src: Seq<char>, i: int)
    requires
        0 <= i < src.len(),
    ensures
        line_at(src, i + 1) == line_at(src, i) + if src[i] == '\n' {
            1nat
        } else {
            0nat
        },
{
    assert(src.subrange(0, i + 1).drop_last() =~= src.subrange(0, i));
}

proof fn lemma_newlines_bound(s: Seq<char>)
    ensures
        newlines(s) <= s.len(),
    decreases s.len(),
{
    if s.len() > 0 {
        lemma_newlines_bound(s.drop_last());
    }
}

/// `prefix` followed by the outcome `rest`.
pub open spec fn after(prefix: Seq<TokenModel>, rest: Result<Seq<TokenModel>, (ScanProblem, nat)>) -> Result<
    Seq<TokenModel>,
    (ScanProblem, nat),
> {
    match rest {
        Ok(ts) => Ok(prefix + ts),
        Err(x) => Err(x),
    }
}

pub open spec fn token_models(ts: Seq<Token>) -> Seq<TokenModel> {
    ts.map_values(|t: Token| t@)
}

/// The outcome of a scan, in the terms of `scan`.
pub open spec fn scan_outcome(r: Result<Vec<Token>, ScanError>) -> Result<
    Seq<TokenModel>,
    (ScanProblem, nat),
> {
    match r {
        Ok(ts) => Ok(token_models(ts@)),
        Err(e) => Err((e.problem, e.line as nat)),
    }
}

proof fn lemma_digits_step(src: Seq<char>, a: int, i: int)
    requires
        0 <= a <= i < src.len(),
    ensures
        digits_value(src.subrange(a, i + 1)) == digits_value(src.subrange(a, i)) * 10 + ((
        src[i] as nat) - ('0' as nat)) as nat,
{
    assert(src.subrange(a, i + 1).drop_last() =~= src.subrange(a, i));
}

proof fn lemma_digits_grow(src: Seq<char>, a: int, i: int, j: int)
    requires
        0 <= a <= i <= j <= src.len(),
        forall|k: int| a <= k < j ==> digit_char(#[trigger] src[k]),
    ensures
        digits_value(src.subrange(a, j)) >= digits_value(src.subrange(a, i)),
    decreases j - i,
{
    if i < j {
        lemma_digits_grow(src, a, i, j - 1);
        lemma_digits_step(src, a, j - 1);
    }
}

/// A step of scanning from `pos` has been taken: the scanner stands at
/// `after_curr`, where `lex_at` ends, and holds the tokens `after`, which are
/// `before` plus the one emitted; or the problem found is returned.
pub open spec fn step_done(
    src: Seq<char>,
    pos: int,
    before: Seq<TokenModel>,
    after_curr: int,
    after: Seq<TokenModel>,
    r: Result<(), ScanError>,
) -> bool {
    match lex_at(src, pos) {
        Lexed::Blank(e) => r is Ok && after_curr == e && after == before,
        Lexed::Bad(p, e) => r == Err::<(), ScanError>(
            ScanError { problem: p, line: line_at(src, e) as u32 },
        ),
        Lexed::Emit(kind, e) => match literal_of(kind, src.subrange(pos, e)) {
            Ok(v) => r is Ok && after_curr == e && after == before.push(
                TokenModel { kind, lexeme: src.subrange(pos, e), literal: v, line: line_at(src, e) },
            ),
            Err(p) => r == Err::<(), ScanError>(
                ScanError { problem: p, line: line_at(src, e) as u32 },
            ),
        },
    }
}

fn text_is(a: &String, b: &str) -> (r: bool)
    ensures
        r == (a@ == b@),
{
    let t = String::from_str(b);
    *a == t
}

/// The kind of a word: a reserved word's own kind, else `Identifier`.
fn keyword_kind_of(w: &String) -> (r: TokenType)
    ensures
        r == keyword_kind(w@),
{
    if text_is(w, "and") {
        TokenType::And
    } else if text_is(w, "class") {
        TokenType::Class
    } else if text_is(w, "else") {
        TokenType::Else
    } else if text_is(w, "false") {
        TokenType::False
    } else if text_is(w, "fun") {
        TokenType::Fun
    } else if text_is(w, "for") {
        TokenType::For
    } else if text_is(w, "if") {
        TokenType::If
    } else if text_is(w, "nil") {
        TokenType::Nil
    } else if text_is(w, "or") {
        TokenType::Or
    } else if text_is(w, "print") {
        TokenType::Print
    } else if text_is(w, "return") {
        TokenType::Return
    } else if text_is(w, "super") {
        TokenType::Super
    } else if text_is(w, "this") {
        TokenType::This
    } else if text_is(w, "true") {
        TokenType::True
    } else if text_is(w, "var") {
        TokenType::Var
    } else if text_is(w, "while") {
        TokenType::While
    } else {
        TokenType::Identifier
    }
}

/// Reads a source text into tokens, one lexeme at a time.
pub struct Scanner {
    source_code: String,
    chars: Vec<char>,
    tokens: Vec<Token>,
    start: usize,
    curr: usize,
    line: u32,
}

impl Scanner {
    /// The text being scanned.
    pub closed spec fn source(&self) -> Seq<char> {
        self.source_code@
    }

    pub closed spec fn wf(&self) -> bool {
        self.chars@ == self.source_code@
    }

    spec fn scanning(&self) -> bool {
        &&& self.chars@ == self.source_code@
        &&& self.chars.len() < u32::MAX
        &&& self.start <= self.curr <= self.chars.len()
        &&& self.line == line_at(self.chars@, self.curr as int)
    }

    pub fn new(source_code: String) -> (r: Scanner)
        ensures
            r.wf(),
            r.source() == source_code@,
    {
        let mut chars: Vec<char> = Vec::new();
        let mut it = source_code.as_str().chars();
        let ghost all = source_code@;
        loop
            invariant
                chars@ + it.remaining() == all,
                it.obeys_prophetic_iter_laws(),
                it.decrease() is Some,
            ensures
                chars@ == all,
            decreases it.decrease()->0,
        {
            match it.next() {
                Some(c) => {
                    chars.push(c);
                },
                None => {
                    assert(chars@ =~= all);
                    break ;
                },
            }
        }
        Scanner { source_code, chars, tokens: Vec::new(), start: 0, curr: 0, line: 1 }
    }

    fn is_at_end(&self) -> (r: bool)
        ensures
            r == (self.curr >= self.chars.len()),
    {
        self.curr >= self.chars.len()
    }

    /// Consumes one character, counting line breaks.
    fn next(&mut self) -> (c: char)
        requires
            old(self).scanning(),
            old(self).curr < old(self).chars.len(),
        ensures
            final(self).scanning(),
            c == old(self).chars@[old(self).curr as int],
            final(self).curr == old(self).curr + 1,
            final(self).start == old(self).start,
            final(self).tokens == old(self).tokens,
            final(self).chars == old(self).chars,
            final(self).source_code == old(self).source_code,
    {
        let c = self.chars[self.curr];
        proof {
            lemma_line_step(self.chars@, self.curr as int);
            lemma_newlines_bound(self.chars@.subrange(0, self.curr + 1));
        }
        self.curr = self.curr + 1;
        if c == '\n' {
            self.line = self.line + 1;
        }
        c
    }

    /// Consumes the next character if it is `expected`.
    fn match_expr(&mut self, expected: char) -> (r: bool)
        requires
            old(self).scanning(),
        ensures
            final(self).scanning(),
            r == (old(self).curr < old(self).chars.len() && old(self).chars@[old(self).curr as int]
                == expected),
            final(self).curr == old(self).curr + if r {
                1int
            } else {
                0int
            },
            final(self).start == old(self).start,
            final(self).tokens == old(self).tokens,
            final(self).chars == old(self).chars,
            final(self).source_code == old(self).source_code,
    {
        if self.is_at_end() {
            return false;
        }
        if self.chars[self.curr] != expected {
            return false;
        }
        self.next();
        true
    }

    /// Appends a token whose lexeme runs from `start` to `curr`.
    fn add_token(&mut self, token_type: TokenType, literal_value: LiteralValue)
        requires
            old(self).scanning(),
        ensures
            final(self).scanning(),
            final(self).curr == old(self).curr,
            final(self).start == old(self).start,
            final(self).chars == old(self).chars,
            final(self).source_code == old(self).source_code,
            token_models(final(self).tokens@) == token_models(old(self).tokens@).push(
                TokenModel {
                    kind: token_type,
                    lexeme: old(self).chars@.subrange(old(self).start as int, old(self).curr as int),
                    literal: literal_value@,
                    line: line_at(old(self).chars@, old(self).curr as int),
                },
            ),
    {
        let text = String::from_str(
            self.source_code.as_str().substring_char(self.start, self.curr),
        );
        let ghost before = self.tokens@;
        self.tokens.push(Token::new(token_type, text, literal_value, self.line));
        assert(token_models(self.tokens@) =~= token_models(before).push(self.tokens@.last()@));
    }

    /// Scans the rest of a string literal, after its opening quote.
    fn scan_string(&mut self) -> (r: Result<(), ScanError>)
        requires
            old(self).scanning(),
            old(self).curr == old(self).start + 1,
            old(self).chars@[old(self).start as int] == '"',
        ensures
            step_done(
                old(self).chars@,
                old(self).start as int,
                token_models(old(self).tokens@),
                final(self).curr as int,
                token_models(final(self).tokens@),
                r,
            ),
            final(self).chars == old(self).chars,
            final(self).source_code == old(self).source_code,
            r is Ok ==> final(self).scanning(),
    {
        let ghost q = quote_end(self.chars@, self.curr as int);
        while self.curr < self.chars.len() && self.chars[self.curr] != '"'
            invariant
                self.scanning(),
                self.start == old(self).start,
                self.chars == old(self).chars,
                self.source_code == old(self).source_code,
                self.tokens == old(self).tokens,
                old(self).curr <= self.curr,
                quote_end(self.chars@, self.curr as int) == q,
            decreases self.chars.len() - self.curr,
        {
            self.next();
        }
        if self.is_at_end() {
            return Err(ScanError { problem: ScanProblem::UnterminatedString, line: self.line });
        }
        self.next();
        let contents = String::from_str(
            self.source_code.as_str().substring_char(self.start + 1, self.curr - 1),
        );
        proof {
            let src = self.chars@;
            assert(src.subrange(self.start + 1, self.curr - 1) =~= src.subrange(
                self.start as int,
                self.curr as int,
            ).subrange(1, self.curr - self.start - 1));
        }
        self.add_token(TokenType::String, LiteralValue::Str(contents));
        Ok(())
    }

    /// Scans the rest of a number, after its first digit.
    fn scan_number(&mut self) -> (r: Result<(), ScanError>)
        requires
            old(self).scanning(),
            old(self).curr == old(self).start + 1,
            digit_char(old(self).chars@[old(self).start as int]),
        ensures
            step_done(
                old(self).chars@,
                old(self).start as int,
                token_models(old(self).tokens@),
                final(self).curr as int,
                token_models(final(self).tokens@),
                r,
            ),
            final(self).chars == old(self).chars,
            final(self).source_code == old(self).source_code,
            r is Ok ==> final(self).scanning(),
    {
        let ghost src = self.chars@;
        let ghost start = self.start as int;
        let ghost e = skip_digits(src, start);
        proof {
            lemma_skip_digits(src, start);
        }
        while self.curr < self.chars.len() && is_digit(self.chars[self.curr])
            invariant
                self.scanning(),
                self.start == old(self).start,
                self.chars == old(self).chars,
                self.source_code == old(self).source_code,
                self.tokens == old(self).tokens,
                old(self).curr <= self.curr,
                src == self.chars@,
                start == self.start,
                e == skip_digits(src, start),
                skip_digits(src, self.curr as int) == e,
            decreases self.chars.len() - self.curr,
        {
            self.next();
        }
        if self.curr + 1 < self.chars.len() && self.chars[self.curr] == '.' && is_digit(
            self.chars[self.curr + 1],
        ) {
            self.next();
            let ghost e2 = skip_digits(src, self.curr as int);
            while self.curr < self.chars.len() && is_digit(self.chars[self.curr])
                invariant
                    self.scanning(),
                    self.chars == old(self).chars,
                    self.curr <= self.chars.len(),
                    self.source_code == old(self).source_code,
                    src == self.chars@,
                    skip_digits(src, self.curr as int) == e2,
                decreases self.chars.len() - self.curr,
            {
                self.next();
            }
            return Err(ScanError { problem: ScanProblem::FractionalNumber, line: self.line });
        }
        assert(self.curr == e);
        let mut value: i64 = 0;
        let mut i: usize = self.start;
        assert(src.subrange(start, start) =~= Seq::<char>::empty());
        while i < self.curr
            invariant
                self.scanning(),
                self.start <= i <= self.curr,
                start == self.start as int,
                e <= src.len(),
                self.curr == e,
                self.chars == old(self).chars,
                self.source_code == old(self).source_code,
                self.tokens == old(self).tokens,
                self.start == old(self).start,
                !(e + 1 < src.len() && src[e] == '.' && digit_char(src[e + 1])),
                0 <= start < src.len(),
                digit_char(src[start]),
                e == skip_digits(src, start),
                src == self.chars@,
                forall|k: int| start <= k < e ==> digit_char(#[trigger] src[k]),
                value as int == digits_value(src.subrange(start, i as int)),
            decreases self.curr - i,
        {
            proof {
                lemma_digits_step(src, start, i as int);
            }
            let d = (self.chars[i] as u32 - '0' as u32) as i128;
            let grown: i128 = value as i128 * 10 + d;
            if grown > i64::MAX as i128 {
                proof {
                    lemma_digits_grow(src, start, i + 1, e);
                    assert(digits_value(src.subrange(start, e)) > i64::MAX);
                    assert(lex_at(src, start) == Lexed::Emit(TokenType::Number, e));
                    assert(literal_of(TokenType::Number, src.subrange(start, e)) == Err::<Val, ScanProblem>(ScanProblem::NumberTooLarge));
                }
                return Err(ScanError { problem: ScanProblem::NumberTooLarge, line: self.line });
            }
            value = grown as i64;
            i = i + 1;
        }
        self.add_token(TokenType::Number, LiteralValue::Integer(value));
        Ok(())
    }

    /// Scans the rest of an identifier or reserved word, after its first
    /// letter.
    fn scan_identifier(&mut self)
        requires
            old(self).scanning(),
            old(self).curr == old(self).start + 1,
            alpha_char(old(self).chars@[old(self).start as int]),
        ensures
            step_done(
                old(self).chars@,
                old(self).start as int,
                token_models(old(self).tokens@),
                final(self).curr as int,
                token_models(final(self).tokens@),
                Ok(()),
            ),
            final(self).scanning(),
            final(self).chars == old(self).chars,
            final(self).source_code == old(self).source_code,
    {
        let ghost src = self.chars@;
        let ghost e = skip_word(src, self.start as int);
        while self.curr < self.chars.len() && is_alpha_numeric(self.chars[self.curr])
            invariant
                self.scanning(),
                self.start == old(self).start,
                self.chars == old(self).chars,
                self.source_code == old(self).source_code,
                self.tokens == old(self).tokens,
                old(self).curr <= self.curr,
                src == self.chars@,
                skip_word(src, self.curr as int) == e,
            decreases self.chars.len() - self.curr,
        {
            self.next();
        }
        let text = String::from_str(
            self.source_code.as_str().substring_char(self.start, self.curr),
        );
        let kind = keyword_kind_of(&text);
        self.add_token(kind, LiteralValue::Nil);
    }

    /// Reads one lexeme from `start`: emits its token, skips it, or reports
    /// the problem found.
    #[verifier::rlimit(50)]
    fn scan_single_token(&mut self) -> (r: Result<(), ScanError>)
        requires
            old(self).scanning(),
            old(self).curr == old(self).start,
            old(self).curr < old(self).chars.len(),
        ensures
            step_done(
                old(self).chars@,
                old(self).start as int,
                token_models(old(self).tokens@),
                final(self).curr as int,
                token_models(final(self).tokens@),
                r,
            ),
            final(self).chars == old(self).chars,
            final(self).source_code == old(self).source_code,
            r is Ok ==> final(self).scanning(),
    {
        let ghost src = self.chars@;
        let ghost pos = self.start as int;
        let c = self.next();
        match c {
            '(' => self.add_token(TokenType::LeftParen, LiteralValue::Nil),
            ')' => self.add_token(TokenType::RightParen, LiteralValue::Nil),
            '{' => self.add_token(TokenType::LeftBrace, LiteralValue::Nil),
            '}' => self.add_token(TokenType::RightBrace, LiteralValue::Nil),
            ',' => self.add_token(TokenType::Comma, LiteralValue::Nil),
            '.' => self.add_token(TokenType::Dot, LiteralValue::Nil),
            '-' => self.add_token(TokenType::Minus, LiteralValue::Nil),
            '+' => self.add_token(TokenType::Plus, LiteralValue::Nil),
            ';' => self.add_token(TokenType::Semicolon, LiteralValue::Nil),
            '*' => self.add_token(TokenType::Star, LiteralValue::Nil),
            '&' => self.add_token(TokenType::BitwiseAnd, LiteralValue::Nil),
            '|' => self.add_token(TokenType::BitwiseOr, LiteralValue::Nil),
            '!' => {
                let kind = if self.match_expr('=') {
                    TokenType::BangEqual
                } else {
                    TokenType::Bang
                };
                self.add_token(kind, LiteralValue::Nil);
            },
            '=' => {
                let kind = if self.match_expr('=') {
                    TokenType::EqualEqual
                } else {
                    TokenType::Equal
                };
                self.add_token(kind, LiteralValue::Nil);
            },
            '<' => {
                let kind = if self.match_expr('=') {
                    TokenType::LessEqual
                } else {
                    TokenType::Less
                };
                self.add_token(kind, LiteralValue::Nil);
            },
            '>' => {
                let kind = if self.match_expr('=') {
                    TokenType::GreaterEqual
                } else {
                    TokenType::Greater
                };
                self.add_token(kind, LiteralValue::Nil);
            },
            '/' => {
                if self.match_expr('/') {
                    self.skip_line_comment();
                } else if self.match_expr('*') {
                    self.skip_block_comment();
                } else {
                    self.add_token(TokenType::Slash, LiteralValue::Nil);
                }
            },
            '"' => {
                return self.scan_string();
            },
            '\n' | ' ' | '\r' | '\t' => {},
            _ => {
                if is_digit(c) {
                    return self.scan_number();
                } else if is_alpha(c) {
                    self.scan_identifier();
                } else {
                    return Err(
                        ScanError { problem: ScanProblem::UnexpectedCharacter, line: self.line },
                    );
                }
            },
        }
        Ok(())
    }

    /// Skips a `//` comment up to, not including, the line break.
    fn skip_line_comment(&mut self)
        requires
            old(self).scanning(),
        ensures
            final(self).scanning(),
            final(self).curr == line_end(old(self).chars@, old(self).curr as int),
            final(self).start == old(self).start,
            final(self).tokens == old(self).tokens,
            final(self).chars == old(self).chars,
            final(self).source_code == old(self).source_code,
    {
        let ghost e = line_end(self.chars@, self.curr as int);
        while self.curr < self.chars.len() && self.chars[self.curr] != '\n'
            invariant
                self.scanning(),
                self.start == old(self).start,
                self.chars == old(self).chars,
                self.source_code == old(self).source_code,
                self.tokens == old(self).tokens,
                line_end(self.chars@, self.curr as int) == e,
            decreases self.chars.len() - self.curr,
        {
            self.next();
        }
    }

    /// Skips a `/* */` comment, up to and including the first `*/`, or to the
    /// end of input when there is none.
    fn skip_block_comment(&mut self)
        requires
            old(self).scanning(),
        ensures
            final(self).scanning(),
            final(self).curr == comment_end(old(self).chars@, old(self).curr as int),
            final(self).start == old(self).start,
            final(self).tokens == old(self).tokens,
            final(self).chars == old(self).chars,
            final(self).source_code == old(self).source_code,
    {
        let ghost e = comment_end(self.chars@, self.curr as int);
        while self.curr + 1 < self.chars.len() && !(self.chars[self.curr] == '*' && self.chars[
            self.curr + 1] == '/')
            invariant
                self.scanning(),
                self.start == old(self).start,
                self.chars == old(self).chars,
                self.source_code == old(self).source_code,
                self.tokens == old(self).tokens,
                comment_end(self.chars@, self.curr as int) == e,
            decreases self.chars.len() - self.curr,
        {
            self.next();
        }
        if self.curr + 1 < self.chars.len() {
            self.next();
            self.next();
        } else {
            while self.curr < self.chars.len()
                invariant
                    self.scanning(),
                    self.start == old(self).start,
                    self.chars == old(self).chars,
                    self.source_code == old(self).source_code,
                    self.tokens == old(self).tokens,
                    e == self.chars.len(),
                decreases self.chars.len() - self.curr,
            {
                self.next();
            }
        }
    }

    /// Scans the whole source text: the tokens in order, ending in exactly
    /// one `EOF`, or the first problem found.
    pub fn scan_tokens(&mut self) -> (r: Result<Vec<Token>, ScanError>)
        requires
            old(self).wf(),
            old(self).source().len() < u32::MAX,
        ensures
            scan_outcome(r) == scan(old(self).source()),
            final(self).wf(),
            final(self).source() == old(self).source(),
    {
        self.tokens = Vec::new();
        self.start = 0;
        self.curr = 0;
        self.line = 1;
        let ghost src = self.chars@;
        proof {
            assert(src.subrange(0, 0) =~= Seq::<char>::empty());
            assert(token_models(self.tokens@) =~= Seq::<TokenModel>::empty());
            assert(after(Seq::empty(), scan_from(src, 0)) =~= scan_from(src, 0)) by {
                if let Ok(ts) = scan_from(src, 0) {
                    assert(Seq::<TokenModel>::empty() + ts =~= ts);
                }
            }
        }
        while self.curr < self.chars.len()
            invariant
                self.scanning(),
                self.chars@ == src,
                self.source_code@ == src,
                old(self).source_code@ == src,
                scan_from(src, 0) == after(token_models(self.tokens@), scan_from(src, self.curr as int)),
            decreases self.chars.len() - self.curr,
        {
            self.start = self.curr;
            let ghost before = token_models(self.tokens@);
            let ghost pos = self.curr as int;
            proof {
                lemma_lex_advances(src, pos);
            }
            let step = self.scan_single_token();
            match step {
                Err(err) => {
                    proof {
                        match lex_at(src, pos) {
                            Lexed::Bad(p, e) => {
                                lemma_newlines_bound(src.subrange(0, e));
                            },
                            Lexed::Emit(kind, e) => {
                                lemma_newlines_bound(src.subrange(0, e));
                            },
                            _ => {},
                        }
                    }
                    return Err(err);
                },
                Ok(()) => {},
            }
            proof {
                let now = token_models(self.tokens@);
                if let Lexed::Emit(kind, e) = lex_at(src, pos) {
                    let t = now.last();
                    if let Ok(rest) = scan_from(src, e) {
                        assert(before + (seq![t] + rest) =~= now + rest);
                    }
                }
            }
        }
        let eof = Token::new(TokenType::EOF, String::new(), LiteralValue::Nil, self.line);
        let ghost before = token_models(self.tokens@);
        self.tokens.push(eof);
        proof {
            assert(token_models(self.tokens@) =~= before.push(eof@));
            assert(before + seq![eof@] =~= before.push(eof@));
        }
        let mut out: Vec<Token> = Vec::new();
        std::mem::swap(&mut out, &mut self.tokens);
        Ok(out)
    }
}

proof fn lemma_line_at_grows(src: Seq<char>, i: int, j: int)
    requires
        0 <= i <= j <= src.len(),
    ensures
        line_at(src, i) <= line_at(src, j),
    decreases j - i,
{
    if i < j {
        lemma_line_at_grows(src, i, j - 1);
        lemma_line_step(src, j - 1);
    }
}

proof fn lemma_scan_shape(src: Seq<char>, pos: int)
    requires
        0 <= pos <= src.len(),
    ensures
        scan_from(src, pos) matches Ok(ts) ==> {
            &&& ts.len() >= 1
            &&& ts.last().kind == TokenType::EOF
            &&& forall|k: int| 0 <= k < ts.len() - 1 ==> ts[k].kind != TokenType::EOF
            &&& forall|k: int|
                #![trigger ts[k]]
                 0 <= k < ts.len() ==> exists|a: int, b: int|
 #![trigger src.subrange(a, b)]
                    pos <= a <= b <= src.len() && ts[k].lexeme == src.subrange(a, b)
            &&& forall|k: int| 0 <= k < ts.len() ==> line_at(src, pos) <= #[trigger] ts[k].line
            &&& forall|k: int, m: int| 0 <= k <= m < ts.len() ==> ts[k].line <= ts[m].line
        },
        scan_from(src, pos) matches Err(x) ==> line_at(src, pos) <= x.1 <= line_at(
            src,
            src.len() as int,
        ),
    decreases src.len() - pos,
{
    if pos < src.len() {
        lemma_lex_advances(src, pos);
        match lex_at(src, pos) {
            Lexed::Blank(e) => {
                lemma_scan_shape(src, e);
                lemma_line_at_grows(src, pos, e);
                lemma_line_at_grows(src, e, src.len() as int);
                if let Ok(ts) = scan_from(src, pos) {
                    assert forall|k: int| #![trigger ts[k]] 0 <= k < ts.len() implies exists|a: int, b: int|
 #![trigger src.subrange(a, b)]
                        pos <= a <= b <= src.len() && ts[k].lexeme == src.subrange(a, b) by {
                        let (a, b) = choose|a: int, b: int|
 #![trigger src.subrange(a, b)]
                            e <= a <= b <= src.len() && ts[k].lexeme == src.subrange(a, b);
                    }
                }
            },
            Lexed::Emit(kind, e) => {
                lemma_scan_shape(src, e);
                lemma_line_at_grows(src, pos, e);
                lemma_line_at_grows(src, e, src.len() as int);
                if let Ok(ts) = scan_from(src, pos) {
                    let rest = scan_from(src, e)->Ok_0;
                    let t = ts[0];
                    assert(ts == seq![t] + rest);
                    assert forall|k: int| #![trigger ts[k]] 0 <= k < ts.len() implies exists|a: int, b: int|
 #![trigger src.subrange(a, b)]
                        pos <= a <= b <= src.len() && ts[k].lexeme == src.subrange(a, b) by {
                        if k == 0 {
                            assert(ts[k].lexeme == src.subrange(pos, e));
                        } else {
                            assert(ts[k] == rest[k - 1]);
                            let (a, b) = choose|a: int, b: int|
 #![trigger src.subrange(a, b)]
                                e <= a <= b <= src.len() && rest[k - 1].lexeme == src.subrange(
                                    a,
                                    b,
                                );
                        }
                    }
                    assert forall|k: int| 0 <= k < ts.len() implies line_at(src, pos)
                        <= #[trigger] ts[k].line by {
                        if k > 0 {
                            assert(ts[k] == rest[k - 1]);
                        }
                    }
                    assert forall|k: int, m: int| 0 <= k <= m < ts.len() implies ts[k].line
                        <= ts[m].line by {
                        if k > 0 {
                            assert(ts[k] == rest[k - 1]);
                        }
                        if m > 0 {
                            assert(ts[m] == rest[m - 1]);
                            assert(line_at(src, e) <= rest[m - 1].line);
                        }
                    }
                }
            },
            Lexed::Bad(_, e) => {
                lemma_line_at_grows(src, pos, e);
                lemma_line_at_grows(src, e, src.len() as int);
            },
        }
    } else {
        if let Ok(ts) = scan_from(src, pos) {
            assert(ts[0].lexeme == src.subrange(src.len() as int, src.len() as int));
            lemma_line_at_grows(src, pos, src.len() as int);
        }
    }
}

/// A successful scan ends in exactly one `EOF` token.
pub proof fn law_one_eof(src: Seq<char>)
    ensures
        scan(src) matches Ok(ts) ==> ts.len() >= 1 && ts.last().kind == TokenType::EOF && forall|
            k: int,
        |
            0 <= k < ts.len() - 1 ==> ts[k].kind != TokenType::EOF,
{
    lemma_scan_shape(src, 0);
}

/// Every token's lexeme is a contiguous slice of the source.
pub proof fn law_lexemes_are_slices(src: Seq<char>)
    ensures
        scan(src) matches Ok(ts) ==> forall|k: int|
            #![trigger ts[k]]
             0 <= k < ts.len() ==> exists|a: int, b: int|
 #![trigger src.subrange(a, b)]
                0 <= a <= b <= src.len() && ts[k].lexeme == src.subrange(a, b),
{
    lemma_scan_shape(src, 0);
}

/// Token lines never decrease along the token list and start from line 1; a
/// scanning error is reported on a line between the first and the last line
/// of the input.
pub proof fn law_lines_ascend(src: Seq<char>)
    ensures
        scan(src) matches Ok(ts) ==> forall|k: int, m: int|
            0 <= k <= m < ts.len() ==> ts[k].line <= ts[m].line,
        scan(src) matches Ok(ts) ==> forall|k: int| 0 <= k < ts.len() ==> 1 <= #[trigger] ts[k].line,
        scan(src) matches Err(x) ==> 1 <= x.1 <= line_at(src, src.len() as int),
{
    lemma_scan_shape(src, 0);
    assert(src.subrange(0, 0) =~= Seq::<char>::empty());
}

/// The characters that separate tokens: space, tab, carriage return, line
/// break.
pub open spec fn whitespace_char(c: char) -> bool {
    c == ' ' || c == '\r' || c == '\t' || c == '\n'
}

proof fn lemma_only_eof_from(src: Seq<char>, pos: int)
    requires
        0 <= pos <= src.len(),
        forall|k: int| pos <= k < src.len() ==> whitespace_char(#[trigger] src[k]),
    ensures
        scan_from(src, pos) == Ok::<Seq<TokenModel>, (ScanProblem, nat)>(
            seq![eof_token(line_at(src, src.len() as int))],
        ),
    decreases src.len() - pos,
{
    if pos < src.len() {
        lemma_only_eof_from(src, pos + 1);
    }
}

/// Whitespace alone scans to the single `EOF` token.
pub proof fn law_whitespace_only(src: Seq<char>)
    requires
        forall|k: int| 0 <= k < src.len() ==> whitespace_char(#[trigger] src[k]),
    ensures
        scan(src) == Ok::<Seq<TokenModel>, (ScanProblem, nat)>(
            seq![eof_token(line_at(src, src.len() as int))],
        ),
{
    lemma_only_eof_from(src, 0);
}

proof fn lemma_line_end_at_end(src: Seq<char>, i: int)
    requires
        0 <= i <= src.len(),
        forall|k: int| i <= k < src.len() ==> #[trigger] src[k] != '\n',
    ensures
        line_end(src, i) == src.len(),
    decreases src.len() - i,
{
    if i < src.len() {
        lemma_line_end_at_end(src, i + 1);
    }
}

/// A `//` comment with no line break after it scans to the single `EOF`
/// token, on the first line.
pub proof fn law_line_comment_only(src: Seq<char>)
    requires
        src.len() >= 2,
        src[0] == '/',
        src[1] == '/',
        forall|k: int| 0 <= k < src.len() ==> #[trigger] src[k] != '\n',
    ensures
        scan(src) == Ok::<Seq<TokenModel>, (ScanProblem, nat)>(seq![eof_token(1)]),
{
    lemma_line_end_at_end(src, 2);
    lemma_newlines_none(src);
    assert(src.subrange(0, src.len() as int) =~= src);
    assert(lex_at(src, 0) == Lexed::Blank(src.len() as int));
    assert(scan_from(src, src.len() as int) == Ok::<Seq<TokenModel>, (ScanProblem, nat)>(
        seq![eof_token(1)],
    ));
}

proof fn lemma_newlines_none(s: Seq<char>)
    requires
        forall|k: int| 0 <= k < s.len() ==> #[trigger] s[k] != '\n',
    ensures
        newlines(s) == 0,
    decreases s.len(),
{
    if s.len() > 0 {
        lemma_newlines_none(s.drop_last());
    }
}

proof fn lemma_comment_runs_out(src: Seq<char>, i: int)
    requires
        0 <= i,
        forall|k: int| i <= k < src.len() - 1 ==> !(#[trigger] src[k] == '*' && src[k + 1] == '/'),
    ensures
        comment_end(src, i) == src.len(),
    decreases src.len() - i,
{
    if i + 1 < src.len() {
        lemma_comment_runs_out(src, i + 1);
    }
}

/// A block comment that is never closed reads to the end of input, without
/// an error: the scan gives the single `EOF` token.
pub proof fn law_unclosed_block_comment(src: Seq<char>)
    requires
        src.len() >= 2,
        src[0] == '/',
        src[1] == '*',
        forall|k: int| 2 <= k < src.len() - 1 ==> !(#[trigger] src[k] == '*' && src[k + 1] == '/'),
    ensures
        scan(src) == Ok::<Seq<TokenModel>, (ScanProblem, nat)>(
            seq![eof_token(line_at(src, src.len() as int))],
        ),
{
    lemma_comment_runs_out(src, 2);
    assert(lex_at(src, 0) == Lexed::Blank(src.len() as int));
    assert(scan_from(src, src.len() as int) == Ok::<Seq<TokenModel>, (ScanProblem, nat)>(
        seq![eof_token(line_at(src, src.len() as int))],
    ));
}

/// Where each token of `scan_from(src, pos)` starts and ends in the source;
/// the `EOF` token stands at the end of input.
pub open spec fn spans(src: Seq<char>, pos: int) -> Seq<(int, int)>
    decreases src.len() - pos via spans_decreases
{
    if pos < 0 || pos >= src.len() {
        seq![(src.len() as int, src.len() as int)]
    } else {
        match lex_at(src, pos) {
            Lexed::Blank(e) => spans(src, e),
            Lexed::Emit(_, e) => seq![(pos, e)] + spans(src, e),
            Lexed::Bad(_, _) => Seq::empty(),
        }
    }
}

#[via_fn]
proof fn spans_decreases(src: Seq<char>, pos: int) {
    if 0 <= pos < src.len() {
        lemma_lex_advances(src, pos);
    }
}

/// Whether `src[a..b]` is made of whitespace and comments only: steps of
/// scanning that emit nothing, from `a` exactly to `b`.
pub open spec fn blank_run(src: Seq<char>, a: int, b: int) -> bool
    decreases b - a via blank_run_decreases
{
    if a >= b {
        a == b
    } else if a < 0 || a >= src.len() {
        false
    } else {
        match lex_at(src, a) {
            Lexed::Blank(e) => e <= b && blank_run(src, e, b),
            _ => false,
        }
    }
}

#[via_fn]
proof fn blank_run_decreases(src: Seq<char>, a: int, b: int) {
    if 0 <= a < src.len() {
        lemma_lex_advances(src, a);
    }
}

proof fn lemma_spans(src: Seq<char>, pos: int)
    requires
        0 <= pos <= src.len(),
    ensures
        scan_from(src, pos) matches Ok(ts) ==> {
            let sp = spans(src, pos);
            &&& sp.len() == ts.len()
            &&& pos <= sp[0].0
            &&& blank_run(src, pos, sp[0].0)
            &&& forall|k: int|
                #![trigger sp[k]]
                0 <= k < sp.len() ==> {
                    &&& sp[k].0 <= sp[k].1 <= src.len()
                    &&& ts[k].lexeme == src.subrange(sp[k].0, sp[k].1)
                    &&& ts[k].line == line_at(src, sp[k].1)
                }
            &&& forall|k: int|
                #![trigger sp[k]]
                0 <= k < sp.len() - 1 ==> sp[k].1 <= sp[k + 1].0 && blank_run(
                    src,
                    sp[k].1,
                    sp[k + 1].0,
                )
        },
    decreases src.len() - pos,
{
    if pos < src.len() {
        lemma_lex_advances(src, pos);
        match lex_at(src, pos) {
            Lexed::Blank(e) => {
                lemma_spans(src, e);
            },
            Lexed::Emit(kind, e) => {
                lemma_spans(src, e);
                if let Ok(ts) = scan_from(src, pos) {
                    let rest = scan_from(src, e)->Ok_0;
                    let sr = spans(src, e);
                    let sp = spans(src, pos);
                    assert(sp == seq![(pos, e)] + sr);
                    assert(ts == seq![ts[0]] + rest);
                    assert forall|k: int| #![trigger sp[k]] 0 <= k < sp.len() implies {
                        &&& sp[k].0 <= sp[k].1 <= src.len()
                        &&& ts[k].lexeme == src.subrange(sp[k].0, sp[k].1)
                        &&& ts[k].line == line_at(src, sp[k].1)
                    } by {
                        if k > 0 {
                            assert(sp[k] == sr[k - 1]);
                            assert(ts[k] == rest[k - 1]);
                        }
                    }
                    assert forall|k: int| #![trigger sp[k]] 0 <= k < sp.len() - 1 implies sp[k].1
                        <= sp[k + 1].0 && blank_run(src, sp[k].1, sp[k + 1].0) by {
                        assert(sp[k + 1] == sr[k]);
                        if k > 0 {
                            assert(sp[k] == sr[k - 1]);
                            assert(sr[k - 1].1 <= sr[k].0);
                        }
                    }
                }
            },
            Lexed::Bad(_, _) => {},
        }
    }
}

/// A successful scan cuts the source into the tokens' lexemes, in source
/// order and without overlap, with only whitespace and comments before,
/// between and after them; each token's line is the line on which its
/// lexeme ends, and `EOF` stands at the end of input.
pub proof fn law_tokens_tile_source(src: Seq<char>)
    ensures
        scan(src) matches Ok(ts) ==> {
            let sp = spans(src, 0);
            &&& sp.len() == ts.len()
            &&& blank_run(src, 0, sp[0].0)
            &&& sp.last() == (src.len() as int, src.len() as int)
            &&& forall|k: int|
                #![trigger sp[k]]
                0 <= k < sp.len() ==> {
                    &&& 0 <= sp[k].0 <= sp[k].1 <= src.len()
                    &&& ts[k].lexeme == src.subrange(sp[k].0, sp[k].1)
                    &&& ts[k].line == line_at(src, sp[k].1)
                }
            &&& forall|k: int|
                #![trigger sp[k]]
                0 <= k < sp.len() - 1 ==> sp[k].1 <= sp[k + 1].0 && blank_run(
                    src,
                    sp[k].1,
                    sp[k + 1].0,
                )
        },
{
    lemma_spans(src, 0);
    lemma_scan_shape(src, 0);
    if let Ok(ts) = scan(src) {
        let sp = spans(src, 0);
        assert forall|k: int| #![trigger sp[k]] 0 <= k < sp.len() implies 0 <= sp[k].0 by {
            lemma_spans_start(src, 0, k);
        }
        lemma_spans_last(src, 0);
    }
}

proof fn lemma_spans_start(src: Seq<char>, pos: int, k: int)
    requires
        0 <= pos <= src.len(),
        scan_from(src, pos) is Ok,
        0 <= k < spans(src, pos).len(),
    ensures
        pos <= spans(src, pos)[k].0,
    decreases src.len() - pos,
{
    lemma_spans(src, pos);
    if pos < src.len() {
        lemma_lex_advances(src, pos);
        match lex_at(src, pos) {
            Lexed::Blank(e) => lemma_spans_start(src, e, k),
            Lexed::Emit(_, e) => {
                if k > 0 {
                    lemma_spans_start(src, e, k - 1);
                    assert(spans(src, pos)[k] == spans(src, e)[k - 1]);
                }
            },
            Lexed::Bad(_, _) => {},
        }
    }
}

proof fn lemma_spans_last(src: Seq<char>, pos: int)
    requires
        0 <= pos <= src.len(),
        scan_from(src, pos) is Ok,
    ensures
        spans(src, pos).len() >= 1,
        spans(src, pos).last() == (src.len() as int, src.len() as int),
    decreases src.len() - pos,
{
    if pos < src.len() {
        lemma_lex_advances(src, pos);
        match lex_at(src, pos) {
            Lexed::Blank(e) => lemma_spans_last(src, e),
            Lexed::Emit(_, e) => {
                lemma_spans_last(src, e);
                let sr = spans(src, e);
                assert((seq![(pos, e)] + sr).last() == sr.last());
            },
            Lexed::Bad(_, _) => {},
        }
    }
}

proof fn lemma_blank_scan(src: Seq<char>, pos: int)
    requires
        0 <= pos <= src.len(),
        blank_run(src, pos, src.len() as int),
    ensures
        scan_from(src, pos) == Ok::<Seq<TokenModel>, (ScanProblem, nat)>(
            seq![eof_token(line_at(src, src.len() as int))],
        ),
    decreases src.len() - pos,
{
    if pos < src.len() {
        lemma_lex_advances(src, pos);
        if let Lexed::Blank(e) = lex_at(src, pos) {
            lemma_blank_scan(src, e);
        }
    }
}

/// A source of whitespace and comments alone, of any mix, scans to the
/// single `EOF` token, on the last line of the input.
pub proof fn law_blank_only(src: Seq<char>)
    requires
        blank_run(src, 0, src.len() as int),
    ensures
        scan(src) == Ok::<Seq<TokenModel>, (ScanProblem, nat)>(
            seq![eof_token(line_at(src, src.len() as int))],
        ),
{
    lemma_blank_scan(src, 0);
}

} // verus!
