use vstd::prelude::*;

use crate::common::{int_text, push_int_text, Token, TokenType};

verus! {

/// A syntax error: the token at which it was found and what was expected.
#[derive(Debug)]
pub struct ParserError {
    pub token: Token,
    pub message: String,
}

/// An error that stops the evaluation of the current input.
#[derive(Debug)]
pub struct RuntimeError {
    pub message: String,
}

impl Clone for ParserError {
    fn clone(&self) -> (r: Self)
        ensures
            r == *self,
    {
        ParserError { token: self.token.clone(), message: self.message.clone() }
    }
}

impl Clone for RuntimeError {
    fn clone(&self) -> (r: Self)
        ensures
            r == *self,
    {
        RuntimeError { message: self.message.clone() }
    }
}

/// Where an error was found, as the report names it: ` at end` for the end of
/// input, ` at 'LEXEME'` otherwise.
pub open spec fn location_text(token: Token) -> Seq<char> {
    if token.token_type == TokenType::EOF {
        " at end"@
    } else {
        " at '"@ + token.lexeme@ + "'"@
    }
}

/// `[line L] Error LOC: MSG`
pub open spec fn report_text(line: int, loc: Seq<char>, message: Seq<char>) -> Seq<char> {
    "[line "@ + int_text(line) + "] Error"@ + loc + ": "@ + message
}

/// The line reporting an error with no location.
pub fn report_line(line: u32, message: &str) -> (r: String)
    ensures
        r@ == report_text(line as int, Seq::empty(), message@),
{
    proof {
        reveal_strlit("");
    }
    report(line, "", message)
}

/// The line reporting an error at location `loc`.
pub fn report(line: u32, loc: &str, message: &str) -> (r: String)
    ensures
        r@ == report_text(line as int, loc@, message@),
{
    let mut out = String::new();
    out.append("[line ");
    push_int_text(&mut out, line as i64);
    out.append("] Error");
    out.append(loc);
    out.append(": ");
    out.append(message);
    assert(out@ =~= report_text(line as int, loc@, message@));
    out
}

impl ParserError {
    /// The report line for this error: `[line L] Error at end: MSG` at the end
    /// of input, `[line L] Error at 'LEXEME': MSG` elsewhere.
    pub fn report(&self) -> (r: String)
        ensures
            r@ == report_text(self.token.line as int, location_text(self.token), self.message@),
    {
        if self.token.token_type == TokenType::EOF {
            report(self.token.line, " at end", self.message.as_str())
        } else {
            let mut loc = String::new();
            loc.append(" at '");
            loc.append(self.token.lexeme.as_str());
            loc.append("'");
            assert(loc@ =~= location_text(self.token));
            report(self.token.line, loc.as_str(), self.message.as_str())
        }
    }
}

} // verus!
