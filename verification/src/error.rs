use vstd::prelude::*;
use vstd::string::StringExecFns;

verus! {

/// Why a string is not a valid expression.
#[derive(Debug, Clone, Copy, PartialEq, Eq, Structural)]
pub enum ParseError {
    /// The lexer found a character that starts no token.
    UnexpectedChar(char),
    /// The lexer was asked for a token at the end of the input.
    UnexpectedEOF,
    /// The parser needed this character (a closing parenthesis) and found something else.
    ExpectedChar(char),
    /// An operand was followed by another operand or an opening parenthesis.
    ExpectedOperator,
    /// The parser needed the start of an operand and found something else.
    InvalidLHS,
    /// Any other failure.
    Other,
}

impl Default for ParseError {
    fn default() -> (e: ParseError)
        ensures
            e == ParseError::Other,
    {
        ParseError::Other
    }
}

/// `String::push`: the string with `c` appended.
#[verifier::external_body]
fn push_char(s: &mut String, c: char)
    ensures
        final(s)@ == old(s)@.push(c),
{
    s.push(c);
}

/// The human-readable description of an error.
pub open spec fn spec_message(e: ParseError) -> Seq<char> {
    match e {
        ParseError::UnexpectedChar(c) => "Unexpected character: "@.push(c),
        ParseError::UnexpectedEOF => "Unexpected EOF"@,
        ParseError::ExpectedChar(c) => "Expected a \""@.push(c) + "\" character"@,
        ParseError::ExpectedOperator => "Expected an operator"@,
        ParseError::InvalidLHS => "Invalid left-hand side"@,
        ParseError::Other => "Unknown error"@,
    }
}

impl ParseError {
    /// The description of this error that a user reads.
    pub fn message(&self) -> (m: String)
        ensures
            m@ == spec_message(*self),
    {
        match self {
            ParseError::UnexpectedChar(c) => {
                let mut m = "Unexpected character: ".to_owned();
                push_char(&mut m, *c);
                m
            },
            ParseError::UnexpectedEOF => "Unexpected EOF".to_owned(),
            ParseError::ExpectedChar(c) => {
                let mut m = "Expected a \"".to_owned();
                push_char(&mut m, *c);
                m.append("\" character");
                m
            },
            ParseError::ExpectedOperator => "Expected an operator".to_owned(),
            ParseError::InvalidLHS => "Invalid left-hand side".to_owned(),
            ParseError::Other => "Unknown error".to_owned(),
        }
    }
}

} // verus!
