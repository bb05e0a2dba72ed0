use vstd::prelude::*;

verus! {

/// What went wrong at the reported position.
#[derive(Debug, Clone, Copy, PartialEq, Eq, Structural)]
pub enum ErrorKind {
    /// A character that starts no token.
    UnexpectedChar,
    /// An integer literal outside the range of `i64`.
    NumberTooLarge,
    /// A number, a variable or `(` was expected.
    ExpectedOperand,
    /// A `)` was expected.
    ExpectedCloseParen,
    /// One of `=`, `/=`, `<`, `>`, `<=`, `>=` was expected.
    ExpectedComparison,
    /// The formula ended, yet input remains.
    TrailingInput,
}

/// A rejected input: where parsing failed, counted in characters from the
/// start of the text, and why.
#[derive(Debug, Clone, Copy, PartialEq, Eq, Structural)]
pub struct ParseError {
    pub pos: usize,
    pub kind: ErrorKind,
}

/// The description of each kind of error.
pub open spec fn kind_text(k: ErrorKind) -> Seq<char> {
    match k {
        ErrorKind::UnexpectedChar => seq!['u', 'n', 'e', 'x', 'p', 'e', 'c', 't', 'e', 'd', ' ', 'c', 'h', 'a', 'r', 'a', 'c', 't', 'e', 'r'],
        ErrorKind::NumberTooLarge => seq!['i', 'n', 't', 'e', 'g', 'e', 'r', ' ', 'l', 'i', 't', 'e', 'r', 'a', 'l', ' ', 'd', 'o', 'e', 's', ' ', 'n', 'o', 't', ' ', 'f', 'i', 't', ' ', 'i', 'n', ' ', '6', '4', ' ', 'b', 'i', 't', 's'],
        ErrorKind::ExpectedOperand => seq!['e', 'x', 'p', 'e', 'c', 't', 'e', 'd', ' ', 'a', ' ', 'n', 'u', 'm', 'b', 'e', 'r', ',', ' ', 'a', ' ', 'v', 'a', 'r', 'i', 'a', 'b', 'l', 'e', ' ', 'o', 'r', ' ', '`', '(', '`'],
        ErrorKind::ExpectedCloseParen => seq!['e', 'x', 'p', 'e', 'c', 't', 'e', 'd', ' ', '`', ')', '`'],
        ErrorKind::ExpectedComparison => seq!['e', 'x', 'p', 'e', 'c', 't', 'e', 'd', ' ', 'o', 'n', 'e', ' ', 'o', 'f', ' ', '`', '=', '`', ',', ' ', '`', '/', '=', '`', ',', ' ', '`', '<', '`', ',', ' ', '`', '>', '`', ',', ' ', '`', '<', '=', '`', ',', ' ', '`', '>', '=', '`'],
        ErrorKind::TrailingInput => seq!['e', 'x', 'p', 'e', 'c', 't', 'e', 'd', ' ', 'e', 'n', 'd', ' ', 'o', 'f', ' ', 'i', 'n', 'p', 'u', 't'],
    }
}

impl ParseError {
    /// A human-readable description of the construct that was expected.
    pub fn describe(&self) -> (r: &'static str)
        ensures
            r@ == kind_text(self.kind),
    {
        match self.kind {
            ErrorKind::UnexpectedChar => {
                proof {
                    reveal_strlit("unexpected character");
                }
                "unexpected character"
            },
            ErrorKind::NumberTooLarge => {
                proof {
                    reveal_strlit("integer literal does not fit in 64 bits");
                }
                "integer literal does not fit in 64 bits"
            },
            ErrorKind::ExpectedOperand => {
                proof {
                    reveal_strlit("expected a number, a variable or `(`");
                }
                "expected a number, a variable or `(`"
            },
            ErrorKind::ExpectedCloseParen => {
                proof {
                    reveal_strlit("expected `)`");
                }
                "expected `)`"
            },
            ErrorKind::ExpectedComparison => {
                proof {
                    reveal_strlit("expected one of `=`, `/=`, `<`, `>`, `<=`, `>=`");
                }
                "expected one of `=`, `/=`, `<`, `>`, `<=`, `>=`"
            },
            ErrorKind::TrailingInput => {
                proof {
                    reveal_strlit("expected end of input");
                }
                "expected end of input"
            },
        }
    }
}

} // verus!
