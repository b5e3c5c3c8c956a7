//! Errors reported while parsing a pattern.
use vstd::prelude::*;
use crate::text::{decimal, push_decimal};

verus! {

/// A pattern error and the byte offset at which it was detected.
#[derive(Debug, Clone, PartialEq, Eq)]
pub struct ParseError {
    pub kind: ParseErrorKind,
    pub pos: usize,
}

#[derive(Debug, Clone, PartialEq, Eq)]
pub enum ParseErrorKind {
    UnexpectedEof,
    UnclosedGroup,
    UnclosedCharClass,
    EmptyCharClass,
    InvalidRange { start: char, end: char },
    DanglingRepetitionOperator,
}

/// The human-readable message of an error.
pub open spec fn error_message(e: ParseError) -> Seq<char> {
    let at = " at position "@ + decimal(e.pos as nat);
    match e.kind {
        ParseErrorKind::UnexpectedEof => "Unexpected EOF"@ + at,
        ParseErrorKind::UnclosedGroup => "Unclosed group"@ + at,
        ParseErrorKind::UnclosedCharClass => "Unclosed char class"@ + at,
        ParseErrorKind::EmptyCharClass => "Empty char class"@ + at,
        ParseErrorKind::InvalidRange { start, end } => "Invalid range '"@ + seq![start, '-', end]
            + "'"@ + at,
        ParseErrorKind::DanglingRepetitionOperator => "Dangling repetition operator"@ + at,
    }
}

impl ParseError {
    /// The message that describes this error, as shown to users.
    pub fn message(&self) -> (r: String)
        ensures
            r@ == error_message(*self),
    {
        let mut r = String::new();
        match self.kind {
            ParseErrorKind::UnexpectedEof => r.append("Unexpected EOF"),
            ParseErrorKind::UnclosedGroup => r.append("Unclosed group"),
            ParseErrorKind::UnclosedCharClass => r.append("Unclosed char class"),
            ParseErrorKind::EmptyCharClass => r.append("Empty char class"),
            ParseErrorKind::InvalidRange { start, end } => {
                r.append("Invalid range '");
                r.push(start);
                r.push('-');
                r.push(end);
                r.append("'");
            },
            ParseErrorKind::DanglingRepetitionOperator => r.append("Dangling repetition operator"),
        }
        r.append(" at position ");
        push_decimal(&mut r, self.pos);
        assert(r@ =~= error_message(*self));
        r
    }
}

} // verus!
