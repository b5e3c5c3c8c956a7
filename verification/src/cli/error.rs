//! Errors of the command-line program.
use vstd::prelude::*;
use crate::cli::args::{ArgsError, args_error_message};
use crate::regex_engine::error::{ParseError, error_message};

verus! {

/// What stopped the program: its arguments, its pattern, or reading input
/// (held as the message the system gave).
#[derive(Debug)]
pub enum AppError {
    Args(ArgsError),
    Pattern(ParseError),
    Io(String),
}

/// The message shown for an error.
pub open spec fn app_error_message(e: AppError) -> Seq<char> {
    match e {
        AppError::Args(a) => args_error_message(a),
        AppError::Pattern(p) => error_message(p),
        AppError::Io(m) => m@,
    }
}

impl AppError {
    pub fn message(&self) -> (r: String)
        ensures
            r@ == app_error_message(*self),
    {
        match self {
            AppError::Args(a) => a.message(),
            AppError::Pattern(p) => p.message(),
            AppError::Io(m) => m.clone(),
        }
    }
}

impl From<ArgsError> for AppError {
    fn from(value: ArgsError) -> (r: Self) {
        AppError::Args(value)
    }
}

impl vstd::std_specs::convert::FromSpecImpl<ArgsError> for AppError {
    open spec fn obeys_from_spec() -> bool {
        true
    }

    open spec fn from_spec(v: ArgsError) -> Self {
        AppError::Args(v)
    }
}

impl From<ParseError> for AppError {
    fn from(value: ParseError) -> (r: Self) {
        AppError::Pattern(value)
    }
}

impl vstd::std_specs::convert::FromSpecImpl<ParseError> for AppError {
    open spec fn obeys_from_spec() -> bool {
        true
    }

    open spec fn from_spec(v: ParseError) -> Self {
        AppError::Pattern(v)
    }
}

} // verus!
