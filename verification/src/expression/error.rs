//! Error types for Boolean expression parsing.
use crate::io_error::{invalid_data_error, io_error_parts, IO_INVALID_DATA};
use crate::text::{dec, push_str, push_usize};
use vstd::prelude::*;

verus! {

/// Errors related to Boolean expression parsing.
#[derive(Debug)]
pub enum ExpressionParseError {
    /// The text does not spell an expression of the grammar.
    InvalidSyntax {
        /// What went wrong.
        message: String,
        /// The text that failed to parse.
        input: String,
        /// The byte offset in the input where the error was detected, when there is one.
        position: Option<usize>,
    },
}

/// The error returned by the expression parsers.
#[derive(Debug)]
pub enum ParseBoolExprError {
    /// Expression parsing error.
    Parse(ExpressionParseError),
}

impl ExpressionParseError {
    /// The reported byte offset of the error.
    pub fn position(&self) -> (r: Option<usize>)
        ensures
            r == (match self {
                ExpressionParseError::InvalidSyntax { position, .. } => *position,
            }),
    {
        match self {
            ExpressionParseError::InvalidSyntax { position, .. } => *position,
        }
    }

    /// A human-readable description of the error: the message, the position when there is one,
    /// and the input quoted and escaped.
    pub fn to_string(&self) -> (r: String)
        ensures
            r@ == parse_error_message(*self),
    {
        let mut s = String::new();
        match self {
            ExpressionParseError::InvalidSyntax { message, input, position } => {
                match position {
                    Some(pos) => {
                        push_str(&mut s, "Failed to parse boolean expression at position ");
                        push_usize(&mut s, *pos);
                        push_str(&mut s, ": ");
                    },
                    None => {
                        push_str(&mut s, "Failed to parse boolean expression: ");
                    },
                }
                push_str(&mut s, message.as_str());
                push_str(&mut s, ". Input: ");
                let quoted = debug_quoted(input.as_str());
                push_str(&mut s, quoted.as_str());
            },
        }
        proof {
            assert(s@ =~= parse_error_message(*self));
        }
        s
    }

    /// The error as an I/O error of kind `InvalidData` that displays the error's message.
    pub fn to_io_error(&self) -> (r: std::io::Error)
        ensures
            io_error_parts(r) == (IO_INVALID_DATA, parse_error_message(*self)),
    {
        invalid_data_error(self.to_string())
    }
}

impl ParseBoolExprError {
    /// The parse error this wraps.
    pub fn inner(&self) -> (r: &ExpressionParseError)
        ensures
            r == (match self {
                ParseBoolExprError::Parse(e) => e,
            }),
    {
        match self {
            ParseBoolExprError::Parse(e) => e,
        }
    }

    /// A human-readable description of the error: that of the parse error it wraps.
    pub fn to_string(&self) -> (r: String)
        ensures
            r@ == (match self {
                ParseBoolExprError::Parse(e) => parse_error_message(*e),
            }),
    {
        match self {
            ParseBoolExprError::Parse(e) => e.to_string(),
        }
    }

    /// The error as an I/O error of kind `InvalidData` that displays the error's message.
    pub fn to_io_error(&self) -> (r: std::io::Error)
        ensures
            io_error_parts(r) == (IO_INVALID_DATA, match self {
                ParseBoolExprError::Parse(e) => parse_error_message(*e),
            }),
    {
        match self {
            ParseBoolExprError::Parse(e) => e.to_io_error(),
        }
    }
}

impl From<ExpressionParseError> for ParseBoolExprError {
    fn from(err: ExpressionParseError) -> (r: ParseBoolExprError) {
        ParseBoolExprError::Parse(err)
    }
}

impl vstd::std_specs::convert::FromSpecImpl<ExpressionParseError> for ParseBoolExprError {
    open spec fn obeys_from_spec() -> bool {
        true
    }

    open spec fn from_spec(err: ExpressionParseError) -> ParseBoolExprError {
        ParseBoolExprError::Parse(err)
    }
}

/// The error reports the text that failed to parse and a position in it.
pub open spec fn reports_input(e: ParseBoolExprError, input: Seq<char>) -> bool {
    match e {
        ParseBoolExprError::Parse(ExpressionParseError::InvalidSyntax { input: i, position, .. }) => i@
            == input && position is Some,
    }
}

/// What `{:?}` prints for a string slice: the text in double quotes, with quotes, backslashes
/// and control characters escaped.
pub uninterp spec fn str_debug(s: Seq<char>) -> Seq<char>;

/// The message of a parse error.
pub open spec fn parse_error_message(e: ExpressionParseError) -> Seq<char> {
    match e {
        ExpressionParseError::InvalidSyntax { message, input, position } => {
            let head = match position {
                Some(pos) => "Failed to parse boolean expression at position "@ + dec(pos as nat)
                    + ": "@,
                None => "Failed to parse boolean expression: "@,
            };
            head + message@ + ". Input: "@ + str_debug(input@)
        },
    }
}

/// `str`'s `Debug` rendering (`format!("{:?}", s)`); its result is named by [`str_debug`].
#[verifier::external_body]
fn debug_quoted(s: &str) -> (r: String)
    ensures
        r@ == str_debug(s@),
{
    format!("{:?}", s)
}

} // verus!
