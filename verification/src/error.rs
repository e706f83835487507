//! The error type shared by the decoder, the converters and the CLI.

use vstd::prelude::*;
use crate::text::push_char;

verus! {

/// Every failure the library reports. The unit variants are the format's
/// error codes.
#[derive(Debug, Clone, PartialEq, Eq)]
pub enum NxsError {
    BadMagic,
    UnknownSigil(char),
    BadEscape(char),
    OutOfBounds,
    DictMismatch,
    CircularLink,
    RecursionLimit,
    MacroUnresolved(String),
    ListTypeMismatch,
    Overflow,
    ParseError(String),
    IoError(String),
}

/// The human-readable message of an error, as the command-line tools print it.
pub open spec fn error_message(e: NxsError) -> Seq<char> {
    match e {
        NxsError::BadMagic => "ERR_BAD_MAGIC"@,
        NxsError::UnknownSigil(c) => "ERR_UNKNOWN_SIGIL: '"@ + seq![c] + "'"@,
        NxsError::BadEscape(c) => "ERR_BAD_ESCAPE: '\\"@ + seq![c] + "'"@,
        NxsError::OutOfBounds => "ERR_OUT_OF_BOUNDS"@,
        NxsError::DictMismatch => "ERR_DICT_MISMATCH"@,
        NxsError::CircularLink => "ERR_CIRCULAR_LINK"@,
        NxsError::RecursionLimit => "ERR_RECURSION_LIMIT"@,
        NxsError::MacroUnresolved(s) => "ERR_MACRO_UNRESOLVED: "@ + s@,
        NxsError::ListTypeMismatch => "ERR_LIST_TYPE_MISMATCH"@,
        NxsError::Overflow => "ERR_OVERFLOW"@,
        NxsError::ParseError(s) => "ParseError: "@ + s@,
        NxsError::IoError(s) => "IoError: "@ + s@,
    }
}

impl NxsError {
    /// Renders the error as text (the library's stand-in for `Display`).
    pub fn to_string(&self) -> (m: String)
        ensures
            m@ == error_message(*self),
    {
        match self {
            NxsError::BadMagic => String::from_str("ERR_BAD_MAGIC"),
            NxsError::UnknownSigil(c) => {
                let mut s = String::from_str("ERR_UNKNOWN_SIGIL: '");
                push_char(&mut s, *c);
                s.append("'");
                s
            },
            NxsError::BadEscape(c) => {
                let mut s = String::from_str("ERR_BAD_ESCAPE: '\\");
                push_char(&mut s, *c);
                s.append("'");
                s
            },
            NxsError::OutOfBounds => String::from_str("ERR_OUT_OF_BOUNDS"),
            NxsError::DictMismatch => String::from_str("ERR_DICT_MISMATCH"),
            NxsError::CircularLink => String::from_str("ERR_CIRCULAR_LINK"),
            NxsError::RecursionLimit => String::from_str("ERR_RECURSION_LIMIT"),
            NxsError::MacroUnresolved(m) => {
                let mut s = String::from_str("ERR_MACRO_UNRESOLVED: ");
                s.append(m.as_str());
                s
            },
            NxsError::ListTypeMismatch => String::from_str("ERR_LIST_TYPE_MISMATCH"),
            NxsError::Overflow => String::from_str("ERR_OVERFLOW"),
            NxsError::ParseError(m) => {
                let mut s = String::from_str("ParseError: ");
                s.append(m.as_str());
                s
            },
            NxsError::IoError(m) => {
                let mut s = String::from_str("IoError: ");
                s.append(m.as_str());
                s
            },
        }
    }
}

} // verus!
