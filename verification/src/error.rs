//! The errors that expanding and collapsing can report.

use vstd::prelude::*;
use vstd::string::*;
use crate::text::{decimal, push_decimal};

verus! {

/// Why an expression or a host name was refused.
#[non_exhaustive]
#[derive(Debug)]
pub enum Error {
    /// A range was written with its start above its end.
    InvalidRangeReversed { start: u32, end: u32 },
    /// A range bound is the largest 32-bit value, which no range may hold.
    TooLarge(u32),
    /// The expression denotes more names than a counter can hold.
    HostlistTooLarge,
    /// The text is no host name: a run of name characters that may end in digits.
    InvalidHostname(String),
    /// An operation was used out of order.
    Internal(String),
    /// The text does not follow the grammar of host expressions, or a number in
    /// it is too large for 32 bits.
    ParseError(String),
}

/// What an error says of itself, as characters.
pub open spec fn error_text(e: Error) -> Seq<char> {
    match e {
        Error::InvalidRangeReversed { start, end } => "invalid range \"["@ + decimal(start as nat)
            + "-"@ + decimal(end as nat) + "]\": start greater than end"@,
        Error::TooLarge(v) => "integer value "@ + decimal(v as nat) + " exceeds limits"@,
        Error::HostlistTooLarge => "hostlist is too large"@,
        Error::InvalidHostname(t) => "invalid hostname: \""@ + t@ + "\""@,
        Error::Internal(t) => "internal error: \""@ + t@ + "\""@,
        Error::ParseError(t) => "parse error:\n"@ + t@,
    }
}

impl Error {
    /// The message of this error.
    pub fn to_string(&self) -> (s: String)
        ensures
            s@ == error_text(*self),
    {
        match self {
            Error::InvalidRangeReversed { start, end } => {
                let mut s = String::from_str("invalid range \"[");
                push_decimal(&mut s, *start);
                s.append("-");
                push_decimal(&mut s, *end);
                s.append("]\": start greater than end");
                s
            },
            Error::TooLarge(v) => {
                let mut s = String::from_str("integer value ");
                push_decimal(&mut s, *v);
                s.append(" exceeds limits");
                s
            },
            Error::HostlistTooLarge => String::from_str("hostlist is too large"),
            Error::InvalidHostname(t) => {
                let mut s = String::from_str("invalid hostname: \"");
                s.append(t.as_str());
                s.append("\"");
                s
            },
            Error::Internal(t) => {
                let mut s = String::from_str("internal error: \"");
                s.append(t.as_str());
                s.append("\"");
                s
            },
            Error::ParseError(t) => {
                let mut s = String::from_str("parse error:\n");
                s.append(t.as_str());
                s
            },
        }
    }
}

} // verus!
