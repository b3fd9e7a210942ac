//! Errors of evaluation and of parsing, and the messages that describe them.
use crate::fmt::{decimal, push_decimal};
use vstd::prelude::*;

verus! {

/// Asking for a flag that the configuration never declared.
#[derive(Debug, PartialEq, Eq)]
pub enum EvalError {
    UnknownFlag(String),
}

/// A configuration that cannot be read; each variant carries the 1-based
/// line number and, where there is one, the offending text.
#[derive(Debug, PartialEq, Eq)]
pub enum ParseError {
    Malformed(usize),
    DuplicateFlag(usize, String),
    InvalidBool(usize, String),
    InvalidRollout(usize, String),
    InvalidExpiry(usize, String),
    UnknownAttribute(usize, String),
    UnknownDirective(usize, String),
    UnknownFlagInOverride(usize, String),
}

/// What an [`EvalError`] says, over plain text.
pub enum EvalFailure {
    UnknownFlag(Seq<char>),
}

/// What a [`ParseError`] says, over plain numbers and text.
pub enum ParseFailure {
    Malformed(nat),
    DuplicateFlag(nat, Seq<char>),
    InvalidBool(nat, Seq<char>),
    InvalidRollout(nat, Seq<char>),
    InvalidExpiry(nat, Seq<char>),
    UnknownAttribute(nat, Seq<char>),
    UnknownDirective(nat, Seq<char>),
    UnknownFlagInOverride(nat, Seq<char>),
}

impl View for EvalError {
    type V = EvalFailure;

    open spec fn view(&self) -> EvalFailure {
        match self {
            EvalError::UnknownFlag(name) => EvalFailure::UnknownFlag(name@),
        }
    }
}

impl View for ParseError {
    type V = ParseFailure;

    open spec fn view(&self) -> ParseFailure {
        match self {
            ParseError::Malformed(l) => ParseFailure::Malformed(*l as nat),
            ParseError::DuplicateFlag(l, s) => ParseFailure::DuplicateFlag(*l as nat, s@),
            ParseError::InvalidBool(l, s) => ParseFailure::InvalidBool(*l as nat, s@),
            ParseError::InvalidRollout(l, s) => ParseFailure::InvalidRollout(*l as nat, s@),
            ParseError::InvalidExpiry(l, s) => ParseFailure::InvalidExpiry(*l as nat, s@),
            ParseError::UnknownAttribute(l, s) => ParseFailure::UnknownAttribute(*l as nat, s@),
            ParseError::UnknownDirective(l, s) => ParseFailure::UnknownDirective(*l as nat, s@),
            ParseError::UnknownFlagInOverride(l, s) => ParseFailure::UnknownFlagInOverride(
                *l as nat,
                s@,
            ),
        }
    }
}

/// What `{:?}` prints for a string: the text in double quotes, with the
/// escapes of `str::escape_debug`.
pub uninterp spec fn debug_quoted(s: Seq<char>) -> Seq<char>;

/// Printable ASCII other than the quote characters and the backslash:
/// the characters that `{:?}` writes unchanged.
pub open spec fn plain_ascii(s: Seq<char>) -> bool {
    forall|i: int|
        0 <= i < s.len() ==> 0x20 <= (#[trigger] s[i] as u32) <= 0x7e && s[i] != '"' && s[i] != '\\'
            && s[i] != '\''
}

/// `<str as Debug>::fmt`, through `format!("{:?}", s)`: the text in double
/// quotes, each character escaped as `char::escape_debug` does; printable
/// ASCII other than `"`, `'` and `\` stays as it is.
#[verifier::external_body]
fn debug_quote(s: &str) -> (q: String)
    ensures
        q@ == debug_quoted(s@),
        plain_ascii(s@) ==> q@ == seq!['"'] + s@ + seq!['"'],
{
    format!("{:?}", s)
}

/// How a message quotes a text: plain printable ASCII in double quotes as it
/// is, anything else as `{:?}` prints it.
pub open spec fn quoted(s: Seq<char>) -> Seq<char> {
    if plain_ascii(s) {
        seq!['"'] + s + seq!['"']
    } else {
        debug_quoted(s)
    }
}

pub open spec fn eval_message(e: EvalFailure) -> Seq<char> {
    match e {
        EvalFailure::UnknownFlag(name) => "unknown flag "@ + quoted(name),
    }
}

pub open spec fn parse_message(e: ParseFailure) -> Seq<char> {
    match e {
        ParseFailure::Malformed(l) => "line "@ + decimal(l) + ": malformed directive"@,
        ParseFailure::DuplicateFlag(l, s) => "line "@ + decimal(l) + ": flag "@ + quoted(s)
            + " already declared"@,
        ParseFailure::InvalidBool(l, s) => "line "@ + decimal(l) + ": expected true/false, got "@
            + quoted(s),
        ParseFailure::InvalidRollout(l, s) => "line "@ + decimal(l)
            + ": rollout must be 0..=100, got "@ + quoted(s),
        ParseFailure::InvalidExpiry(l, s) => "line "@ + decimal(l)
            + ": expires must be YYYY-MM-DD, got "@ + quoted(s),
        ParseFailure::UnknownAttribute(l, s) => "line "@ + decimal(l) + ": unknown attribute "@
            + quoted(s),
        ParseFailure::UnknownDirective(l, s) => "line "@ + decimal(l) + ": unknown directive "@
            + quoted(s),
        ParseFailure::UnknownFlagInOverride(l, s) => "line "@ + decimal(l)
            + ": override for undeclared flag "@ + quoted(s),
    }
}

impl EvalError {
    /// The message the error shows to a user.
    pub fn message(&self) -> (m: String)
        ensures
            m@ == eval_message(self@),
    {
        match self {
            EvalError::UnknownFlag(name) => {
                let mut m = String::from_str("unknown flag ");
                let q = debug_quote(name.as_str());
                m.append(q.as_str());
                m
            },
        }
    }
}

impl ParseError {
    /// The message the error shows to a user, `line N: ...`.
    pub fn message(&self) -> (m: String)
        ensures
            m@ == parse_message(self@),
    {
        let mut m = String::from_str("line ");
        match self {
            ParseError::Malformed(l) => {
                push_decimal(&mut m, *l as u64);
                m.append(": malformed directive");
            },
            ParseError::DuplicateFlag(l, s) => {
                push_decimal(&mut m, *l as u64);
                m.append(": flag ");
                m.append(debug_quote(s.as_str()).as_str());
                m.append(" already declared");
            },
            ParseError::InvalidBool(l, s) => {
                push_decimal(&mut m, *l as u64);
                m.append(": expected true/false, got ");
                m.append(debug_quote(s.as_str()).as_str());
            },
            ParseError::InvalidRollout(l, s) => {
                push_decimal(&mut m, *l as u64);
                m.append(": rollout must be 0..=100, got ");
                m.append(debug_quote(s.as_str()).as_str());
            },
            ParseError::InvalidExpiry(l, s) => {
                push_decimal(&mut m, *l as u64);
                m.append(": expires must be YYYY-MM-DD, got ");
                m.append(debug_quote(s.as_str()).as_str());
            },
            ParseError::UnknownAttribute(l, s) => {
                push_decimal(&mut m, *l as u64);
                m.append(": unknown attribute ");
                m.append(debug_quote(s.as_str()).as_str());
            },
            ParseError::UnknownDirective(l, s) => {
                push_decimal(&mut m, *l as u64);
                m.append(": unknown directive ");
                m.append(debug_quote(s.as_str()).as_str());
            },
            ParseError::UnknownFlagInOverride(l, s) => {
                push_decimal(&mut m, *l as u64);
                m.append(": override for undeclared flag ");
                m.append(debug_quote(s.as_str()).as_str());
            },
        }
        proof {
            assert(m@ =~= parse_message(self@));
        }
        m
    }
}

} // verus!
