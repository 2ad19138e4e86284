//! The errors of the library and their texts.

use vstd::prelude::*;
use vstd::string::*;

use crate::wire::{Cause, Failure};

verus! {

/// What can go wrong in the operations on grammars. Each error carries its
/// detail as text.
#[derive(Debug, PartialEq, Eq)]
pub enum PgfError {
    /// The byte source could not be read.
    Io(String),
    /// No concrete syntax has the name.
    UnknownLanguage(String),
    /// The bytes are not a grammar file.
    DeserializeError(String),
    /// The grammar could not be projected.
    SerializeError(String),
    /// The expression does not have the type.
    TypeCheckError(String),
    /// A parse state could not be made, or the input has no parse.
    ParseError(String),
}

pub enum SpecPgfError {
    Io(Seq<char>),
    UnknownLanguage(Seq<char>),
    DeserializeError(Seq<char>),
    SerializeError(Seq<char>),
    TypeCheckError(Seq<char>),
    ParseError(Seq<char>),
}

impl View for PgfError {
    type V = SpecPgfError;

    open spec fn view(&self) -> SpecPgfError {
        match self {
            PgfError::Io(m) => SpecPgfError::Io(m@),
            PgfError::UnknownLanguage(m) => SpecPgfError::UnknownLanguage(m@),
            PgfError::DeserializeError(m) => SpecPgfError::DeserializeError(m@),
            PgfError::SerializeError(m) => SpecPgfError::SerializeError(m@),
            PgfError::TypeCheckError(m) => SpecPgfError::TypeCheckError(m@),
            PgfError::ParseError(m) => SpecPgfError::ParseError(m@),
        }
    }
}

/// The text of an error: what kind it is, a colon, and its detail.
pub open spec fn error_text(e: SpecPgfError) -> Seq<char> {
    match e {
        SpecPgfError::Io(m) => "IO error: "@ + m,
        SpecPgfError::UnknownLanguage(m) => "Unknown language: "@ + m,
        SpecPgfError::DeserializeError(m) => "Deserialization error: "@ + m,
        SpecPgfError::SerializeError(m) => "Serialization error: "@ + m,
        SpecPgfError::TypeCheckError(m) => "Type checking error: "@ + m,
        SpecPgfError::ParseError(m) => "Parsing error: "@ + m,
    }
}

/// `prefix` followed by `detail`.
pub fn join(prefix: &str, detail: &str) -> (r: String)
    ensures
        r@ == prefix@ + detail@,
{
    let mut s = String::from_str(prefix);
    s.append(detail);
    s
}

impl PgfError {
    /// The text of the error.
    pub fn message(&self) -> (r: String)
        ensures
            r@ == error_text(self@),
    {
        match self {
            PgfError::Io(m) => join("IO error: ", m.as_str()),
            PgfError::UnknownLanguage(m) => join("Unknown language: ", m.as_str()),
            PgfError::DeserializeError(m) => join("Deserialization error: ", m.as_str()),
            PgfError::SerializeError(m) => join("Serialization error: ", m.as_str()),
            PgfError::TypeCheckError(m) => join("Type checking error: ", m.as_str()),
            PgfError::ParseError(m) => join("Parsing error: ", m.as_str()),
        }
    }
}

/// The character of a decimal digit.
pub open spec fn digit(d: nat) -> char {
    if d == 0 {
        '0'
    } else if d == 1 {
        '1'
    } else if d == 2 {
        '2'
    } else if d == 3 {
        '3'
    } else if d == 4 {
        '4'
    } else if d == 5 {
        '5'
    } else if d == 6 {
        '6'
    } else if d == 7 {
        '7'
    } else if d == 8 {
        '8'
    } else {
        '9'
    }
}

/// A number in decimal digits, without leading zeros.
pub open spec fn decimal(n: nat) -> Seq<char>
    decreases n,
{
    if n < 10 {
        seq![digit(n)]
    } else {
        decimal(n / 10).push(digit(n % 10))
    }
}

fn digit_text(d: usize) -> (r: &'static str)
    requires
        d < 10,
    ensures
        r@ == seq![digit(d as nat)],
{
    proof {
        reveal_strlit("0");
        reveal_strlit("1");
        reveal_strlit("2");
        reveal_strlit("3");
        reveal_strlit("4");
        reveal_strlit("5");
        reveal_strlit("6");
        reveal_strlit("7");
        reveal_strlit("8");
        reveal_strlit("9");
    }
    let r = if d == 0 {
        "0"
    } else if d == 1 {
        "1"
    } else if d == 2 {
        "2"
    } else if d == 3 {
        "3"
    } else if d == 4 {
        "4"
    } else if d == 5 {
        "5"
    } else if d == 6 {
        "6"
    } else if d == 7 {
        "7"
    } else if d == 8 {
        "8"
    } else {
        "9"
    };
    assert(r@ =~= seq![digit(d as nat)]);
    r
}

/// Writes a number in decimal digits.
pub fn decimal_text(n: usize) -> (r: String)
    ensures
        r@ == decimal(n as nat),
    decreases n,
{
    if n < 10 {
        String::from_str(digit_text(n))
    } else {
        let mut s = decimal_text(n / 10);
        s.append(digit_text(n % 10));
        assert(s@ =~= decimal(n as nat));
        s
    }
}

/// The text of a cause.
pub open spec fn cause_text(c: Cause) -> Seq<char> {
    match c {
        Cause::Truncated => "unexpected end of input"@,
        Cause::InvalidUtf8 => "invalid UTF-8"@,
        Cause::UnknownTag(t) => "unknown tag "@ + decimal(t as nat),
        Cause::UnsupportedVersion(v) => "unsupported version "@ + decimal(v as nat),
        Cause::GrammarCount(n) => "expected 1 grammar, got "@ + decimal(n as nat),
        Cause::TrailingBytes => "trailing bytes"@,
        Cause::TooDeep => "nested too deep"@,
        Cause::NoStartCategory => "no start category"@,
        Cause::UnknownFunction => "function not in the abstract syntax"@,
        Cause::SequenceOutOfRange => "sequence index out of range"@,
        Cause::ArgumentOutOfArity => "argument index out of arity"@,
        Cause::FidOutOfRange => "fid out of range"@,
        Cause::CoercionCycle => "coercions in a circle"@,
    }
}

/// The text of a failure: the field, a colon, the cause, and the offset.
pub open spec fn failure_text(f: Failure) -> Seq<char> {
    f.field@ + ": "@ + cause_text(f.cause) + " at offset "@ + decimal(f.offset as nat)
}

fn describe_cause(c: Cause) -> (r: String)
    ensures
        r@ == cause_text(c),
{
    match c {
        Cause::Truncated => String::from_str("unexpected end of input"),
        Cause::InvalidUtf8 => String::from_str("invalid UTF-8"),
        Cause::UnknownTag(t) => join("unknown tag ", decimal_text(t as usize).as_str()),
        Cause::UnsupportedVersion(v) => join(
            "unsupported version ",
            decimal_text(v as usize).as_str(),
        ),
        Cause::GrammarCount(n) => join("expected 1 grammar, got ", decimal_text(n as usize).as_str()),
        Cause::TrailingBytes => String::from_str("trailing bytes"),
        Cause::TooDeep => String::from_str("nested too deep"),
        Cause::NoStartCategory => String::from_str("no start category"),
        Cause::UnknownFunction => String::from_str("function not in the abstract syntax"),
        Cause::SequenceOutOfRange => String::from_str("sequence index out of range"),
        Cause::ArgumentOutOfArity => String::from_str("argument index out of arity"),
        Cause::FidOutOfRange => String::from_str("fid out of range"),
        Cause::CoercionCycle => String::from_str("coercions in a circle"),
    }
}

/// Writes a failure as text.
pub fn describe(f: &Failure) -> (r: String)
    ensures
        r@ == failure_text(*f),
{
    let mut s = String::from_str(f.field);
    s.append(": ");
    s.append(describe_cause(f.cause).as_str());
    s.append(" at offset ");
    s.append(decimal_text(f.offset).as_str());
    s
}

} // verus!
