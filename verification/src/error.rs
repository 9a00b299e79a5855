//! Parse-time errors. All failures are recoverable values; parsing aborts
//! at the first error and no partial path is returned.

use vstd::prelude::*;

use crate::lexer::{GToken, TokenType};
use crate::value::{GValue, Value};
use vstd::string::StringExecFns;

verus! {

/// A failure while decoding a quoted string or a number literal.
#[derive(Debug, Clone, Copy, PartialEq, Eq, Structural)]
pub enum ParseStringError {
    /// The input was empty.
    EmptyString,
    /// The input does not open with a double quote.
    MissingBeginOfString,
    /// The input does not close with a double quote.
    MissingEndOfString,
    /// An escape other than the supported ones.
    UnknownEscape(char),
    /// A hexadecimal digit was expected.
    NotHexDigit,
    /// An `\xHH` escape outside `0x01..=0x7F`.
    AsciiNotValid(u8),
    /// A `\u{…}` escape that is no Unicode scalar value.
    UnicodeNotValid(u32),
    /// A `\u{…}` escape with more than six digits.
    UnicodeMoreThanSixDigits,
    /// A `\u{…}` escape above `0x10FFFF`.
    UnicodeOutOfBound(u32),
    /// `\u` not followed by `{`.
    ExpectedCurlyBracket,
    /// A numeric literal that does not parse.
    MalformedNumber,
}

/// The mathematical value of a [`ParseError`].
pub enum GParseError {
    UnexpectedToken(GToken),
    MalformedString(Seq<char>, ParseStringError),
    DoubleEqual,
    MissingEntryValue,
    UnexpectedEntryIdentifier(GValue),
    MissingEntryIdentifier,
    UndefinedEntryIdentifier,
    EntriesOnMarker,
    NotANode,
    MissingNode,
    NodeAlreadyDefined,
    EntriesAlreadyDefined,
    RangeAlreadyDefined,
    RangeExpectingInteger(GValue),
    RangeEmpty,
    RangeMissingSeparator,
    RangeMissingEnd,
    UnknownKeyword(Seq<char>),
}

/// A failure while parsing a query path.
#[derive(Debug, Clone, PartialEq)]
pub enum ParseError {
    /// A token that cannot appear here.
    UnexpectedToken(TokenType),
    /// A string or number literal failed to decode; carries the source
    /// slice and the reason.
    MalformedString(String, ParseStringError),
    /// Two `=` for one entry.
    DoubleEqual,
    /// An `=` without a following value.
    MissingEntryValue,
    /// An entry identifier that is neither a string nor an integer.
    UnexpectedEntryIdentifier(Value),
    /// An `=` without a preceding identifier.
    MissingEntryIdentifier,
    /// The wildcard `_` used as an entry identifier.
    UndefinedEntryIdentifier,
    /// Entries attached to a marker that cannot carry them.
    EntriesOnMarker,
    /// A value stood where a node name was expected.
    NotANode,
    /// Entries or a range with no node before them.
    MissingNode,
    /// Two node kinds for one segment.
    NodeAlreadyDefined,
    /// Two entry lists for one segment.
    EntriesAlreadyDefined,
    /// Two ranges for one segment.
    RangeAlreadyDefined,
    /// A range index that is not an integer.
    RangeExpectingInteger(Value),
    /// `{}` with nothing inside.
    RangeEmpty,
    /// Two range indices without `..` between them.
    RangeMissingSeparator,
    /// A range without its closing `}`.
    RangeMissingEnd,
    /// A keyword other than `true`, `false` or `null`.
    UnknownKeyword(String),
}

impl View for ParseError {
    type V = GParseError;

    open spec fn view(&self) -> GParseError {
        match self {
            ParseError::UnexpectedToken(t) => GParseError::UnexpectedToken(t@),
            ParseError::MalformedString(s, e) => GParseError::MalformedString(s@, *e),
            ParseError::DoubleEqual => GParseError::DoubleEqual,
            ParseError::MissingEntryValue => GParseError::MissingEntryValue,
            ParseError::UnexpectedEntryIdentifier(v) => GParseError::UnexpectedEntryIdentifier(v@),
            ParseError::MissingEntryIdentifier => GParseError::MissingEntryIdentifier,
            ParseError::UndefinedEntryIdentifier => GParseError::UndefinedEntryIdentifier,
            ParseError::EntriesOnMarker => GParseError::EntriesOnMarker,
            ParseError::NotANode => GParseError::NotANode,
            ParseError::MissingNode => GParseError::MissingNode,
            ParseError::NodeAlreadyDefined => GParseError::NodeAlreadyDefined,
            ParseError::EntriesAlreadyDefined => GParseError::EntriesAlreadyDefined,
            ParseError::RangeAlreadyDefined => GParseError::RangeAlreadyDefined,
            ParseError::RangeExpectingInteger(v) => GParseError::RangeExpectingInteger(v@),
            ParseError::RangeEmpty => GParseError::RangeEmpty,
            ParseError::RangeMissingSeparator => GParseError::RangeMissingSeparator,
            ParseError::RangeMissingEnd => GParseError::RangeMissingEnd,
            ParseError::UnknownKeyword(s) => GParseError::UnknownKeyword(s@),
        }
    }
}

impl ParseStringError {
    /// Wraps a decode failure with the source slice it arose from.
    pub fn into_parse_error(self, origin: &str) -> (r: ParseError)
        ensures
            r@ == GParseError::MalformedString(origin@, self),
    {
        ParseError::MalformedString(String::from_str(origin), self)
    }
}

} // verus!
