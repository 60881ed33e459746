//! What a failed parse reports: the nature of the first violation, and the
//! input that was left when it was met.

use vstd::prelude::*;
use crate::parser::key_value::{Key, KeyValue, KeyValueView, KeyView};
use crate::parser::number::{Number, NumberView};
use crate::parser::values::{Value, ValueView};

verus! {

/// What the grammar wanted to see at the point where recognition stopped.
#[derive(Clone, Copy, Debug, PartialEq, Eq)]
pub enum Expected {
    /// An alphabetic key name.
    Key,
    /// The separator ` = ` between a key and its value.
    Separator,
    /// A string, a number or a list of numbers.
    Value,
    /// The quote that closes a string.
    ClosingQuote,
    /// A number after the comma of a list.
    Number,
    /// The line feed that ends a line.
    Newline,
    /// The indentation of a block's first property line.
    Indent,
    /// A `version` line at the head of the header block.
    VersionLine,
    /// A `state` line at the head of a state block.
    StateLine,
    /// The marker that opens the document.
    Begin,
    /// The marker that closes the document.
    End,
    /// Nothing more after the closing marker.
    EndOfInput,
}

/// The nature of a failure.
///
/// `Syntax` is a grammar failure: the text at the cursor has not the shape
/// that the grammar asks for. Every other variant is a validation failure:
/// the text was recognized, and then rejected when it was given its type.
#[derive(Debug, PartialEq)]
pub enum DmiError {
    /// The text at the cursor is not what the grammar expects there.
    Syntax(Expected),
    /// The number given for `dirs` is none of 1, 4 and 8.
    InvalidDirs(u32),
    /// A known key stands with a value of the wrong shape.
    InvalidPair(Key, Value),
    /// The header's version is not 4.0.
    UnsupportedVersion(Number),
    /// A pair stands in a block that has no place for it.
    NotAllowed(KeyValue),
    /// A block lacks the field that this key sets.
    MissingField(Key),
    /// A hotspot has this many numbers, which is not three.
    HotspotLength(usize),
}

/// The model of a [`DmiError`].
pub enum DmiErrorView {
    Syntax(Expected),
    InvalidDirs(u32),
    InvalidPair(KeyView, ValueView),
    UnsupportedVersion(NumberView),
    NotAllowed(KeyValueView),
    MissingField(KeyView),
    HotspotLength(nat),
}

impl View for DmiError {
    type V = DmiErrorView;

    open spec fn view(&self) -> DmiErrorView {
        match self {
            DmiError::Syntax(e) => DmiErrorView::Syntax(*e),
            DmiError::InvalidDirs(n) => DmiErrorView::InvalidDirs(*n),
            DmiError::InvalidPair(k, v) => DmiErrorView::InvalidPair(k@, v@),
            DmiError::UnsupportedVersion(d) => DmiErrorView::UnsupportedVersion(d@),
            DmiError::NotAllowed(kv) => DmiErrorView::NotAllowed(kv@),
            DmiError::MissingField(k) => DmiErrorView::MissingField(k@),
            DmiError::HotspotLength(n) => DmiErrorView::HotspotLength(*n as nat),
        }
    }
}

impl DmiError {
    /// Whether this is a grammar failure, as opposed to a validation failure.
    pub fn is_syntax(&self) -> (r: bool)
        ensures
            r == (self@ is Syntax),
    {
        match self {
            DmiError::Syntax(_) => true,
            _ => false,
        }
    }
}

/// A failed parse: the first violation, and the input from the point where
/// the offending fragment starts.
#[derive(Debug, PartialEq)]
pub struct ParseError<'a> {
    /// The input that was left when the violation was met.
    pub rest: &'a str,
    /// The nature of the violation.
    pub error: DmiError,
}

/// The model of a [`ParseError`].
pub struct ParseErrorView {
    pub rest: Seq<char>,
    pub error: DmiErrorView,
}

impl<'a> View for ParseError<'a> {
    type V = ParseErrorView;

    open spec fn view(&self) -> ParseErrorView {
        ParseErrorView { rest: self.rest@, error: self.error@ }
    }
}

/// The grammar failure that expects `what` at `rest`.
pub open spec fn syntax_error(rest: Seq<char>, what: Expected) -> ParseErrorView {
    ParseErrorView { rest, error: DmiErrorView::Syntax(what) }
}

/// Builds the grammar failure that expects `what` at `rest`.
pub fn syntax<'a>(rest: &'a str, what: Expected) -> (f: ParseError<'a>)
    ensures
        f@ == syntax_error(rest@, what),
{
    ParseError { rest, error: DmiError::Syntax(what) }
}

} // verus!
