//! The ways reading a log can fail.
use vstd::prelude::*;

verus! {

/// A failure while reading a log. Line numbers count physical lines from 1,
/// the header being line 1.
#[derive(Debug, Clone, PartialEq, Eq)]
pub enum SmasherError {
    /// The input could not be read; holds the reader's own description.
    IoError(String),
    /// A line did not have exactly two comma-separated fields: its number and
    /// its text.
    InvalidFormat(usize, String),
    /// A field could not be read as a number: the line's number and the
    /// field's text.
    ParseError(usize, String),
    /// There was no header, or no action followed it.
    EmptyData(String),
}

/// A `SmasherError` with its texts seen as character sequences.
pub enum ErrorView {
    Io(Seq<char>),
    InvalidFormat(nat, Seq<char>),
    Parse(nat, Seq<char>),
    Empty(Seq<char>),
}

impl View for SmasherError {
    type V = ErrorView;

    open spec fn view(&self) -> ErrorView {
        match self {
            SmasherError::IoError(m) => ErrorView::Io(m@),
            SmasherError::InvalidFormat(n, l) => ErrorView::InvalidFormat(*n as nat, l@),
            SmasherError::ParseError(n, t) => ErrorView::Parse(*n as nat, t@),
            SmasherError::EmptyData(m) => ErrorView::Empty(m@),
        }
    }
}

} // verus!
