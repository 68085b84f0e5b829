//! Symbols, keywords and the error type.
use vstd::prelude::*;
use crate::chars::string_of;

verus! {

/// An EDN symbol such as `foo` or `name/space`.
#[derive(Clone, Debug, PartialEq, Eq, Hash)]
pub struct Symbol(pub String);

/// An EDN keyword. Its text keeps the leading colon, e.g. `:foo`.
#[derive(Clone, Debug, PartialEq, Eq, Hash)]
pub struct Keyword(pub String);

impl Symbol {
    /// The symbol of the text `name`.
    pub fn new(name: &str) -> (r: Symbol)
        ensures
            r.0@ == name@,
    {
        Symbol(string_of(name))
    }

    pub fn as_str(&self) -> (r: &str)
        ensures
            r@ == self.0@,
    {
        self.0.as_str()
    }
}

impl Keyword {
    /// The keyword of the text `name`, colon included.
    pub fn new(name: &str) -> (r: Keyword)
        ensures
            r.0@ == name@,
    {
        Keyword(string_of(name))
    }

    pub fn as_str(&self) -> (r: &str)
        ensures
            r@ == self.0@,
    {
        self.0.as_str()
    }
}

/// A syntax error together with the place where reading stopped.
#[derive(Clone, Debug, PartialEq, Eq)]
pub struct ParseError {
    pub message: String,
    pub line: usize,
    pub column: usize,
}

impl ParseError {
    /// An error with its message and place.
    pub fn new(message: String, line: usize, column: usize) -> (r: ParseError)
        ensures
            r.message@ == message@,
            r.line == line,
            r.column == column,
    {
        ParseError { message, line, column }
    }
}

/// Errors of reading and writing EDN.
#[derive(Clone, Debug, PartialEq, Eq)]
pub enum Error {
    /// A syntax error at a line and column.
    Parse(ParseError),
    /// The input ended where a value was expected.
    Eof,
    /// Any other error, described by its message.
    Custom(String),
}

/// The mathematical view of an [`Error`].
pub enum ErrorView {
    Parse(Seq<char>, int, int),
    Eof,
    Custom(Seq<char>),
}

impl View for Error {
    type V = ErrorView;

    open spec fn view(&self) -> ErrorView {
        match self {
            Error::Parse(p) => ErrorView::Parse(p.message@, p.line as int, p.column as int),
            Error::Eof => ErrorView::Eof,
            Error::Custom(m) => ErrorView::Custom(m@),
        }
    }
}

/// The message an error is shown with.
pub open spec fn error_text(e: ErrorView) -> Seq<char> {
    match e {
        ErrorView::Parse(m, _, _) => m,
        ErrorView::Eof => "unexpected end of input"@,
        ErrorView::Custom(m) => m,
    }
}

impl Error {
    /// The message of the error, as it is shown to a user.
    pub fn message(&self) -> (r: String)
        ensures
            r@ == error_text(self@),
    {
        match self {
            Error::Parse(p) => p.message.clone(),
            Error::Eof => string_of("unexpected end of input"),
            Error::Custom(m) => m.clone(),
        }
    }
}

} // verus!
