//! Failures of a read, each with the place in the source where it arose.

use vstd::prelude::*;

verus! {

/// A place in the source text: row and column, both counted from zero.
#[derive(Clone, Copy, PartialEq, Eq, Debug, Structural)]
pub struct Position {
    pub row: u64,
    pub column: u64,
}

impl Position {
    /// The place before anything has been read.
    pub open spec fn origin() -> Position {
        Position { row: 0, column: 0 }
    }

    pub fn new(row: u64, column: u64) -> (position: Position)
        ensures
            position == (Position { row, column }),
    {
        Position { row, column }
    }
}

/// Why a raw attribute value stands for no number.
#[derive(Clone, Copy, PartialEq, Eq, Debug, Structural)]
pub enum Cause {
    /// The value holds no character at all.
    Empty,
    /// The value is not an optional sign followed by decimal digits.
    InvalidDigit,
    /// The digits name an integer above the largest identifier.
    TooLarge,
    /// The digits name an integer below the smallest identifier.
    TooSmall,
    /// The value is not a decimal literal.
    InvalidDecimal,
}

/// Where the transducer stood when an event came up that it cannot take.
#[derive(Clone, Copy, PartialEq, Eq, Debug, Structural)]
pub enum Context {
    /// Looking for the start of the root element.
    Root,
    /// Between the top-level elements of the document.
    Document,
    /// Between the children of a node, way or relation.
    Element,
}

/// What went wrong.
#[derive(Clone, PartialEq, Eq, Debug)]
pub enum ErrorKind {
    /// A required attribute is not among those of the element.
    MissingAttribute { name: String },
    /// An attribute is present but its value stands for no number.
    InvalidAttributeValue { name: String, value: String, cause: Cause },
    /// An event came up where the document's structure has no place for it.
    UnexpectedEvent { context: Context },
    /// A member names a kind of element that does not exist.
    InvalidEnumValue { value: String },
    /// The tokenizer could not make sense of the source text.
    Malformed { message: String },
}

/// A failed read: what went wrong, and where in the source.
#[derive(Clone, PartialEq, Eq, Debug)]
pub struct Error {
    pub position: Position,
    pub kind: ErrorKind,
}

/// The mathematical content of an [`ErrorKind`].
pub enum ErrorKindView {
    MissingAttribute { name: Seq<char> },
    InvalidAttributeValue { name: Seq<char>, value: Seq<char>, cause: Cause },
    UnexpectedEvent { context: Context },
    InvalidEnumValue { value: Seq<char> },
    Malformed { message: Seq<char> },
}

/// The mathematical content of an [`Error`].
pub struct ErrorView {
    pub position: Position,
    pub kind: ErrorKindView,
}

impl View for ErrorKind {
    type V = ErrorKindView;

    open spec fn view(&self) -> ErrorKindView {
        match *self {
            ErrorKind::MissingAttribute { name } => ErrorKindView::MissingAttribute { name: name@ },
            ErrorKind::InvalidAttributeValue { name, value, cause } => {
                ErrorKindView::InvalidAttributeValue { name: name@, value: value@, cause }
            },
            ErrorKind::UnexpectedEvent { context } => ErrorKindView::UnexpectedEvent { context },
            ErrorKind::InvalidEnumValue { value } => ErrorKindView::InvalidEnumValue {
                value: value@,
            },
            ErrorKind::Malformed { message } => ErrorKindView::Malformed { message: message@ },
        }
    }
}

impl View for Error {
    type V = ErrorView;

    open spec fn view(&self) -> ErrorView {
        ErrorView { position: self.position, kind: self.kind@ }
    }
}

/// The mathematical content of what a read came to: that of the value it gave, or that of the
/// failure it ended with.
pub open spec fn outcome<T: View>(r: Result<T, Error>) -> Result<T::V, ErrorView> {
    match r {
        Ok(value) => Ok(value@),
        Err(e) => Err(e@),
    }
}

impl ErrorView {
    /// A required attribute is missing from the element read last.
    pub open spec fn missing(position: Position, name: Seq<char>) -> ErrorView {
        ErrorView { position, kind: ErrorKindView::MissingAttribute { name } }
    }

    /// An attribute of the element read last stands for no number.
    pub open spec fn invalid(
        position: Position,
        name: Seq<char>,
        value: Seq<char>,
        cause: Cause,
    ) -> ErrorView {
        ErrorView { position, kind: ErrorKindView::InvalidAttributeValue { name, value, cause } }
    }

    /// The event read last has no place where it came up.
    pub open spec fn unexpected(position: Position, context: Context) -> ErrorView {
        ErrorView { position, kind: ErrorKindView::UnexpectedEvent { context } }
    }

    /// A member of the relation read last names no kind of element.
    pub open spec fn invalid_kind(position: Position, value: Seq<char>) -> ErrorView {
        ErrorView { position, kind: ErrorKindView::InvalidEnumValue { value } }
    }

    /// The tokenizer gave up.
    pub open spec fn malformed(position: Position, message: Seq<char>) -> ErrorView {
        ErrorView { position, kind: ErrorKindView::Malformed { message } }
    }
}

} // verus!
