//! What can go wrong.
use crate::text::{decimal, decimal_text, join};
use vstd::prelude::*;
use vstd::string::*;

verus! {

/// Why an operation was refused or could not be completed.
#[derive(Debug, Clone, PartialEq, Eq)]
pub enum Error {
    InvalidDimension { expected: usize, actual: usize },
    InvalidVector(&'static str),
    InvalidConfig(&'static str),
    InvalidConfiguration(String),
    InvalidQuery(&'static str),
    Io(String),
    CorruptStorage(String),
    Concurrency(String),
    NotFound(String),
    AlreadyExists(String),
    Unauthorized,
    ResourceExhausted(String),
    SequenceOverflow,
}

/// An [`Error`] with its messages as character sequences.
#[verifier::ext_equal]
pub enum ErrorView {
    InvalidDimension { expected: usize, actual: usize },
    InvalidVector(Seq<char>),
    InvalidConfig(Seq<char>),
    InvalidConfiguration(Seq<char>),
    InvalidQuery(Seq<char>),
    Io(Seq<char>),
    CorruptStorage(Seq<char>),
    Concurrency(Seq<char>),
    NotFound(Seq<char>),
    AlreadyExists(Seq<char>),
    Unauthorized,
    ResourceExhausted(Seq<char>),
    SequenceOverflow,
}

impl View for Error {
    type V = ErrorView;

    open spec fn view(&self) -> ErrorView {
        match *self {
            Error::InvalidDimension { expected, actual } => ErrorView::InvalidDimension {
                expected,
                actual,
            },
            Error::InvalidVector(m) => ErrorView::InvalidVector(m@),
            Error::InvalidConfig(m) => ErrorView::InvalidConfig(m@),
            Error::InvalidConfiguration(m) => ErrorView::InvalidConfiguration(m@),
            Error::InvalidQuery(m) => ErrorView::InvalidQuery(m@),
            Error::Io(m) => ErrorView::Io(m@),
            Error::CorruptStorage(m) => ErrorView::CorruptStorage(m@),
            Error::Concurrency(m) => ErrorView::Concurrency(m@),
            Error::NotFound(m) => ErrorView::NotFound(m@),
            Error::AlreadyExists(m) => ErrorView::AlreadyExists(m@),
            Error::Unauthorized => ErrorView::Unauthorized,
            Error::ResourceExhausted(m) => ErrorView::ResourceExhausted(m@),
            Error::SequenceOverflow => ErrorView::SequenceOverflow,
        }
    }
}

impl ErrorView {
    /// The sentence that describes the error.
    pub open spec fn message(self) -> Seq<char> {
        match self {
            ErrorView::InvalidDimension { expected, actual } => {
                "invalid vector dimension: expected "@ + decimal(expected as nat) + ", got "@
                    + decimal(actual as nat)
            },
            ErrorView::InvalidVector(m) => "invalid vector: "@ + m,
            ErrorView::InvalidConfig(m) => "invalid collection config: "@ + m,
            ErrorView::InvalidConfiguration(m) => "invalid configuration: "@ + m,
            ErrorView::InvalidQuery(m) => "invalid query: "@ + m,
            ErrorView::Io(m) => "storage I/O error: "@ + m,
            ErrorView::CorruptStorage(m) => "corrupt storage: "@ + m,
            ErrorView::Concurrency(m) => "concurrency error: "@ + m,
            ErrorView::NotFound(m) => "not found: "@ + m,
            ErrorView::AlreadyExists(m) => "already exists: "@ + m,
            ErrorView::Unauthorized => "unauthorized"@,
            ErrorView::ResourceExhausted(m) => "resource exhausted: "@ + m,
            ErrorView::SequenceOverflow => "collection sequence overflow"@,
        }
    }
}

impl Error {
    /// The sentence that describes the error.
    pub fn message(&self) -> (text: String)
        ensures
            text@ == self@.message(),
    {
        match self {
            Error::InvalidDimension { expected, actual } => {
                let mut text = join(
                    "invalid vector dimension: expected ",
                    decimal_text(*expected as u64).as_str(),
                );
                text.append(", got ");
                text.append(decimal_text(*actual as u64).as_str());
                text
            },
            Error::InvalidVector(m) => join("invalid vector: ", m),
            Error::InvalidConfig(m) => join("invalid collection config: ", m),
            Error::InvalidConfiguration(m) => join("invalid configuration: ", m.as_str()),
            Error::InvalidQuery(m) => join("invalid query: ", m),
            Error::Io(m) => join("storage I/O error: ", m.as_str()),
            Error::CorruptStorage(m) => join("corrupt storage: ", m.as_str()),
            Error::Concurrency(m) => join("concurrency error: ", m.as_str()),
            Error::NotFound(m) => join("not found: ", m.as_str()),
            Error::AlreadyExists(m) => join("already exists: ", m.as_str()),
            Error::Unauthorized => "unauthorized".to_owned(),
            Error::ResourceExhausted(m) => join("resource exhausted: ", m.as_str()),
            Error::SequenceOverflow => "collection sequence overflow".to_owned(),
        }
    }

    /// A [`Error::CorruptStorage`] with a fixed message.
    pub(crate) fn corrupt(message: &str) -> (error: Error)
        ensures
            error@ == ErrorView::CorruptStorage(message@),
    {
        Error::CorruptStorage(message.to_owned())
    }
}

/// The library's result type.
pub type Result<T> = core::result::Result<T, Error>;

/// A result as its views.
pub open spec fn outcome<T: View>(result: Result<T>) -> core::result::Result<T::V, ErrorView> {
    match result {
        Ok(value) => Ok(value@),
        Err(error) => Err(error@),
    }
}

/// A result that carries no value, as its view.
pub open spec fn verdict(result: Result<()>) -> core::result::Result<(), ErrorView> {
    match result {
        Ok(_) => Ok(()),
        Err(error) => Err(error@),
    }
}

} // verus!
