//! The ways in which an operation on a vault or a folder can fail.

use vstd::prelude::*;

verus! {

/// Why an operation on a vault or a folder failed.
#[derive(Debug, PartialEq, Eq)]
pub enum Error {
    /// The target of a `create` or a `load` fails the item's path predicate.
    InvalidPath,
    /// A vault was to be created where something already exists.
    AlreadyExists,
    /// The folder to change into does not exist.
    PathNotFound,
    /// The folder to change into lies outside the vault.
    OutOfBounds,
    /// The filesystem refused an operation; the text is its message.
    IOFailure(String),
}

/// An error with its message as a sequence of characters.
pub enum ErrorView {
    InvalidPath,
    AlreadyExists,
    PathNotFound,
    OutOfBounds,
    IOFailure(Seq<char>),
}

impl View for Error {
    type V = ErrorView;

    open spec fn view(&self) -> ErrorView {
        match *self {
            Error::InvalidPath => ErrorView::InvalidPath,
            Error::AlreadyExists => ErrorView::AlreadyExists,
            Error::PathNotFound => ErrorView::PathNotFound,
            Error::OutOfBounds => ErrorView::OutOfBounds,
            Error::IOFailure(message) => ErrorView::IOFailure(message@),
        }
    }
}

impl Clone for Error {
    fn clone(&self) -> (r: Self)
        ensures
            r@ == self@,
    {
        match self {
            Error::InvalidPath => Error::InvalidPath,
            Error::AlreadyExists => Error::AlreadyExists,
            Error::PathNotFound => Error::PathNotFound,
            Error::OutOfBounds => Error::OutOfBounds,
            Error::IOFailure(message) => Error::IOFailure(message.clone()),
        }
    }
}

} // verus!
