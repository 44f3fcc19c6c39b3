//! Errors and the status codes they are reported as.

use crate::text::cat3;
use vstd::prelude::*;

verus! {

/// Success.
pub const OK: i32 = 0;

/// An argument or a configuration is not acceptable.
pub const INVALID_ARG: i32 = 1;

/// A name is not known.
pub const NOT_FOUND: i32 = 2;

/// The operation does not fit the current state.
pub const STATE: i32 = 3;

/// The stream is closed.
pub const CLOSED: i32 = 4;

/// The graph was cancelled.
pub const CANCELLED: i32 = 5;

/// The operation would have to wait.
pub const WOULD_BLOCK: i32 = 6;

/// A kernel reported a failure.
pub const KERNEL: i32 = 7;

/// A panic was caught at the boundary.
pub const PANIC: i32 = 8;

/// The feature is not supported.
pub const UNSUPPORTED: i32 = 10;

/// Why an operation failed.
#[derive(Debug, Clone)]
pub enum Error {
    InvalidArg(String),
    Unsupported(String),
    State(String),
    NotFound(String),
    Kernel(String),
    Closed,
    Cancelled,
    WouldBlock,
}

/// An error with its message as a text.
pub enum ErrorView {
    InvalidArg(Seq<char>),
    Unsupported(Seq<char>),
    State(Seq<char>),
    NotFound(Seq<char>),
    Kernel(Seq<char>),
    Closed,
    Cancelled,
    WouldBlock,
}

impl View for Error {
    type V = ErrorView;

    open spec fn view(&self) -> ErrorView {
        match *self {
            Error::InvalidArg(m) => ErrorView::InvalidArg(m@),
            Error::Unsupported(m) => ErrorView::Unsupported(m@),
            Error::State(m) => ErrorView::State(m@),
            Error::NotFound(m) => ErrorView::NotFound(m@),
            Error::Kernel(m) => ErrorView::Kernel(m@),
            Error::Closed => ErrorView::Closed,
            Error::Cancelled => ErrorView::Cancelled,
            Error::WouldBlock => ErrorView::WouldBlock,
        }
    }
}

/// The failure that a result reports, if it is one.
pub open spec fn failure<T>(r: Result<T, Error>) -> Option<ErrorView> {
    match r {
        Ok(_) => None,
        Err(e) => Some(e@),
    }
}

/// The first of two failures.
pub open spec fn first_failure(a: Option<ErrorView>, b: Option<ErrorView>) -> Option<ErrorView> {
    if a is Some {
        a
    } else {
        b
    }
}

impl ErrorView {
    /// The status code of an error.
    pub open spec fn code(self) -> i32 {
        match self {
            ErrorView::InvalidArg(_) => INVALID_ARG,
            ErrorView::Unsupported(_) => UNSUPPORTED,
            ErrorView::State(_) => STATE,
            ErrorView::NotFound(_) => NOT_FOUND,
            ErrorView::Kernel(_) => KERNEL,
            ErrorView::Closed => CLOSED,
            ErrorView::Cancelled => CANCELLED,
            ErrorView::WouldBlock => WOULD_BLOCK,
        }
    }

    /// The text shown for an error.
    pub open spec fn text(self) -> Seq<char> {
        match self {
            ErrorView::InvalidArg(m) => m,
            ErrorView::Unsupported(m) => m,
            ErrorView::State(m) => m,
            ErrorView::NotFound(m) => m,
            ErrorView::Kernel(m) => m,
            ErrorView::Closed => "closed"@,
            ErrorView::Cancelled => "cancelled"@,
            ErrorView::WouldBlock => "would block"@,
        }
    }

    /// The same error with `place: ` in front of its message. The errors
    /// without a message stay as they are.
    pub open spec fn at(self, place: Seq<char>) -> ErrorView {
        match self {
            ErrorView::InvalidArg(m) => ErrorView::InvalidArg(place + ": "@ + m),
            ErrorView::Unsupported(m) => ErrorView::Unsupported(place + ": "@ + m),
            ErrorView::State(m) => ErrorView::State(place + ": "@ + m),
            ErrorView::NotFound(m) => ErrorView::NotFound(place + ": "@ + m),
            ErrorView::Kernel(m) => ErrorView::Kernel(place + ": "@ + m),
            ErrorView::Closed => ErrorView::Closed,
            ErrorView::Cancelled => ErrorView::Cancelled,
            ErrorView::WouldBlock => ErrorView::WouldBlock,
        }
    }
}

impl Error {
    /// The status code of the error.
    pub fn code(&self) -> (r: i32)
        ensures
            r == self@.code(),
    {
        match self {
            Error::InvalidArg(_) => INVALID_ARG,
            Error::Unsupported(_) => UNSUPPORTED,
            Error::State(_) => STATE,
            Error::NotFound(_) => NOT_FOUND,
            Error::Kernel(_) => KERNEL,
            Error::Closed => CLOSED,
            Error::Cancelled => CANCELLED,
            Error::WouldBlock => WOULD_BLOCK,
        }
    }

    /// The text shown for the error.
    pub fn text(&self) -> (r: String)
        ensures
            r@ == self@.text(),
    {
        match self {
            Error::InvalidArg(m) => m.clone(),
            Error::Unsupported(m) => m.clone(),
            Error::State(m) => m.clone(),
            Error::NotFound(m) => m.clone(),
            Error::Kernel(m) => m.clone(),
            Error::Closed => "closed".to_owned(),
            Error::Cancelled => "cancelled".to_owned(),
            Error::WouldBlock => "would block".to_owned(),
        }
    }

    /// The same error, with the place it came from in front of its message.
    pub fn context(self, place: &str) -> (r: Error)
        ensures
            r@ == self@.at(place@),
    {
        match self {
            Error::InvalidArg(m) => Error::InvalidArg(cat3(place, ": ", m.as_str())),
            Error::Unsupported(m) => Error::Unsupported(cat3(place, ": ", m.as_str())),
            Error::State(m) => Error::State(cat3(place, ": ", m.as_str())),
            Error::NotFound(m) => Error::NotFound(cat3(place, ": ", m.as_str())),
            Error::Kernel(m) => Error::Kernel(cat3(place, ": ", m.as_str())),
            Error::Closed => Error::Closed,
            Error::Cancelled => Error::Cancelled,
            Error::WouldBlock => Error::WouldBlock,
        }
    }

    /// A copy of the error.
    pub fn duplicate(&self) -> (r: Error)
        ensures
            r@ == self@,
    {
        match self {
            Error::InvalidArg(m) => Error::InvalidArg(m.clone()),
            Error::Unsupported(m) => Error::Unsupported(m.clone()),
            Error::State(m) => Error::State(m.clone()),
            Error::NotFound(m) => Error::NotFound(m.clone()),
            Error::Kernel(m) => Error::Kernel(m.clone()),
            Error::Closed => Error::Closed,
            Error::Cancelled => Error::Cancelled,
            Error::WouldBlock => Error::WouldBlock,
        }
    }
}

} // verus!
