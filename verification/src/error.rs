//! What can go wrong while a format table is planned or repaired.

use vstd::prelude::*;

verus! {

/// An error, with the message that is shown to the user.
#[derive(Debug)]
pub enum Error {
    /// The request is well formed, but is not served.
    Unsupported { message: String },
    /// Metadata or a value does not make sense.
    DataInvalid { message: String, source: Option<Box<Error>> },
    /// The storage holds nothing at a path.
    StorageNotFound { message: String },
    /// The catalog does not offer an operation.
    NotImplemented { message: String },
    /// Any other failure of the storage or the catalog.
    Other { message: String },
}

/// What an [`Error`] says.
pub enum ErrorView {
    Unsupported { message: Seq<char> },
    DataInvalid { message: Seq<char>, source: Option<Box<ErrorView>> },
    StorageNotFound { message: Seq<char> },
    NotImplemented { message: Seq<char> },
    Other { message: Seq<char> },
}

impl Error {
    pub open spec fn view(self) -> ErrorView
        decreases self,
    {
        match self {
            Error::Unsupported { message } => ErrorView::Unsupported { message: message@ },
            Error::DataInvalid { message, source } => ErrorView::DataInvalid {
                message: message@,
                source: match source {
                    Some(inner) => Some(Box::new(inner.view())),
                    None => None,
                },
            },
            Error::StorageNotFound { message } => ErrorView::StorageNotFound { message: message@ },
            Error::NotImplemented { message } => ErrorView::NotImplemented { message: message@ },
            Error::Other { message } => ErrorView::Other { message: message@ },
        }
    }

    /// A copy of the error.
    pub fn copy(&self) -> (r: Error)
        ensures
            r@ == self@,
        decreases self,
    {
        match self {
            Error::Unsupported { message } => Error::Unsupported { message: message.clone() },
            Error::DataInvalid { message, source } => {
                let source = match source {
                    Some(inner) => Some(Box::new(inner.copy())),
                    None => None,
                };
                Error::DataInvalid { message: message.clone(), source }
            },
            Error::StorageNotFound { message } => Error::StorageNotFound {
                message: message.clone(),
            },
            Error::NotImplemented { message } => Error::NotImplemented { message: message.clone() },
            Error::Other { message } => Error::Other { message: message.clone() },
        }
    }

    /// The message of the error itself, without that of its source.
    pub fn message(&self) -> (r: &str)
        ensures
            r@ == self@.message(),
    {
        match self {
            Error::Unsupported { message } => message.as_str(),
            Error::DataInvalid { message, .. } => message.as_str(),
            Error::StorageNotFound { message } => message.as_str(),
            Error::NotImplemented { message } => message.as_str(),
            Error::Other { message } => message.as_str(),
        }
    }
}

impl ErrorView {
    pub open spec fn message(self) -> Seq<char> {
        match self {
            ErrorView::Unsupported { message } => message,
            ErrorView::DataInvalid { message, .. } => message,
            ErrorView::StorageNotFound { message } => message,
            ErrorView::NotImplemented { message } => message,
            ErrorView::Other { message } => message,
        }
    }
}

} // verus!
