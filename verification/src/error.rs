//! The closed set of failures that a search can meet, and the diagnostic line
//! that each of them is reported with.

use crate::text::{decimal, owned, push_decimal};
use vstd::prelude::*;
use vstd::string::StringExecFns;

verus! {

/// Classification of a failed directory listing or metadata read.
#[derive(Clone, Copy, Debug, PartialEq, Eq, Structural)]
pub enum IoErrorKind {
    NotFound,
    PermissionDenied,
    NotADirectory,
    IsADirectory,
    Other,
}

impl IoErrorKind {
    /// The words that stand for the classification in a diagnostic line.
    pub open spec fn spec_description(self) -> Seq<char> {
        match self {
            IoErrorKind::NotFound => "entity not found"@,
            IoErrorKind::PermissionDenied => "permission denied"@,
            IoErrorKind::NotADirectory => "not a directory"@,
            IoErrorKind::IsADirectory => "is a directory"@,
            IoErrorKind::Other => "other error"@,
        }
    }

    /// The words that stand for the classification in a diagnostic line.
    pub fn description(&self) -> (words: &'static str)
        ensures
            words@ == self.spec_description(),
    {
        match self {
            IoErrorKind::NotFound => "entity not found",
            IoErrorKind::PermissionDenied => "permission denied",
            IoErrorKind::NotADirectory => "not a directory",
            IoErrorKind::IsADirectory => "is a directory",
            IoErrorKind::Other => "other error",
        }
    }
}

/// A failure of the search or of its plumbing.
#[derive(Debug)]
pub enum Error {
    /// The command line was not usable; the payload is the whole message.
    Args(String),
    /// The outcome channel broke; the payload describes how.
    ChannelRecv(String),
    /// The volume query itself failed; the payload is the system's error code.
    DrivesApi(u32),
    /// The volume bitmask names a volume beyond the twenty-six letters.
    DrivesInvalidNumberOfDrives,
    /// A directory could not be listed, or an entry's metadata could not be
    /// read; the payload is the classification and the offending path.
    IO(IoErrorKind, String),
    /// A concurrent task ended abnormally; the payload describes how.
    TaskJoin(String),
}

/// The mathematical value of an [`Error`].
pub enum ErrorView {
    Args(Seq<char>),
    ChannelRecv(Seq<char>),
    DrivesApi(u32),
    DrivesInvalidNumberOfDrives,
    IO(IoErrorKind, Seq<char>),
    TaskJoin(Seq<char>),
}

impl ErrorView {
    /// The diagnostic line of the failure.
    pub open spec fn rendered(self) -> Seq<char> {
        match self {
            ErrorView::Args(message) => message,
            ErrorView::ChannelRecv(cause) => "Channel Receiver Error: "@ + cause,
            ErrorView::DrivesApi(code) => "Api Error: "@ + decimal(code as nat),
            ErrorView::DrivesInvalidNumberOfDrives => "Invalid Number of Drives."@,
            ErrorView::IO(kind, path) => path + ": "@ + kind.spec_description(),
            ErrorView::TaskJoin(cause) => "Tokio Error: Join Error: "@ + cause,
        }
    }
}

impl View for Error {
    type V = ErrorView;

    open spec fn view(&self) -> ErrorView {
        match self {
            Error::Args(message) => ErrorView::Args(message@),
            Error::ChannelRecv(cause) => ErrorView::ChannelRecv(cause@),
            Error::DrivesApi(code) => ErrorView::DrivesApi(*code),
            Error::DrivesInvalidNumberOfDrives => ErrorView::DrivesInvalidNumberOfDrives,
            Error::IO(kind, path) => ErrorView::IO(*kind, path@),
            Error::TaskJoin(cause) => ErrorView::TaskJoin(cause@),
        }
    }
}

impl Error {
    /// Renders the failure as the one line that goes to diagnostic output.
    /// Writing the line is left to the caller.
    pub fn handle(error: &Error) -> (line: String)
        ensures
            line@ == error@.rendered(),
    {
        match error {
            Error::Args(message) => message.clone(),
            Error::ChannelRecv(cause) => {
                let mut line = owned("Channel Receiver Error: ");
                line.append(cause.as_str());
                line
            },
            Error::DrivesApi(code) => {
                let mut line = owned("Api Error: ");
                push_decimal(&mut line, *code);
                line
            },
            Error::DrivesInvalidNumberOfDrives => owned("Invalid Number of Drives."),
            Error::IO(kind, path) => {
                let mut line = path.clone();
                line.append(": ");
                line.append(kind.description());
                line
            },
            Error::TaskJoin(cause) => {
                let mut line = owned("Tokio Error: Join Error: ");
                line.append(cause.as_str());
                line
            },
        }
    }
}

} // verus!
