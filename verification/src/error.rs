//! Error types for the gridfs filesystem.
//!
//! All fallible operations return [`Result<T>`](crate::Result), which is an
//! alias for `std::result::Result<T, FsError>`. [`FsError::message`] renders
//! the user-facing text of an error.

use vstd::prelude::*;
use crate::text::joined;

verus! {

/// The error type returned by all filesystem operations.
#[derive(Debug)]
pub enum FsError {
    /// The supplied path was empty, malformed, or did not start with `/`.
    InvalidPath(String),
    /// A path component could not be resolved.
    NotFound(String),
    /// An entry already exists at the destination.
    AlreadyExists(String),
    /// Caller attempted a file operation on a directory or vice versa.
    NotADirectory(String),
    /// Caller attempted a directory operation on a regular file.
    IsADirectory(String),
    /// No free inodes remain in the inode table.
    OutOfInodes,
    /// No free data blocks remain in the bitmap.
    OutOfSpace,
    /// File is too large to be represented by the inode pointer scheme.
    FileTooLarge,
    /// Image bytes did not match the expected on-disk format.
    Corrupt(String),
    /// An underlying I/O error occurred while persisting or loading an image.
    Io(String),
}

/// Convenience alias for fallible filesystem operations.
pub type Result<T> = std::result::Result<T, FsError>;

/// The mathematical value of an [`FsError`]: the variant and its text.
pub enum ErrorView {
    InvalidPath(Seq<char>),
    NotFound(Seq<char>),
    AlreadyExists(Seq<char>),
    NotADirectory(Seq<char>),
    IsADirectory(Seq<char>),
    OutOfInodes,
    OutOfSpace,
    FileTooLarge,
    Corrupt(Seq<char>),
    Io(Seq<char>),
}

/// Outcome of an operation in the model.
pub type Outcome<T> = std::result::Result<T, ErrorView>;

impl View for FsError {
    type V = ErrorView;

    open spec fn view(&self) -> ErrorView {
        match self {
            FsError::InvalidPath(s) => ErrorView::InvalidPath(s@),
            FsError::NotFound(s) => ErrorView::NotFound(s@),
            FsError::AlreadyExists(s) => ErrorView::AlreadyExists(s@),
            FsError::NotADirectory(s) => ErrorView::NotADirectory(s@),
            FsError::IsADirectory(s) => ErrorView::IsADirectory(s@),
            FsError::OutOfInodes => ErrorView::OutOfInodes,
            FsError::OutOfSpace => ErrorView::OutOfSpace,
            FsError::FileTooLarge => ErrorView::FileTooLarge,
            FsError::Corrupt(s) => ErrorView::Corrupt(s@),
            FsError::Io(s) => ErrorView::Io(s@),
        }
    }
}

/// The user-facing text of an error.
pub open spec fn error_message(e: ErrorView) -> Seq<char> {
    match e {
        ErrorView::InvalidPath(s) => "invalid path: "@ + s,
        ErrorView::NotFound(s) => "no such file or directory: "@ + s,
        ErrorView::AlreadyExists(s) => "file already exists: "@ + s,
        ErrorView::NotADirectory(s) => "not a directory: "@ + s,
        ErrorView::IsADirectory(s) => "is a directory: "@ + s,
        ErrorView::OutOfInodes => "inode table is full"@,
        ErrorView::OutOfSpace => "no space left on device"@,
        ErrorView::FileTooLarge => "file exceeds maximum addressable size"@,
        ErrorView::Corrupt(s) => "corrupt image: "@ + s,
        ErrorView::Io(s) => "I/O error: "@ + s,
    }
}

/// The text of each error: what is wrong, and with what.
pub proof fn law_messages(s: Seq<char>)
    ensures
        error_message(ErrorView::InvalidPath(s)) == "invalid path: "@ + s,
        error_message(ErrorView::NotFound(s)) == "no such file or directory: "@ + s,
        error_message(ErrorView::AlreadyExists(s)) == "file already exists: "@ + s,
        error_message(ErrorView::NotADirectory(s)) == "not a directory: "@ + s,
        error_message(ErrorView::IsADirectory(s)) == "is a directory: "@ + s,
        error_message(ErrorView::OutOfInodes) == "inode table is full"@,
        error_message(ErrorView::OutOfSpace) == "no space left on device"@,
        error_message(ErrorView::FileTooLarge) == "file exceeds maximum addressable size"@,
        error_message(ErrorView::Corrupt(s)) == "corrupt image: "@ + s,
        error_message(ErrorView::Io(s)) == "I/O error: "@ + s,
{
}

impl FsError {
    /// Renders the error as a clear, user-facing message.
    pub fn message(&self) -> (text: String)
        ensures
            text@ == error_message(self@),
    {
        match self {
            FsError::InvalidPath(s) => joined("invalid path: ", s),
            FsError::NotFound(s) => joined("no such file or directory: ", s),
            FsError::AlreadyExists(s) => joined("file already exists: ", s),
            FsError::NotADirectory(s) => joined("not a directory: ", s),
            FsError::IsADirectory(s) => joined("is a directory: ", s),
            FsError::OutOfInodes => "inode table is full".to_string(),
            FsError::OutOfSpace => "no space left on device".to_string(),
            FsError::FileTooLarge => "file exceeds maximum addressable size".to_string(),
            FsError::Corrupt(s) => joined("corrupt image: ", s),
            FsError::Io(s) => joined("I/O error: ", s),
        }
    }
}

} // verus!
