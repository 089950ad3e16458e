//! The errors that parsing and command execution report.

use crate::path::{render, Path, PathView};
use vstd::prelude::*;
use vstd::std_specs::cmp::PartialEqSpecImpl;

verus! {

/// Why a path or a command was rejected.
#[derive(Debug)]
pub enum FileSystemError {
    /// Resolution found no entry at the carried path.
    PathDoesNotExist(Path),
    /// The carried text is not a well-formed path.
    BadPath(String),
    /// The carried keyword names no command.
    CmdNotFound(String),
    /// A command was given the wrong number of arguments; the carried text
    /// is its usage line.
    InvalidCmdArgs(String),
    /// An entry already occupies the carried path.
    FileAlreadyExists(Path),
}

/// The mathematical value of a [`FileSystemError`].
pub enum ErrorView {
    PathDoesNotExist(PathView),
    BadPath(Seq<char>),
    CmdNotFound(Seq<char>),
    InvalidCmdArgs(Seq<char>),
    FileAlreadyExists(PathView),
}

impl View for FileSystemError {
    type V = ErrorView;

    open spec fn view(&self) -> ErrorView {
        match self {
            FileSystemError::PathDoesNotExist(p) => ErrorView::PathDoesNotExist(p@),
            FileSystemError::BadPath(s) => ErrorView::BadPath(s@),
            FileSystemError::CmdNotFound(s) => ErrorView::CmdNotFound(s@),
            FileSystemError::InvalidCmdArgs(s) => ErrorView::InvalidCmdArgs(s@),
            FileSystemError::FileAlreadyExists(p) => ErrorView::FileAlreadyExists(p@),
        }
    }
}

impl PartialEq for FileSystemError {
    /// Two errors are equal exactly if they are of the same kind and carry
    /// the same path or text.
    fn eq(&self, other: &Self) -> (same: bool) {
        match (self, other) {
            (Self::PathDoesNotExist(a), Self::PathDoesNotExist(b)) => *a == *b,
            (Self::BadPath(a), Self::BadPath(b)) => *a == *b,
            (Self::CmdNotFound(a), Self::CmdNotFound(b)) => *a == *b,
            (Self::InvalidCmdArgs(a), Self::InvalidCmdArgs(b)) => *a == *b,
            (Self::FileAlreadyExists(a), Self::FileAlreadyExists(b)) => *a == *b,
            _ => false,
        }
    }
}

impl PartialEqSpecImpl for FileSystemError {
    open spec fn obeys_eq_spec() -> bool {
        true
    }

    open spec fn eq_spec(&self, other: &Self) -> bool {
        self@ == other@
    }
}

/// The message that tells of an error.
pub open spec fn message(error: ErrorView) -> Seq<char> {
    match error {
        ErrorView::PathDoesNotExist(path) => render(path) + " does not exist"@,
        ErrorView::BadPath(text) => "invalid path "@ + text,
        ErrorView::CmdNotFound(keyword) => "command not found: "@ + keyword,
        ErrorView::InvalidCmdArgs(usage) => usage,
        ErrorView::FileAlreadyExists(path) => render(path) + " already exists"@,
    }
}

impl FileSystemError {
    /// Writes the message that tells of this error.
    pub fn to_string(&self) -> (text: String)
        ensures
            text@ == message(self@),
    {
        match self {
            FileSystemError::PathDoesNotExist(path) => {
                let mut text = path.to_string();
                text.append(" does not exist");
                text
            },
            FileSystemError::CmdNotFound(keyword) => {
                let mut text = "command not found: ".to_owned();
                text.append(keyword.as_str());
                text
            },
            FileSystemError::FileAlreadyExists(path) => {
                let mut text = path.to_string();
                text.append(" already exists");
                text
            },
            FileSystemError::InvalidCmdArgs(usage) => usage.clone(),
            FileSystemError::BadPath(invalid) => {
                let mut text = "invalid path ".to_owned();
                text.append(invalid.as_str());
                text
            },
        }
    }
}

} // verus!
