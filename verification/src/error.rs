//! Error type for git operations.

use vstd::prelude::*;
use vstd::string::StringExecFns;

verus! {

/// `std::io::Error`, carried through unchanged.
#[verifier::external_type_specification]
#[verifier::external_body]
pub struct ExIoError(std::io::Error);

/// Result type alias for git operations.
pub type Result<T> = core::result::Result<T, GitError>;

/// Error type for git operations.
#[derive(Debug)]
pub enum GitError {
    /// IO operation failed.
    IoError(std::io::Error),
    /// File not found.
    NotFound(String),
    /// Invalid hash format.
    InvalidHash(String),
    /// UTF-8 encoding error.
    EncodingError(String),
    /// Compression/decompression error.
    CompressionError(String),
    /// Generic error message.
    Other(String),
}

/// What an error says: its kind and, but for IO errors, its message.
pub enum GitErrorView {
    Io,
    NotFound(Seq<char>),
    InvalidHash(Seq<char>),
    Encoding(Seq<char>),
    Compression(Seq<char>),
    Other(Seq<char>),
}

impl View for GitError {
    type V = GitErrorView;

    open spec fn view(&self) -> GitErrorView {
        match self {
            GitError::IoError(_) => GitErrorView::Io,
            GitError::NotFound(s) => GitErrorView::NotFound(s@),
            GitError::InvalidHash(s) => GitErrorView::InvalidHash(s@),
            GitError::EncodingError(s) => GitErrorView::Encoding(s@),
            GitError::CompressionError(s) => GitErrorView::Compression(s@),
            GitError::Other(s) => GitErrorView::Other(s@),
        }
    }
}

/// The text of an error, as it is displayed: the kind, then the message. For
/// an IO error this is the start of the text, which the error's own text
/// follows.
pub open spec fn message_text(e: GitErrorView) -> Seq<char> {
    match e {
        GitErrorView::Io => "IO error: "@,
        GitErrorView::NotFound(p) => "Not found: "@ + p,
        GitErrorView::InvalidHash(h) => "Invalid hash: "@ + h,
        GitErrorView::Encoding(m) => "Encoding error: "@ + m,
        GitErrorView::Compression(m) => "Compression error: "@ + m,
        GitErrorView::Other(m) => "Error: "@ + m,
    }
}

/// Calls `to_string` on an IO error. Nothing is promised of the text, which
/// the error carries.
#[verifier::external_body]
fn io_error_text(e: &std::io::Error) -> (s: String) {
    e.to_string()
}

impl GitError {
    /// The text of the error, as it is displayed.
    pub fn message(&self) -> (m: String)
        ensures
            message_text(self@).is_prefix_of(m@),
            !(self@ is Io) ==> m@ == message_text(self@),
    {
        let mut m = String::new();
        match self {
            GitError::IoError(e) => {
                m.append("IO error: ");
                let t = io_error_text(e);
                m.append(t.as_str());
            },
            GitError::NotFound(p) => {
                m.append("Not found: ");
                m.append(p.as_str());
            },
            GitError::InvalidHash(h) => {
                m.append("Invalid hash: ");
                m.append(h.as_str());
            },
            GitError::EncodingError(msg) => {
                m.append("Encoding error: ");
                m.append(msg.as_str());
            },
            GitError::CompressionError(msg) => {
                m.append("Compression error: ");
                m.append(msg.as_str());
            },
            GitError::Other(msg) => {
                m.append("Error: ");
                m.append(msg.as_str());
            },
        }
        m
    }

    /// A generic error with the given message.
    pub fn other(msg: &str) -> (e: GitError)
        ensures
            e@ == GitErrorView::Other(msg@),
    {
        GitError::Other(msg.to_owned())
    }
}

impl From<std::io::Error> for GitError {
    fn from(err: std::io::Error) -> (e: GitError) {
        GitError::IoError(err)
    }
}

impl vstd::std_specs::convert::FromSpecImpl<std::io::Error> for GitError {
    open spec fn obeys_from_spec() -> bool {
        true
    }

    open spec fn from_spec(err: std::io::Error) -> GitError {
        GitError::IoError(err)
    }
}

} // verus!
