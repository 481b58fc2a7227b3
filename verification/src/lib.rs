//! A minimal git implementation: the object store format, trees, commits,
//! packfiles, the command-line grammar and the smart HTTP clone protocol.

pub mod clock;
pub mod clone;
pub mod command;
pub mod error;
pub mod git;
pub mod object;
pub mod order;
pub mod pack;
pub mod text;
pub mod zlib;

pub use error::{GitError, Result};
pub use git::{GitCommand, GitRepository};
pub use object::{GitObject, ObjectType};
