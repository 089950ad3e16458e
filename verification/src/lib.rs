//! An in-memory tree of directories, driven by four commands: create,
//! delete, move and list.
//!
//! The tree is a [`FileSystem`]. Its mathematical value is the set of the
//! paths of its directories (see [`model`]), and [`FileSystem::exec_cmd`]
//! is described as a function on that set. A [`Path`] is a sequence of
//! names; its textual form separates them by `/`. The [`driver`] reads
//! commands from lines of text and words the answers.

pub mod cmd;
pub mod dir;
pub mod driver;
pub mod error;
pub mod fs;
pub mod model;
pub mod order;
pub mod path;
pub mod text;

pub use cmd::Cmd;
pub use dir::Dir;
pub use driver::{FileSystemDriver, Startup};
pub use error::FileSystemError;
pub use fs::FileSystem;
pub use path::Path;
