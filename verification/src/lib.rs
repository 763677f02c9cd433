//! A versioned document store: paths, an object store of blobs, trees and
//! snapshots, and the items that read and write what stands at a path.

pub mod config;
pub mod filetype;
pub mod git;
pub mod graph;
pub mod item;
pub mod laws;
pub mod order;
pub mod pages;
pub mod path;
pub mod percent;
pub mod segments;
pub mod text;

pub use config::Config;
pub use filetype::{ContentType, Filetype, ParsingError};
pub use git::{GitError, GitRepository};
pub use item::GitItem;
pub use path::{Path, PathStringBuilder};
