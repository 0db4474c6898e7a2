//! The file system that a bundler works on.

use vstd::prelude::*;

verus! {

/// What a file system operation reports when it fails.
#[derive(Debug, Clone, PartialEq, Eq)]
pub struct FileSystemError {
    pub message: String,
}

/// A file system, on disk or in memory. Paths are absolute.
pub trait FileSystem {
    fn remove_dir_all(&self, path: &str) -> Result<(), FileSystemError>;

    fn create_dir_all(&self, path: &str) -> Result<(), FileSystemError>;

    fn write(&self, path: &str, content: &[u8]) -> Result<(), FileSystemError>;

    fn path_exists(&self, path: &str) -> bool;

    /// The absolute paths of the entries of a directory.
    fn read_dir(&self, path: &str) -> Result<Vec<String>, FileSystemError>;

    fn remove_file(&self, path: &str) -> Result<(), FileSystemError>;

    /// Whether reads block, so that they belong on a thread of their own. An implementation whose
    /// reads are cheap answers otherwise.
    fn should_spawn_blocking_reads(&self) -> (r: bool)
        default_ensures
            r,
    {
        true
    }
}

} // verus!
