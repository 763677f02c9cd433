//! The settings of a site.

use vstd::prelude::*;

verus! {

/// The settings that a site is run with.
#[derive(Debug)]
pub struct Config {
    /// The address to listen at.
    pub bind: String,
    /// The file that a directory shows.
    pub index: String,
    /// The most bytes that one upload may hold.
    pub max_upload_size: u64,
    /// The directory of the repository.
    pub repo: String,
}

impl Clone for Config {
    fn clone(&self) -> (copy: Config)
        ensures
            copy == *self,
    {
        Config {
            bind: self.bind.clone(),
            index: self.index.clone(),
            max_upload_size: self.max_upload_size,
            repo: self.repo.clone(),
        }
    }
}

} // verus!
