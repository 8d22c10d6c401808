use vstd::prelude::*;

verus! {

/// The settings of a scan, as the caller has validated them.
#[derive(Debug)]
pub struct Config {
    /// Paths to search for files within.
    pub roots: Vec<String>,
    /// Only look at the files immediately within the roots.
    pub non_recursive: bool,
    /// The smallest file size to consider.
    pub min_size: u64,
    /// Show the sizes of the files of each group.
    pub show_sizes: bool,
    /// Ask which files of each group to keep and delete the others.
    pub prompt: bool,
    /// Move deleted files to the trash instead of removing them.
    pub trash: bool,
    /// Use the line-based interface.
    pub classic_mode: bool,
}

} // verus!
