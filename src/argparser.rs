use vstd::prelude::*;

verus! {

/// What the command line asks for.
pub struct Args {
    /// The command to search.
    pub command: Option<String>,
    /// Create or update the index.
    pub update: bool,
    /// Print a human-readable listing.
    pub verbose: bool,
    /// Print debug output.
    pub debug: bool,
    /// Include the extra repository of prebuilt user packages in an update.
    pub aur: bool,
    /// Where the index file lies.
    pub path: Option<String>,
}

} // verus!
