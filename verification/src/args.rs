//! What the command line asks for.

use vstd::prelude::*;

verus! {

/// The two settings of a run.
#[derive(Debug)]
pub struct Cli {
    /// The root directory to organise.
    pub path: String,
    /// When set, planned moves are announced and nothing on disk changes.
    pub dry_run: bool,
}

} // verus!
