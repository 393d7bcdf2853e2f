//! Command-line arguments of the workflow runner.

use vstd::prelude::*;

verus! {

/// The runner's arguments: the directory whose `.toml` workflow files are run.
pub struct Args {
    pub workflows: String,
}

} // verus!
