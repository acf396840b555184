//! The subcommands of the command line.
use vstd::prelude::*;

verus! {

/// A subcommand; without one, a run syncs.
#[derive(Debug, PartialEq, Eq)]
pub enum Command {
    /// Print owners declared by syncable workflows as a JSON array.
    Owners,
    /// Render a Markdown summary from created pull request JSON files.
    Summary { directory: String },
}

} // verus!
