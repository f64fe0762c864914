//! The command-line surface as plain data: the four user intents and the
//! arguments each carries. The argument-parsing front end lives outside this
//! crate and hands over values of these types.

use vstd::prelude::*;

verus! {

/// One invocation's parsed command line.
#[derive(Debug)]
pub struct Cli {
    /// The operation to execute.
    pub command: Commands,
}

/// The four user intents.
#[derive(Debug)]
pub enum Commands {
    /// Show the effective identity and the full profile view.
    List,
    /// Create or update a profile group; at least one field must be given.
    SetGroup {
        /// Name of the profile group.
        group_name: String,
        /// New user name for the group, when given.
        name: Option<String>,
        /// New email for the group, when given.
        email: Option<String>,
    },
    /// Apply a profile group to the external tool's configuration.
    Use {
        /// Name of the profile group to apply.
        group_name: String,
        /// Write the system-wide scope instead of the repository-local one.
        global: bool,
    },
    /// Remove a profile group from storage.
    Delete {
        /// Name of the profile group to remove.
        group_name: String,
    },
}

} // verus!
