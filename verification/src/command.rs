//! The commands a single invocation can carry, as plain data. Argument
//! parsing itself lives outside the library; it hands over one of these.

use vstd::prelude::*;

verus! {

/// One parsed command line invocation.
pub enum Commands {
    /// Initialize SSH keys.
    Init,
    /// Check required dependencies.
    Check,
    /// Add a new host.
    Add {
        alias: String,
        host: String,
        user: String,
        port: u16,
        skip_key: bool,
        is_default: bool,
        overwrite: bool,
    },
    /// Remove a host.
    Remove { alias: String, yes: bool },
    /// List all configured hosts.
    List,
    /// Set the default host.
    SetDefault { alias: String },
    /// Connect to a host via SSH.
    Connect { alias: String },
    /// Execute a command on a host.
    Exec { alias: String, cmd: Vec<String> },
    /// Send files to a host.
    Send { source: String, dest: String },
    /// Get files from a host.
    Get { source: String, dest: String },
    /// Show connection status for a host.
    Status { alias: String },
}

} // verus!
