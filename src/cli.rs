//! The commands the tool understands, as plain values.
use vstd::prelude::*;

verus! {

/// A change to an existing server.
#[derive(Debug, Clone, PartialEq, Eq)]
pub enum Edit {
    /// Rename the server.
    Name { server: Option<String>, name: Option<String>, force: bool },
    /// Change the script that starts the server.
    StartScript { server: Option<String>, start_script: Option<String>, force: bool },
    /// Change the port the server listens on.
    Port { server: Option<String>, port: Option<u16>, force: bool },
}

/// A command given on the command line.
#[derive(Debug, Clone, PartialEq, Eq)]
pub enum Cli {
    /// Show the configuration.
    Config,
    /// Add a new server.
    Add { path: String, name: Option<String>, start_script: Option<String>, port: Option<u16> },
    /// Change a server's definition.
    Edit(Edit),
    /// Run a server.
    Run { server: Option<String> },
    /// Remove a server.
    Remove { server: Option<String>, force: bool },
    /// Show all servers.
    List,
    /// Generate a Caddyfile.
    Caddy,
    /// A command that is not one of the above, with its arguments.
    Unknown(Vec<String>),
}

} // verus!
