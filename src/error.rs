//! Failures the library reports to its callers.
use vstd::prelude::*;
use crate::project::Project;
use crate::server::Server;

verus! {

/// Every way a command can fail. Paths are carried as text.
#[derive(Debug, Clone)]
pub enum ApplicationError {
    ProjectDirs,
    WriteStore(String),
    ParseStore(String),
    StringifyStore,
    ReadPackageJson(String),
    MalformedPackageJson { path: String, cause: String },
    ParsePath(String),
    NonExistentScript { project: Project, script: String },
    RunScript(String),
    NonExistentServer(String),
    EmptyServerName,
    DuplicateServerName(String),
    DuplicateServerDir { dir: String, existing: Server },
    NoServers,
    InvalidCommand(String),
}

} // verus!
