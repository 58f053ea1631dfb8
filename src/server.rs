//! One tracked project: where it lives, how to start it, how much it is used.
use vstd::prelude::*;
use vstd::string::*;
use crate::project::Project;

verus! {

/// The score of a server that has never been started: the bit pattern of
/// positive zero.
pub const NO_USAGE: u64 = 0;

/// A saved association between a project directory and the command that
/// starts it. `frecency` holds the IEEE-754 bit pattern of the usage score.
#[derive(Debug, Clone)]
pub struct Server {
    pub name: String,
    pub dir: String,
    pub start_command: String,
    pub frecency: u64,
}

/// What a server holds, as mathematical values.
pub struct ServerView {
    pub name: Seq<char>,
    pub dir: Seq<char>,
    pub start_command: Seq<char>,
    pub frecency: u64,
}

impl View for Server {
    type V = ServerView;

    open spec fn view(&self) -> ServerView {
        ServerView {
            name: self.name@,
            dir: self.dir@,
            start_command: self.start_command@,
            frecency: self.frecency,
        }
    }
}

/// A server that has not been started yet.
pub open spec fn fresh_server(name: Seq<char>, dir: Seq<char>, start_command: Seq<char>) -> ServerView {
    ServerView { name, dir, start_command, frecency: NO_USAGE }
}

impl Server {
    pub fn new(name: String, dir: String, start_command: String) -> (r: Server)
        ensures
            r@ == fresh_server(name@, dir@, start_command@),
    {
        Server { name, dir, start_command, frecency: NO_USAGE }
    }

    pub fn from_project(project: Project, start_command: String) -> (r: Server)
        ensures
            r@ == fresh_server(project.name@, project.dir@, start_command@),
    {
        Server::new(project.name, project.dir, start_command)
    }

    /// A copy of the server, field for field.
    pub fn duplicate(&self) -> (r: Server)
        ensures
            r@ == self@,
    {
        Server {
            name: self.name.clone(),
            dir: self.dir.clone(),
            start_command: self.start_command.clone(),
            frecency: self.frecency,
        }
    }

    /// How likely the server is to be wanted again: the bit pattern of its score.
    pub fn get_weight(&self) -> (r: u64)
        ensures
            r == self.frecency,
    {
        self.frecency
    }

    pub fn get_project_dir(&self) -> (r: String)
        ensures
            r@ == self.dir@,
    {
        self.dir.clone()
    }

    /// The text a server is shown as: its name.
    pub fn to_string(&self) -> (r: String)
        ensures
            r@ == self.name@,
    {
        self.name.clone()
    }
}

} // verus!
