//! The user's configuration.
use vstd::prelude::*;

verus! {

/// Settings read from the configuration file.
pub struct Config {
    /// The directory where all of the servers are located.
    servers_dir: String,
}

impl Config {
    pub fn new(servers_dir: String) -> (r: Config)
        ensures
            r.servers_dir() == servers_dir@,
    {
        Config { servers_dir }
    }

    pub closed spec fn servers_dir(&self) -> Seq<char> {
        self.servers_dir@
    }

    /// The directory where all of the servers are located.
    pub fn get_servers_dir(&self) -> (r: String)
        ensures
            r@ == self.servers_dir(),
    {
        self.servers_dir.clone()
    }
}

} // verus!
