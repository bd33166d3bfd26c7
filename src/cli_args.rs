//! The run's settings as the command line gives them.
use vstd::prelude::*;

verus! {

pub struct CliArgs {
    pub threads: u8,
    pub header: Option<String>,
    pub connections: usize,
    pub duration: usize,
    pub url: String,
}

impl CliArgs {
    pub fn new(
        threads: u8,
        header: Option<String>,
        connections: usize,
        duration: usize,
        url: String,
    ) -> (r: Self)
        ensures
            r.threads == threads,
            r.header == header,
            r.connections == connections,
            r.duration == duration,
            r.url == url,
    {
        CliArgs { threads, header, connections, duration, url }
    }
}

} // verus!
