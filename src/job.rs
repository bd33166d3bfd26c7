//! The work that each worker runs: one target, a duration and a number of
//! connections.
use vstd::prelude::*;
use crate::text::{decimal_text, push_decimal};
use crate::url_parser::{
    is_header_line, port_of, resource_ok, url_captures, ConfigError, ParsedUrlHeader,
};

verus! {

#[derive(Clone)]
pub struct MioHTTPJob {
    pub parsed_url: ParsedUrlHeader,
    pub job_duration_sec: usize,
    pub conn_quantity: usize,
}

impl MioHTTPJob {
    /// The job for the address `url` with the extra header line `header`, if
    /// any, run for `duration` seconds over `connections` connections.
    pub fn from_settings(url: &str, header: Option<String>, duration: usize, connections: usize) -> (r:
        Result<MioHTTPJob, ConfigError>)
        ensures
            match url_captures(url@) {
                None => r == Err::<MioHTTPJob, ConfigError>(ConfigError::InvalidUrl),
                Some(c) => if port_of(c.1) is None || !resource_ok(c.2) {
                    r == Err::<MioHTTPJob, ConfigError>(ConfigError::InvalidUrl)
                } else {
                    match header {
                        Some(h) if !is_header_line(h@) => r == Err::<MioHTTPJob, ConfigError>(
                            ConfigError::InvalidHeader,
                        ),
                        _ => r is Ok && {
                            let j = r.unwrap();
                            &&& j.parsed_url.wf()
                            &&& j.parsed_url.host@ == c.0
                            &&& Some(j.parsed_url.port) == port_of(c.1)
                            &&& j.parsed_url.resource@ == crate::url_parser::resource_of(c.2)
                            &&& j.parsed_url.header == header
                            &&& j.job_duration_sec == duration
                            &&& j.conn_quantity == connections
                        },
                    }
                },
            },
    {
        let mut parsed_url = match ParsedUrlHeader::parse_url(url) {
            Ok(t) => t,
            Err(e) => {
                return Err(e);
            },
        };
        match header {
            Some(h) => {
                match parsed_url.add_header(h) {
                    Ok(()) => {},
                    Err(e) => {
                        return Err(e);
                    },
                }
            },
            None => {},
        }
        Ok(MioHTTPJob { parsed_url, job_duration_sec: duration, conn_quantity: connections })
    }

    /// `<host>:<port>`, the address that the workers resolve and connect to.
    pub fn socket_address(&self) -> (r: String)
        ensures
            r@ == self.parsed_url.host@ + ":"@ + decimal_text(self.parsed_url.port as nat),
    {
        let mut r = self.parsed_url.host.clone();
        r.append(":");
        push_decimal(&mut r, self.parsed_url.port as u64);
        r
    }
}

} // verus!
