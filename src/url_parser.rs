//! The load target: host, port, resource and an optional extra header line,
//! read from the command-line address, and the request sent for it.
use vstd::prelude::*;
use crate::text::{decimal_value, is_numeral, parse_decimal};

verus! {

#[derive(PartialEq, Eq, Debug, Clone, Copy, Structural)]
pub enum ConfigError {
    InvalidUrl,
    InvalidHeader,
}

#[derive(Debug, Clone)]
pub struct ParsedUrlHeader {
    pub host: String,
    pub resource: String,
    pub port: u16,
    pub header: Option<String>,
}

/// What the address pattern captures of `url`: the host, the port part
/// (`:<digits>` or empty) and everything after it; `None` where nothing in
/// `url` matches.
pub uninterp spec fn url_captures(url: Seq<char>) -> Option<(Seq<char>, Seq<char>, Seq<char>)>;

/// Relies on regex's `Regex::captures` (leftmost-first search) with the
/// address pattern `(www\.|)(<name>\.<tld>|localhost|<ipv4>)(:\d+|)(.*)`:
/// the result depends on `url` alone.
#[verifier::external_body]
fn capture_url(url: &str) -> (r: Option<(String, String, String)>)
    ensures
        match r {
            Some(c) => url_captures(url@) == Some((c.0@, c.1@, c.2@)),
            None => url_captures(url@) is None,
        },
{
    let re = regex::Regex::new(
        r"(www\.|)([a-zA-Z0-9]+\.[a-z]+|localhost|\d+\.\d+\.\d+\.\d+)(:\d+|)(.*)",
    ).unwrap();
    match re.captures(url) {
        Some(c) => Some((c[2].to_string(), c[3].to_string(), c[4].to_string())),
        None => None,
    }
}

pub open spec fn is_token_char(c: char) -> bool {
    ('a' <= c && c <= 'z') || ('A' <= c && c <= 'Z') || ('0' <= c && c <= '9') || c == '-' || c
        == '_' || c == ' '
}

/// `h` is `<token>: <value>` with the colon at `k`: the token made of
/// letters, digits, `-`, `_` and spaces, the value without a line break.
pub open spec fn header_split_at(h: Seq<char>, k: int) -> bool {
    &&& 0 < k && k + 1 < h.len()
    &&& h[k] == ':' && h[k + 1] == ' '
    &&& forall|i: int| 0 <= i < k ==> is_token_char(#[trigger] h[i])
    &&& forall|i: int| k + 2 <= i < h.len() ==> #[trigger] h[i] != '\n'
}

/// `<token>: <value>` on one line.
pub open spec fn is_header_line(h: Seq<char>) -> bool {
    exists|k: int| header_split_at(h, k)
}

/// Relies on regex's `Regex::is_match` with the anchored pattern
/// `^[a-zA-Z0-9-_ ]+: .*$`, where `.` is any character but `\n` and `$` is the
/// end of the text.
#[verifier::external_body]
fn header_matches(h: &str) -> (r: bool)
    ensures
        r == is_header_line(h@),
{
    regex::Regex::new(r"^[a-zA-Z0-9-_ ]+: .*$").unwrap().is_match(h)
}

/// The port that the port part names: 80 when there is none, else the
/// decimal number after the colon, which must lie in 1..=65535.
pub open spec fn port_of(p: Seq<char>) -> Option<u16> {
    if p.len() <= 1 {
        Some(80)
    } else {
        let d = p.subrange(1, p.len() as int);
        if is_numeral(d) && 0 < decimal_value(d) <= u16::MAX {
            Some(decimal_value(d) as u16)
        } else {
            None
        }
    }
}

/// The resource: `/` for an empty rest; a rest must otherwise start with `/`.
pub open spec fn resource_ok(rest: Seq<char>) -> bool {
    rest.len() == 0 || rest[0] == '/'
}

pub open spec fn resource_of(rest: Seq<char>) -> Seq<char> {
    if rest.len() == 0 {
        seq!['/']
    } else {
        rest
    }
}

pub open spec fn header_view(h: Option<String>) -> Option<Seq<char>> {
    match h {
        Some(s) => Some(s@),
        None => None,
    }
}

pub open spec fn request_text(resource: Seq<char>, host: Seq<char>, header: Option<Seq<char>>) -> Seq<
    char,
> {
    let extra = match header {
        Some(h) => h + "\r\n"@,
        None => Seq::empty(),
    };
    "GET "@ + resource + " HTTP/1.1\r\nHost: "@ + host + "\r\n"@ + extra + "\r\n"@
}

impl ParsedUrlHeader {
    pub open spec fn wf(&self) -> bool {
        self.port > 0 && self.resource@.len() > 0 && self.resource@[0] == '/'
    }

    /// The target that the captured parts of an address describe.
    pub open spec fn describes(
        &self,
        host: Seq<char>,
        port: Seq<char>,
        rest: Seq<char>,
    ) -> bool {
        &&& port_of(port) == Some(self.port)
        &&& self.host@ == host
        &&& self.resource@ == resource_of(rest)
        &&& self.header is None
    }

    /// Builds the target from the parts that the address pattern captured.
    pub fn from_captures(host: &str, port: &str, rest: &str) -> (r: Result<
        ParsedUrlHeader,
        ConfigError,
    >)
        ensures
            match r {
                Ok(t) => t.describes(host@, port@, rest@) && t.wf(),
                Err(e) => e == ConfigError::InvalidUrl && (port_of(port@) is None || !resource_ok(
                    rest@,
                )),
            },
    {
        let plen = port.unicode_len();
        let port_num: u16;
        if plen > 1 {
            match parse_decimal(port, 1, 65535) {
                Some(v) => {
                    if v == 0 {
                        return Err(ConfigError::InvalidUrl);
                    }
                    port_num = v as u16;
                },
                None => {
                    return Err(ConfigError::InvalidUrl);
                },
            }
        } else {
            port_num = 80;
        }
        let rlen = rest.unicode_len();
        let resource;
        if rlen == 0 {
            resource = String::from_str("/");
            proof {
                reveal_strlit("/");
                assert(resource@ =~= seq!['/']);
            }
        } else {
            if rest.get_char(0) != '/' {
                return Err(ConfigError::InvalidUrl);
            }
            resource = String::from_str(rest);
        }
        let t = ParsedUrlHeader { host: String::from_str(host), resource, port: port_num, header: None };
        Ok(t)
    }

    /// Reads `[www.]<host>[:port][/resource]` out of `url`.
    pub fn parse_url(url: &str) -> (r: Result<ParsedUrlHeader, ConfigError>)
        ensures
            match url_captures(url@) {
                None => r == Err::<ParsedUrlHeader, ConfigError>(ConfigError::InvalidUrl),
                Some(c) => match r {
                    Ok(t) => t.describes(c.0, c.1, c.2) && t.wf(),
                    Err(e) => e == ConfigError::InvalidUrl && (port_of(c.1) is None
                        || !resource_ok(c.2)),
                },
            },
    {
        match capture_url(url) {
            Some(c) => ParsedUrlHeader::from_captures(c.0.as_str(), c.1.as_str(), c.2.as_str()),
            None => Err(ConfigError::InvalidUrl),
        }
    }

    /// Sets the extra header line, replacing any earlier one.
    pub fn add_header(&mut self, header: String) -> (r: Result<(), ConfigError>)
        ensures
            is_header_line(header@) ==> r is Ok && final(self).header == Some(header),
            !is_header_line(header@) ==> r == Err::<(), ConfigError>(ConfigError::InvalidHeader)
                && final(self).header == old(self).header,
            final(self).host == old(self).host,
            final(self).resource == old(self).resource,
            final(self).port == old(self).port,
    {
        if header_matches(header.as_str()) {
            self.header = Some(header);
            Ok(())
        } else {
            Err(ConfigError::InvalidHeader)
        }
    }

    /// The request sent on every connection:
    /// `GET <resource> HTTP/1.1\r\nHost: <host>\r\n[<header>\r\n]\r\n`.
    pub fn compile_request(&mut self) -> (r: String)
        ensures
            *final(self) == *old(self),
            r@ == request_text(
                old(self).resource@,
                old(self).host@,
                header_view(old(self).header),
            ),
    {
        let mut r = String::from_str("GET ");
        r.append(self.resource.as_str());
        r.append(" HTTP/1.1\r\nHost: ");
        r.append(self.host.as_str());
        r.append("\r\n");
        match &self.header {
            Some(h) => {
                r.append(h.as_str());
                r.append("\r\n");
            },
            None => {},
        }
        r.append("\r\n");
        proof {
            let extra = match header_view(self.header) {
                Some(h) => h + "\r\n"@,
                None => Seq::empty(),
            };
            assert(r@ =~= "GET "@ + self.resource@ + " HTTP/1.1\r\nHost: "@ + self.host@ + "\r\n"@
                + extra + "\r\n"@);
        }
        r
    }
}

} // verus!
