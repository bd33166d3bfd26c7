use shooter::job::MioHTTPJob;
use shooter::url_parser::{ConfigError, ParsedUrlHeader};

#[test]
fn test_resource_parsing() {
    let raw_url = "127.0.0.1:8000/";
    let parsed_url = ParsedUrlHeader::parse_url(&raw_url).unwrap();
    assert_eq!(parsed_url.resource, "/");
}

#[test]
fn test_parsing_empty_resource() {
    let raw_url = "127.0.0.1:8000";
    let parsed = ParsedUrlHeader::parse_url(&raw_url).unwrap();
    assert_eq!(parsed.resource, "/");
}

#[test]
fn test_adding_header() {
    let raw_header = "x-Custom-Header: any value you want".to_string();
    let url = "127.0.0.1:8000";
    let mut parsed_url = ParsedUrlHeader::parse_url(url).unwrap();
    parsed_url.add_header(raw_header.clone()).unwrap();
    assert_eq!(Some(raw_header), parsed_url.header);
}

#[test]
#[should_panic]
fn test_adding_bad_header() {
    let raw_header = "x-Custom-He@der: any value you want".to_string();
    let url = "127.0.0.1:8000";
    let mut parsed_url = ParsedUrlHeader::parse_url(url).unwrap();
    parsed_url.add_header(raw_header.clone()).unwrap();
}

#[test]
fn test_compiling_request_without_header() {
    let url = "127.0.0.1:8000/resource";
    let mut parsed_url = ParsedUrlHeader::parse_url(url).unwrap();
    assert_eq!(
        "GET /resource HTTP/1.1\r\nHost: 127.0.0.1\r\n\r\n",
        parsed_url.compile_request()
    );
}

#[test]
fn url_host_port_and_resource() {
    let t = ParsedUrlHeader::parse_url("127.0.0.1:8000/").unwrap();
    assert_eq!(t.host, "127.0.0.1");
    assert_eq!(t.port, 8000);
    assert_eq!(t.resource, "/");
    assert_eq!(t.header, None);
}

#[test]
fn url_default_port() {
    let t = ParsedUrlHeader::parse_url("localhost/index.html").unwrap();
    assert_eq!(t.host, "localhost");
    assert_eq!(t.port, 80);
    assert_eq!(t.resource, "/index.html");
}

#[test]
fn url_with_scheme_and_www() {
    let t = ParsedUrlHeader::parse_url("http://www.example.com:8080/a/b").unwrap();
    assert_eq!(t.host, "example.com");
    assert_eq!(t.port, 8080);
    assert_eq!(t.resource, "/a/b");
}

#[test]
fn url_without_host_is_rejected() {
    assert_eq!(
        ParsedUrlHeader::parse_url("not a url").unwrap_err(),
        ConfigError::InvalidUrl
    );
}

#[test]
fn url_with_bad_port_is_rejected() {
    assert_eq!(
        ParsedUrlHeader::parse_url("localhost:70000/").unwrap_err(),
        ConfigError::InvalidUrl
    );
    assert_eq!(
        ParsedUrlHeader::parse_url("localhost:0/").unwrap_err(),
        ConfigError::InvalidUrl
    );
}

#[test]
fn url_with_three_labels_is_rejected() {
    assert_eq!(
        ParsedUrlHeader::parse_url("api.example.com/").unwrap_err(),
        ConfigError::InvalidUrl
    );
}

#[test]
fn header_validation() {
    let mut t = ParsedUrlHeader::parse_url("localhost").unwrap();
    assert!(t.add_header("X-Custom-Header: value".to_string()).is_ok());
    assert_eq!(
        t.add_header("X-Custom-He@der: value".to_string()),
        Err(ConfigError::InvalidHeader)
    );
    assert_eq!(t.header, Some("X-Custom-Header: value".to_string()));
    assert_eq!(
        t.add_header("X-A:no-space".to_string()),
        Err(ConfigError::InvalidHeader)
    );
    assert_eq!(
        t.add_header("X-A: two\nlines".to_string()),
        Err(ConfigError::InvalidHeader)
    );
}

#[test]
fn adding_a_header_replaces_the_previous_one() {
    let mut t = ParsedUrlHeader::parse_url("localhost").unwrap();
    t.add_header("X-A: 1".to_string()).unwrap();
    t.add_header("X-B: 2".to_string()).unwrap();
    assert_eq!(t.header, Some("X-B: 2".to_string()));
}

#[test]
fn request_with_extra_header() {
    let mut t = ParsedUrlHeader::parse_url("localhost:8000/r").unwrap();
    t.add_header("X-A: 1".to_string()).unwrap();
    assert_eq!(
        t.compile_request(),
        "GET /r HTTP/1.1\r\nHost: localhost\r\nX-A: 1\r\n\r\n"
    );
}

#[test]
fn job_from_settings() {
    let job = MioHTTPJob::from_settings("localhost:8000/r", Some("X-A: 1".to_string()), 5, 10)
        .unwrap();
    assert_eq!(job.job_duration_sec, 5);
    assert_eq!(job.conn_quantity, 10);
    assert_eq!(job.parsed_url.header, Some("X-A: 1".to_string()));
    assert_eq!(job.socket_address(), "localhost:8000");
    assert!(matches!(
        MioHTTPJob::from_settings("localhost", Some("bad".to_string()), 1, 1),
        Err(ConfigError::InvalidHeader)
    ));
    assert!(matches!(
        MioHTTPJob::from_settings("???", None, 1, 1),
        Err(ConfigError::InvalidUrl)
    ));
}

#[test]
fn socket_address_with_default_port() {
    let job = MioHTTPJob::from_settings("127.0.0.1", None, 1, 1).unwrap();
    assert_eq!(job.socket_address(), "127.0.0.1:80");
}
