use std::collections::HashMap;

use shooter::http_parser::{HTTParser, ParserState};

fn header_map(parser: &HTTParser) -> HashMap<String, String> {
    parser.headers.iter().cloned().collect()
}

#[test]
fn test_parsing_response() {
    let response =
        b"HTTP/1.1 200 OK\r\nContent-length: 11\r\nContent-type : plaintext\r\n\r\nHello world";
    let mut parser = HTTParser::new();
    let mut headers_hashmap: HashMap<String, String> = HashMap::new();
    headers_hashmap.insert("content-length".to_string(), "11".to_string());
    headers_hashmap.insert("content-type".to_string(), "plaintext".to_string());
    parser.parse(response);
    assert_eq!(parser.status_code_first_char, '2');
    assert_eq!(header_map(&parser), headers_hashmap);
}

#[test]
fn test_parsing_resp2() {
    let response = b"HTTP/1.1 200 OK\r\nContent-Length: 11\r\n\r\nHello world";
    let mut parser = HTTParser::new();
    let mut true_headers_map: HashMap<String, String> = HashMap::new();
    true_headers_map.insert("content-length".to_string(), "11".to_string());
    parser.parse(response);
    assert_eq!(true_headers_map, header_map(&parser));
}

#[test]
fn test_parser_state_on_body() {
    let response = b"HTTP/1.1 200 OK\r\nContent-Length: 11\r\n\r\n";
    let mut parser = HTTParser::new();
    parser.parse(response);
    assert_eq!(parser.state, ParserState::Body)
}

#[test]
fn test_parser_state_on_header() {
    let response = b"HTTP/1.1 200 OK\r\nContent-Length: 11\r\n\r\nHello world";
    let mut parser = HTTParser::new();
    parser.parse(response);
    assert_eq!(parser.state, ParserState::Started);
}

#[test]
fn test_parser_status_code_first_char() {
    let response = b"HTTP/1.1 301\r\n\r\n";
    let mut parser = HTTParser::new();
    parser.parse(response);
    assert_eq!(parser.status_code_first_char, '3');
    assert_eq!(parser.state, ParserState::Started);
}

#[test]
fn test_parser_state_with_empty_body() {
    let response = b"HTTP/1.1 301\r\n\r\n";
    let mut parser = HTTParser::new();
    parser.parse(response);
    assert_eq!(parser.state, ParserState::Started);
}

const OK_RESPONSE: &[u8] = b"HTTP/1.1 200 OK\r\nContent-Length: 11\r\n\r\nHello world";

#[test]
fn one_response_is_counted_once() {
    let mut parser = HTTParser::new();
    parser.parse(OK_RESPONSE);
    assert_eq!(parser.responses_parsed, 1);
    assert_eq!(parser.state, ParserState::Started);
}

#[test]
fn split_at_every_byte_boundary_counts_once() {
    for cut in 0..=OK_RESPONSE.len() {
        let mut parser = HTTParser::new();
        parser.parse(&OK_RESPONSE[..cut]);
        parser.parse(&OK_RESPONSE[cut..]);
        assert_eq!(parser.responses_parsed, 1, "cut at {}", cut);
        assert_eq!(parser.state, ParserState::Started, "cut at {}", cut);
        assert_eq!(parser.status_code_first_char, '2');
    }
}

#[test]
fn byte_at_a_time_counts_once() {
    let mut parser = HTTParser::new();
    for b in OK_RESPONSE {
        parser.parse(&[*b]);
    }
    assert_eq!(parser.responses_parsed, 1);
    assert_eq!(parser.state, ParserState::Started);
}

#[test]
fn back_to_back_responses_are_each_counted() {
    let mut stream = Vec::new();
    for _ in 0..3 {
        stream.extend_from_slice(OK_RESPONSE);
    }
    stream.extend_from_slice(b"HTTP/1.1 404 Not Found\r\nContent-Length: 2\r\n\r\nno");
    let mut parser = HTTParser::new();
    parser.parse(&stream);
    assert_eq!(parser.responses_parsed, 4);
    assert_eq!(parser.state, ParserState::Started);
    assert_eq!(parser.status_code_first_char, '4');
}

#[test]
fn status_digit_with_odd_header_spelling() {
    let response = b"HTTP/1.1 503 Busy\r\nCONTENT-LENGTH :   3\r\nX-Thing:a b\r\n\r\nabc";
    let mut parser = HTTParser::new();
    parser.parse(response);
    assert_eq!(parser.status_code_first_char, '5');
    assert_eq!(parser.responses_parsed, 1);
    let headers = header_map(&parser);
    assert_eq!(headers.get("content-length"), Some(&"3".to_string()));
    assert_eq!(headers.get("x-thing"), Some(&"ab".to_string()));
}

#[test]
fn duplicate_header_overwrites() {
    let response = b"HTTP/1.1 200 OK\r\nX-A: 1\r\nx-a: 2\r\nContent-Length: 2\r\n\r\nok";
    let mut parser = HTTParser::new();
    parser.parse(response);
    assert_eq!(parser.headers.len(), 2);
    let headers = header_map(&parser);
    assert_eq!(headers.get("x-a"), Some(&"2".to_string()));
}

#[test]
fn zero_content_length_never_completes() {
    let response = b"HTTP/1.1 404 Not Found\r\nContent-Length: 0\r\n\r\n";
    let mut parser = HTTParser::new();
    parser.parse(response);
    assert_eq!(parser.state, ParserState::Body);
    parser.parse(OK_RESPONSE);
    assert_eq!(parser.responses_parsed, 0);
}

#[test]
fn non_numeric_content_length_stops_the_parser() {
    let response = b"HTTP/1.1 200 OK\r\nContent-Length: eleven\r\n\r\nHello world";
    let mut parser = HTTParser::new();
    parser.parse(response);
    assert_eq!(parser.state, ParserState::End);
    assert_eq!(parser.responses_parsed, 0);
}

#[test]
fn version_is_kept_per_response() {
    let mut parser = HTTParser::new();
    parser.parse(OK_RESPONSE);
    parser.parse(b"HTTP/1.0 200 OK\r\nContent-Length: 2\r\n\r\nok");
    assert_eq!(parser.version, b"1.0".to_vec());
}
