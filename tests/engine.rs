use shooter::engine::{ReadOutcome, WorkerEngine};

const OK_RESPONSE: &[u8] = b"HTTP/1.1 200 OK\r\nContent-Length: 11\r\n\r\nHello world";
const NOT_FOUND: &[u8] = b"HTTP/1.1 404 Not Found\r\nContent-Length: 0\r\n\r\n";

fn engine_with(n: usize) -> (WorkerEngine, Vec<usize>) {
    let mut e = WorkerEngine::new();
    let tokens: Vec<usize> = (0..n).map(|_| e.open_slot()).collect();
    (e, tokens)
}

#[test]
fn slots_get_distinct_tokens() {
    let (e, tokens) = engine_with(3);
    assert_eq!(tokens.len(), 3);
    assert_ne!(tokens[0], tokens[1]);
    assert_ne!(tokens[1], tokens[2]);
    assert_ne!(tokens[0], tokens[2]);
    assert_eq!(e.tokens, tokens);
}

#[test]
fn ok_server_counts_requests_without_errors() {
    let (mut e, t) = engine_with(1);
    for i in 0..5u64 {
        e.on_sent(t[0], i * 100);
        e.record_latency(t[0], i * 100 + 7);
        let r = e.absorb(t[0], OK_RESPONSE);
        assert_eq!(r, ReadOutcome::Complete(OK_RESPONSE.len(), '2'));
    }
    let s = e.finish(1);
    assert_eq!(s.request_count, 5);
    assert_eq!(s.bad_requests, 0);
    assert_eq!(s.error_count, 0);
    assert_eq!(s.received_data, 5 * OK_RESPONSE.len());
    assert_eq!(s.run_duration, 1);
    assert_eq!(e.latencies, vec![7; 5]);
}

#[test]
fn not_found_with_empty_body_counts_nothing() {
    let (mut e, t) = engine_with(1);
    e.on_sent(t[0], 0);
    assert_eq!(e.absorb(t[0], NOT_FOUND), ReadOutcome::Partial);
    let s = e.finish(1);
    assert_eq!(s.bad_requests, s.request_count);
    assert_eq!(s.request_count, 0);
}

#[test]
fn bad_status_is_counted() {
    let (mut e, t) = engine_with(1);
    let r = e.absorb(t[0], b"HTTP/1.1 500 Oops\r\nContent-Length: 2\r\n\r\nno");
    assert_eq!(r, ReadOutcome::Complete(42, '5'));
    let s = e.finish(1);
    assert_eq!(s.bad_requests, 1);
    assert_eq!(s.request_count, 1);
}

#[test]
fn closing_after_every_response_recycles_slots() {
    let (mut e, t) = engine_with(2);
    for _ in 0..3 {
        for tok in &t {
            e.absorb(*tok, OK_RESPONSE);
            e.recycle(*tok);
        }
    }
    assert_eq!(e.request_count, 6);
    let s = e.finish(2);
    assert_eq!(s.request_count, 6);
}

#[test]
fn responses_split_over_reads() {
    let (mut e, t) = engine_with(1);
    assert_eq!(e.absorb(t[0], &OK_RESPONSE[..45]), ReadOutcome::Partial);
    assert_eq!(e.absorb(t[0], &OK_RESPONSE[45..]), ReadOutcome::Complete(5, '2'));
    assert_eq!(e.finish(1).request_count, 1);
}

#[test]
fn read_ending_in_headers_is_an_error() {
    let (mut e, t) = engine_with(1);
    assert_eq!(e.absorb(t[0], b"HTTP/1.1 200 OK\r\nContent-Le"), ReadOutcome::Error);
    assert_eq!(e.errors, 1);
}

#[test]
fn failed_reads() {
    let mut e = WorkerEngine::new();
    assert_eq!(e.on_read_error(true), ReadOutcome::Blocked);
    assert_eq!(e.errors, 0);
    assert_eq!(e.on_read_error(false), ReadOutcome::Error);
    assert_eq!(e.errors, 1);
}

#[test]
fn latency_needs_a_sent_request() {
    let (mut e, t) = engine_with(1);
    e.record_latency(t[0], 50);
    assert!(e.latencies.is_empty());
    e.on_sent(t[0], 60);
    e.record_latency(t[0], 50);
    assert!(e.latencies.is_empty());
    e.record_latency(t[0], 75);
    assert_eq!(e.latencies, vec![15]);
}

#[test]
fn unknown_token_is_an_error() {
    let (mut e, _) = engine_with(1);
    assert_eq!(e.absorb(999, OK_RESPONSE), ReadOutcome::Error);
    e.recycle(999);
    assert_eq!(e.finish(1).request_count, 0);
}
