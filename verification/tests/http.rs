use tcp_ais_broker::decimal::decimal_bytes;
use tcp_ais_broker::http::{response, route, Endpoint};

#[test]
fn routes_by_request_line() {
    assert_eq!(route(b"GET /health HTTP/1.1\r\nHost: x\r\n\r\n"), Endpoint::Health);
    assert_eq!(route(b"GET /ready HTTP/1.1\r\n\r\n"), Endpoint::Ready);
    assert_eq!(route(b"GET /metrics HTTP/1.1\r\n\r\n"), Endpoint::Metrics);
    assert_eq!(route(b"GET / HTTP/1.1\r\n\r\n"), Endpoint::NotFound);
    assert_eq!(route(b"POST /health HTTP/1.1\r\n\r\n"), Endpoint::NotFound);
    assert_eq!(route(b"GET /heal"), Endpoint::NotFound);
}

#[test]
fn health_is_always_ok() {
    let r = response(Endpoint::Health, false, 0, "");
    assert_eq!(r, b"HTTP/1.1 200 OK\r\nContent-Type: text/plain\r\nContent-Length: 3\r\n\r\nok\n".to_vec());
}

#[test]
fn ready_needs_upstream_and_a_consumer() {
    let ready = b"HTTP/1.1 200 OK\r\nContent-Type: text/plain\r\nContent-Length: 6\r\n\r\nready\n".to_vec();
    let not_ready =
        b"HTTP/1.1 503 Service Unavailable\r\nContent-Type: text/plain\r\nContent-Length: 10\r\n\r\nnot ready\n".to_vec();
    assert_eq!(response(Endpoint::Ready, true, 1, ""), ready);
    assert_eq!(response(Endpoint::Ready, true, 0, ""), not_ready);
    assert_eq!(response(Endpoint::Ready, false, 3, ""), not_ready);
}

#[test]
fn metrics_body_is_passed_through() {
    let r = response(Endpoint::Metrics, false, 0, "tcp_broker_upstream_connected 1\n");
    assert_eq!(
        r,
        b"HTTP/1.1 200 OK\r\nContent-Type: text/plain; charset=utf-8\r\nContent-Length: 32\r\n\r\ntcp_broker_upstream_connected 1\n".to_vec()
    );
}

#[test]
fn unknown_path_is_not_found() {
    let r = response(Endpoint::NotFound, true, 1, "ignored");
    assert_eq!(r, b"HTTP/1.1 404 Not Found\r\nContent-Type: text/plain\r\nContent-Length: 10\r\n\r\nnot found\n".to_vec());
}

#[test]
fn decimal_text() {
    assert_eq!(decimal_bytes(0), b"0".to_vec());
    assert_eq!(decimal_bytes(7), b"7".to_vec());
    assert_eq!(decimal_bytes(10), b"10".to_vec());
    assert_eq!(decimal_bytes(1234567), b"1234567".to_vec());
    assert_eq!(decimal_bytes(usize::MAX), usize::MAX.to_string().into_bytes());
}
