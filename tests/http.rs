use server_rs::http::{decimal_bytes, response, route, starts_with, Route};

#[test]
fn root_request_routes_to_hello() {
    let mut buffer = [0u8; 1024];
    let req = b"GET / HTTP/1.1\r\nHost: localhost\r\n\r\n";
    buffer[..req.len()].copy_from_slice(req);
    let r = route(&buffer);
    assert_eq!(r, Route::Hello);
    assert_eq!(r.status_line(), "HTTP/1.1 200 OK");
    assert_eq!(r.page(), "hello.html");
    assert!(!r.is_slow());
}

#[test]
fn sleep_request_routes_to_slow_hello() {
    let r = route(b"GET /sleep HTTP/1.1\r\n\r\n");
    assert_eq!(r, Route::SlowHello);
    assert_eq!(r.status_line(), "HTTP/1.1 200 OK");
    assert_eq!(r.page(), "hello.html");
    assert!(r.is_slow());
}

#[test]
fn other_requests_route_to_not_found() {
    for req in [&b"GET /missing HTTP/1.1\r\n"[..], b"POST / HTTP/1.1\r\n", b"GET / HTTP/1.1", b""] {
        let r = route(req);
        assert_eq!(r, Route::NotFound);
        assert_eq!(r.status_line(), "HTTP/1.1 404 NOT FOUND");
        assert_eq!(r.page(), "404.html");
        assert!(!r.is_slow());
    }
}

#[test]
fn prefix_test_needs_every_byte() {
    assert!(starts_with(b"abc", b""));
    assert!(starts_with(b"abc", b"ab"));
    assert!(starts_with(b"abc", b"abc"));
    assert!(!starts_with(b"abc", b"abd"));
    assert!(!starts_with(b"ab", b"abc"));
}

#[test]
fn decimal_digits_of_lengths() {
    assert_eq!(decimal_bytes(0), b"0".to_vec());
    assert_eq!(decimal_bytes(7), b"7".to_vec());
    assert_eq!(decimal_bytes(10), b"10".to_vec());
    assert_eq!(decimal_bytes(1024), b"1024".to_vec());
}

#[test]
fn response_carries_status_length_and_body() {
    let r = response("HTTP/1.1 200 OK", "<p>hi</p>");
    assert_eq!(r, b"HTTP/1.1 200 OK\r\nContent-Length: 9\r\n\r\n<p>hi</p>".to_vec());
    let empty = response("HTTP/1.1 404 NOT FOUND", "");
    assert_eq!(empty, b"HTTP/1.1 404 NOT FOUND\r\nContent-Length: 0\r\n\r\n".to_vec());
}
