use wschat::http::{render_response, u64_to_dec_string, HTTPMethod, Header, Request};

#[test]
fn method_names_parse() {
    assert_eq!(HTTPMethod::from_str("GET"), HTTPMethod::GET);
    assert_eq!(HTTPMethod::from_str("PUT"), HTTPMethod::PUT);
    assert_eq!(HTTPMethod::from_str("POST"), HTTPMethod::POST);
    assert_eq!(HTTPMethod::try_from_str("DELETE"), None);
    assert_eq!(HTTPMethod::try_from_str("get"), None);
}

#[test]
fn header_splits_at_first_colon() {
    let h = Header::from_str("Host: server.example.com");
    assert_eq!(h.key, "Host");
    assert_eq!(h.value, "server.example.com");

    let h = Header::from_str("Sec-WebSocket-Key:   x3JJHMbDL1EzLkh9GBhXDw==");
    assert_eq!(h.key, "Sec-WebSocket-Key");
    assert_eq!(h.value, "x3JJHMbDL1EzLkh9GBhXDw==");

    let h = Header::from_str("Empty:");
    assert_eq!(h.key, "Empty");
    assert_eq!(h.value, "");
}

fn lines(ls: &[&str]) -> Vec<String> {
    ls.iter().map(|l| String::from(*l)).collect()
}

#[test]
fn request_head_parses() {
    let req = Request::new(&lines(&[
        "GET /ws/ HTTP/1.1",
        "Host: server.example.com",
        "Upgrade: websocket",
        "Connection: Upgrade",
    ]))
    .expect("a well-formed head must parse");
    assert_eq!(req.method, HTTPMethod::GET);
    assert_eq!(req.path, "/ws/");
    assert_eq!(req.protocol, "HTTP/1.1");
    assert_eq!(req.headers.len(), 3);
    assert_eq!(req.get_header("Host"), Some(String::from("server.example.com")));
    assert_eq!(req.get_header("Cookie"), None);
    assert!(req.is_websocket());
}

#[test]
fn request_head_rejects_malformed_lines() {
    assert!(Request::new(&lines(&[])).is_none());
    assert!(Request::new(&lines(&["GET /"])).is_none());
    assert!(Request::new(&lines(&["GET / HTTP/1.1 extra"])).is_none());
    assert!(Request::new(&lines(&["DELETE / HTTP/1.1"])).is_none());
    assert!(Request::new(&lines(&["GET / HTTP/1.1", "no colon here"])).is_none());
}

#[test]
fn plain_request_is_not_a_websocket() {
    let req = Request::new(&lines(&["GET / HTTP/1.1", "Connection: keep-alive"]))
        .expect("head must parse");
    assert!(!req.is_websocket());
}

#[test]
fn decimal_rendering() {
    assert_eq!(u64_to_dec_string(0), "0");
    assert_eq!(u64_to_dec_string(9), "9");
    assert_eq!(u64_to_dec_string(1234567890), "1234567890");
    assert_eq!(u64_to_dec_string(u64::MAX), "18446744073709551615");
}

#[test]
fn response_rendering() {
    assert_eq!(
        render_response("hello", 200),
        "HTTP/1.1 200 OK\r\nConnection: Close\r\nContent-Length: 5\r\n\r\nhello"
    );
    assert_eq!(
        render_response("", 404),
        "HTTP/1.1 404 OK\r\nConnection: Close\r\nContent-Length: 0\r\n\r\n"
    );
}
