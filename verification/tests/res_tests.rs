use hermit_crab::Res;
use hermit_crab::RespondError;

#[test]
fn respond_writes_status_line_length_and_body() {
    let mut res = Res::new();
    res.respond(b"Hello").unwrap();
    assert_eq!(
        res.written().as_slice(),
        b"HTTP/1.x 200 OK\r\nContent-Length: 5\r\n\r\nHello"
    );
    assert!(res.responded());
}

#[test]
fn respond_twice_fails() {
    let mut res = Res::new();
    res.respond(b"one").unwrap();
    let before = res.written().clone();
    assert_eq!(res.respond(b"two"), Err(RespondError::AlreadyResponded));
    assert_eq!(res.written(), &before);
}

#[test]
fn respond_uses_set_status() {
    let mut res = Res::new();
    res.set_status(404, "Not Found");
    assert_eq!(res.status().as_slice(), b"Not Found");
    res.respond(b"Not Found").unwrap();
    assert_eq!(
        res.written().as_slice(),
        b"HTTP/1.x 404 Not Found\r\nContent-Length: 9\r\n\r\nNot Found"
    );
}

#[test]
fn respond_emits_set_headers() {
    let mut res = Res::new();
    assert_eq!(res.set_header("Content-Type", "text/css"), None);
    res.respond(b"hi").unwrap();
    assert_eq!(
        res.written().as_slice(),
        b"HTTP/1.x 200 OK\r\nContent-Length: 2\r\nContent-Type: text/css\r\n\r\nhi"
    );
}

#[test]
fn set_header_returns_previous_value() {
    let mut res = Res::new();
    assert_eq!(res.set_header("Connection", "close"), None);
    assert_eq!(
        res.set_header("Connection", "keep-alive"),
        Some(b"close".to_vec())
    );
}

#[test]
fn content_length_renders_multi_digit_values() {
    let body = vec![b'x'; 12345];
    let mut res = Res::new();
    res.set_status(210, "Hello");
    res.respond(&body).unwrap();
    let mut expected: Vec<u8> = b"HTTP/1.x 210 Hello\r\nContent-Length: 12345\r\n\r\n".to_vec();
    expected.extend_from_slice(&body);
    assert_eq!(res.written().as_slice(), expected.as_slice());
}

#[test]
fn empty_body_has_zero_content_length() {
    let mut res = Res::new();
    res.respond(b"").unwrap();
    assert_eq!(
        res.written().as_slice(),
        b"HTTP/1.x 200 OK\r\nContent-Length: 0\r\n\r\n"
    );
}
