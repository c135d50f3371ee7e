use hermit_crab::Method;
use hermit_crab::Req;
use hermit_crab::ReqError;

const HTTP_REQ_STR: &str =
    "GET /index.html HTTP/1.1\r\nHost: www.xiwen.com\r\nAccept-Language: en-us\r\nContent-Length: 5\r\n\r\nHello";

#[test]
fn test_http_header() {
    let http_req = String::from(HTTP_REQ_STR);
    let req = Req::new(http_req.as_bytes()).unwrap();
    assert_eq!(req.method, Method::GET);
    assert_eq!(req.path.as_slice(), b"/index.html");
    assert_eq!(req.version.as_slice(), b"HTTP/1.1");
    assert_eq!(req.headers.len(), 3);
    assert!(req.headers.contains_key(b"Host"));
    assert!(req.headers.contains_key(b"Accept-Language"));
    assert!(req.headers.contains_key(b"Host"));
    assert_eq!(
        req.headers.get(b"Host").cloned(),
        Some(b"www.xiwen.com".to_vec())
    );
}

#[test]
fn missing_line_terminator_fails() {
    assert_eq!(
        Req::new(b"GET / HTTP/1.1").unwrap_err(),
        ReqError::MissingLineEnd
    );
}

#[test]
fn missing_header_terminator_fails() {
    assert_eq!(
        Req::new(b"GET / HTTP/1.1\r\nHost: x\r\n").unwrap_err(),
        ReqError::MissingLineEnd
    );
}

#[test]
fn overlong_line_fails() {
    let mut raw: Vec<u8> = vec![b'a'; 5000];
    raw.extend_from_slice(b"\r\n\r\n");
    assert_eq!(Req::new(&raw).unwrap_err(), ReqError::LineTooLong);
}

#[test]
fn empty_start_line_fails() {
    assert_eq!(Req::new(b"\r\n\r\n").unwrap_err(), ReqError::EmptyStartLine);
    assert_eq!(
        Req::new(b"   \r\n\r\n").unwrap_err(),
        ReqError::EmptyStartLine
    );
}

#[test]
fn unknown_method_fails() {
    assert_eq!(
        Req::new(b"FROB /x HTTP/1.1\r\n\r\n").unwrap_err(),
        ReqError::BadMethod
    );
}

#[test]
fn missing_path_and_version_are_empty() {
    let req = Req::new(b"GET\r\n\r\n").unwrap();
    assert_eq!(req.method, Method::GET);
    assert!(req.path.is_empty());
    assert!(req.version.is_empty());
    assert_eq!(req.headers.len(), 0);
}

#[test]
fn duplicate_header_last_write_wins() {
    let raw = b"PUT /x HTTP/1.1\r\nHost: one\r\nHost: two\r\n\r\n";
    let req = Req::new(raw).unwrap();
    assert_eq!(req.method(), Method::PUT);
    assert_eq!(req.headers.len(), 1);
    assert_eq!(req.headers.get(b"Host").cloned(), Some(b"two".to_vec()));
}

#[test]
fn header_without_colon_has_empty_value() {
    let raw = b"DELETE /x HTTP/1.1\r\nWeird\r\n\r\n";
    let req = Req::new(raw).unwrap();
    assert_eq!(req.headers.get(b"Weird").cloned(), Some(b"".to_vec()));
}

#[test]
fn method_token_parsing() {
    assert_eq!(Method::from("GET"), Method::GET);
    assert_eq!(Method::from("POST"), Method::POST);
    assert_eq!(Method::from("PUT"), Method::PUT);
    assert_eq!(Method::from("DELETE"), Method::DELETE);
    assert_eq!(Method::from("PATCH"), Method::UNKNOWN);
    assert_eq!(Method::from(""), Method::UNKNOWN);
}
