use echofront::http::{reason_phrase, Method, ParseError, Request, Response};

#[test]
fn parses_request_line_and_headers() {
    let raw = "GET /api/users?id=3 HTTP/1.1\r\nHost: api.example.com\r\nAccept: */*\r\n\r\n";
    let req = Request::parse(raw).unwrap();
    assert_eq!(req.method, Method::Get);
    assert_eq!(req.path, "/api/users?id=3");
    assert_eq!(req.version, "HTTP/1.1");
    assert_eq!(req.host(), Some("api.example.com"));
    assert_eq!(req.header("accept"), Some("*/*"));
}

#[test]
fn parses_body() {
    let raw = "POST /submit HTTP/1.1\r\nHost: h\r\nContent-Length: 5\r\n\r\nhello";
    let req = Request::parse(raw).unwrap();
    assert_eq!(req.method, Method::Post);
    assert_eq!(req.body, b"hello");
}

#[test]
fn tolerates_lf_only() {
    let raw = "GET / HTTP/1.1\nHost: h\n\n";
    let req = Request::parse(raw).unwrap();
    assert_eq!(req.path, "/");
    assert_eq!(req.host(), Some("h"));
}

#[test]
fn rejects_empty() {
    assert_eq!(Request::parse("").unwrap_err(), ParseError::Empty);
}

#[test]
fn idempotency() {
    assert!(Method::Get.is_idempotent());
    assert!(!Method::Post.is_idempotent());
}

#[test]
fn response_classification() {
    assert!(Response::new(200).is_success());
    assert!(!Response::new(500).is_success());
    assert!(Response::new(503).is_server_error());
}

#[test]
fn every_parse_error() {
    assert_eq!(Request::parse("").unwrap_err(), ParseError::Empty);
    assert_eq!(Request::parse("\r\n\r\n").unwrap_err(), ParseError::Empty);
    assert_eq!(
        Request::parse("GET\r\n\r\n").unwrap_err(),
        ParseError::MalformedRequestLine
    );
    assert_eq!(
        Request::parse("GET / HTTP/1.1\r\nno colon here\r\n\r\n").unwrap_err(),
        ParseError::MalformedHeader("no colon here".to_string())
    );
}

#[test]
fn parse_error_messages() {
    assert_eq!(ParseError::Empty.message(), "empty request");
    assert_eq!(ParseError::MalformedRequestLine.message(), "malformed request line");
    assert_eq!(
        ParseError::MalformedHeader("y".to_string()).message(),
        "malformed header: y"
    );
}

#[test]
fn missing_version_defaults() {
    let req = Request::parse("GET /x\r\n\r\n").unwrap();
    assert_eq!(req.version, "HTTP/1.1");
    assert_eq!(req.path, "/x");
}

#[test]
fn methods_round_trip_by_name() {
    for name in ["GET", "HEAD", "POST", "PUT", "PATCH", "DELETE", "OPTIONS", "BREW"] {
        assert_eq!(Method::parse(name).as_str(), name);
    }
    assert_eq!(Method::parse("get"), Method::Other("get".to_string()));
    assert!(Method::Put.is_idempotent());
    assert!(Method::Delete.is_idempotent());
    assert!(!Method::Patch.is_idempotent());
}

#[test]
fn first_header_of_a_name_wins() {
    let req = Request::get("/")
        .with_header("X-A", "one")
        .with_header("x-a", "two");
    assert_eq!(req.header("X-a"), Some("one"));
    assert_eq!(req.header("X-B"), None);
    assert_eq!(req.host(), None);
}

#[test]
fn header_values_are_trimmed_and_keep_colons() {
    let raw = "GET / HTTP/1.1\r\nHost:   h:8080  \r\n\r\nbody: not a header";
    let req = Request::parse(raw).unwrap();
    assert_eq!(req.host(), Some("h:8080"));
    assert_eq!(req.body, b"body: not a header");
    assert_eq!(req.headers.len(), 1);
}

#[test]
fn probe_request_is_a_head() {
    let req = Request::probe();
    assert_eq!(req.method, Method::Head);
    assert_eq!(req.path, "/healthz");
}

#[test]
fn responses_carry_phrase_and_body() {
    let resp = Response::new(503).with_body("down");
    assert_eq!(resp.status, 503);
    assert_eq!(resp.reason, reason_phrase(503));
    assert_eq!(resp.reason, "Service Unavailable");
    assert_eq!(resp.body, b"down");
    assert!(Response::new(399).is_success());
    assert!(!Response::new(400).is_success());
    assert!(!Response::new(499).is_server_error());
}

#[test]
fn cloned_request_is_equal() {
    let req = Request::new(Method::Post, "/p").with_header("Host", "h");
    let copy = req.clone();
    assert_eq!(copy.method, req.method);
    assert_eq!(copy.path, req.path);
    assert_eq!(copy.headers, req.headers);
}

#[test]
fn first_blank_line_ends_the_head() {
    let req = Request::parse("G /\n\nb\r\n\r\n").unwrap();
    assert_eq!(req.body, b"b\r\n\r\n");
    assert!(req.headers.is_empty());
    // The line endings may be mixed.
    let req = Request::parse("G /\nA: 1\n\r\nbody").unwrap();
    assert_eq!(req.headers, vec![("A".to_string(), "1".to_string())]);
    assert_eq!(req.body, b"body");
    let req = Request::parse("G /\r\nA: 1\r\n\nB: 2\r\n\r\n").unwrap();
    assert_eq!(req.headers.len(), 1);
    assert_eq!(req.body, b"B: 2\r\n\r\n");
    // A line of nothing but carriage returns is blank, one with a space is not.
    let req = Request::parse("G /\n\r\r\nrest").unwrap();
    assert_eq!(req.body, b"rest");
    assert_eq!(
        Request::parse("G /\n \n\nrest").unwrap_err(),
        ParseError::MalformedHeader(" ".to_string())
    );
}

#[test]
fn head_without_a_blank_line_is_everything() {
    let req = Request::parse("G /\nA: 1\nB: 2").unwrap();
    assert_eq!(req.headers.len(), 2);
    assert!(req.body.is_empty());
    // A blank line at the very end leaves nothing for the body.
    let req = Request::parse("G /\nA: 1\n").unwrap();
    assert_eq!(req.headers.len(), 1);
    assert!(req.body.is_empty());
    // A blank request line is no end of a head.
    assert_eq!(Request::parse("\nG /\n\n").unwrap_err(), ParseError::Empty);
    // What comes first of a bad header and the body decides.
    assert_eq!(
        Request::parse("G /\nbad\n\nbody").unwrap_err(),
        ParseError::MalformedHeader("bad".to_string())
    );
    assert_eq!(Request::parse("G /\n\nbad").unwrap().body, b"bad");
}
