use tinyhttp::body::Body;
use tinyhttp::error::HttpInternalError;
use tinyhttp::request::RequestBuilder;
use tinyhttp::method::Method;
use tinyhttp::request::{Request, RequestHeader};
use tinyhttp::response::ResponseHeader;
use tinyhttp::version::Version;

#[test]
fn from_fixed_length() {
    let bytes_str = "Hello World!";
    let bytes = bytes_str.as_bytes();

    let body = Body::from_fixed_length(bytes, 12).unwrap();

    assert_eq!(body.contents, b"Hello World!");
}

#[test]
fn from_chunked_encoding() {
    let bytes_str = "7\r\nMozilla\r\n9\r\nDeveloper\r\n7\r\nNetwork\r\n0\r\n\r\n";
    let bytes = bytes_str.as_bytes();

    let (body, used) = Body::from_chunked_encoding(bytes).unwrap();

    assert_eq!(
        "MozillaDeveloperNetwork",
        std::str::from_utf8(&body.contents).unwrap()
    );
    assert_eq!(used, bytes.len());
}

#[test]
fn read_request() {
    let sample_request = r#"GET /test HTTP/1.1
        Host: www.example.com
        User-Agent: Mozilla/5.0
        Accept: text/html,application/xhtml+xml,application/xml;q=0.9,image/avif,image/webp,*/*;q=0.8
        Accept-Language: en-GB,en;q=0.5
        Accept-Encoding: gzip, deflate, br
        Connection: keep-alive"#;

    let request = RequestHeader::from_str(sample_request).unwrap();

    assert_eq!(request.method, Method::GET);
    assert_eq!(request.uri, "/test");
    assert_eq!(request.version, Version::new(1, 1));

    let headers = &request.header_map;

    assert_eq!(headers.get_by_str_key("host"), Some("www.example.com"));
    assert_eq!(headers.get_by_str_key("user-agent"), Some("Mozilla/5.0"));
    assert_eq!(
        headers.get_by_str_key("accept"),
        Some("text/html,application/xhtml+xml,application/xml;q=0.9,image/avif,image/webp,*/*;q=0.8")
    );
    assert_eq!(
        headers.get_by_str_key("accept-language"),
        Some("en-GB,en;q=0.5")
    );
    assert_eq!(
        headers.get_by_str_key("accept-encoding"),
        Some("gzip, deflate, br")
    );
    assert_eq!(headers.get_by_str_key("connection"), Some("keep-alive"));
}

#[test]
fn read_response() {
    let sample_response = r#"HTTP/1.1 200 OK
        Date: Mon, 23 May 2005 22:38:34 GMT
        Content-Type: text/html; charset=UTF-8
        Last-Modified: Wed, 08 Jan 2003 23:11:55 GMT
        Server: Apache/1.3.3.7 (Unix) (Red-Hat/Linux)
        ETag: "3f80f-1b6-3e1cb03b"
        Accept-Ranges: bytes
        Connection: close"#;

    let response = ResponseHeader::from_str(sample_response).unwrap();

    assert_eq!(response.version, Version::new(1, 1));
    assert_eq!(response.status_code, 200);
    assert_eq!(response.reason_phrase, "OK".to_owned());

    let headers = &response.header_map;

    assert_eq!(
        headers.get_by_str_key("date"),
        Some("Mon, 23 May 2005 22:38:34 GMT")
    );
    assert_eq!(
        headers.get_by_str_key("content-type"),
        Some("text/html; charset=UTF-8")
    );
    assert_eq!(
        headers.get_by_str_key("last-modified"),
        Some("Wed, 08 Jan 2003 23:11:55 GMT")
    );
    assert_eq!(
        headers.get_by_str_key("server"),
        Some("Apache/1.3.3.7 (Unix) (Red-Hat/Linux)")
    );
    assert_eq!(
        headers.get_by_str_key("etag"),
        Some("\"3f80f-1b6-3e1cb03b\"")
    );
    assert_eq!(headers.get_by_str_key("accept-ranges"), Some("bytes"));
    assert_eq!(headers.get_by_str_key("connection"), Some("close"));
}

#[test]
fn fixed_body_request() {
    let input = b"GET /x HTTP/1.1\r\nContent-Length: 12\r\n\r\nHello World!";

    let (request, used) = Request::from_bytes(input).unwrap();

    assert_eq!(request.header.method, Method::GET);
    assert_eq!(request.header.uri, "/x");
    assert_eq!(request.body.contents, b"Hello World!");
    assert_eq!(used, input.len());
}

#[test]
fn chunked_body_request() {
    let input =
        b"POST / HTTP/1.1\r\nTransfer-Encoding: chunked\r\n\r\n7\r\nMozilla\r\n9\r\nDeveloper\r\n7\r\nNetwork\r\n0\r\n\r\n";

    let (request, used) = Request::from_bytes(input).unwrap();

    assert_eq!(request.header.method, Method::POST);
    assert_eq!(request.header.uri, "/");
    assert_eq!(
        std::str::from_utf8(&request.body.contents).unwrap(),
        "MozillaDeveloperNetwork"
    );
    assert_eq!(used, input.len());
}

#[test]
fn empty_body_request() {
    let input = b"DELETE /items/3 HTTP/1.1\r\nHost: h\r\n\r\n";

    let (request, used) = Request::from_bytes(input).unwrap();

    assert_eq!(request.header.method, Method::DELETE);
    assert_eq!(request.header.uri, "/items/3");
    assert!(request.body.contents.is_empty());
    assert_eq!(used, input.len());
}

#[test]
fn missing_terminator_is_a_data_timeout() {
    let input = b"GET / HTTP/1.1\r\nHost: h\r\n";
    let err = Request::from_bytes(input).unwrap_err();
    assert_eq!(err, HttpInternalError::DataTimeout);
}

#[test]
fn short_fixed_body_is_an_error() {
    let input = b"GET / HTTP/1.1\r\nContent-Length: 50\r\n\r\nshort";
    assert!(Request::from_bytes(input).is_err());
}

#[test]
fn malformed_chunk_size_is_an_error() {
    let input = b"zz\r\nMozilla\r\n0\r\n\r\n";
    assert!(Body::from_chunked_encoding(input).is_err());
}

#[test]
fn truncated_chunk_is_an_error() {
    let input = b"7\r\nMoz";
    assert!(Body::from_chunked_encoding(input).is_err());
}

#[test]
fn unknown_method_is_rejected() {
    assert!(Method::from_str("BREW").is_err());
    assert!(Method::from_str("get").is_err());
    assert_eq!(Method::from_str("PATCH").unwrap(), Method::PATCH);
}

#[test]
fn bad_request_line_is_rejected() {
    assert!(RequestHeader::from_str("GET /x\r\n\r\n").is_err());
    assert!(RequestHeader::from_str("GET /x HTTQ/1.1\r\n\r\n").is_err());
    assert!(RequestHeader::from_str("GET /x HTTP/one.1\r\n\r\n").is_err());
    assert!(RequestHeader::from_str("").is_err());
}

#[test]
fn version_parse_and_render() {
    assert_eq!(Version::from_str("1.1"), Some(Version::new(1, 1)));
    assert_eq!(Version::from_str("10.0"), Some(Version::new(10, 0)));
    assert_eq!(Version::from_str("1"), None);
    assert_eq!(Version::from_str("1."), None);
    assert_eq!(Version::from_str(".5"), None);
    assert_eq!(Version::new(1, 1).render(), "1.1");
}

#[test]
fn serialize_then_parse_is_identity() {
    let request = RequestBuilder::new()
        .method(Method::PUT)
        .uri("/store/42")
        .insert_header_key_val("Host", "example.net")
        .body(b"payload!")
        .build();

    let bytes = request.to_bytes();
    let (reparsed, used) = Request::from_bytes(&bytes).unwrap();

    assert_eq!(used, bytes.len());
    assert_eq!(reparsed.header.method, Method::PUT);
    assert_eq!(reparsed.header.uri, "/store/42");
    assert_eq!(
        reparsed.header.header_map.get_by_str_key("host"),
        Some("example.net")
    );
    assert_eq!(
        reparsed.header.header_map.get_by_str_key("content-length"),
        Some("8")
    );
    assert_eq!(reparsed.body.contents, b"payload!");
}
