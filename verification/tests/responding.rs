use tinyhttp::error::{HttpError, HttpInternalError};
use tinyhttp::http_status::HttpStatus;
use tinyhttp::response::{HandlerResponse, ResponseBuilder};

#[test]
fn response_emission() {
    let handler_value = HandlerResponse::Text("hi".to_owned());
    let response = handler_value.into_response();
    let bytes = response.to_bytes();
    let text = std::str::from_utf8(&bytes).unwrap();

    assert!(text.starts_with("HTTP/1.1 200 OK\r\n"));
    assert!(text.contains("Content-Length: 2\r\n"));
    assert!(text.ends_with("\r\n\r\nhi"));
}

#[test]
fn exactly_one_content_length() {
    let response = ResponseBuilder::new()
        .insert_header_key_val("content-length", "999")
        .body(b"abcde")
        .build();
    let bytes = response.to_bytes();
    let text = std::str::from_utf8(&bytes).unwrap();

    let occurrences = text
        .to_ascii_lowercase()
        .matches("content-length:")
        .count();
    assert_eq!(occurrences, 1);
    assert!(text.contains("content-length: 5\r\n"));
    assert_eq!(response.body.contents, b"abcde");
}

#[test]
fn no_content_drops_body_and_length() {
    let response = ResponseBuilder::new()
        .status(HttpStatus::NoContent)
        .body(b"ignored")
        .build();

    assert_eq!(response.header.status_code, 204);
    assert!(response.body.contents.is_empty());
    let bytes = response.to_bytes();
    let text = std::str::from_utf8(&bytes).unwrap();
    assert!(text.starts_with("HTTP/1.1 204 No Content\r\n"));
    assert!(!text.to_ascii_lowercase().contains("content-length"));
}

#[test]
fn handler_bytes_become_a_200() {
    let response = HandlerResponse::Bytes(vec![104, 105, 33]).into_response();
    assert_eq!(response.header.status_code, 200);
    assert_eq!(response.body.contents, b"hi!");
}

#[test]
fn handler_unit_becomes_an_empty_200() {
    let response = HandlerResponse::Empty.into_response();
    assert_eq!(response.header.status_code, 200);
    assert!(response.body.contents.is_empty());
    let bytes = response.to_bytes();
    let text = std::str::from_utf8(&bytes).unwrap();
    assert!(text.contains("Content-Length: 0\r\n"));
}

#[test]
fn handler_error_becomes_a_400_with_the_message() {
    let failed: Result<Vec<u8>, HttpError> =
        Err(HttpError::new("boom", HttpStatus::BadRequest));
    let response = HandlerResponse::Fallible(failed).into_response();
    assert_eq!(response.header.status_code, 400);
    assert_eq!(response.body.contents, b"boom");
}

#[test]
fn full_responses_pass_through_unchanged() {
    let inner = ResponseBuilder::new()
        .status_code(503)
        .reason_phrase("Service Unavailable")
        .build();
    let response = HandlerResponse::Full(inner).into_response();
    assert_eq!(response.header.status_code, 503);
    assert_eq!(response.header.reason_phrase, "Service Unavailable");
}

#[test]
fn internal_error_messages() {
    assert_eq!(
        HttpInternalError::ConnectionTimeout.message(),
        "Connection timed out"
    );
    assert_eq!(HttpInternalError::DataTimeout.message(), "Data timed out.");
    assert_eq!(HttpInternalError::new("oops").message(), "oops");
    assert!(HttpInternalError::DataTimeout.is_timeout());
    assert!(HttpInternalError::ConnectionTimeout.is_timeout());
    assert!(!HttpInternalError::new("oops").is_timeout());
}

#[test]
fn statuses_render_code_and_reason() {
    assert_eq!(HttpStatus::OK.code(), 200);
    assert_eq!(HttpStatus::NoContent.code(), 204);
    assert_eq!(HttpStatus::BadRequest.code(), 400);
    assert_eq!(HttpStatus::NotFound.code(), 404);
    assert_eq!(HttpStatus::MethodNotAllowed.code(), 405);
    assert_eq!(HttpStatus::InternalServerError.code(), 500);
    assert_eq!(HttpStatus::InternalServerError.reason(), "Internal Server Error");
}
