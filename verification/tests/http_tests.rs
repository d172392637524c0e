//! Tests of the wire codec: request parsing, response serialization, and
//! the parse/serialize round trip.

use std::io::Write;

use http_server::error::HttpError;
use http_server::http::{
    HttpRequest, HttpResponse, RequestHeaders, RequestLine, ResponseHeaders, StatusCode,
};

#[test]
fn request_from_line() {
    let request = "GET /index.html HTTP/1.1\r\nHost: localhost:4221\r\nUser-Agent: \
                   curl/7.64.1\r\nAccept: */*\r\n\r\n";
    let header = RequestLine::from_line(request).unwrap();
    let expected_header = RequestLine::new("GET", "/index.html", "HTTP/1.1");
    assert_eq!(header, expected_header);
}

#[test]
fn request_from_lines() {
    let body = "Hello, world!".to_string();
    let request_line = "GET /index.html HTTP/1.1";
    let header_lines = vec![
        "Host: localhost:4221".to_string(),
        "User-Agent: curl/7.64.1".to_string(),
        "Accept: */*".to_string(),
        "Content-Type: application/octet-stream".to_string(),
        format!("Content-Length: {}", body.len()),
    ];
    let body_lines = vec![body.clone()];
    let http_request = HttpRequest::from_lines(request_line, &header_lines, &body_lines).unwrap();
    let expected_header = RequestLine::new("GET", "/index.html", "HTTP/1.1");
    assert_eq!(http_request.line, expected_header);
    assert_eq!(http_request.body, body.clone().into_bytes());

    let mut expected_headers = ResponseHeaders::new();
    expected_headers.insert("Host", "localhost:4221");
    expected_headers.insert("User-Agent", "curl/7.64.1");
    expected_headers.insert("Accept", "*/*");
    expected_headers.insert("Content-Length", &body.len().to_string());
    expected_headers.insert("Content-Type", "application/octet-stream");
    assert_eq!(http_request.headers, expected_headers);
}

#[test]
fn response_to_bytes() {
    let response = HttpResponse::ok(b"", ResponseHeaders::new());
    assert_eq!(response.to_bytes().unwrap(), b"HTTP/1.1 200 OK\r\n\r\n");

    let headers = {
        let mut headers = ResponseHeaders::new();
        headers.insert("Content-Type", "text/plain");
        headers
    };
    let response = HttpResponse::ok(b"Hello, world!", headers);
    assert_eq!(
        response.to_bytes().unwrap(),
        b"HTTP/1.1 200 OK\r\nContent-Type: text/plain\r\nContent-Length: 13\r\n\r\nHello, world!"
    );
}

#[test]
fn request_round_trip_bytes() {
    let text = "POST /files/notes.txt HTTP/1.1\r\nHost: localhost:4221\r\nContent-Length: \
                5\r\nConnection: close\r\n\r\nhello";
    let request = HttpRequest::from_string(text).unwrap();
    let bytes = request.to_request_bytes();
    assert_eq!(bytes, text.as_bytes());
    let reparsed = HttpRequest::from_bytes(&bytes).unwrap();
    assert_eq!(reparsed.line, request.line);
    assert_eq!(reparsed.headers, request.headers);
    assert_eq!(reparsed.connection, request.connection);
    assert_eq!(reparsed.body, request.body);
}

#[test]
fn round_trip_constructed_request() {
    let line = RequestLine::new("PUT", "/anywhere", "HTTP/1.1");
    let mut headers = RequestHeaders::new();
    headers.insert("Host", "localhost:4221");
    headers.insert("Content-Length", "3");
    let request = HttpRequest::new(line, headers, b"abc".to_vec());
    assert_eq!(request.connection, "keep-alive");
    let bytes = request.to_request_bytes();
    assert_eq!(
        bytes,
        b"PUT /anywhere HTTP/1.1\r\nHost: localhost:4221\r\nContent-Length: 3\r\n\r\nabc"
    );
    let reparsed = HttpRequest::from_bytes(&bytes).unwrap();
    assert_eq!(reparsed.line, request.line);
    assert_eq!(reparsed.headers, request.headers);
    assert_eq!(reparsed.connection, request.connection);
    assert_eq!(reparsed.body, request.body);
}

#[test]
fn request_connection_defaults_to_keep_alive() {
    let request = HttpRequest::from_string("GET / HTTP/1.1\r\nHost: localhost\r\n\r\n").unwrap();
    assert_eq!(request.connection, "keep-alive");
    let request =
        HttpRequest::from_string("GET / HTTP/1.1\r\nConnection: close\r\n\r\n").unwrap();
    assert_eq!(request.connection, "close");
}

#[test]
fn request_body_shorter_than_content_length_fails() {
    let text = "POST /files/a HTTP/1.1\r\nContent-Length: 10\r\n\r\nhi";
    let err = HttpRequest::from_string(text).unwrap_err();
    assert_eq!(err, HttpError::InvalidContentLength);
}

#[test]
fn request_body_longer_than_content_length_fails() {
    let text = "POST /files/a HTTP/1.1\r\nContent-Length: 2\r\n\r\nhello";
    let err = HttpRequest::from_string(text).unwrap_err();
    assert_eq!(err, HttpError::InvalidContentLength);
}

#[test]
fn request_line_errors() {
    assert_eq!(
        HttpRequest::from_string("").unwrap_err(),
        HttpError::MissingMethod
    );
    assert_eq!(
        HttpRequest::from_string("GET\r\n\r\n").unwrap_err(),
        HttpError::MissingPath
    );
    assert_eq!(
        HttpRequest::from_string("GET /\r\n\r\n").unwrap_err(),
        HttpError::MissingVersion
    );
    assert_eq!(
        HttpRequest::from_string("GET / HTTP/1.0\r\n\r\n").unwrap_err(),
        HttpError::UnsupportedVersion
    );
    assert_eq!(
        HttpRequest::from_strings(&[]).unwrap_err(),
        HttpError::MissingRequestLine
    );
}

#[test]
fn header_errors() {
    assert_eq!(
        HttpRequest::from_string("GET / HTTP/1.1\r\nBadHeader\r\n\r\n").unwrap_err(),
        HttpError::MissingHeaderValue
    );
    assert_eq!(
        HttpRequest::from_string("GET / HTTP/1.1\r\n: value\r\n\r\n").unwrap_err(),
        HttpError::MissingHeaderKey
    );
    assert_eq!(
        HttpRequest::from_string("GET / HTTP/1.1\r\nContent-Length: abc\r\n\r\n").unwrap_err(),
        HttpError::InvalidContentLength
    );
}

#[test]
fn header_empty_value_is_accepted() {
    let request = HttpRequest::from_string("GET / HTTP/1.1\r\nX-Empty: \r\n\r\n").unwrap();
    assert_eq!(request.headers.get("X-Empty").unwrap(), "");
}

#[test]
fn later_header_occurrence_overwrites() {
    let request =
        HttpRequest::from_string("GET / HTTP/1.1\r\nX-A: one\r\nX-A: two\r\n\r\n").unwrap();
    assert_eq!(request.headers.get("X-A").unwrap(), "two");
}

#[test]
fn headers_compare_as_mappings() {
    let mut a = ResponseHeaders::new();
    a.insert("One", "1");
    a.insert("Two", "2");
    let mut b = ResponseHeaders::new();
    b.insert("Two", "2");
    b.insert("One", "1");
    assert_eq!(a, b);
    b.insert("Three", "3");
    assert_ne!(a, b);
}

#[test]
fn status_code_text() {
    assert_eq!(StatusCode::OK.as_str(), "200 OK");
    assert_eq!(StatusCode::CREATED.as_str(), "201 Created");
    assert_eq!(StatusCode::NOT_FOUND.as_str(), "404 Not Found");
    assert_eq!(StatusCode::NOT_ALLOWED.as_str(), "405 Method Not Allowed");
    assert_eq!(
        StatusCode::INTERNAL_SERVER_ERROR.as_str(),
        "500 Internal Server Error"
    );
}

#[test]
fn gzip_response_body_is_compressed() {
    let mut headers = ResponseHeaders::new();
    headers.insert("Content-Encoding", "gzip");
    let response = HttpResponse::ok(b"abc", headers);
    let bytes = response.to_bytes().unwrap();

    let mut encoder =
        flate2::write::GzEncoder::new(Vec::new(), flate2::Compression::default());
    encoder.write_all(b"abc").unwrap();
    let expected_body = encoder.finish().unwrap();
    assert_ne!(expected_body, b"abc");

    let split = bytes
        .windows(4)
        .position(|w| w == b"\r\n\r\n")
        .expect("header terminator");
    let head = std::str::from_utf8(&bytes[..split]).unwrap();
    let transmitted = &bytes[split + 4..];
    assert_eq!(transmitted, expected_body.as_slice());
    assert!(head.contains("Content-Encoding: gzip"));
    assert!(head.contains(&format!("Content-Length: {}", expected_body.len())));
}
