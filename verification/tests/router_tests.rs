//! Tests of the router: path parsing, route resolution, and the file
//! routes against an in-memory storage.

use http_server::http::{HttpRequest, StatusCode};
use http_server::router::{make_router, Router};
use http_server::storage::FileStorage;

fn make_test_router() -> Router {
    make_router()
}

#[test]
fn test_router_parse_path() {
    let router = make_test_router();
    assert_eq!(router.parse_path("/"), "");
    assert_eq!(router.parse_path("/echo"), "echo");
    assert_eq!(router.parse_path("/echo/"), "echo");
    assert_eq!(router.parse_path("/echo/123"), "echo");
}

#[test]
fn test_router_resolve_root() {
    let router = make_test_router();
    let request = HttpRequest::from_string(
        "GET / HTTP/1.1\r\nHost: localhost:4221\r\nUser-Agent: curl/7.64.1\r\nAccept: \
         */*\r\n\r\n",
    )
    .unwrap();
    let mut storage = FileStorage::new();
    let response = router.resolve(&request, &mut storage);
    assert_eq!(response.status_code, StatusCode::OK);
    assert_eq!(response.body, b"");
    assert_eq!(response.to_bytes().unwrap(), b"HTTP/1.1 200 OK\r\n\r\n");
}

#[test]
fn test_router_resolve_echo() {
    let expected_body = "my_test_path";
    let router = make_test_router();
    let request = HttpRequest::from_string(&format!(
        "GET /echo/{} HTTP/1.1\r\nHost: localhost:4221\r\nUser-Agent: curl/7.64.1\r\nAccept: \
         */*\r\n\r\n",
        expected_body
    ))
    .unwrap();
    let mut storage = FileStorage::new();
    let response = router.resolve(&request, &mut storage);
    assert_eq!(response.status_code, StatusCode::OK);
    assert_eq!(response.body, expected_body.as_bytes());
    assert_eq!(
        response.to_bytes().unwrap(),
        format!(
            "HTTP/1.1 200 OK\r\nContent-Type: text/plain\r\nContent-Length: {}\r\n\r\n{}",
            expected_body.len(),
            expected_body
        )
        .as_bytes()
    );
}

#[test]
fn test_router_resolve_not_found() {
    let router = make_test_router();
    let request = HttpRequest::from_string(
        "GET /not_found HTTP/1.1\r\nHost: localhost:4221\r\nUser-Agent: \
         curl/7.64.1\r\nAccept: */*\r\n\r\n",
    )
    .unwrap();
    let mut storage = FileStorage::new();
    let response = router.resolve(&request, &mut storage);
    assert_eq!(response.status_code, StatusCode::NOT_FOUND);
    assert_eq!(response.body, b"");
    assert_eq!(response.to_bytes().unwrap(), b"HTTP/1.1 404 Not Found\r\n\r\n");
}

#[test]
fn test_example() {
    let router = make_test_router();
    let request =
        HttpRequest::from_string("GET / HTTP/1.1\r\nHost: localhost:4221\r\n\r\n").unwrap();
    let mut storage = FileStorage::new();
    let response = router.resolve(&request, &mut storage);
    assert_eq!(response.status_code, StatusCode::OK);
    assert_eq!(response.body, b"");
    assert_eq!(response.to_bytes().unwrap(), b"HTTP/1.1 200 OK\r\n\r\n");
}

#[test]
fn test_echo_example() {
    let router = make_test_router();
    let request = HttpRequest::from_string(
        "GET /echo/abc HTTP/1.1\r\nHost: localhost:4221\r\nUser-Agent: curl/7.64.1\r\nAccept: \
         */*\r\n\r\n",
    )
    .unwrap();
    let mut storage = FileStorage::new();
    let response = router.resolve(&request, &mut storage);
    assert_eq!(response.status_code, StatusCode::OK);
    assert_eq!(response.body, b"abc");
    assert_eq!(
        response.to_bytes().unwrap(),
        b"HTTP/1.1 200 OK\r\nContent-Type: text/plain\r\nContent-Length: 3\r\n\r\nabc"
    );
}

#[test]
fn test_user_agent() {
    let router = make_test_router();
    let user_agent = "banana/blueberry";
    let request = HttpRequest::from_string(&format!(
        "GET /user-agent HTTP/1.1\r\nHost: localhost:4221\r\nUser-Agent: {}\r\nAccept: \
         */*\r\n\r\n",
        user_agent
    ))
    .unwrap();
    let mut storage = FileStorage::new();
    let response = router.resolve(&request, &mut storage);
    assert_eq!(response.status_code, StatusCode::OK);
    assert_eq!(response.body, user_agent.as_bytes());
    assert_eq!(
        response.to_bytes().unwrap(),
        format!(
            "HTTP/1.1 200 OK\r\nContent-Type: text/plain\r\nContent-Length: {}\r\n\r\n{}",
            user_agent.len(),
            user_agent
        )
        .as_bytes()
    );
}

#[test]
fn test_files() {
    let mut storage = FileStorage::new();
    let contents = "test";
    storage.write("test.txt", contents.as_bytes());

    let router = make_test_router();
    let request = HttpRequest::from_string(
        "GET /files/test.txt HTTP/1.1\r\nHost: localhost:4221\r\nUser-Agent: \
         curl/7.64.1\r\nAccept: */*\r\n\r\n",
    )
    .unwrap();
    let response = router.resolve(&request, &mut storage);
    assert_eq!(response.status_code, StatusCode::OK);
    assert_eq!(response.body, contents.as_bytes());
    assert_eq!(
        response.to_string().unwrap(),
        format!(
            "HTTP/1.1 200 OK\r\nContent-Type: application/octet-stream\r\nContent-Length: \
             4\r\n\r\n{}",
            contents
        )
    );
}

#[test]
fn test_files_file_not_exists() {
    let mut storage = FileStorage::new();

    let router = make_test_router();
    let request = HttpRequest::from_string(
        "GET /files/test.txt HTTP/1.1\r\nHost: localhost:4221\r\nUser-Agent: \
         curl/7.64.1\r\nAccept: */*\r\n\r\n",
    )
    .unwrap();
    let response = router.resolve(&request, &mut storage);
    assert_eq!(response.status_code, StatusCode::NOT_FOUND);
    assert_eq!(response.body, b"");
    assert_eq!(response.to_bytes().unwrap(), b"HTTP/1.1 404 Not Found\r\n\r\n");
}

#[test]
fn test_files_post() {
    let mut storage = FileStorage::new();

    let router = make_test_router();
    let request = HttpRequest::from_string(
        "POST /files/test.txt HTTP/1.1\r\nHost: localhost:4221\r\nUser-Agent: \
         curl/7.64.1\r\nContent-Length: 4\r\nContent-Type: \
         application/octet-stream\r\nAccept: */*\r\n\r\ntest",
    )
    .unwrap();
    let response = router.resolve(&request, &mut storage);
    assert_eq!(response.status_code, StatusCode::CREATED);
    assert_eq!(response.body, b"");
    assert_eq!(response.to_bytes().unwrap(), b"HTTP/1.1 201 Created\r\n\r\n");
    assert_eq!(storage.read("test.txt").unwrap(), b"test");
}

#[test]
fn test_post_file_example() {
    let contents = "mango banana mango grape blueberry orange banana grape";
    let filename = "strawberry_blueberry_raspberry_raspberry";
    let mut storage = FileStorage::new();

    let request_str = format!(
        "POST /files/{} HTTP/1.1\r\nHost: localhost:4221\r\nContent-Length: \
         {}\r\nContent-Type: application/octet-stream\r\n\r\n{}",
        filename,
        contents.len(),
        contents
    );
    let request = HttpRequest::from_string(&request_str).unwrap();
    let router = make_test_router();
    let response = router.resolve(&request, &mut storage);
    assert_eq!(response.status_code, StatusCode::CREATED);
    assert_eq!(response.body, b"");
    assert_eq!(response.to_bytes().unwrap(), b"HTTP/1.1 201 Created\r\n\r\n");
    assert_eq!(storage.read(filename).unwrap(), contents.as_bytes());
}

#[test]
fn echo_with_gzip_negotiation() {
    let router = make_test_router();
    let request = HttpRequest::from_string(
        "GET /echo/abc HTTP/1.1\r\nHost: localhost:4221\r\nAccept-Encoding: gzip\r\n\r\n",
    )
    .unwrap();
    let mut storage = FileStorage::new();
    let response = router.resolve(&request, &mut storage);
    assert_eq!(response.status_code, StatusCode::OK);
    assert_eq!(response.headers.get("Content-Encoding").unwrap(), "gzip");
    assert_eq!(response.body, b"abc");
}

#[test]
fn unknown_encoding_is_ignored() {
    let router = make_test_router();
    let request = HttpRequest::from_string(
        "GET /echo/abc HTTP/1.1\r\nAccept-Encoding: deflate, br\r\n\r\n",
    )
    .unwrap();
    let mut storage = FileStorage::new();
    let response = router.resolve(&request, &mut storage);
    assert_eq!(response.status_code, StatusCode::OK);
    assert!(response.headers.get("Content-Encoding").is_none());
}

#[test]
fn gzip_without_space_after_comma_is_found() {
    let router = make_test_router();
    let request =
        HttpRequest::from_string("GET /echo/abc HTTP/1.1\r\nAccept-Encoding: gzip,br\r\n\r\n")
            .unwrap();
    let mut storage = FileStorage::new();
    let response = router.resolve(&request, &mut storage);
    assert_eq!(response.headers.get("Content-Encoding").unwrap(), "gzip");
}

#[test]
fn parse_path_strips_one_leading_slash() {
    let router = make_test_router();
    assert_eq!(router.parse_path("//x"), "");
    assert_eq!(router.parse_path("echo/x"), "echo");
    assert_eq!(router.parse_path(""), "");
}

#[test]
fn gzip_among_other_encodings_is_found() {
    let router = make_test_router();
    let request = HttpRequest::from_string(
        "GET /echo/abc HTTP/1.1\r\nAccept-Encoding: deflate, gzip, br\r\n\r\n",
    )
    .unwrap();
    let mut storage = FileStorage::new();
    let response = router.resolve(&request, &mut storage);
    assert_eq!(response.headers.get("Content-Encoding").unwrap(), "gzip");
}

#[test]
fn wrong_method_is_not_allowed() {
    let router = make_test_router();
    let request =
        HttpRequest::from_string("POST /echo/abc HTTP/1.1\r\nHost: localhost\r\n\r\n").unwrap();
    let mut storage = FileStorage::new();
    let response = router.resolve(&request, &mut storage);
    assert_eq!(response.status_code, StatusCode::NOT_ALLOWED);
    assert_eq!(response.headers.get("Allow").unwrap(), "GET");
}

#[test]
fn resolve_is_deterministic() {
    let router = make_test_router();
    let request = HttpRequest::from_string(
        "GET /echo/same HTTP/1.1\r\nHost: localhost\r\nAccept-Encoding: gzip\r\n\r\n",
    )
    .unwrap();
    let mut storage1 = FileStorage::new();
    let mut storage2 = FileStorage::new();
    let r1 = router.resolve(&request, &mut storage1);
    let r2 = router.resolve(&request, &mut storage2);
    assert_eq!(r1.status_code, r2.status_code);
    assert_eq!(r1.headers, r2.headers);
    assert_eq!(r1.body, r2.body);
    assert_eq!(r1.to_bytes().unwrap(), r2.to_bytes().unwrap());
}

#[test]
fn storage_overwrites_on_write() {
    let mut storage = FileStorage::new();
    storage.write("a.txt", b"one");
    storage.write("a.txt", b"two");
    assert_eq!(storage.read("a.txt").unwrap(), b"two");
    assert!(storage.read("b.txt").is_none());
}
