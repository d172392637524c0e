//! Tests of the per-connection request/response cycle: response bytes and
//! the keep-alive decision.

use http_server::router::{make_router, Resolution};
use http_server::server::{handle_bytes, handle_request_bytes, Server};
use http_server::storage::FileStorage;

#[test]
fn connection_close_ends_the_cycle() {
    let router = make_router();
    let mut storage = FileStorage::new();
    let bytes = b"GET / HTTP/1.1\r\nConnection: close\r\n\r\n";
    let (response, keep_alive) = handle_request_bytes(&router, &mut storage, bytes).unwrap();
    assert_eq!(response, b"HTTP/1.1 200 OK\r\n\r\n");
    assert!(!keep_alive);
}

#[test]
fn keep_alive_continues_the_cycle() {
    let router = make_router();
    let mut storage = FileStorage::new();
    let bytes = b"GET / HTTP/1.1\r\nConnection: keep-alive\r\n\r\n";
    let (_, keep_alive) = handle_request_bytes(&router, &mut storage, bytes).unwrap();
    assert!(keep_alive);

    let bytes = b"GET / HTTP/1.1\r\nHost: localhost\r\n\r\n";
    let (_, keep_alive) = handle_request_bytes(&router, &mut storage, bytes).unwrap();
    assert!(keep_alive);
}

#[test]
fn parse_failure_closes_the_connection() {
    let router = make_router();
    let mut storage = FileStorage::new();
    let bytes = b"GET / HTTP/1.0\r\n\r\n";
    assert!(handle_request_bytes(&router, &mut storage, bytes).is_none());
}

#[test]
fn post_then_get_through_the_cycle() {
    let router = make_router();
    let mut storage = FileStorage::new();
    let post = b"POST /files/test.txt HTTP/1.1\r\nContent-Length: 4\r\n\r\ntest";
    let (response, _) = handle_request_bytes(&router, &mut storage, post).unwrap();
    assert_eq!(response, b"HTTP/1.1 201 Created\r\n\r\n");
    assert_eq!(storage.read("test.txt").unwrap(), b"test");

    let get = b"GET /files/test.txt HTTP/1.1\r\nHost: localhost\r\n\r\n";
    let (response, _) = handle_request_bytes(&router, &mut storage, get).unwrap();
    assert_eq!(
        response,
        b"HTTP/1.1 200 OK\r\nContent-Type: application/octet-stream\r\nContent-Length: \
          4\r\n\r\ntest"
    );
}

#[test]
fn handle_bytes_resolves_file_actions() {
    let router = make_router();
    let bytes = b"GET /files/test.txt HTTP/1.1\r\nHost: localhost\r\n\r\n";
    let (resolution, keep_alive) = handle_bytes(&router, bytes).unwrap();
    assert!(keep_alive);
    match resolution {
        Resolution::ReadFile { name, .. } => assert_eq!(name, "test.txt"),
        _ => panic!("expected a file read"),
    }
}

#[test]
fn server_holds_its_address_and_router() {
    let server = Server::new("127.0.0.1:4221", make_router());
    assert_eq!(server.addr, "127.0.0.1:4221");
}
