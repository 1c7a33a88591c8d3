use joff::capture_file;
use joff::capture_response;
use joff::encode_url;
use joff::materialize;
use joff::AddError;
use joff::HeaderMap;
use joff::StorableResponse;

#[test]
fn capture_from_url_parts_normalizes_the_payload() {
    // Scenario: the origin returns {"name":"ditto"} for
    // https://example.test/pokemon/ditto and the alias is /api/ditto.
    let headers = vec![("content-type".to_string(), "application/json".to_string())];
    let response =
        capture_response(200, headers, b"{\"name\":\"ditto\"}".to_vec()).unwrap();

    let key = encode_url(&"/api/ditto".to_string());
    let items: Vec<Result<(String, String), ()>> = vec![Ok((key, response.to_json()))];
    let table = materialize(items);

    let served = table.lookup(&"/api/ditto".to_string()).unwrap();
    assert_eq!(served.body, "{\"name\":\"ditto\"}");
    assert_eq!(
        served.headers.get(&"content-type".to_string()),
        Some(&"application/json".to_string())
    );
}

#[test]
fn capture_canonicalizes_json_text() {
    let response =
        capture_response(200, Vec::new(), b" { \"a\" : 1 , \"b\" : [ 2 ] } ".to_vec()).unwrap();
    assert_eq!(response.body, "{\"a\":1,\"b\":[2]}");
}

#[test]
fn capture_keeps_the_last_duplicate_header() {
    let headers = vec![
        ("x-h".to_string(), "one".to_string()),
        ("x-h".to_string(), "two".to_string()),
    ];
    let response = capture_response(204, headers, b"null".to_vec()).unwrap();
    assert_eq!(response.headers.len(), 1);
    assert_eq!(response.headers.get(&"x-h".to_string()), Some(&"two".to_string()));
}

#[test]
fn capture_fails_on_error_status() {
    let r = capture_response(404, Vec::new(), b"{}".to_vec());
    assert_eq!(r, Err(AddError::Fetch));
    let r = capture_response(301, Vec::new(), b"{}".to_vec());
    assert_eq!(r, Err(AddError::Fetch));
}

#[test]
fn capture_fails_on_non_json_bodies() {
    let r = capture_response(200, Vec::new(), b"not json".to_vec());
    assert_eq!(r, Err(AddError::Decode));
}

#[test]
fn capture_fails_on_binary_bodies() {
    let r = capture_response(200, Vec::new(), vec![0xff, 0xfe, 0x00]);
    assert_eq!(r, Err(AddError::Decode));
}

#[test]
fn capture_file_wraps_contents_verbatim() {
    // Scenario: a file holding `hello world` aliased to /static/greeting.
    let response = capture_file("hello world".to_string());
    assert_eq!(response.body, "hello world");
    assert_eq!(response.headers.len(), 0);
    assert_eq!(response.to_json(), r#"{"body":"hello world","headers":{}}"#);
}

#[test]
fn replay_drops_transfer_encoding() {
    let mut headers = HeaderMap::new();
    headers.insert("content-type".to_string(), "application/json".to_string());
    headers.insert("transfer-encoding".to_string(), "chunked".to_string());
    let response = StorableResponse::from("{}".to_string(), headers);

    let replay = response.replay_headers();
    assert!(replay.get(&"transfer-encoding".to_string()).is_none());
    assert_eq!(
        replay.get(&"content-type".to_string()),
        Some(&"application/json".to_string())
    );
    assert_eq!(replay.len(), 1);
}

#[test]
fn replay_keeps_everything_else() {
    let mut headers = HeaderMap::new();
    headers.insert("a".to_string(), "1".to_string());
    headers.insert("b".to_string(), "2".to_string());
    let response = StorableResponse::from("{}".to_string(), headers.clone());
    assert_eq!(response.replay_headers(), headers);
}

#[test]
fn header_entries_keep_insertion_order() {
    let mut headers = HeaderMap::new();
    headers.insert("b".to_string(), "2".to_string());
    headers.insert("a".to_string(), "1".to_string());
    headers.insert("b".to_string(), "3".to_string());

    assert_eq!(headers.len(), 2);
    let (n0, v0) = headers.entry_at(0);
    let (n1, v1) = headers.entry_at(1);
    assert_eq!((n0.as_str(), v0.as_str()), ("b", "3"));
    assert_eq!((n1.as_str(), v1.as_str()), ("a", "1"));
}

#[test]
fn replay_keeps_the_stored_entry_order() {
    let mut headers = HeaderMap::new();
    headers.insert("a".to_string(), "1".to_string());
    headers.insert("transfer-encoding".to_string(), "chunked".to_string());
    headers.insert("b".to_string(), "2".to_string());
    let response = StorableResponse::from("{}".to_string(), headers);

    let replay = response.replay_headers();
    assert_eq!(replay.len(), 2);
    let (n0, v0) = replay.entry_at(0);
    let (n1, v1) = replay.entry_at(1);
    assert_eq!((n0.as_str(), v0.as_str()), ("a", "1"));
    assert_eq!((n1.as_str(), v1.as_str()), ("b", "2"));
}
