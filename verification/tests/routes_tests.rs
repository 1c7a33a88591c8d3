use joff::materialize;
use joff::HeaderMap;
use joff::StorableResponse;

fn record(body: &str) -> String {
    StorableResponse::from(body.to_string(), HeaderMap::new()).to_json()
}

#[test]
fn materialize_builds_one_route_per_record() {
    let items: Vec<Result<(String, String), ()>> = vec![
        Ok(("/a".to_string(), record("alpha"))),
        Ok(("/b".to_string(), record("beta"))),
    ];
    let table = materialize(items);
    assert_eq!(table.len(), 2);

    let a = table.lookup(&"/a".to_string()).unwrap();
    assert_eq!(a.body, "alpha");
    let b = table.lookup(&"/b".to_string()).unwrap();
    assert_eq!(b.body, "beta");
    assert!(table.lookup(&"/c".to_string()).is_none());
}

#[test]
fn materialize_skips_corrupt_records() {
    // Five elements, two corrupt: a failed iteration step and a key with an
    // invalid percent escape.  Exactly the three valid ones come through.
    let items: Vec<Result<(String, String), ()>> = vec![
        Ok(("/a".to_string(), record("alpha"))),
        Err(()),
        Ok(("%FF".to_string(), record("ghost"))),
        Ok(("/b".to_string(), record("beta"))),
        Ok(("/c".to_string(), record("gamma"))),
    ];
    let table = materialize(items);
    assert_eq!(table.len(), 3);
    assert!(table.lookup(&"/a".to_string()).is_some());
    assert!(table.lookup(&"/b".to_string()).is_some());
    assert!(table.lookup(&"/c".to_string()).is_some());
}

#[test]
fn materialize_skips_unparsable_values() {
    let items: Vec<Result<(String, String), ()>> = vec![
        Ok(("/good".to_string(), record("fine"))),
        Ok(("/bad".to_string(), "not a record".to_string())),
        Ok(("/worse".to_string(), "{\"body\":123,\"headers\":{}}".to_string())),
    ];
    let table = materialize(items);
    assert_eq!(table.len(), 1);
    assert!(table.lookup(&"/good".to_string()).is_some());
    assert!(table.lookup(&"/bad".to_string()).is_none());
    assert!(table.lookup(&"/worse".to_string()).is_none());
}

#[test]
fn materialize_of_nothing_is_an_empty_table() {
    let items: Vec<Result<(String, String), ()>> = Vec::new();
    let table = materialize(items);
    assert_eq!(table.len(), 0);
}

#[test]
fn materialize_lets_the_last_duplicate_path_win() {
    // "%2Fx" decodes to the same path as the literal key "/x"; the record
    // emitted later during iteration wins.
    let items: Vec<Result<(String, String), ()>> = vec![
        Ok(("/x".to_string(), record("first"))),
        Ok(("%2Fx".to_string(), record("second"))),
    ];
    let table = materialize(items);
    assert_eq!(table.len(), 1);
    assert_eq!(table.lookup(&"/x".to_string()).unwrap().body, "second");
}

#[test]
fn materialized_responses_keep_their_headers() {
    let mut headers = HeaderMap::new();
    headers.insert("content-type".to_string(), "application/json".to_string());
    let stored = StorableResponse::from("{}".to_string(), headers).to_json();
    let items: Vec<Result<(String, String), ()>> = vec![Ok(("/h".to_string(), stored))];

    let table = materialize(items);
    let resp = table.lookup(&"/h".to_string()).unwrap();
    assert_eq!(
        resp.headers.get(&"content-type".to_string()),
        Some(&"application/json".to_string())
    );
}

#[test]
fn entries_are_addressable_in_order() {
    let items: Vec<Result<(String, String), ()>> = vec![
        Ok(("/a".to_string(), record("alpha"))),
        Ok(("/b".to_string(), record("beta"))),
    ];
    let table = materialize(items);
    let (path0, resp0) = table.entry_at(0);
    let (path1, resp1) = table.entry_at(1);
    assert_eq!(path0, "/a");
    assert_eq!(resp0.body, "alpha");
    assert_eq!(path1, "/b");
    assert_eq!(resp1.body, "beta");
}

#[test]
fn decoded_paths_lists_exactly_the_decodable_keys_in_order() {
    let items: Vec<Result<(String, String), ()>> = vec![
        Ok(("/b".to_string(), record("beta"))),
        Err(()),
        Ok(("%FF".to_string(), "junk".to_string())),
        Ok(("/a%20b".to_string(), "value ignored by listing".to_string())),
        Ok(("/a".to_string(), record("alpha"))),
    ];
    let listed = joff::routes::decoded_paths(&items);
    assert_eq!(listed, vec!["/b".to_string(), "/a b".to_string(), "/a".to_string()]);
}

#[test]
fn decoded_paths_of_nothing_is_empty() {
    let items: Vec<Result<(String, String), ()>> = Vec::new();
    assert!(joff::routes::decoded_paths(&items).is_empty());
}
