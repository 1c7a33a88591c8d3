use joff::capture_response;
use joff::HeaderMap;
use joff::RouteManager;
use joff::StorableResponse;

fn open(dir: &str, bucket: &str) -> RouteManager {
    RouteManager::new(dir.to_string(), bucket.to_string()).unwrap()
}

#[test]
fn file_route_round_trips_through_the_store() {
    // Scenario: a file holding `hello world` aliased to /static/greeting.
    let mut manager = open("/tmp/joff-test-store-file", "routes");
    manager
        .new_route_from_file(&"/static/greeting".to_string(), "hello world".to_string())
        .unwrap();

    let table = manager.get_routes_from_bucket();
    let served = table.lookup(&"/static/greeting".to_string()).unwrap();
    assert_eq!(served.body, "hello world");
    assert_eq!(served.headers.len(), 0);
}

#[test]
fn captured_route_round_trips_through_the_store() {
    let mut manager = open("/tmp/joff-test-store-url", "routes");
    let headers = vec![("content-type".to_string(), "application/json".to_string())];
    let response = capture_response(200, headers, b"{\"name\":\"ditto\"}".to_vec()).unwrap();
    manager.add_response(&"/api/ditto".to_string(), &response).unwrap();

    let table = manager.get_routes_from_bucket();
    let served = table.lookup(&"/api/ditto".to_string()).unwrap();
    assert_eq!(served.body, "{\"name\":\"ditto\"}");
    assert_eq!(
        served.headers.get(&"content-type".to_string()),
        Some(&"application/json".to_string())
    );
}

#[test]
fn a_later_add_overwrites_the_earlier_one() {
    let mut manager = open("/tmp/joff-test-store-overwrite", "routes");
    let alias = "/api/latest".to_string();
    manager.new_route_from_file(&alias, "old contents".to_string()).unwrap();
    manager.new_route_from_file(&alias, "new contents".to_string()).unwrap();

    let table = manager.get_routes_from_bucket();
    assert_eq!(table.lookup(&alias).unwrap().body, "new contents");
}

#[test]
fn raw_values_are_stored_and_read_back_verbatim() {
    let mut manager = open("/tmp/joff-test-store-raw", "routes");
    RouteManager::set_value_for_key(
        &mut manager.bucket,
        "some-key".to_string(),
        "some value".to_string(),
    )
    .unwrap();

    let read = RouteManager::get_value_for_key(&manager.bucket, &"some-key".to_string()).unwrap();
    assert_eq!(read, Some("some value".to_string()));
    let missing =
        RouteManager::get_value_for_key(&manager.bucket, &"absent-key".to_string()).unwrap();
    assert_eq!(missing, None);
}

#[test]
fn list_items_names_the_decoded_aliases() {
    let mut manager = open("/tmp/joff-test-store-list", "routes");
    manager
        .new_route_from_file(&"/with space".to_string(), "x".to_string())
        .unwrap();

    let listed = manager.list_items();
    assert!(listed.iter().any(|p| p == "/with space"));
}

#[test]
fn a_corrupt_stored_record_is_skipped_not_fatal() {
    // A key holding an invalid percent escape and a value that is no
    // record; the good record still materializes.
    let mut manager = open("/tmp/joff-test-store-corrupt", "routes");
    RouteManager::set_value_for_key(
        &mut manager.bucket,
        "%FF".to_string(),
        "junk".to_string(),
    )
    .unwrap();
    RouteManager::set_value_for_key(
        &mut manager.bucket,
        "/broken".to_string(),
        "not a record".to_string(),
    )
    .unwrap();
    manager.new_route_from_file(&"/fine".to_string(), "ok".to_string()).unwrap();

    let table = manager.get_routes_from_bucket();
    assert_eq!(table.lookup(&"/fine".to_string()).unwrap().body, "ok");
    assert!(table.lookup(&"/broken".to_string()).is_none());
}

#[test]
fn clean_storage_flushes_without_error() {
    let mut manager = open("/tmp/joff-test-store-clean", "routes");
    manager.new_route_from_file(&"/a".to_string(), "x".to_string()).unwrap();
    assert!(manager.clean_storage().is_ok());
}

#[test]
fn new_storage_and_new_bucket_compose() {
    let store = RouteManager::new_storage("/tmp/joff-test-store-compose".to_string()).unwrap();
    let mut bucket = RouteManager::new_bucket(&store, "routes").unwrap();
    RouteManager::set_value_for_key(&mut bucket, "k".to_string(), "v".to_string()).unwrap();
    let read = RouteManager::get_value_for_key(&bucket, &"k".to_string()).unwrap();
    assert_eq!(read, Some("v".to_string()));
}

#[test]
fn stored_records_replay_without_transfer_encoding() {
    let mut manager = open("/tmp/joff-test-store-replay", "routes");
    let headers = vec![
        ("content-type".to_string(), "application/json".to_string()),
        ("transfer-encoding".to_string(), "chunked".to_string()),
    ];
    let response = capture_response(200, headers, b"{}".to_vec()).unwrap();
    manager.add_response(&"/replayed".to_string(), &response).unwrap();

    let table = manager.get_routes_from_bucket();
    let served: &StorableResponse = table.lookup(&"/replayed".to_string()).unwrap();
    let replay: HeaderMap = served.replay_headers();
    assert!(replay.get(&"transfer-encoding".to_string()).is_none());
    assert_eq!(
        replay.get(&"content-type".to_string()),
        Some(&"application/json".to_string())
    );
}
