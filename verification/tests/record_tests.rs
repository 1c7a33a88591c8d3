use joff::HeaderMap;
use joff::StorableResponse;

#[test]
fn to_json_serializes_compactly() {
    let mut headers = HeaderMap::new();
    headers.insert("content-type".to_string(), "application/json".to_string());
    let response = StorableResponse::from("{\"name\":\"ditto\"}".to_string(), headers);

    assert_eq!(
        response.to_json(),
        r#"{"body":"{\"name\":\"ditto\"}","headers":{"content-type":"application/json"}}"#
    );
}

#[test]
fn to_json_of_empty_headers() {
    let response = StorableResponse::from("hello world".to_string(), HeaderMap::new());
    assert_eq!(response.to_json(), r#"{"body":"hello world","headers":{}}"#);
}

#[test]
fn to_json_escapes_controls() {
    let response = StorableResponse::from("a\nb\t\\\"\u{1f}".to_string(), HeaderMap::new());
    assert_eq!(response.to_json(), r#"{"body":"a\nb\t\\\"\u001f","headers":{}}"#);
}

#[test]
fn round_trip_preserves_body_and_headers() {
    let mut headers = HeaderMap::new();
    headers.insert("content-type".to_string(), "application/json".to_string());
    headers.insert("x-quote".to_string(), "say \"hi\"\r\n".to_string());
    let original = StorableResponse::from("{\"k\":[1,2,{\"v\":null}]}".to_string(), headers);

    let reloaded = StorableResponse::from_json(original.to_json()).unwrap();

    assert_eq!(reloaded, original);
}

#[test]
fn round_trip_of_awkward_bodies() {
    let bodies = [
        "",
        "\\",
        "\"",
        "a/b",
        "line1\nline2",
        "nul\u{0}bell\u{7}",
        "caf\u{e9} \u{1f600}",
    ];
    for b in bodies.iter() {
        let original = StorableResponse::from(b.to_string(), HeaderMap::new());
        let reloaded = StorableResponse::from_json(original.to_json()).unwrap();
        assert_eq!(reloaded.body, *b);
    }
}

#[test]
fn from_json_accepts_unicode_escapes_below_0x100() {
    let data = "{\"body\":\"\\u0041\\u00e9\",\"headers\":{}}";
    let response = StorableResponse::from_json(data.to_string()).unwrap();
    assert_eq!(response.body, "A\u{e9}");
}

#[test]
fn from_json_accepts_simple_escapes() {
    let response =
        StorableResponse::from_json(r#"{"body":"\"\\\/\b\f\n\r\t","headers":{}}"#.to_string())
            .unwrap();
    assert_eq!(response.body, "\"\\/\u{8}\u{c}\n\r\t");
}

#[test]
fn from_json_rejects_malformed_records() {
    let bad = [
        "",
        "{}",
        r#"{"body":"x"}"#,
        r#"{"headers":{}}"#,
        r#"{"body":123,"headers":{}}"#,
        r#"{"body":"x","headers":[]}"#,
        r#"{"body":"x","headers":"y"}"#,
        r#"{"body":"x","headers":{},"extra":1}"#,
        r#"{"body":"x","headers":{"a":1}}"#,
        r#"{"body":"x","headers":{"a":"b",}}"#,
        r#"{"body":"x","headers":{}} "#,
        r#"{"body":"x","headers":{"a":"b"}"#,
        "{\"body\":\"\\u1234\",\"headers\":{}}",
        "{\"body\":\"\\q\",\"headers\":{}}",
    ];
    for data in bad.iter() {
        assert!(StorableResponse::from_json(data.to_string()).is_err(), "{}", data);
    }
}

#[test]
fn from_json_keeps_the_last_duplicate_header() {
    let response =
        StorableResponse::from_json(r#"{"body":"x","headers":{"a":"1","a":"2"}}"#.to_string())
            .unwrap();
    assert_eq!(response.headers.get(&"a".to_string()), Some(&"2".to_string()));
    assert_eq!(response.headers.len(), 1);
}
