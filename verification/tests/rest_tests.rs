use joff::HeaderMap;
use joff::StorableResponse;

#[test]
fn storable_response_from() {
    let body = "This is a test response".to_string();
    let mut headers = HeaderMap::new();
    headers.insert("Content-Type".to_string(), "application/json".to_string());

    let response = StorableResponse::from(body.clone(), headers.clone());

    assert_eq!(response.body, body);
    assert_eq!(response.headers, headers);
}

#[test]
fn storable_response_from_json() {
    let body = "This is a test response".to_string();
    let mut headers = HeaderMap::new();
    headers.insert("Content-Type".to_string(), "application/json".to_string());

    let json_data =
        r#"{"body":"This is a test response","headers":{"Content-Type":"application/json"}}"#;

    let response_result = StorableResponse::from_json(json_data.to_string());

    assert!(response_result.is_ok());
    let response = response_result.unwrap();

    assert_eq!(response.body, body);
    assert_eq!(response.headers, headers);
}

#[test]
fn storable_response_from_json_invalid() {
    let json_data = r#"{"body":123,"headers":"Invalid headers"}"#;

    let response_result = StorableResponse::from_json(json_data.to_string());

    assert!(response_result.is_err());
}
